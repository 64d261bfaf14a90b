use puzzles::rucksack::find_common_items;
use puzzles::rucksack::find_group_badge;
use puzzles::rucksack::get_item_priority;
use puzzles::rucksack::parse_rucksack;
use puzzles::rucksack::separate_groups;

#[test]
fn test_get_item_priority() {
    assert_eq!(get_item_priority('a'), 1);
    assert_eq!(get_item_priority('z'), 26);
    assert_eq!(get_item_priority('A'), 27);
    assert_eq!(get_item_priority('Z'), 52);
}

#[test]
fn test_parse_rucksack() {
    let input = "abcdefghij";
    let rucksack = parse_rucksack(input);
    assert_eq!(rucksack.first_compartment, vec!['a', 'b', 'c', 'd', 'e']);
    assert_eq!(rucksack.second_compartment, vec!['f', 'g', 'h', 'i', 'j']);
}

#[test]
fn test_find_common_items() {
    let input = "abcdezfghijz";
    let rucksack = parse_rucksack(input);
    let common_items = find_common_items(&rucksack);
    assert_eq!(common_items, vec!['z']);
}

#[test]
fn test_separate_groups() {
    let input = "abc\ndef\nghi\njkl\nmno\npqr\nstu\nvwx\nyz";
    let groups = separate_groups(input);
    assert_eq!(groups[0], vec!["abc".to_string(), "def".to_string(), "ghi".to_string()]);
    assert_eq!(groups[1], vec!["jkl".to_string(), "mno".to_string(), "pqr".to_string()]);
    assert_eq!(groups[2], vec!["stu".to_string(), "vwx".to_string(), "yz".to_string()]);
}

#[test]
fn test_find_group_badge() {
    let group = vec!["asdf".to_string(), "aghj".to_string(), "aklm".to_string()];
    assert_eq!(find_group_badge(&group), Some('a'));
    let malformed_group = vec!["asdf".to_string()];
    assert_eq!(find_group_badge(&malformed_group), None);
    let no_common_group = vec!["asdf".to_string(), "ghjk".to_string(), "lmno".to_string()];
    assert_eq!(find_group_badge(&no_common_group), None);
    let group_of_2 = vec!["asdf".to_string(), "aghj".to_string()];
    assert_eq!(find_group_badge(&group_of_2), Some('a'));
}
