use puzzles::ranges::check_containment;
use puzzles::ranges::check_overlap;
use puzzles::text::lines_of;
use puzzles::text::parse_i64;
use puzzles::text::parse_usize;
use puzzles::text::split_char;

#[test]
fn test_check_containment() {
    assert!(check_containment((2, 8), (3, 7)));
    assert!(check_containment((3, 7), (2, 8)));
    assert!(!check_containment((2, 4), (6, 8)));
}

#[test]
fn test_check_overlap() {
    assert!(check_overlap((5, 7), (7, 9)));
    assert!(check_overlap((2, 8), (3, 7)));
    assert!(!check_overlap((2, 4), (6, 8)));
}

#[test]
fn test_split_and_lines() {
    let parts = split_char("a,b,,c", ',');
    assert_eq!(parts, vec!["a", "b", "", "c"]);
    let lines = lines_of("one\ntwo\r\nthree\n");
    assert_eq!(lines, vec!["one", "two", "three"]);
    assert_eq!(lines_of(""), Vec::<String>::new());
}

#[test]
fn test_parse_numbers() {
    assert_eq!(parse_usize("123456"), 123456);
    assert_eq!(parse_i64("-42"), -42);
    assert_eq!(parse_i64("9223372036854775807"), i64::MAX);
    assert_eq!(parse_i64("-9223372036854775808"), i64::MIN);
}
