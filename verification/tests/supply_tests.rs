use puzzles::supply::execute_instructions;
use puzzles::supply::execute_instructions_with_crane;
use puzzles::supply::parse_instructions;

#[test]
fn test_parse_instructions() {
    let input = "move 5 from 4 to 5\nmove 2 from 5 to 8\n";
    let instructions = parse_instructions(input.to_string());
    assert_eq!(instructions.len(), 2);
    assert_eq!(instructions[0].amount, 5);
    assert_eq!(instructions[0].from, 3);
    assert_eq!(instructions[0].to, 4);
    assert_eq!(instructions[1].amount, 2);
    assert_eq!(instructions[1].from, 4);
    assert_eq!(instructions[1].to, 7);
}

#[test]
fn test_execute_instructions() {
    let input = "move 1 from 3 to 2\nmove 2 from 2 to 1\n";
    let instructions = parse_instructions(input.to_string());
    let mut boxes = vec![
        vec!['a', 's', 'd', 'f', 'g', 'h', 'j', 'k', 'l'],
        vec!['q', 'w', 'e', 'r', 't', 'y', 'u', 'i', 'o'],
        vec!['z', 'x', 'c', 'v', 'b', 'n', 'm'],
    ];
    boxes = execute_instructions(boxes, &instructions);
    assert_eq!(boxes[0], vec!['a', 's', 'd', 'f', 'g', 'h', 'j', 'k', 'l', 'm', 'o']);
    assert_eq!(boxes[1], vec!['q', 'w', 'e', 'r', 't', 'y', 'u', 'i']);
    assert_eq!(boxes[2], vec!['z', 'x', 'c', 'v', 'b', 'n']);
}

#[test]
fn test_execute_instructions_with_crane() {
    let input = "move 1 from 3 to 2\nmove 2 from 2 to 1\n";
    let instructions = parse_instructions(input.to_string());
    let mut boxes = vec![
        vec!['a', 's', 'd', 'f', 'g', 'h', 'j', 'k', 'l'],
        vec!['q', 'w', 'e', 'r', 't', 'y', 'u', 'i', 'o'],
        vec!['z', 'x', 'c', 'v', 'b', 'n', 'm'],
    ];
    boxes = execute_instructions_with_crane(boxes, &instructions);
    assert_eq!(boxes[0], vec!['a', 's', 'd', 'f', 'g', 'h', 'j', 'k', 'l', 'o', 'm']);
    assert_eq!(boxes[1], vec!['q', 'w', 'e', 'r', 't', 'y', 'u', 'i']);
    assert_eq!(boxes[2], vec!['z', 'x', 'c', 'v', 'b', 'n']);
}

#[test]
fn test_separate_box_instructions() {
    let input = "[A]\n 1 \n\nmove 1 from 1 to 1\n".to_string();
    let (boxes, moves) = puzzles::supply::separate_box_instructions(input);
    assert_eq!(boxes, "[A]\n 1 ");
    assert_eq!(moves, "move 1 from 1 to 1\n");
}

#[test]
fn test_parse_box_lines_and_boxes() {
    let drawing = "    [D]    \n[N] [C]    \n[Z] [M] [P]\n 1   2   3 ".to_string();
    let lines = puzzles::supply::parse_box_lines(drawing);
    assert_eq!(lines.len(), 3);
    assert_eq!(lines[0], vec![' ', 'D', ' ']);
    let piles = puzzles::supply::parse_boxes(lines);
    assert_eq!(piles[0], vec!['Z', 'N']);
    assert_eq!(piles[1], vec!['M', 'C', 'D']);
    assert_eq!(piles[2], vec!['P']);
}
