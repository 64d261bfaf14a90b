use puzzles::rope::move_head;
use puzzles::rope::move_tail;
use puzzles::rope::parse_command;
use puzzles::rope::process_command;
use puzzles::rope::Direction;

#[test]
fn test_parse_command() {
    let command = "U 2";
    let (direction, distance) = parse_command(command);
    assert_eq!(direction, Direction::Up);
    assert_eq!(distance, 2);
}

#[test]
fn test_move_tail() {
    let head = (0, 0);
    let tail = (2, 1);
    let tail_new = move_tail(&head, &tail);
    assert_eq!(tail_new, (1, 0));

    let head = (0, 0);
    let tail = (0, 2);
    let tail_new = move_tail(&head, &tail);
    assert_eq!(tail_new, (0, 1));

    let head = (0, 0);
    let tail = (-2, 0);
    let tail_new = move_tail(&head, &tail);
    assert_eq!(tail_new, (-1, 0));
}

#[test]
fn test_move_head() {
    assert_eq!(move_head(&Direction::Up, &(0, 0)), (0, 1));
    assert_eq!(move_head(&Direction::Down, &(0, 0)), (0, -1));
    assert_eq!(move_head(&Direction::Left, &(0, 0)), (-1, 0));
    assert_eq!(move_head(&Direction::Right, &(0, 0)), (1, 0));
}

#[test]
fn test_process_command() {
    let mut rope = vec![(0, 0), (0, 0)];
    let mut tails = vec![(0, 0)];
    process_command((Direction::Right, 4), &mut rope, &mut tails);
    assert_eq!(rope[0], (4, 0));
    assert_eq!(rope[1], (3, 0));
    assert_eq!(tails, vec![(0, 0), (1, 0), (2, 0), (3, 0)]);
}
