use puzzles::calories::parse_calories;
use puzzles::calories::rank_in_top3;
use puzzles::rps::get_move;
use puzzles::rps::get_required_move;
use puzzles::rps::get_required_outcome;
use puzzles::rps::get_result;
use puzzles::rps::get_score;
use puzzles::rps::Move;
use puzzles::rps::Outcome;
use puzzles::signal::find_packet_start;

#[test]
fn test_parse_calories_and_rank() {
    assert_eq!(parse_calories("1000"), 1000);
    let top3 = vec![300, 200, 100];
    assert_eq!(rank_in_top3(&250, &top3), vec![300, 250, 200]);
    assert_eq!(rank_in_top3(&400, &top3), vec![400, 300, 200]);
    assert_eq!(rank_in_top3(&150, &top3), vec![300, 200, 150]);
    assert_eq!(rank_in_top3(&50, &top3), vec![300, 200, 100]);
}

#[test]
fn test_rps_round() {
    let player = get_move("Y");
    let opponent = get_move("A");
    assert_eq!(player, Move::Paper);
    assert_eq!(opponent, Move::Rock);
    let outcome = get_result(&player, &opponent);
    assert_eq!(outcome, Outcome::Win);
    assert_eq!(get_score(player, outcome), 8);

    let required = get_required_outcome("X");
    assert_eq!(required, Outcome::Lose);
    let required_move = get_required_move(&opponent, &required);
    assert_eq!(required_move, Move::Scissors);
    assert_eq!(get_score(required_move, required), 3);
}

#[test]
fn test_find_packet_start() {
    let mut input = "mjqjpqmgbljsphdztnvjfqwrcgsmlb".to_string();
    assert_eq!(find_packet_start(&mut input, 4), 7);
    assert_eq!(find_packet_start(&mut input, 14), 19);
    let mut no_marker = "aaaaaa".to_string();
    assert_eq!(find_packet_start(&mut no_marker, 3), 0);
}
