//! Rock-paper-scissors strategy scoring: decode the strategy letters, play
//! the round, and score it.

use vstd::prelude::*;

verus! {

#[derive(Debug, PartialEq, Eq, Structural, Clone, Copy)]
pub enum Move {
    Rock,
    Paper,
    Scissors,
}

#[derive(Debug, PartialEq, Eq, Structural, Clone, Copy)]
pub enum Outcome {
    Win,
    Lose,
    Tie,
}

/// The score a move is worth.
pub open spec fn move_score(m: Move) -> int {
    match m {
        Move::Rock => 1,
        Move::Paper => 2,
        Move::Scissors => 3,
    }
}

/// The score an outcome is worth.
pub open spec fn outcome_score(o: Outcome) -> int {
    match o {
        Outcome::Win => 6,
        Outcome::Lose => 0,
        Outcome::Tie => 3,
    }
}

/// How the round ends for the player.
pub open spec fn spec_result(player: Move, opponent: Move) -> Outcome {
    match (player, opponent) {
        (Move::Rock, Move::Rock) => Outcome::Tie,
        (Move::Rock, Move::Paper) => Outcome::Lose,
        (Move::Rock, Move::Scissors) => Outcome::Win,
        (Move::Paper, Move::Rock) => Outcome::Win,
        (Move::Paper, Move::Paper) => Outcome::Tie,
        (Move::Paper, Move::Scissors) => Outcome::Lose,
        (Move::Scissors, Move::Rock) => Outcome::Lose,
        (Move::Scissors, Move::Paper) => Outcome::Win,
        (Move::Scissors, Move::Scissors) => Outcome::Tie,
    }
}

/// The move that forces a required outcome against an opponent's move.
pub open spec fn spec_required_move(opponent: Move, required: Outcome) -> Move {
    match (opponent, required) {
        (Move::Rock, Outcome::Lose) => Move::Scissors,
        (Move::Rock, Outcome::Tie) => Move::Rock,
        (Move::Rock, Outcome::Win) => Move::Paper,
        (Move::Paper, Outcome::Lose) => Move::Rock,
        (Move::Paper, Outcome::Tie) => Move::Paper,
        (Move::Paper, Outcome::Win) => Move::Scissors,
        (Move::Scissors, Outcome::Lose) => Move::Paper,
        (Move::Scissors, Outcome::Tie) => Move::Scissors,
        (Move::Scissors, Outcome::Win) => Move::Rock,
    }
}

/// A one-letter move token.
pub open spec fn is_move_token(s: Seq<char>, a: char, b: char) -> bool {
    s.len() == 1 && (s[0] == a || s[0] == b)
}

pub fn get_result(player_move: &Move, opponent_move: &Move) -> (r: Outcome)
    ensures
        r == spec_result(*player_move, *opponent_move),
{
    match (player_move, opponent_move) {
        (Move::Rock, Move::Rock) => Outcome::Tie,
        (Move::Rock, Move::Paper) => Outcome::Lose,
        (Move::Rock, Move::Scissors) => Outcome::Win,
        (Move::Paper, Move::Rock) => Outcome::Win,
        (Move::Paper, Move::Paper) => Outcome::Tie,
        (Move::Paper, Move::Scissors) => Outcome::Lose,
        (Move::Scissors, Move::Rock) => Outcome::Lose,
        (Move::Scissors, Move::Paper) => Outcome::Win,
        (Move::Scissors, Move::Scissors) => Outcome::Tie,
    }
}

/// The round's score: the played move plus the outcome.
pub fn get_score(player_move: Move, outcome: Outcome) -> (r: i32)
    ensures
        r == move_score(player_move) + outcome_score(outcome),
{
    let m: i32 = match player_move {
        Move::Rock => 1,
        Move::Paper => 2,
        Move::Scissors => 3,
    };
    let o: i32 = match outcome {
        Outcome::Win => 6,
        Outcome::Lose => 0,
        Outcome::Tie => 3,
    };
    m + o
}

/// Decode a move letter: `A`/`X` rock, `B`/`Y` paper, `C`/`Z` scissors.
pub fn get_move(m: &str) -> (r: Move)
    requires
        m@.len() == 1,
        m@[0] == 'A' || m@[0] == 'X' || m@[0] == 'B' || m@[0] == 'Y' || m@[0] == 'C' || m@[0]
            == 'Z',
    ensures
        (m@[0] == 'A' || m@[0] == 'X') ==> r == Move::Rock,
        (m@[0] == 'B' || m@[0] == 'Y') ==> r == Move::Paper,
        (m@[0] == 'C' || m@[0] == 'Z') ==> r == Move::Scissors,
{
    let c = m.get_char(0);
    if c == 'A' || c == 'X' {
        Move::Rock
    } else if c == 'B' || c == 'Y' {
        Move::Paper
    } else {
        Move::Scissors
    }
}

/// Decode a required outcome letter: `X` lose, `Y` tie, `Z` win.
pub fn get_required_outcome(o: &str) -> (r: Outcome)
    requires
        o@.len() == 1,
        o@[0] == 'X' || o@[0] == 'Y' || o@[0] == 'Z',
    ensures
        o@[0] == 'X' ==> r == Outcome::Lose,
        o@[0] == 'Y' ==> r == Outcome::Tie,
        o@[0] == 'Z' ==> r == Outcome::Win,
{
    let c = o.get_char(0);
    if c == 'X' {
        Outcome::Lose
    } else if c == 'Y' {
        Outcome::Tie
    } else {
        Outcome::Win
    }
}

pub fn get_required_move(opponent_move: &Move, required_outcome: &Outcome) -> (r: Move)
    ensures
        r == spec_required_move(*opponent_move, *required_outcome),
        spec_result(r, *opponent_move) == *required_outcome,
{
    match (opponent_move, required_outcome) {
        (Move::Rock, Outcome::Lose) => Move::Scissors,
        (Move::Rock, Outcome::Tie) => Move::Rock,
        (Move::Rock, Outcome::Win) => Move::Paper,
        (Move::Paper, Outcome::Lose) => Move::Rock,
        (Move::Paper, Outcome::Tie) => Move::Paper,
        (Move::Paper, Outcome::Win) => Move::Scissors,
        (Move::Scissors, Outcome::Lose) => Move::Paper,
        (Move::Scissors, Outcome::Tie) => Move::Scissors,
        (Move::Scissors, Outcome::Win) => Move::Rock,
    }
}

} // verus!
