//! Rope physics: a head knot is dragged around a grid and every following
//! knot is pulled after the one before it; the cells the last knot visits
//! are collected.
//!
//! The original distance test compared the Euclidean distance against the
//! diagonal step; over integers that is exactly `dx*dx + dy*dy > 2`.

use vstd::prelude::*;

verus! {

#[derive(Debug, PartialEq, Eq, Structural)]
pub enum Direction {
    Up,
    Down,
    Left,
    Right,
}

/// The direction letter of a move command.
pub open spec fn dir_of(c: char) -> Direction {
    if c == 'U' {
        Direction::Up
    } else if c == 'D' {
        Direction::Down
    } else if c == 'L' {
        Direction::Left
    } else {
        Direction::Right
    }
}

/// A knot position with unbounded coordinates, for specification.
pub open spec fn pos_view(p: (i32, i32)) -> (int, int) {
    (p.0 as int, p.1 as int)
}

pub open spec fn rope_view(r: Seq<(i32, i32)>) -> Seq<(int, int)> {
    r.map_values(|p: (i32, i32)| pos_view(p))
}

/// The tail must move when it is neither on nor adjacent (including
/// diagonally) to the knot before it.
pub open spec fn s_needs_move(h: (int, int), t: (int, int)) -> bool {
    (h.0 - t.0) * (h.0 - t.0) + (h.1 - t.1) * (h.1 - t.1) > 2
}

/// One step of the head in a direction.
pub open spec fn s_move_head(d: Direction, h: (int, int)) -> (int, int) {
    match d {
        Direction::Up => (h.0, h.1 + 1),
        Direction::Down => (h.0, h.1 - 1),
        Direction::Left => (h.0 - 1, h.1),
        Direction::Right => (h.0 + 1, h.1),
    }
}

/// The tail takes one step toward the knot before it, diagonally when both
/// coordinates differ.
pub open spec fn s_move_tail(h: (int, int), t: (int, int)) -> (int, int) {
    let x = if h.0 - t.0 > 0 {
        t.0 + 1
    } else if h.0 - t.0 < 0 {
        t.0 - 1
    } else {
        t.0
    };
    let y = if h.1 - t.1 > 0 {
        t.1 + 1
    } else if h.1 - t.1 < 0 {
        t.1 - 1
    } else {
        t.1
    };
    (x, y)
}

/// Pull the knots after position `k` into place, one after the other.
pub open spec fn s_adjust(rope: Seq<(int, int)>, k: int) -> Seq<(int, int)>
    decreases rope.len() - k when 0 <= k <= rope.len()
{
    if k < 0 || k >= rope.len() - 1 {
        rope
    } else {
        let r2 = if s_needs_move(rope[k], rope[k + 1]) {
            rope.update(k + 1, s_move_tail(rope[k], rope[k + 1]))
        } else {
            rope
        };
        s_adjust(r2, k + 1)
    }
}

/// One whole step: the head moves, then the rest of the rope is pulled
/// after it.
pub open spec fn s_step(rope: Seq<(int, int)>, d: Direction) -> Seq<(int, int)> {
    s_adjust(rope.update(0, s_move_head(d, rope[0])), 0)
}

/// Run `times` steps, collecting each cell the last knot moves onto.
pub open spec fn s_run(
    rope: Seq<(int, int)>,
    tails: Set<(int, int)>,
    d: Direction,
    times: int,
) -> (Seq<(int, int)>, Set<(int, int)>)
    decreases times
{
    if times <= 0 {
        (rope, tails)
    } else {
        let r2 = s_step(rope, d);
        let t2 = if r2.last() != rope.last() {
            tails.insert(r2.last())
        } else {
            tails
        };
        s_run(r2, t2, d, times - 1)
    }
}

/// A coordinate pair that fits the executable representation.
pub open spec fn pos_fits(p: (int, int)) -> bool {
    i32::MIN <= p.0 <= i32::MAX && i32::MIN <= p.1 <= i32::MAX
}

pub open spec fn rope_fits(rope: Seq<(int, int)>) -> bool {
    forall|k: int| 0 <= k < rope.len() ==> pos_fits(#[trigger] rope[k])
}

/// Every head position the run visits stays representable. The pulled
/// knots always stay between their old place and the knot before them, so
/// only the head can run out of range.
pub open spec fn sim_ok(rope: Seq<(int, int)>, d: Direction, times: int) -> bool
    decreases times
{
    if times <= 0 {
        true
    } else {
        pos_fits(s_move_head(d, rope[0])) && sim_ok(s_step(rope, d), d, times - 1)
    }
}

/// A pulled knot ends up between its old place and the knot before it, so
/// pulling keeps every coordinate representable.
proof fn lemma_adjust_fits(rope: Seq<(int, int)>, k: int)
    requires
        rope_fits(rope),
        0 <= k <= rope.len(),
    ensures
        rope_fits(s_adjust(rope, k)),
        s_adjust(rope, k).len() == rope.len(),
    decreases rope.len() - k,
{
    if 0 <= k < rope.len() - 1 {
        if s_needs_move(rope[k], rope[k + 1]) {
            let r2 = rope.update(k + 1, s_move_tail(rope[k], rope[k + 1]));
            assert(pos_fits(s_move_tail(rope[k], rope[k + 1])));
            assert(rope_fits(r2));
            lemma_adjust_fits(r2, k + 1);
        } else {
            lemma_adjust_fits(rope, k + 1);
        }
    }
}

impl Direction {
    /// The direction a command letter names.
    pub fn from_char(c: char) -> (r: Direction)
        requires
            c == 'U' || c == 'D' || c == 'L' || c == 'R',
        ensures
            r == dir_of(c),
    {
        if c == 'U' {
            Direction::Up
        } else if c == 'D' {
            Direction::Down
        } else if c == 'L' {
            Direction::Left
        } else {
            Direction::Right
        }
    }
}

/// Parse a move command: a direction letter, a space, and a distance.
pub fn parse_command(command: &str) -> (r: (Direction, i32))
    requires
        command@.len() >= 3,
        command@[0] == 'U' || command@[0] == 'D' || command@[0] == 'L' || command@[0] == 'R',
        crate::text::is_signed_digits(command@.skip(2)),
        i32::MIN <= crate::text::signed_val(command@.skip(2)) <= i32::MAX,
    ensures
        r.0 == dir_of(command@[0]),
        r.1 == crate::text::signed_val(command@.skip(2)),
{
    let len = command.unicode_len();
    let direction = Direction::from_char(command.get_char(0));
    let rest = command.substring_char(2, len);
    proof {
        assert(rest@ =~= command@.skip(2));
    }
    let distance = crate::text::parse_i32(rest);
    (direction, distance)
}

/// One head step in a direction.
pub fn move_head(direction: &Direction, head: &(i32, i32)) -> (r: (i32, i32))
    requires
        pos_fits(s_move_head(*direction, pos_view(*head))),
    ensures
        pos_view(r) == s_move_head(*direction, pos_view(*head)),
{
    let (x_head, y_head) = *head;
    match direction {
        Direction::Up => (x_head, y_head + 1),
        Direction::Down => (x_head, y_head - 1),
        Direction::Left => (x_head - 1, y_head),
        Direction::Right => (x_head + 1, y_head),
    }
}

/// Pull the tail one step toward the head.
pub fn move_tail(head: &(i32, i32), tail: &(i32, i32)) -> (r: (i32, i32))
    ensures
        pos_view(r) == s_move_tail(pos_view(*head), pos_view(*tail)),
{
    let (x_head, y_head) = *head;
    let (x_tail, y_tail) = *tail;
    let x_diff = x_head as i64 - x_tail as i64;
    let y_diff = y_head as i64 - y_tail as i64;

    let mut x_tail_new = x_tail;
    if x_diff > 0 {
        x_tail_new = x_tail_new + 1;
    } else if x_diff < 0 {
        x_tail_new = x_tail_new - 1;
    }

    let mut y_tail_new = y_tail;
    if y_diff > 0 {
        y_tail_new = y_tail_new + 1;
    } else if y_diff < 0 {
        y_tail_new = y_tail_new - 1;
    }
    (x_tail_new, y_tail_new)
}

/// Does the tail have to move?
fn tail_out_of_reach(head: (i32, i32), tail: (i32, i32)) -> (r: bool)
    ensures
        r == s_needs_move(pos_view(head), pos_view(tail)),
{
    let dx = head.0 as i64 - tail.0 as i64;
    let dy = head.1 as i64 - tail.1 as i64;
    let far = dx > 1 || dx < -1 || dy > 1 || dy < -1;
    proof {
        let sdx = head.0 as int - tail.0 as int;
        let sdy = head.1 as int - tail.1 as int;
        assert(far == (sdx * sdx + sdy * sdy > 2)) by (nonlinear_arith)
            requires
                far == (sdx > 1 || sdx < -1 || sdy > 1 || sdy < -1),
                -0x1_0000_0000 < sdx < 0x1_0000_0000,
                -0x1_0000_0000 < sdy < 0x1_0000_0000;
    }
    far
}

/// Does the vector hold the position?
fn contains_pos(v: &Vec<(i32, i32)>, p: (i32, i32)) -> (r: bool)
    ensures
        r == v@.contains(p),
{
    let mut i: usize = 0;
    while i < v.len()
        invariant
            i <= v.len(),
            forall|k: int| 0 <= k < i ==> v@[k] != p,
        decreases v.len() - i,
    {
        if v[i].0 == p.0 && v[i].1 == p.1 {
            proof {
                assert(v@[i as int] == p);
            }
            return true;
        }
        i = i + 1;
    }
    false
}

/// The set of cells a visited-list stands for.
pub open spec fn tails_set(v: Seq<(i32, i32)>) -> Set<(int, int)> {
    rope_view(v).to_set()
}

/// Replay one command: step the rope `times` times and record every cell
/// the last knot moves onto.
pub fn process_command(
    command: (Direction, i32),
    rope: &mut Vec<(i32, i32)>,
    tail_positions: &mut Vec<(i32, i32)>,
)
    requires
        old(rope)@.len() >= 1,
        sim_ok(rope_view(old(rope)@), command.0, command.1 as int),
        old(tail_positions)@.no_duplicates(),
    ensures
        final(rope)@.len() == old(rope)@.len(),
        final(tail_positions)@.no_duplicates(),
        rope_view(final(rope)@) == s_run(
            rope_view(old(rope)@),
            tails_set(old(tail_positions)@),
            command.0,
            command.1 as int,
        ).0,
        tails_set(final(tail_positions)@) == s_run(
            rope_view(old(rope)@),
            tails_set(old(tail_positions)@),
            command.0,
            command.1 as int,
        ).1,
{
    let (direction, times) = command;
    let ghost orig_rope = rope_view(rope@);
    let ghost orig_tails = tails_set(tail_positions@);
    let ghost n0 = rope@.len();
    let mut step: i32 = 0;
    while step < times
        invariant
            rope@.len() >= 1,
            rope@.len() == n0,
            0 <= step,
            step <= times || times <= 0,
            times <= 0 ==> step == 0,
            tail_positions@.no_duplicates(),
            sim_ok(rope_view(rope@), direction, times - step),
            s_run(rope_view(rope@), tails_set(tail_positions@), direction, times - step) == s_run(
                orig_rope,
                orig_tails,
                direction,
                times as int,
            ),
        decreases times - step,
    {
        let ghost pre_rope = rope_view(rope@);
        let ghost pre_tails = tails_set(tail_positions@);
        let last_before = rope[rope.len() - 1];
        // Move the head.
        let new_head = move_head(&direction, &rope[0]);
        rope[0] = new_head;
        proof {
            assert(rope_view(rope@) =~= pre_rope.update(0, s_move_head(direction, pre_rope[0])));
            lemma_adjust_fits(rope_view(rope@), 0);
        }
        let ghost after_head = rope_view(rope@);
        // Pull the rest of the rope after it.
        let mut knot: usize = 0;
        while knot < rope.len() - 1
            invariant
                rope@.len() >= 1,
                rope@.len() == n0,
                knot <= rope@.len(),
                rope_fits(rope_view(rope@)),
                s_adjust(rope_view(rope@), knot as int) == s_adjust(after_head, 0),
            decreases rope@.len() - knot,
        {
            let ghost before = rope_view(rope@);
            let head = rope[knot];
            let tail = rope[knot + 1];
            if tail_out_of_reach(head, tail) {
                proof {
                    lemma_adjust_fits(before, knot as int);
                    assert(pos_fits(s_move_tail(before[knot as int], before[knot as int + 1])));
                }
                let new_tail = move_tail(&head, &tail);
                rope[knot + 1] = new_tail;
                proof {
                    assert(rope_view(rope@) =~= before.update(
                        knot as int + 1,
                        s_move_tail(before[knot as int], before[knot as int + 1]),
                    ));
                }
            }
            knot = knot + 1;
        }
        proof {
            assert(rope_view(rope@) == s_step(pre_rope, direction));
        }
        // Record the cell the last knot landed on, if it moved.
        let last_after = rope[rope.len() - 1];
        if last_after.0 != last_before.0 || last_after.1 != last_before.1 {
            proof {
                assert(rope_view(rope@).last() != pre_rope.last());
            }
            if !contains_pos(tail_positions, last_after) {
                let ghost before_tails = tail_positions@;
                tail_positions.push(last_after);
                proof {
                    assert forall|a: int, b: int|
                        0 <= a < b < tail_positions@.len() implies tail_positions@[a]
                        != tail_positions@[b] by {
                        if b == tail_positions@.len() - 1 {
                            if tail_positions@[a] == last_after {
                                assert(before_tails[a] == last_after);
                                assert(before_tails.contains(last_after));
                            }
                        }
                    }
                    lemma_tails_set_push(before_tails, last_after);
                }
            } else {
                proof {
                    lemma_tails_set_contains(tail_positions@, last_after);
                    assert(tails_set(tail_positions@).insert(pos_view(last_after)) =~= tails_set(
                        tail_positions@,
                    ));
                }
            }
            proof {
                assert(tails_set(tail_positions@) == pre_tails.insert(
                    rope_view(rope@).last(),
                ));
            }
        } else {
            proof {
                assert(pos_view(last_after) == pos_view(last_before));
                assert(rope_view(rope@).last() == pre_rope.last());
            }
        }
        step = step + 1;
    }
    proof {
        if times >= 0 {
            assert(step == times);
        }
        assert(s_run(rope_view(rope@), tails_set(tail_positions@), direction, times - step)
            == (rope_view(rope@), tails_set(tail_positions@)));
        assert(rope_view(rope@) == s_run(orig_rope, orig_tails, direction, times as int).0);
        assert(tails_set(tail_positions@) == s_run(
            orig_rope,
            orig_tails,
            direction,
            times as int,
        ).1);
    }
}

/// Pushing a position adds exactly its cell to the visited set.
proof fn lemma_tails_set_push(v: Seq<(i32, i32)>, p: (i32, i32))
    ensures
        tails_set(v.push(p)) == tails_set(v).insert(pos_view(p)),
{
    assert forall|q: (int, int)| tails_set(v.push(p)).contains(q) implies tails_set(v).insert(
        pos_view(p),
    ).contains(q) by {
        let k = choose|k: int|
            0 <= k < rope_view(v.push(p)).len() && rope_view(v.push(p))[k] == q;
        if k < v.len() {
            assert(rope_view(v)[k] == q);
            assert(rope_view(v).contains(q));
        }
    }
    assert forall|q: (int, int)| tails_set(v).insert(pos_view(p)).contains(q) implies tails_set(
        v.push(p),
    ).contains(q) by {
        if q == pos_view(p) {
            assert(rope_view(v.push(p))[v.len() as int] == q);
        } else {
            let k = choose|k: int| 0 <= k < rope_view(v).len() && rope_view(v)[k] == q;
            assert(rope_view(v.push(p))[k] == q);
        }
    }
    assert(tails_set(v.push(p)) =~= tails_set(v).insert(pos_view(p)));
}

/// A held position's cell is already in the visited set.
proof fn lemma_tails_set_contains(v: Seq<(i32, i32)>, p: (i32, i32))
    requires
        v.contains(p),
    ensures
        tails_set(v).contains(pos_view(p)),
{
    let k = choose|k: int| 0 <= k < v.len() && v[k] == p;
    assert(rope_view(v)[k] == pos_view(p));
}

} // verus!
