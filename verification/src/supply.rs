//! Supply stacks: parse the crate drawing and the move list, then replay
//! the moves either one crate at a time or a whole block at a time.

use vstd::prelude::*;

use crate::text::all_digits;
use crate::text::token_is_num;
use crate::text::copy_vec;
use crate::text::digits_val;
use crate::text::is_digit;
use crate::text::lines_of;
use crate::text::spec_lines;
use crate::text::spec_split;
use crate::text::split_char;

verus! {

/// One crane order: move `amount` crates from pile `from` to pile `to`
/// (zero-based pile indices).
pub struct Instruction {
    pub amount: usize,
    pub from: usize,
    pub to: usize,
}

/// A double newline separates the crate drawing from the move list.
pub open spec fn sep_at(s: Seq<char>, i: int) -> bool {
    0 <= i && i + 1 < s.len() && s[i] == '\n' && s[i + 1] == '\n'
}

pub open spec fn has_sep(s: Seq<char>) -> bool {
    exists|i: int| sep_at(s, i)
}

/// Split the input at the first blank line: the part before it and the part
/// after it up to the next blank line (or the end).
#[verifier::rlimit(100)]
pub fn separate_box_instructions(input: String) -> (r: (String, String))
    requires
        has_sep(input@),
    ensures
        exists|i: int|
            {
                &&& #[trigger] sep_at(input@, i)
                &&& forall|j: int| 0 <= j < i ==> !sep_at(input@, j)
                &&& r.0@ == input@.subrange(0, i)
                &&& ({
                    ||| (exists|j: int|
                        {
                            &&& i + 2 <= j
                            &&& #[trigger] sep_at(input@, j)
                            &&& forall|k: int| i + 2 <= k < j ==> !sep_at(input@, k)
                            &&& r.1@ == input@.subrange(i + 2, j)
                        })
                    ||| ((forall|k: int| i + 2 <= k ==> !sep_at(input@, k)) && r.1@
                        == input@.subrange(i + 2, input@.len() as int))
                })
            },
{
    let s = input.as_str();
    let len = s.unicode_len();
    let mut i: usize = 0;
    while !(i + 1 < len && s.get_char(i) == '\n' && s.get_char(i + 1) == '\n')
        invariant
            s@ == input@,
            len == input@.len(),
            has_sep(input@),
            0 <= i,
            forall|j: int| 0 <= j < i ==> !sep_at(input@, j),
            i + 1 <= len,
        decreases len - i,
    {
        proof {
            if i + 1 >= len {
                let w = choose|w: int| sep_at(input@, w);
                assert(!sep_at(input@, w));
                assert(false);
            }
        }
        i = i + 1;
    }
    let first = s.substring_char(0, i).to_owned();
    let mut j: usize = i + 2;
    while j < len - 1 && !(s.get_char(j) == '\n' && s.get_char(j + 1) == '\n')
        invariant
            s@ == input@,
            len == input@.len(),
            len >= 2,
            i + 2 <= j,
            j <= len,
            forall|k: int| i as int + 2 <= k < j ==> !sep_at(input@, k),
        decreases len - j,
    {
        j = j + 1;
    }
    if j < len - 1 {
        // A second blank line ends the instruction part.
        let second = s.substring_char(i + 2, j).to_owned();
        proof {
            assert(sep_at(input@, i as int));
            assert(sep_at(input@, j as int));
        }
        (first, second)
    } else {
        proof {
            assert forall|k: int| i as int + 2 <= k implies !sep_at(input@, k) by {
                if k < j {
                } else {
                    assert(k + 1 >= len);
                }
            }
        }
        let second = s.substring_char(i + 2, len).to_owned();
        (first, second)
    }
}

/// The crate letters a drawing line contributes: every fourth character
/// starting at the second, up to the first digit found there (the pile
/// index row ends the drawing).
pub open spec fn parsed_line_from(seg: Seq<char>, i: int) -> Seq<char>
    decreases seg.len() - i when 0 <= i
{
    if i < 0 || i >= seg.len() {
        Seq::empty()
    } else if !(i % 2 == 1 && (i + 1) % 4 != 0) {
        parsed_line_from(seg, i + 1)
    } else if is_digit(seg[i]) {
        Seq::empty()
    } else {
        seq![seg[i]] + parsed_line_from(seg, i + 1)
    }
}

pub open spec fn parsed_line(seg: Seq<char>) -> Seq<char> {
    parsed_line_from(seg, 0)
}

/// The non-empty parsed lines of the crate drawing.
pub open spec fn spec_parsed_lines(s: Seq<char>) -> Seq<Seq<char>> {
    spec_lines(s).map_values(|seg: Seq<char>| parsed_line(seg)).filter(
        |l: Seq<char>| l.len() > 0,
    )
}

/// Filtering a one-element sequence keeps or drops that element.
proof fn lemma_filter_singleton<A>(x: A, pred: spec_fn(A) -> bool)
    ensures
        seq![x].filter(pred) == if pred(x) {
            seq![x]
        } else {
            Seq::<A>::empty()
        },
{
    reveal(Seq::filter);
    let s = seq![x];
    assert(s.drop_last() =~= Seq::<A>::empty());
    assert(Seq::<A>::empty().filter(pred) =~= Seq::<A>::empty());
    assert(s.last() == x);
    if pred(x) {
        assert(s.filter(pred) =~= seq![x]);
    } else {
        assert(s.filter(pred) =~= Seq::<A>::empty());
    }
}

/// Parse the crate drawing into one row of crate letters per drawing line,
/// dropping rows with no crates.
pub fn parse_box_lines(boxes: String) -> (r: Vec<Vec<char>>)
    ensures
        r.deep_view() == spec_parsed_lines(boxes@),
{
    let lines = lines_of(boxes.as_str());
    let ghost segs = spec_lines(boxes@);
    let ghost mapped = segs.map_values(|seg: Seq<char>| parsed_line(seg));
    let mut parsed_lines: Vec<Vec<char>> = Vec::new();
    let mut k: usize = 0;
    proof {
        reveal(Seq::filter);
        assert(mapped.subrange(0, 0) =~= Seq::<Seq<char>>::empty());
        assert(Seq::<Seq<char>>::empty().filter(|l: Seq<char>| l.len() > 0)
            =~= Seq::<Seq<char>>::empty());
    }
    while k < lines.len()
        invariant
            lines.deep_view() == segs,
            mapped == segs.map_values(|seg: Seq<char>| parsed_line(seg)),
            lines@.len() == segs.len(),
            k <= segs.len(),
            parsed_lines.deep_view() =~~= mapped.subrange(0, k as int).filter(
                |l: Seq<char>| l.len() > 0,
            ),
        decreases segs.len() - k,
    {
        proof {
            assert(lines@[k as int]@ == segs[k as int]);
        }
        let line = lines[k].as_str();
        let line_len = line.unicode_len();
        let mut parsed_line_vec: Vec<char> = Vec::new();
        let mut i: usize = 0;
        let mut stopped = false;
        while i < line_len && !stopped
            invariant
                line_len == line@.len(),
                i <= line_len,
                !stopped ==> parsed_line_vec@ + parsed_line_from(line@, i as int) =~~= parsed_line(
                    line@,
                ),
                stopped ==> parsed_line_vec@ =~~= parsed_line(line@),
            decreases line_len - i + if stopped {
                0int
            } else {
                1int
            },
        {
            let c = line.get_char(i);
            if (i + 1) % 4 == 0 || i % 2 == 0 {
                i = i + 1;
                continue;
            }
            if c as u32 >= '0' as u32 && c as u32 <= '9' as u32 {
                stopped = true;
            } else {
                let ghost before = parsed_line_vec@;
                parsed_line_vec.push(c);
                proof {
                    assert(parsed_line_vec@ =~= before.push(line@[i as int]));
                    assert(before + (seq![line@[i as int]] + parsed_line_from(line@, i as int + 1))
                        =~= before.push(line@[i as int]) + parsed_line_from(line@, i as int + 1));
                }
                i = i + 1;
            }
        }
        proof {
            if !stopped {
                assert(parsed_line_from(line@, i as int) =~= Seq::<char>::empty());
                assert(parsed_line_vec@ + Seq::<char>::empty() =~= parsed_line_vec@);
            }
            assert(parsed_line_vec@ =~~= mapped[k as int]);
        }
        let ghost before_lines = parsed_lines.deep_view();
        if parsed_line_vec.len() > 0 {
            parsed_lines.push(parsed_line_vec);
            proof {
                assert(parsed_lines.deep_view() =~~= before_lines.push(mapped[k as int]));
            }
        }
        proof {
            let pred = |l: Seq<char>| l.len() > 0;
            assert(mapped.subrange(0, k as int + 1) =~= mapped.subrange(0, k as int).push(
                mapped[k as int],
            ));
            assert(mapped.subrange(0, k as int).push(mapped[k as int]) =~= mapped.subrange(
                0,
                k as int,
            ) + seq![mapped[k as int]]);
            Seq::<Seq<char>>::filter_distributes_over_add(
                mapped.subrange(0, k as int),
                seq![mapped[k as int]],
                pred,
            );
            lemma_filter_singleton(mapped[k as int], pred);
        }
        k = k + 1;
    }
    proof {
        assert(mapped.subrange(0, mapped.len() as int) =~= mapped);
    }
    parsed_lines
}

/// Pile `col` of the drawing: the non-blank letters of that column, bottom
/// row first, so the top of the pile is the sequence's end.
pub open spec fn col_of(lines: Seq<Seq<char>>, col: int) -> Seq<char>
    decreases lines.len(),
{
    if lines.len() == 0 {
        Seq::empty()
    } else {
        let rest = col_of(lines.drop_first(), col);
        if lines[0][col] == ' ' {
            rest
        } else {
            rest.push(lines[0][col])
        }
    }
}

proof fn lemma_col_of_push(lines: Seq<Seq<char>>, line: Seq<char>, col: int)
    ensures
        col_of(lines.push(line), col) == if line[col] == ' ' {
            col_of(lines, col)
        } else {
            seq![line[col]] + col_of(lines, col)
        },
    decreases lines.len(),
{
    let p = lines.push(line);
    if lines.len() == 0 {
        assert(p.drop_first() =~= Seq::<Seq<char>>::empty());
        assert(p[0] == line);
        assert(col_of(p.drop_first(), col) == Seq::<char>::empty());
        if line[col] == ' ' {
            assert(col_of(p, col) =~= col_of(lines, col));
        } else {
            assert(col_of(p, col) =~= seq![line[col]] + col_of(lines, col));
        }
    } else {
        assert(p.drop_first() =~= lines.drop_first().push(line));
        assert(p[0] == lines[0]);
        lemma_col_of_push(lines.drop_first(), line, col);
        if line[col] == ' ' {
            assert(col_of(p, col) =~= col_of(lines, col));
        } else {
            assert(col_of(p, col) =~= seq![line[col]] + col_of(lines, col));
        }
    }
}

/// Turn the parsed drawing rows into piles, one per column, each ordered
/// bottom to top.
pub fn parse_boxes(parsed_lines: Vec<Vec<char>>) -> (r: Vec<Vec<char>>)
    requires
        parsed_lines@.len() >= 1,
        forall|k: int|
            0 <= k < parsed_lines@.len() ==> (#[trigger] parsed_lines@[k])@.len()
                == parsed_lines@[0]@.len(),
    ensures
        r@.len() == parsed_lines@[0]@.len(),
        forall|col: int|
            0 <= col < r@.len() ==> (#[trigger] r@[col])@ == col_of(
                parsed_lines.deep_view(),
                col,
            ),
{
    let line_len = parsed_lines[0].len();
    let mut parsed_boxes: Vec<Vec<char>> = Vec::new();
    let mut col: usize = 0;
    while col < line_len
        invariant
            line_len == parsed_lines@[0]@.len(),
            parsed_lines@.len() >= 1,
            forall|k: int|
                0 <= k < parsed_lines@.len() ==> (#[trigger] parsed_lines@[k])@.len() == line_len,
            col <= line_len,
            parsed_boxes@.len() == col,
            forall|c: int|
                0 <= c < col ==> (#[trigger] parsed_boxes@[c])@ == col_of(
                    parsed_lines.deep_view(),
                    c,
                ),
        decreases line_len - col,
    {
        let mut pile: Vec<char> = Vec::new();
        let mut k: usize = 0;
        proof {
            assert(parsed_lines.deep_view().subrange(0, 0) =~= Seq::<Seq<char>>::empty());
        }
        while k < parsed_lines.len()
            invariant
                line_len == parsed_lines@[0]@.len(),
                parsed_lines@.len() >= 1,
                forall|j: int|
                    0 <= j < parsed_lines@.len() ==> (#[trigger] parsed_lines@[j])@.len()
                        == line_len,
                col < line_len,
                k <= parsed_lines@.len(),
                pile@ == col_of(parsed_lines.deep_view().subrange(0, k as int), col as int),
            decreases parsed_lines@.len() - k,
        {
            proof {
                assert(parsed_lines@[k as int]@ == parsed_lines.deep_view()[k as int]);
                lemma_col_of_push(
                    parsed_lines.deep_view().subrange(0, k as int),
                    parsed_lines.deep_view()[k as int],
                    col as int,
                );
                assert(parsed_lines.deep_view().subrange(0, k as int + 1)
                    =~= parsed_lines.deep_view().subrange(0, k as int).push(
                    parsed_lines.deep_view()[k as int],
                ));
            }
            let c = parsed_lines[k][col];
            if c != ' ' {
                let ghost before = pile@;
                pile.insert(0, c);
                proof {
                    assert(pile@ =~= seq![parsed_lines.deep_view()[k as int][col as int]]
                        + before);
                }
            }
            k = k + 1;
        }
        proof {
            assert(parsed_lines.deep_view().subrange(0, parsed_lines@.len() as int)
                =~= parsed_lines.deep_view());
        }
        parsed_boxes.push(pile);
        col = col + 1;
    }
    parsed_boxes
}

/// The numbers a move line carries, in order.
pub open spec fn spec_nums(seg: Seq<char>) -> Seq<int> {
    spec_split(seg, ' ').filter(|t: Seq<char>| token_is_num(t)).map_values(
        |t: Seq<char>| digits_val(t),
    )
}

/// Parse one whitespace token as an unsigned number if it is one.
fn try_parse_usize(s: &str) -> (r: Option<usize>)
    ensures
        match r {
            Some(v) => token_is_num(s@) && v == digits_val(s@),
            None => !token_is_num(s@),
        },
{
    let len = s.unicode_len();
    if len == 0 {
        return None;
    }
    let mut acc: usize = 0;
    let mut i: usize = 0;
    while i < len
        invariant
            len == s@.len(),
            i <= len,
            forall|k: int| 0 <= k < i ==> is_digit(#[trigger] s@[k]),
            acc == digits_val(s@.subrange(0, i as int)),
        decreases len - i,
    {
        let c = s.get_char(i);
        if !(c as u32 >= '0' as u32 && c as u32 <= '9' as u32) {
            return None;
        }
        let d = (c as u32 - 48) as usize;
        proof {
            assert(s@.subrange(0, i as int + 1).drop_last() =~= s@.subrange(0, i as int));
            assert(s@.subrange(0, i as int + 1).last() == s@[i as int]);
        }
        if acc > (usize::MAX - d) / 10 {
            proof {
                let q = s@.subrange(0, i as int + 1);
                assert(digits_val(q) > usize::MAX);
                if token_is_num(s@) {
                    lemma_digits_prefix_pub(s@, i as int + 1);
                    assert(false);
                }
            }
            return None;
        }
        acc = acc * 10 + d;
        i = i + 1;
    }
    proof {
        assert(s@.subrange(0, len as int) =~= s@);
    }
    Some(acc)
}

/// Extending a digit prefix never shrinks its value.
pub proof fn lemma_digits_prefix_pub(s: Seq<char>, i: int)
    requires
        all_digits(s),
        0 <= i <= s.len(),
    ensures
        digits_val(s.subrange(0, i)) <= digits_val(s),
    decreases s.len() - i,
{
    if i < s.len() {
        lemma_digits_prefix_pub(s, i + 1);
        let p = s.subrange(0, i);
        let q = s.subrange(0, i + 1);
        assert(q.drop_last() =~= p);
        assert(all_digits(p));
        lemma_digits_nonneg_local(p);
        assert(digits_val(q) == digits_val(p) * 10 + (q.last() as u32 - '0' as u32));
    } else {
        assert(s.subrange(0, i) =~= s);
    }
}

proof fn lemma_digits_nonneg_local(s: Seq<char>)
    requires
        all_digits(s),
    ensures
        digits_val(s) >= 0,
    decreases s.len(),
{
    if s.len() > 0 {
        assert(all_digits(s.drop_last()));
        lemma_digits_nonneg_local(s.drop_last());
    }
}

/// Read the numbers of one move line.
fn nums_of_line(line: &str) -> (r: Vec<usize>)
    ensures
        r@.map_values(|v: usize| v as int) == spec_nums(line@),
{
    let tokens = split_char(line, ' ');
    let ghost toks = spec_split(line@, ' ');
    let mut nums: Vec<usize> = Vec::new();
    let mut i: usize = 0;
    proof {
        reveal(Seq::filter);
        let pred = |t: Seq<char>| token_is_num(t);
        assert(toks.subrange(0, 0) =~= Seq::<Seq<char>>::empty());
        assert(Seq::<Seq<char>>::empty().filter(pred) =~= Seq::<Seq<char>>::empty());
        assert(nums@.map_values(|v: usize| v as int) =~= Seq::<Seq<char>>::empty().filter(
            pred,
        ).map_values(|t: Seq<char>| digits_val(t)));
    }
    while i < tokens.len()
        invariant
            tokens.deep_view() == toks,
            tokens@.len() == toks.len(),
            i <= toks.len(),
            nums@.map_values(|v: usize| v as int) =~~= toks.subrange(0, i as int).filter(
                |t: Seq<char>| token_is_num(t),
            ).map_values(|t: Seq<char>| digits_val(t)),
        decreases toks.len() - i,
    {
        proof {
            assert(tokens@[i as int]@ == toks[i as int]);
        }
        let parsed = try_parse_usize(tokens[i].as_str());
        proof {
            let pred = |t: Seq<char>| token_is_num(t);
            assert(toks.subrange(0, i as int + 1) =~= toks.subrange(0, i as int) + seq![
                toks[i as int]]);
            Seq::<Seq<char>>::filter_distributes_over_add(
                toks.subrange(0, i as int),
                seq![toks[i as int]],
                pred,
            );
            lemma_filter_singleton(toks[i as int], pred);
        }
        match parsed {
            Some(v) => {
                let ghost before = nums@;
                nums.push(v);
                proof {
                    assert(nums@.map_values(|v: usize| v as int) =~= before.map_values(
                        |v: usize| v as int,
                    ).push(digits_val(toks[i as int])));
                }
            },
            None => {},
        }
        i = i + 1;
    }
    proof {
        assert(toks.subrange(0, toks.len() as int) =~= toks);
    }
    nums
}

/// A line is a well-formed move order: it carries at least three numbers
/// and the two pile numbers are one-based.
pub open spec fn line_is_instruction(seg: Seq<char>) -> bool {
    &&& spec_nums(seg).len() >= 3
    &&& spec_nums(seg)[0] <= usize::MAX
    &&& 1 <= spec_nums(seg)[1] <= usize::MAX
    &&& 1 <= spec_nums(seg)[2] <= usize::MAX
}

/// Parse the move list: each line's first three numbers give the amount
/// and the one-based source and target piles.
pub fn parse_instructions(input: String) -> (r: Vec<Instruction>)
    requires
        forall|k: int|
            0 <= k < spec_lines(input@).len() ==> line_is_instruction(
                #[trigger] spec_lines(input@)[k],
            ),
    ensures
        r@.len() == spec_lines(input@).len(),
        forall|k: int|
            0 <= k < r@.len() ==> {
                let nums = spec_nums(spec_lines(input@)[k]);
                &&& (#[trigger] r@[k]).amount == nums[0]
                &&& r@[k].from == nums[1] - 1
                &&& r@[k].to == nums[2] - 1
            },
{
    let lines = lines_of(input.as_str());
    let ghost segs = spec_lines(input@);
    let mut instructions: Vec<Instruction> = Vec::new();
    let mut i: usize = 0;
    while i < lines.len()
        invariant
            lines.deep_view() == segs,
            segs == spec_lines(input@),
            lines@.len() == segs.len(),
            forall|k: int|
                0 <= k < segs.len() ==> line_is_instruction(#[trigger] segs[k]),
            i <= segs.len(),
            instructions@.len() == i,
            forall|k: int|
                0 <= k < i ==> {
                    let nums = spec_nums(segs[k]);
                    &&& (#[trigger] instructions@[k]).amount == nums[0]
                    &&& instructions@[k].from == nums[1] - 1
                    &&& instructions@[k].to == nums[2] - 1
                },
        decreases segs.len() - i,
    {
        proof {
            assert(lines@[i as int]@ == segs[i as int]);
        }
        let properties = nums_of_line(lines[i].as_str());
        proof {
            assert(properties@.map_values(|v: usize| v as int).len() >= 3);
            assert(properties@.map_values(|v: usize| v as int)[0] == spec_nums(segs[i as int])[0]);
            assert(properties@.map_values(|v: usize| v as int)[1] == spec_nums(segs[i as int])[1]);
            assert(properties@.map_values(|v: usize| v as int)[2] == spec_nums(segs[i as int])[2]);
        }
        let instruction = Instruction {
            amount: properties[0],
            from: properties[1] - 1,
            to: properties[2] - 1,
        };
        instructions.push(instruction);
        i = i + 1;
    }
    instructions
}

/// Move the top crate of pile `from` onto pile `to`, when both piles exist
/// and the source is non-empty.
pub open spec fn move_one(boxes: Seq<Seq<char>>, from: int, to: int) -> Option<Seq<Seq<char>>> {
    if 0 <= from < boxes.len() && 0 <= to < boxes.len() && boxes[from].len() >= 1 {
        let c = boxes[from].last();
        let after_pop = boxes.update(from, boxes[from].drop_last());
        Some(after_pop.update(to, after_pop[to].push(c)))
    } else {
        None
    }
}

/// Move `amount` crates one at a time.
pub open spec fn apply_instr(boxes: Seq<Seq<char>>, amount: int, from: int, to: int) -> Option<
    Seq<Seq<char>>,
>
    decreases amount when amount >= 0
{
    if amount <= 0 {
        Some(boxes)
    } else {
        match move_one(boxes, from, to) {
            Some(b2) => apply_instr(b2, amount - 1, from, to),
            None => None,
        }
    }
}

/// Replay all orders one crate at a time.
pub open spec fn apply_all(boxes: Seq<Seq<char>>, instrs: Seq<Instruction>) -> Option<
    Seq<Seq<char>>,
>
    decreases instrs.len(),
{
    if instrs.len() == 0 {
        Some(boxes)
    } else {
        match apply_instr(
            boxes,
            instrs[0].amount as int,
            instrs[0].from as int,
            instrs[0].to as int,
        ) {
            Some(b2) => apply_all(b2, instrs.drop_first()),
            None => None,
        }
    }
}

/// Replay the orders one crate at a time: each move pops the source pile's
/// top crate and pushes it on the target pile.
pub fn execute_instructions(boxes: Vec<Vec<char>>, instructions: &Vec<Instruction>) -> (r: Vec<
    Vec<char>,
>)
    requires
        apply_all(boxes.deep_view(), instructions@) is Some,
    ensures
        Some(r.deep_view()) == apply_all(boxes.deep_view(), instructions@),
{
    let ghost orig = boxes.deep_view();
    let mut boxes = boxes;
    let mut idx: usize = 0;
    proof {
        assert(instructions@.skip(0) =~= instructions@);
    }
    while idx < instructions.len()
        invariant
            idx <= instructions@.len(),
            apply_all(boxes.deep_view(), instructions@.skip(idx as int)) == apply_all(
                orig,
                instructions@,
            ),
            apply_all(orig, instructions@) is Some,
        decreases instructions@.len() - idx,
    {
        let amount = instructions[idx].amount;
        let from = instructions[idx].from;
        let to = instructions[idx].to;
        let ghost at_start = boxes.deep_view();
        let mut step: usize = 0;
        while step < amount
            invariant
                step <= amount,
                amount == instructions@[idx as int].amount,
                from == instructions@[idx as int].from,
                to == instructions@[idx as int].to,
                idx < instructions@.len(),
                apply_instr(boxes.deep_view(), amount - step, from as int, to as int)
                    == apply_instr(at_start, amount as int, from as int, to as int),
                apply_all(at_start, instructions@.skip(idx as int)) == apply_all(
                    orig,
                    instructions@,
                ),
                apply_all(orig, instructions@) is Some,
                apply_instr(at_start, amount as int, from as int, to as int) is Some,
            decreases amount - step,
        {
            let ghost prev = boxes.deep_view();
            proof {
                assert(move_one(prev, from as int, to as int) is Some);
            }
            let mut pile = copy_vec(&boxes[from]);
            let popped_box = pile.pop().unwrap();
            boxes[from] = pile;
            let mut dest = copy_vec(&boxes[to]);
            dest.push(popped_box);
            boxes[to] = dest;
            proof {
                assert(boxes.deep_view() =~~= move_one(prev, from as int, to as int).unwrap());
            }
            step = step + 1;
        }
        proof {
            assert(instructions@.skip(idx as int).drop_first() =~= instructions@.skip(
                idx as int + 1,
            ));
            assert(instructions@.skip(idx as int)[0] == instructions@[idx as int]);
        }
        idx = idx + 1;
    }
    proof {
        assert(instructions@.skip(instructions@.len() as int) =~= Seq::<Instruction>::empty());
    }
    boxes
}

/// Move the top crate block of pile `from` onto pile `to` in one go,
/// keeping its order.
pub open spec fn move_block(boxes: Seq<Seq<char>>, amount: int, from: int, to: int) -> Option<
    Seq<Seq<char>>,
> {
    if 0 <= from < boxes.len() && 0 <= to < boxes.len() && 0 <= amount <= boxes[from].len() {
        let pile = boxes[from];
        let moved = pile.subrange(pile.len() - amount, pile.len() as int);
        let after_take = boxes.update(from, pile.subrange(0, pile.len() - amount));
        Some(after_take.update(to, after_take[to] + moved))
    } else {
        None
    }
}

/// Replay all orders a block at a time.
pub open spec fn apply_all_crane(boxes: Seq<Seq<char>>, instrs: Seq<Instruction>) -> Option<
    Seq<Seq<char>>,
>
    decreases instrs.len(),
{
    if instrs.len() == 0 {
        Some(boxes)
    } else {
        match move_block(
            boxes,
            instrs[0].amount as int,
            instrs[0].from as int,
            instrs[0].to as int,
        ) {
            Some(b2) => apply_all_crane(b2, instrs.drop_first()),
            None => None,
        }
    }
}

/// Replay the orders with a crane that lifts the whole block at once, so
/// the moved crates keep their order.
pub fn execute_instructions_with_crane(
    boxes: Vec<Vec<char>>,
    instructions: &Vec<Instruction>,
) -> (r: Vec<Vec<char>>)
    requires
        apply_all_crane(boxes.deep_view(), instructions@) is Some,
    ensures
        Some(r.deep_view()) == apply_all_crane(boxes.deep_view(), instructions@),
{
    let ghost orig = boxes.deep_view();
    let mut boxes = boxes;
    let mut idx: usize = 0;
    proof {
        assert(instructions@.skip(0) =~= instructions@);
    }
    while idx < instructions.len()
        invariant
            idx <= instructions@.len(),
            apply_all_crane(boxes.deep_view(), instructions@.skip(idx as int)) == apply_all_crane(
                orig,
                instructions@,
            ),
            apply_all_crane(orig, instructions@) is Some,
        decreases instructions@.len() - idx,
    {
        let amount = instructions[idx].amount;
        let from = instructions[idx].from;
        let to = instructions[idx].to;
        proof {
            assert(move_block(boxes.deep_view(), amount as int, from as int, to as int) is Some);
        }
        let ghost before = boxes.deep_view();
        let mut pile = copy_vec(&boxes[from]);
        let drain_from = pile.len() - amount;
        let mut moved_boxes = pile.split_off(drain_from);
        boxes[from] = pile;
        let mut dest = copy_vec(&boxes[to]);
        dest.append(&mut moved_boxes);
        boxes[to] = dest;
        proof {
            assert(boxes.deep_view() =~~= move_block(before, amount as int, from as int,
                to as int).unwrap());
            assert(instructions@.skip(idx as int).drop_first() =~= instructions@.skip(
                idx as int + 1,
            ));
            assert(instructions@.skip(idx as int)[0] == instructions@[idx as int]);
        }
        idx = idx + 1;
    }
    proof {
        assert(instructions@.skip(instructions@.len() as int) =~= Seq::<Instruction>::empty());
    }
    boxes
}

} // verus!
