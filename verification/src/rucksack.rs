//! Rucksack reorganisation: split packing lists into compartments, find the
//! items common to both halves, score item priorities, and find the badge
//! common to a group of rucksacks.

use vstd::prelude::*;

use crate::text::contains_char;
use crate::text::chars_of;
use crate::text::spec_split;
use crate::text::split_char;
use crate::text::str_contains_char;

verus! {

/// A packing list, split in the middle into two compartments.
pub struct Rucksack {
    pub first_compartment: Vec<char>,
    pub second_compartment: Vec<char>,
}

/// The items of `first` that also occur in `second`, each reported once, in
/// the order of their first occurrence.
pub open spec fn spec_common_items(first: Seq<char>, second: Seq<char>) -> Seq<char>
    decreases first.len(),
{
    if first.len() == 0 {
        Seq::empty()
    } else {
        let rest = spec_common_items(first.drop_last(), second);
        let c = first.last();
        if second.contains(c) && !first.drop_last().contains(c) {
            rest.push(c)
        } else {
            rest
        }
    }
}

/// An item is reported as common exactly when both compartments hold it.
pub proof fn lemma_common_items_contains(first: Seq<char>, second: Seq<char>, c: char)
    ensures
        spec_common_items(first, second).contains(c) <==> (first.contains(c) && second.contains(
            c,
        )),
    decreases first.len(),
{
    if first.len() > 0 {
        lemma_common_items_contains(first.drop_last(), second, c);
        let rest = spec_common_items(first.drop_last(), second);
        let l = first.last();
        if second.contains(l) && !first.drop_last().contains(l) {
            assert forall|x: char| rest.push(l).contains(x) implies rest.contains(x) || x == l by {
                let k = choose|k: int| 0 <= k < rest.push(l).len() && rest.push(l)[k] == x;
                if k < rest.len() {
                    assert(rest[k] == x);
                }
            }
            if rest.contains(c) || c == l {
                assert(rest.push(l)[rest.len() as int] == l);
                if rest.contains(c) {
                    let k = choose|k: int| 0 <= k < rest.len() && rest[k] == c;
                    assert(rest.push(l)[k] == c);
                }
            }
        }
        if first.contains(c) {
            let k = choose|k: int| 0 <= k < first.len() && first[k] == c;
            if k < first.len() - 1 {
                assert(first.drop_last()[k] == c);
            }
        }
        if first.drop_last().contains(c) {
            let k = choose|k: int| 0 <= k < first.drop_last().len() && first.drop_last()[k] == c;
            assert(first[k] == c);
        }
    }
}

/// The priority of an item: `a`-`z` score 1-26 and `A`-`Z` score 27-52,
/// read straight off the character's code.
pub open spec fn spec_priority(c: char) -> int {
    if (c as u32) < 97 {
        c as u32 - 38
    } else {
        c as u32 - 96
    }
}

/// Split a packing list in the middle into its two compartments.
pub fn parse_rucksack(input: &str) -> (r: Rucksack)
    ensures
        r.first_compartment@ == input@.subrange(0, input@.len() as int / 2),
        r.second_compartment@ == input@.subrange(input@.len() as int / 2, input@.len() as int),
{
    let items = chars_of(input);
    let compartment_size = items.len() / 2;
    let mut first_compartment = items;
    let second_compartment = first_compartment.split_off(compartment_size);
    Rucksack { first_compartment, second_compartment }
}

/// One rucksack per line of the input, empty lines included.
pub fn separate_rucksacks(input: &str) -> (r: Vec<Rucksack>)
    ensures
        r@.len() == spec_split(input@, '\n').len(),
        forall|i: int|
            0 <= i < r@.len() ==> {
                let seg = spec_split(input@, '\n')[i];
                &&& (#[trigger] r@[i]).first_compartment@ == seg.subrange(0, seg.len() as int / 2)
                &&& r@[i].second_compartment@ == seg.subrange(seg.len() as int / 2, seg.len() as int)
            },
{
    let lines = split_char(input, '\n');
    let mut rucksacks: Vec<Rucksack> = Vec::new();
    let mut i: usize = 0;
    while i < lines.len()
        invariant
            lines.deep_view() == spec_split(input@, '\n'),
            i <= lines@.len(),
            lines@.len() == spec_split(input@, '\n').len(),
            r_matches(rucksacks@, spec_split(input@, '\n'), i as int),
        decreases lines@.len() - i,
    {
        proof {
            assert(lines@[i as int]@ == lines.deep_view()[i as int]);
        }
        let rucksack = parse_rucksack(lines[i].as_str());
        rucksacks.push(rucksack);
        i = i + 1;
    }
    rucksacks
}

/// The first `i` rucksacks match the first `i` segments.
pub open spec fn r_matches(rs: Seq<Rucksack>, segs: Seq<Seq<char>>, i: int) -> bool {
    &&& rs.len() == i
    &&& forall|k: int|
        0 <= k < i ==> {
            let seg = segs[k];
            &&& (#[trigger] rs[k]).first_compartment@ == seg.subrange(0, seg.len() as int / 2)
            &&& rs[k].second_compartment@ == seg.subrange(seg.len() as int / 2, seg.len() as int)
        }
}

/// The items common to the two compartments, each once, in order of first
/// occurrence.
pub fn find_common_items(rucksack: &Rucksack) -> (r: Vec<char>)
    ensures
        r@ == spec_common_items(rucksack.first_compartment@, rucksack.second_compartment@),
{
    let first = &rucksack.first_compartment;
    let second = &rucksack.second_compartment;
    let mut common_items: Vec<char> = Vec::new();
    let mut i: usize = 0;
    while i < first.len()
        invariant
            common_items@ == spec_common_items(first@.subrange(0, i as int), second@),
            i <= first@.len(),
            first == rucksack.first_compartment,
            second == rucksack.second_compartment,
        decreases first@.len() - i,
    {
        let item = first[i];
        proof {
            let p = first@.subrange(0, i as int);
            let q = first@.subrange(0, i as int + 1);
            assert(q.drop_last() =~= p);
            assert(q.last() == first@[i as int]);
            lemma_common_items_contains(p, second@, first@[i as int]);
        }
        if contains_char(second, item) && !contains_char(&common_items, item) {
            common_items.push(item);
        }
        i = i + 1;
    }
    proof {
        assert(first@.subrange(0, first@.len() as int) =~= first@);
    }
    common_items
}

/// The priority of an item: `a`-`z` score 1-26 and `A`-`Z` score 27-52.
pub fn get_item_priority(item: char) -> (r: i32)
    ensures
        r == spec_priority(item),
{
    let mut priority = item as u32 as i64;
    if priority < 97 {
        priority = priority - 38;
    } else {
        priority = priority - 96;
    }
    priority as i32
}

/// The first `g` groups match consecutive line triples.
pub open spec fn g_matches(gs: Seq<Vec<String>>, segs: Seq<Seq<char>>, g: int) -> bool {
    &&& gs.len() == g
    &&& forall|k: int, j: int|
        0 <= k < g && 0 <= j < 3 ==> (#[trigger] gs[k]@[j])@ == segs[3 * k + j]
    &&& forall|k: int| 0 <= k < g ==> (#[trigger] gs[k])@.len() == 3
}

/// Group the input's lines into threes; a trailing incomplete group is
/// dropped.
pub fn separate_groups(input: &str) -> (r: Vec<Vec<String>>)
    ensures
        r@.len() == spec_split(input@, '\n').len() / 3,
        g_matches(r@, spec_split(input@, '\n'), spec_split(input@, '\n').len() as int / 3),
{
    let lines = split_char(input, '\n');
    let ghost segs = spec_split(input@, '\n');
    let mut groups: Vec<Vec<String>> = Vec::new();
    let mut group: Vec<String> = Vec::new();
    let mut i: usize = 0;
    while i < lines.len()
        invariant
            lines.deep_view() == segs,
            segs == spec_split(input@, '\n'),
            lines@.len() == segs.len(),
            i <= lines@.len(),
            i % 3 == 0 ==> group@.len() == 0 && groups@.len() == i / 3,
            i % 3 != 0 ==> group@.len() == i % 3 && groups@.len() == i / 3,
            forall|j: int| 0 <= j < group@.len() ==> (#[trigger] group@[j])@ == segs[
                3 * (i as int / 3) + j],
            g_matches(groups@, segs, i as int / 3),
        decreases lines@.len() - i,
    {
        proof {
            assert(lines@[i as int]@ == lines.deep_view()[i as int]);
            assert(3 * (i as int / 3) + i as int % 3 == i as int) by (nonlinear_arith);
        }
        let line = lines[i].clone();
        group.push(line);
        if i % 3 == 2 {
            groups.push(group);
            group = Vec::new();
            proof {
                assert((i as int + 1) / 3 == i as int / 3 + 1) by (nonlinear_arith)
                    requires i as int % 3 == 2;
            }
        } else {
            proof {
                assert((i as int + 1) / 3 == i as int / 3 && (i as int + 1) % 3 == i as int % 3
                    + 1) by (nonlinear_arith)
                    requires i as int % 3 < 2, i >= 0;
            }
        }
        i = i + 1;
    }
    groups
}

/// A badge item common to every rucksack of the group: the first item of
/// the first list that all the other lists hold. Groups of one or none have
/// no badge; `None` also means no item is shared by all members.
pub fn find_group_badge(group: &Vec<String>) -> (r: Option<char>)
    ensures
        match r {
            Some(c) => {
                &&& group@.len() >= 2
                &&& group@[0]@.contains(c)
                &&& forall|j: int| 1 <= j < group@.len() ==> (#[trigger] group@[j])@.contains(c)
            },
            None => group@.len() <= 1 || (forall|c: char|
                #[trigger] group@[0]@.contains(c) ==> exists|j: int|
                    1 <= j < group@.len() && !group@[j]@.contains(c)),
        },
{
    if group.len() <= 1 {
        return None;
    }
    let first = chars_of(group[0].as_str());
    let mut i: usize = 0;
    while i < first.len()
        invariant
            first@ == group@[0]@,
            group@.len() >= 2,
            i <= first@.len(),
            forall|k: int|
                0 <= k < i ==> exists|j: int|
                    1 <= j < group@.len() && !group@[j]@.contains(#[trigger] first@[k]),
        decreases first@.len() - i,
    {
        let c = first[i];
        let mut all_contain = true;
        let mut j: usize = 1;
        while j < group.len()
            invariant
                group@.len() >= 2,
                1 <= j <= group@.len(),
                all_contain ==> forall|k: int|
                    1 <= k < j ==> (#[trigger] group@[k])@.contains(c),
                !all_contain ==> exists|k: int| 1 <= k < group@.len() && !group@[k]@.contains(c),
            decreases group@.len() - j,
        {
            if !str_contains_char(group[j].as_str(), c) {
                all_contain = false;
            }
            j = j + 1;
        }
        if all_contain {
            proof {
                assert(group@[0]@[i as int] == c);
            }
            return Some(c);
        }
        i = i + 1;
    }
    proof {
        assert forall|c: char| #[trigger] group@[0]@.contains(c) implies exists|j: int|
            1 <= j < group@.len() && !group@[j]@.contains(c) by {
            let k = choose|k: int| 0 <= k < group@[0]@.len() && group@[0]@[k] == c;
            assert(first@[k] == c);
        }
    }
    None
}

} // verus!
