//! Signal tuning: find the first position after which the last
//! `packet_size` characters are all distinct.

use vstd::prelude::*;

use std::collections::VecDeque;

verus! {

/// The window of `size` characters ending at `i` holds no repeats.
pub open spec fn window_distinct(s: Seq<char>, i: int, size: int) -> bool {
    s.subrange(i - size, i).no_duplicates()
}

/// Are all buffered characters distinct?
pub fn check_unique(input: &VecDeque<char>) -> (r: bool)
    ensures
        r == input@.no_duplicates(),
{
    let mut a: usize = 0;
    while a < input.len()
        invariant
            a <= input@.len(),
            forall|x: int, y: int| 0 <= x < y < input@.len() && x < a ==> input@[x] != input@[y],
        decreases input@.len() - a,
    {
        let mut b: usize = a + 1;
        while b < input.len()
            invariant
                a < input@.len(),
                a < b <= input@.len(),
                forall|y: int| a < y < b ==> input@[a as int] != input@[y],
            decreases input@.len() - b,
        {
            if input[a] == input[b] {
                return false;
            }
            b = b + 1;
        }
        a = a + 1;
    }
    true
}

/// The index just past the first run of `packet_size` distinct characters,
/// or zero when the text has no such run before its end.
pub fn find_packet_start(input: &mut String, packet_size: usize) -> (r: i32)
    requires
        packet_size >= 1,
        old(input)@.len() <= 0x7FFF_FFFF,
    ensures
        final(input)@ == old(input)@,
        r != 0 ==> {
            &&& packet_size <= r < old(input)@.len()
            &&& window_distinct(old(input)@, r as int, packet_size as int)
            &&& forall|j: int|
                packet_size <= j < r ==> !window_distinct(old(input)@, j, packet_size as int)
        },
        r == 0 ==> forall|j: int|
            packet_size <= j < old(input)@.len() ==> !window_distinct(
                old(input)@,
                j,
                packet_size as int,
            ),
{
    let s = input.as_str();
    let len = s.unicode_len();
    let mut buf: VecDeque<char> = VecDeque::new();
    let mut i: usize = 0;
    while i < len
        invariant
            s@ == old(input)@,
            len == s@.len(),
            len <= 0x7FFF_FFFF,
            packet_size >= 1,
            i <= len,
            buf@.len() == if i < packet_size {
                i as int
            } else {
                packet_size as int
            },
            buf@ =~= s@.subrange(i - buf@.len(), i as int),
            forall|j: int| packet_size <= j < i ==> !window_distinct(s@, j, packet_size as int),
        decreases len - i,
    {
        let c = s.get_char(i);
        if buf.len() < packet_size {
            buf.push_back(c);
            proof {
                assert(buf@ =~= s@.subrange(0, i as int + 1));
            }
        } else {
            if check_unique(&buf) {
                proof {
                    assert(window_distinct(s@, i as int, packet_size as int));
                }
                return i as i32;
            } else {
                buf.pop_front();
                buf.push_back(c);
                proof {
                    assert(buf@ =~= s@.subrange(i + 1 - packet_size, i + 1));
                }
            }
        }
        i = i + 1;
    }
    0
}

} // verus!
