//! Calorie counting: read one inventory line and keep a running top-three
//! ranking of inventory totals.

use vstd::prelude::*;

use crate::text::is_signed_digits;
use crate::text::parse_i32;
use crate::text::signed_val;

verus! {

/// Where a new inventory total lands in a descending top-three list.
pub open spec fn spec_rank(inventory: int, top3: Seq<i32>) -> Seq<i32> {
    if inventory > top3[0] {
        seq![inventory as i32, top3[0], top3[1]]
    } else if inventory > top3[1] {
        seq![top3[0], inventory as i32, top3[1]]
    } else if inventory > top3[2] {
        seq![top3[0], top3[1], inventory as i32]
    } else {
        top3
    }
}

/// Read one calorie line as a number.
pub fn parse_calories(line: &str) -> (r: i32)
    requires
        is_signed_digits(line@),
        i32::MIN <= signed_val(line@) <= i32::MAX,
    ensures
        r == signed_val(line@),
{
    parse_i32(line)
}

/// Insert an inventory total into a descending top-three list, pushing the
/// smaller entries down.
pub fn rank_in_top3(inventory: &i32, top3: &Vec<i32>) -> (r: Vec<i32>)
    requires
        top3@.len() == 3,
    ensures
        r@ == spec_rank(*inventory as int, top3@),
        r@.len() == 3,
{
    let mut new_top3: Vec<i32> = Vec::new();
    if *inventory > top3[0] {
        new_top3.push(*inventory);
        new_top3.push(top3[0]);
        new_top3.push(top3[1]);
    } else if *inventory > top3[1] {
        new_top3.push(top3[0]);
        new_top3.push(*inventory);
        new_top3.push(top3[1]);
    } else if *inventory > top3[2] {
        new_top3.push(top3[0]);
        new_top3.push(top3[1]);
        new_top3.push(*inventory);
    } else {
        new_top3.push(top3[0]);
        new_top3.push(top3[1]);
        new_top3.push(top3[2]);
    }
    proof {
        assert(new_top3@ =~= spec_rank(*inventory as int, top3@));
    }
    new_top3
}

} // verus!
