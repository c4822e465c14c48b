//! The target frame rate and the frame budget derived from it.
use vstd::prelude::*;

verus! {

pub open spec fn sorted_ascending(s: Seq<i32>) -> bool {
    forall|i: int, j: int| 0 <= i <= j < s.len() ==> s[i] <= s[j]
}

/// Relies on `slice::sort`: afterwards the vector holds the same values in
/// ascending order.
#[verifier::external_body]
fn sort_ascending(numbers: &mut Vec<i32>)
    ensures
        final(numbers)@.to_multiset() == old(numbers)@.to_multiset(),
        sorted_ascending(final(numbers)@),
{
    numbers.sort();
}

/// Sorts the samples and returns the middle one (the upper middle of an even
/// count).
pub fn median(numbers: &mut Vec<i32>) -> (r: i32)
    requires
        old(numbers)@.len() > 0,
    ensures
        final(numbers)@.to_multiset() == old(numbers)@.to_multiset(),
        final(numbers)@.len() == old(numbers)@.len(),
        sorted_ascending(final(numbers)@),
        r == final(numbers)@[final(numbers)@.len() as int / 2],
{
    sort_ascending(numbers);
    proof {
        numbers@.to_multiset_ensures();
        old(numbers)@.to_multiset_ensures();
        assert(numbers@.len() == old(numbers)@.len());
    }
    let mid = numbers.len() / 2;
    numbers[mid]
}

/// The time budget of one frame, in microseconds, at `target_fps` frames per
/// second; unbounded where the rate is not positive.
pub fn frame_budget_micros(target_fps: i32) -> (r: u64)
    ensures
        target_fps > 0 ==> r == 1_000_000int / (target_fps as int),
        target_fps <= 0 ==> r == u64::MAX,
{
    if target_fps > 0 {
        1_000_000u64 / (target_fps as u64)
    } else {
        u64::MAX
    }
}

} // verus!
