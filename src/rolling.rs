//! The rolling decode-latency estimate: a bounded FIFO of the most recent
//! decode durations and their arithmetic mean.
use vstd::prelude::*;
use std::collections::VecDeque;
use vstd::arithmetic::div_mod::{lemma_div_is_ordered, lemma_div_multiples_vanish};

verus! {

/// How many of the most recent decode durations the estimate keeps.
pub const ROLLING_WINDOW: usize = 100;

pub open spec fn seq_sum(s: Seq<u64>) -> int
    decreases s.len(),
{
    if s.len() == 0 {
        0
    } else {
        seq_sum(s.drop_last()) + s.last()
    }
}

/// The arithmetic mean of `s`, rounded down; 0 for an empty sequence.
pub open spec fn seq_mean(s: Seq<u64>) -> int {
    if s.len() == 0 {
        0
    } else {
        seq_sum(s) / (s.len() as int)
    }
}

/// The window after `value` arrives: appended, and the oldest value dropped
/// once more than `ROLLING_WINDOW` are held.
pub open spec fn window_after_push(s: Seq<u64>, value: u64) -> Seq<u64> {
    if s.len() + 1 > ROLLING_WINDOW {
        s.push(value).drop_first()
    } else {
        s.push(value)
    }
}

proof fn lemma_sum_bound(s: Seq<u64>)
    ensures
        0 <= seq_sum(s) <= s.len() * (u64::MAX as int),
    decreases s.len(),
{
    if s.len() > 0 {
        lemma_sum_bound(s.drop_last());
    }
}

/// The mean of the durations held, rounded down to a whole time unit.
pub fn average(numbers: &VecDeque<u64>) -> (r: u64)
    ensures
        r == seq_mean(numbers@),
{
    let n = numbers.len();
    let mut sum: u128 = 0;
    let mut i: usize = 0;
    while i < n
        invariant
            n == numbers@.len(),
            i <= n,
            sum == seq_sum(numbers@.take(i as int)),
            sum <= i * (u64::MAX as int),
        decreases n - i,
    {
        assert(numbers@.take(i as int + 1).drop_last() =~= numbers@.take(i as int));
        assert((i as int + 1) * (u64::MAX as int) <= 0x1_0000_0000_0000_0000 * (u64::MAX as int)) by (nonlinear_arith)
            requires i < n, n <= usize::MAX, usize::MAX < 0x1_0000_0000_0000_0000;
        sum = sum + numbers[i] as u128;
        i = i + 1;
    }
    assert(numbers@.take(n as int) =~= numbers@);
    if n == 0 {
        0
    } else {
        proof {
            lemma_div_is_ordered(sum as int, n * (u64::MAX as int), n as int);
            lemma_div_multiples_vanish(u64::MAX as int, n as int);
        }
        (sum / (n as u128)) as u64
    }
}

/// Records a new decode duration and returns the mean over the window.
pub fn new_rolling_average(new_value: u64, rolling_decode_buffer: &mut VecDeque<u64>) -> (r: u64)
    requires
        old(rolling_decode_buffer)@.len() <= ROLLING_WINDOW,
    ensures
        final(rolling_decode_buffer)@ == window_after_push(old(rolling_decode_buffer)@, new_value),
        final(rolling_decode_buffer)@.len() <= ROLLING_WINDOW,
        r == seq_mean(final(rolling_decode_buffer)@),
{
    rolling_decode_buffer.push_back(new_value);
    if rolling_decode_buffer.len() > ROLLING_WINDOW {
        rolling_decode_buffer.pop_front();
    }
    average(rolling_decode_buffer)
}

/// A full window stays full: the new value goes to the back and the oldest
/// value leaves from the front.
pub proof fn lemma_full_window_evicts_oldest(s: Seq<u64>, value: u64)
    requires
        s.len() == ROLLING_WINDOW,
    ensures
        window_after_push(s, value).len() == ROLLING_WINDOW,
        window_after_push(s, value) == s.drop_first().push(value),
{
    assert(s.push(value).drop_first() =~= s.drop_first().push(value));
}

} // verus!
