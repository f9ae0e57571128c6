use vstd::prelude::*;

verus! {

/// A statistics counter after `n` more: counters have 32 bits and start over from zero.
pub open spec fn counter_sum(counter: u32, n: int) -> u32 {
    ((counter + n) % 0x1_0000_0000) as u32
}

/// A length as a statistics counter holds it.
pub fn count_of(n: usize) -> (r: u32)
    ensures
        r == counter_sum(0, n as int),
{
    (n as u64 % 0x1_0000_0000u64) as u32
}

/// A statistics counter after `n` more.
pub fn counter_add(counter: u32, n: usize) -> (r: u32)
    ensures
        r == counter_sum(counter, n as int),
{
    counter.wrapping_add(count_of(n))
}

} // verus!
