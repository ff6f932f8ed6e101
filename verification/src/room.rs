//! How much a pool's memory can grow while a list grows, computed at run time and bounded.
use crate::pool::growth_from_to;
use crate::pool::is_pow2;
use crate::pool::push_growth;
use vstd::prelude::*;

verus! {

/// Twice a power of two is a power of two.
pub proof fn lemma_pow2_double(p: nat)
    requires
        is_pow2(p),
    ensures
        is_pow2(2 * p),
{
    assert((2 * p) / 2 == p);
}

/// The only power of two in `(p / 2, p]`, for a power of two `p`, is `p`.
pub proof fn lemma_pow2_between(n: nat, p: nat)
    requires
        is_pow2(n),
        is_pow2(p),
        p / 2 < n <= p,
    ensures
        n == p,
    decreases p,
{
    if p > 1 && n > 1 {
        lemma_pow2_between(n / 2, p / 2);
    }
}

/// Pushes over a longer stretch add at least as much.
pub proof fn lemma_growth_monotone(from: nat, a: nat, b: nat)
    requires
        a <= b,
    ensures
        growth_from_to(from, a) <= growth_from_to(from, b),
    decreases b,
{
    if a < b {
        lemma_growth_monotone(from, a, (b - 1) as nat);
    }
}

/// Growing a list from empty to `n >= 1` words adds at most four times the largest power of two
/// `p <= n`, which is returned.
pub proof fn lemma_growth_from_empty(n: nat) -> (p: nat)
    requires
        n >= 1,
    ensures
        is_pow2(p),
        p <= n < 2 * p,
        growth_from_to(0, n) <= 4 * p,
    decreases n,
{
    if n == 1 {
        assert(growth_from_to(0, 0) == 0);
        1
    } else {
        let q = lemma_growth_from_empty((n - 1) as nat);
        lemma_pow2_double(q);
        if n < 2 * q {
            if n >= 4 && is_pow2(n) {
                lemma_pow2_between(n, 2 * q);
            }
            q
        } else {
            2 * q
        }
    }
}

/// Starting from a longer list adds no more.
pub proof fn lemma_growth_from_le(from: nat, n: nat)
    ensures
        growth_from_to(from, n) <= growth_from_to(0, n),
    decreases n,
{
    if n > 0 && n > from {
        lemma_growth_from_le(from, (n - 1) as nat);
    }
}

/// Whether `n` is a power of two.
pub fn is_power_of_two(n: u64) -> (r: bool)
    requires
        1 <= n <= 0x1_0000_0000,
    ensures
        r == is_pow2(n as nat),
{
    let mut p: u64 = 1;
    while p < n
        invariant
            1 <= p,
            n <= 0x1_0000_0000,
            is_pow2(p as nat),
            p == 1 || p / 2 < n,
            p <= 0x2_0000_0000,
        decreases 0x2_0000_0000 - p,
    {
        proof {
            lemma_pow2_double(p as nat);
        }
        p = p * 2;
    }
    proof {
        if is_pow2(n as nat) {
            lemma_pow2_between(n as nat, p as nat);
        }
    }
    p == n
}

/// The most that one push onto a list of `len` words adds to the pool's memory.
pub fn push_growth_of(len: u64) -> (g: u64)
    requires
        len < 0x1_0000_0000,
    ensures
        g == push_growth(len as nat),
{
    if len == 0 {
        4
    } else if len + 1 >= 4 && is_power_of_two(len + 1) {
        2 * (len + 1)
    } else {
        0
    }
}

/// `growth_from_to(from, to)` when it is at most `limit`, else `None`.
pub fn growth_within(from: u64, to: u64, limit: u64) -> (g: Option<u64>)
    requires
        to < 0x1_0000_0000,
        limit < 0x1_0000_0000,
    ensures
        match g {
            Some(v) => v == growth_from_to(from as nat, to as nat) && v <= limit,
            None => growth_from_to(from as nat, to as nat) > limit,
        },
{
    if to <= from {
        return Some(0);
    }
    let mut acc: u64 = 0;
    let mut i: u64 = from;
    while i < to
        invariant
            from <= i <= to,
            to < 0x1_0000_0000,
            limit < 0x1_0000_0000,
            acc == growth_from_to(from as nat, i as nat),
            acc <= limit,
        decreases to - i,
    {
        let step = push_growth_of(i);
        assert(growth_from_to(from as nat, (i + 1) as nat) == growth_from_to(from as nat, i as nat)
            + push_growth(i as nat));
        acc = acc + step;
        i = i + 1;
        if acc > limit {
            proof {
                lemma_growth_monotone(from as nat, i as nat, to as nat);
            }
            return None;
        }
    }
    Some(acc)
}

/// A pool whose bound is `bound` words has room, by that bound, for the pushes that grow a set
/// from `from` to `to` words: the last push starts from fewer than 2^32 words, and before each
/// push the bound stays below `u32::MAX`.
pub open spec fn bound_has_room(bound: nat, from: nat, to: nat) -> bool {
    to <= from || (to - 1 < 0x1_0000_0000 && bound + growth_from_to(from, (to - 1) as nat)
        < u32::MAX)
}

/// Tests `bound_has_room` at run time.
pub fn has_room(bound: u64, from: usize, to: usize) -> (r: bool)
    ensures
        r == bound_has_room(bound as nat, from as nat, to as nat),
{
    if to <= from {
        return true;
    }
    let last = (to - 1) as u64;
    if last >= 0x1_0000_0000 {
        return false;
    }
    if bound >= 0xffff_ffff {
        return false;
    }
    let limit: u64 = 0xffff_fffe - bound;
    match growth_within(from as u64, last, limit) {
        Some(_) => true,
        None => false,
    }
}

} // verus!
