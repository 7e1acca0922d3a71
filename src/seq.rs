//! Modular 32-bit sequence-number arithmetic.

use vstd::prelude::*;

verus! {

/// 2^32, the size of TCP sequence space.
pub open spec fn seq_modulus() -> int {
    0x1_0000_0000
}

/// Forward distance from `a` to `b` in sequence space, in `[0, 2^32)`.
pub open spec fn seq_dist(a: u32, b: u32) -> int {
    if b >= a {
        b - a
    } else {
        b - a + seq_modulus()
    }
}

/// The sequence number `x` steps after `a` (for `0 <= x < 2^32`).
pub open spec fn seq_advance(a: u32, x: int) -> u32 {
    if a + x >= seq_modulus() {
        (a + x - seq_modulus()) as u32
    } else {
        (a + x) as u32
    }
}

/// `a` comes strictly before `b`: `b` is ahead of `a` by at most 2^31.
pub open spec fn seq_before(a: u32, b: u32) -> bool {
    0 < seq_dist(a, b) <= 0x8000_0000
}

/// Wrapping difference `a - b`: the distance from `b` forward to `a`.
pub fn seq_sub(a: u32, b: u32) -> (r: u32)
    ensures
        r as int == seq_dist(b, a),
{
    a.wrapping_sub(b)
}

/// Wrapping sum `a + b`.
pub fn seq_add(a: u32, b: u32) -> (r: u32)
    ensures
        r == seq_advance(a, b as int),
{
    a.wrapping_add(b)
}

/// Sequence comparison that is correct across the 2^32 boundary.
pub fn seq_lt(a: u32, b: u32) -> (r: bool)
    ensures
        r == seq_before(a, b),
{
    let d = b.wrapping_sub(a);
    0 < d && d <= 0x8000_0000
}

/// Moving forward by at most half the sequence space always lands ahead,
/// even across the 2^32 boundary; by less than half, the start never looks
/// ahead of the result.
pub proof fn lemma_seq_order_across_wrap(x: u32, d: u32)
    requires
        0 < d <= 0x8000_0000,
    ensures
        seq_before(x, seq_advance(x, d as int)),
        d < 0x8000_0000 ==> !seq_before(seq_advance(x, d as int), x),
        seq_dist(x, seq_advance(x, d as int)) == d,
{
}

/// Distances add up along a path that stays within one turn.
pub proof fn lemma_dist_advance(base: u32, n: u32, x: int)
    requires
        0 <= x,
        seq_dist(base, n) + x < seq_modulus(),
    ensures
        seq_dist(base, seq_advance(n, x)) == seq_dist(base, n) + x,
        seq_dist(n, seq_advance(n, x)) == x,
{
}

/// Advancing toward `b` shortens the distance to it by the step.
pub proof fn lemma_dist_shrink(n: u32, b: u32, x: int)
    requires
        0 <= x <= seq_dist(n, b),
    ensures
        seq_dist(seq_advance(n, x), b) == seq_dist(n, b) - x,
{
}

/// Stepping forward by the distance to `b` reaches `b`.
pub proof fn lemma_advance_dist(a: u32, b: u32)
    ensures
        seq_advance(a, seq_dist(a, b)) == b,
        0 <= seq_dist(a, b) < seq_modulus(),
{
}

/// Distances along one path add up, as long as they stay within one turn.
pub proof fn lemma_dist_add(a: u32, b: u32, c: u32)
    requires
        seq_dist(a, b) + seq_dist(b, c) < seq_modulus(),
    ensures
        seq_dist(a, c) == seq_dist(a, b) + seq_dist(b, c),
{
}

/// Two steps are one step of their sum.
pub proof fn lemma_advance_twice(a: u32, x: int, y: int)
    requires
        0 <= x,
        0 <= y,
        x + y < seq_modulus(),
    ensures
        seq_advance(seq_advance(a, x), y) == seq_advance(a, x + y),
{
}

} // verus!
