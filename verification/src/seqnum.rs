//! Arithmetic on 32-bit TCP sequence numbers, which live on a circle of
//! 2^32 points.

use vstd::prelude::*;

verus! {

/// Number of points on the sequence-number circle, 2^32.
pub open spec fn modulus() -> int {
    0x1_0000_0000
}

/// The sequence number `n` steps after `a` (before it, for negative `n`).
pub open spec fn seq_add(a: u32, n: int) -> u32 {
    ((a as int + n) % modulus()) as u32
}

/// How many steps forward lead from `a` to `b`: `(b - a) mod 2^32`.
pub open spec fn distance(a: u32, b: u32) -> int {
    (b as int - a as int) % modulus()
}

/// `a` comes before `b` in the cyclic order: `b` lies less than half the
/// circle ahead of `a`, and is not `a` itself.
pub open spec fn precedes(a: u32, b: u32) -> bool {
    0 < distance(a, b) < 0x8000_0000
}

/// `x` lies strictly after `start` and strictly before `end`.
pub open spec fn strictly_between(start: u32, x: u32, end: u32) -> bool {
    precedes(start, x) && precedes(x, end)
}

/// `distance` agrees with the machine's wrapping subtraction.
pub proof fn lemma_distance_is_wrapping_sub(a: u32, b: u32)
    ensures
        distance(a, b) == vstd::wrapping::u32_specs::wrapping_sub(b, a),
        0 <= distance(a, b) < modulus(),
{
}

/// `seq_add` with a 32-bit step agrees with the machine's wrapping addition,
/// and stepping back by one agrees with wrapping subtraction of one.
pub proof fn lemma_seq_add_is_wrapping(a: u32, n: u32)
    ensures
        seq_add(a, n as int) == vstd::wrapping::u32_specs::wrapping_add(a, n),
        seq_add(a, -(n as int)) == vstd::wrapping::u32_specs::wrapping_sub(a, n),
{
}

/// Modular less-than on sequence numbers.
pub fn wrapping_lt(lhs: u32, rhs: u32) -> (r: bool)
    ensures
        r == precedes(lhs, rhs),
{
    proof {
        lemma_distance_is_wrapping_sub(lhs, rhs);
    }
    let ahead: u32 = rhs.wrapping_sub(lhs);
    0 < ahead && ahead < 0x8000_0000
}

/// Whether `x` lies in the open cyclic interval from `start` to `end`.
pub fn is_between_wrapped(start: u32, x: u32, end: u32) -> (r: bool)
    ensures
        r == strictly_between(start, x, end),
{
    wrapping_lt(start, x) && wrapping_lt(x, end)
}

/// Two distinct sequence numbers that are not diametrically opposite are
/// ordered one way and not the other; a number never precedes itself.
pub proof fn lemma_trichotomy(a: u32, b: u32)
    requires
        distance(a, b) != 0x8000_0000,
    ensures
        precedes(a, b) || precedes(b, a) || a == b,
        !(precedes(a, b) && precedes(b, a)),
        a == b ==> !precedes(a, b) && !precedes(b, a),
{
}

/// Opposite points of the circle are the one pair that the order leaves
/// unrelated.
pub proof fn lemma_antipodes_unordered(a: u32, b: u32)
    requires
        distance(a, b) == 0x8000_0000,
    ensures
        a != b,
        !precedes(a, b),
        !precedes(b, a),
{
}

/// An open interval contains neither of its endpoints.
pub proof fn lemma_between_excludes_endpoints(start: u32, x: u32, end: u32)
    requires
        x == start || x == end,
    ensures
        !strictly_between(start, x, end),
{
}

/// Moving `nxt` forward by `n` moves it `n` further ahead of `una`, as long
/// as it does not come round to `una` again.
pub proof fn lemma_advance(una: u32, nxt: u32, n: int)
    requires
        0 <= n,
        distance(una, nxt) + n < modulus(),
    ensures
        distance(una, seq_add(nxt, n)) == distance(una, nxt) + n,
{
}

/// While fewer than 2^31 - 1 numbers lie between `una` and `nxt`, the open
/// interval from `una - 1` to `nxt + 1` holds exactly the numbers that are
/// no further ahead of `una` than `nxt` is; and what then remains between
/// such a number and `nxt` is the difference.
pub proof fn lemma_closed_interval(una: u32, nxt: u32, x: u32)
    requires
        distance(una, nxt) < 0x7fff_ffff,
    ensures
        strictly_between(seq_add(una, -1), x, seq_add(nxt, 1)) <==> distance(una, x) <= distance(
            una,
            nxt,
        ),
        distance(una, x) <= distance(una, nxt) ==> distance(x, nxt) == distance(una, nxt)
            - distance(una, x),
{
}

} // verus!
