//! A double-precision number as its IEEE-754 bit pattern.
//!
//! A sample value is carried as the `u64` that `f64::to_bits` yields: the top
//! bit is the sign, the remaining 63 bits are the magnitude (exponent, then
//! fraction). Everything this module computes is integer arithmetic on that
//! pattern; `f64::from_bits` turns a pattern back into the number.
use vstd::prelude::*;

verus! {

/// The pattern whose only set bit is the sign bit (that of `-0.0`). A pattern
/// is negative exactly when it is at least this large.
pub const SIGN_BIT: u64 = 0x8000_0000_0000_0000;

/// The magnitude of the infinities. Larger magnitudes are NaNs.
pub const INFINITY_BITS: u64 = 0x7ff0_0000_0000_0000;

/// The NaN that stands for every NaN when values are counted.
pub const CANONICAL_NAN: u64 = 0x7ff8_0000_0000_0000;

/// The pattern without its sign bit.
pub open spec fn magnitude(bits: u64) -> u64 {
    if bits >= SIGN_BIT {
        (bits - SIGN_BIT) as u64
    } else {
        bits
    }
}

/// The pattern encodes a NaN.
pub open spec fn nan(bits: u64) -> bool {
    magnitude(bits) > INFINITY_BITS
}

/// The place of a pattern in the IEEE-754 total order, as an integer:
/// patterns compare as their ranks do.
///
/// On numbers the total order is the numeric order, with `-0.0` placed
/// directly below `+0.0`. NaNs with the sign bit come below `-inf`, the other
/// NaNs above `+inf`. No two patterns share a rank.
pub open spec fn rank(bits: u64) -> int {
    if bits >= SIGN_BIT {
        -(magnitude(bits) as int) - 1
    } else {
        bits as int
    }
}

/// The key under which a value is counted: the pattern itself, except that
/// all NaNs share one key. Two values have the same key exactly when they are
/// the same value bit for bit, or are both NaN; `-0.0` and `+0.0` are counted
/// apart.
pub open spec fn key_of(bits: u64) -> u64 {
    if nan(bits) {
        CANONICAL_NAN
    } else {
        bits
    }
}

/// `s` is in ascending total order.
pub open spec fn ascending(s: Seq<u64>) -> bool {
    forall|i: int, j: int| 0 <= i < j < s.len() ==> rank(s[i]) <= rank(s[j])
}

/// Whether the pattern encodes a NaN.
pub fn is_nan(bits: u64) -> (r: bool)
    ensures
        r == nan(bits),
{
    let mag: u64 = if bits >= SIGN_BIT {
        bits - SIGN_BIT
    } else {
        bits
    };
    mag > INFINITY_BITS
}

/// The rank of a pattern in the total order, which fits an `i64` exactly.
pub fn ordering_key(bits: u64) -> (k: i64)
    ensures
        k == rank(bits),
{
    if bits >= SIGN_BIT {
        let mag: u64 = bits - SIGN_BIT;
        -(mag as i64) - 1
    } else {
        bits as i64
    }
}

/// The key under which a value is counted.
pub fn frequency_key(bits: u64) -> (k: u64)
    ensures
        k == key_of(bits),
{
    if is_nan(bits) {
        CANONICAL_NAN
    } else {
        bits
    }
}

/// Distinct patterns have distinct ranks.
pub proof fn lemma_rank_injective(a: u64, b: u64)
    ensures
        rank(a) == rank(b) <==> a == b,
{
}

/// Keys are canonical, and they identify a value up to the choice of NaN.
pub proof fn lemma_key_of_collision_free(a: u64, b: u64)
    ensures
        key_of(key_of(a)) == key_of(a),
        nan(key_of(a)) == nan(a),
        key_of(a) == key_of(b) <==> (a == b || (nan(a) && nan(b))),
{
}

} // verus!
