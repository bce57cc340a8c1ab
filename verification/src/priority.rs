//! Priorities are `f32` scores. The scheduler orders and compares them
//! through their IEEE-754 bit patterns (`f32::to_bits`), which this module
//! interprets: a sign bit, then a magnitude whose numeric order is the
//! order of the absolute values of non-NaN floats.

use vstd::prelude::*;

verus! {

/// Bit pattern of `0.1_f32`, the minimum activity score for a cell to be
/// worth updating.
pub const SLEEP_THRESHOLD_BITS: u32 = 0x3DCC_CCCD;

/// The magnitude bits (all bits but the sign bit) of an `f32`.
pub open spec fn f32_magnitude(bits: u32) -> int {
    if bits >= 0x8000_0000 {
        bits - 0x8000_0000
    } else {
        bits as int
    }
}

/// Whether the bit pattern encodes a NaN: all exponent bits set and a
/// non-zero mantissa, i.e. a magnitude above that of infinity.
pub open spec fn f32_is_nan(bits: u32) -> bool {
    f32_magnitude(bits) > 0x7F80_0000
}

/// The position of a non-NaN `f32` on the number line: non-NaN floats
/// compare exactly as their ranks do, and both zeros have rank 0.
pub open spec fn f32_rank(bits: u32) -> int {
    if bits >= 0x8000_0000 {
        -f32_magnitude(bits)
    } else {
        f32_magnitude(bits)
    }
}

/// IEEE-754 `a > b` on `f32` bit patterns: false whenever either is NaN.
pub open spec fn f32_gt(a: u32, b: u32) -> bool {
    !f32_is_nan(a) && !f32_is_nan(b) && f32_rank(a) > f32_rank(b)
}

/// The total order that `ordered_float::OrderedFloat<f32>` puts on floats:
/// every NaN is equal to every other NaN and greater than all other
/// values; other values compare numerically, so `-0.0 == 0.0`.
pub open spec fn ordered_le(a: u32, b: u32) -> bool {
    f32_is_nan(b) || (!f32_is_nan(a) && f32_rank(a) <= f32_rank(b))
}

/// The integer sort key of a priority.
pub open spec fn spec_priority_key(bits: u32) -> u32 {
    if f32_is_nan(bits) {
        u32::MAX
    } else {
        (0x8000_0000 + f32_rank(bits)) as u32
    }
}

/// Maps the bit pattern of an `f32` priority to an integer key whose
/// numeric order is the `OrderedFloat<f32>` order of the priorities (see
/// [`lemma_priority_key_order`]).
#[verifier::when_used_as_spec(spec_priority_key)]
pub fn priority_key(bits: u32) -> (k: u32)
    ensures
        k == spec_priority_key(bits),
{
    let magnitude = if bits >= 0x8000_0000 {
        bits - 0x8000_0000
    } else {
        bits
    };
    if magnitude > 0x7F80_0000 {
        u32::MAX
    } else if bits >= 0x8000_0000 {
        0x8000_0000 - magnitude
    } else {
        0x8000_0000 + magnitude
    }
}

/// IEEE-754 `a > b` on the bit patterns of two `f32` values.
pub fn f32_bits_gt(a: u32, b: u32) -> (r: bool)
    ensures
        r == f32_gt(a, b),
{
    let ma = if a >= 0x8000_0000 {
        a - 0x8000_0000
    } else {
        a
    };
    let mb = if b >= 0x8000_0000 {
        b - 0x8000_0000
    } else {
        b
    };
    if ma > 0x7F80_0000 || mb > 0x7F80_0000 {
        return false;
    }
    let neg_a = a >= 0x8000_0000;
    let neg_b = b >= 0x8000_0000;
    if !neg_a && !neg_b {
        ma > mb
    } else if neg_a && neg_b {
        ma < mb
    } else if !neg_a {
        ma > 0 || mb > 0
    } else {
        false
    }
}

/// Keys order priorities exactly as `OrderedFloat<f32>` does: one key is
/// at most another iff its priority is at most the other's, and keys are
/// equal iff the priorities are equal (all NaNs alike, `-0.0 == 0.0`).
pub proof fn lemma_priority_key_order(a: u32, b: u32)
    ensures
        (priority_key(a) <= priority_key(b)) <==> ordered_le(a, b),
        (priority_key(a) == priority_key(b)) <==> (ordered_le(a, b) && ordered_le(b, a)),
{
}

/// IEEE `a > b` on bit patterns is the numeric comparison of the two
/// floats: it is false when either is NaN (magnitude bits above those of
/// infinity, `0x7F80_0000`), and otherwise compares the values, which are
/// ordered as the magnitude for a clear sign bit and as minus the
/// magnitude for a set one (so `-0.0` and `0.0` are equal). It agrees with
/// the `OrderedFloat` order and with the priority keys on non-NaN values.
pub proof fn lemma_gt_is_numeric(a: u32, b: u32)
    ensures
        f32_gt(a, b) <==> ({
            let ma: int = if a >= 0x8000_0000 { a - 0x8000_0000 } else { a as int };
            let mb: int = if b >= 0x8000_0000 { b - 0x8000_0000 } else { b as int };
            let va: int = if a >= 0x8000_0000 { -ma } else { ma };
            let vb: int = if b >= 0x8000_0000 { -mb } else { mb };
            ma <= 0x7F80_0000 && mb <= 0x7F80_0000 && va > vb
        }),
        a < 0x7F80_0001 && b < 0x7F80_0001 ==> (f32_gt(a, b) <==> a > b),
        f32_gt(a, b) <==> (!f32_is_nan(a) && !f32_is_nan(b) && !ordered_le(a, b)),
        f32_gt(a, b) <==> (!f32_is_nan(a) && !f32_is_nan(b) && priority_key(a) > priority_key(
            b,
        )),
        f32_gt(a, b) ==> !f32_gt(b, a),
{
}

/// The sleep threshold is the bit pattern of `0.1_f32`, and a positive,
/// non-NaN score exceeds it exactly when its bit pattern is larger.
pub proof fn lemma_threshold(s: u32)
    ensures
        SLEEP_THRESHOLD_BITS == 0x3DCC_CCCD,
        s < 0x7F80_0001 ==> (f32_gt(s, SLEEP_THRESHOLD_BITS) <==> s > 0x3DCC_CCCD),
        s >= 0x8000_0000 ==> !f32_gt(s, SLEEP_THRESHOLD_BITS),
{
}

/// The key of a non-NaN priority is its value shifted to `0x8000_0000`
/// (both zeros map there), NaN keys are `u32::MAX`, and among positive
/// non-NaN bit patterns a larger pattern has a larger key while among
/// negative ones a larger pattern has a smaller key.
pub proof fn lemma_key_value(a: u32, b: u32)
    ensures
        a < 0x7F80_0001 ==> priority_key(a) == 0x8000_0000 + a,
        0x8000_0000 <= a <= 0xFF80_0000 ==> priority_key(a) == 0x1_0000_0000 - a,
        (0x7F80_0000 < a < 0x8000_0000 || a > 0xFF80_0000) ==> priority_key(a) == u32::MAX,
        a < b < 0x7F80_0001 ==> priority_key(a) < priority_key(b),
        0x8000_0000 <= a < b <= 0xFF80_0000 ==> priority_key(a) > priority_key(b),
        priority_key(0) == priority_key(0x8000_0000),
{
}

} // verus!
