//! Doubles by their bits.
//!
//! A floating-point number is kept as the 64 bits of its IEEE 754 double,
//! which is also how it travels in a stream. What is done with doubles here
//! is to compare them, and that is done on the bits.

use vstd::prelude::*;

verus! {

/// The bit that holds the sign of a double.
pub const DOUBLE_SIGN: u64 = 0x8000_0000_0000_0000;

/// The bits of positive infinity. A double without its sign is a number, or
/// infinity, up to here, and not a number above.
pub const DOUBLE_INFINITY: u64 = 0x7ff0_0000_0000_0000;

/// The bits of a double without its sign.
pub open spec fn double_magnitude(bits: u64) -> int {
    if bits >= DOUBLE_SIGN {
        bits - DOUBLE_SIGN
    } else {
        bits as int
    }
}

/// The bits are those of a NaN.
pub open spec fn double_is_nan(bits: u64) -> bool {
    double_magnitude(bits) > DOUBLE_INFINITY
}

/// An integer that grows with the double whose bits are given; both zeros
/// have 0.
pub open spec fn double_rank(bits: u64) -> int {
    if bits >= DOUBLE_SIGN {
        -double_magnitude(bits)
    } else {
        double_magnitude(bits)
    }
}

/// The double with the bits `a` is less than or equal to the one with the
/// bits `b`, which no NaN is to anything.
pub open spec fn double_at_most(a: u64, b: u64) -> bool {
    !double_is_nan(a) && !double_is_nan(b) && double_rank(a) <= double_rank(b)
}

/// Whether the double with the bits `a` is less than or equal to the one
/// with the bits `b`.
pub fn double_le(a: u64, b: u64) -> (r: bool)
    ensures
        r == double_at_most(a, b),
{
    let ma: u64 = if a >= DOUBLE_SIGN {
        a - DOUBLE_SIGN
    } else {
        a
    };
    let mb: u64 = if b >= DOUBLE_SIGN {
        b - DOUBLE_SIGN
    } else {
        b
    };
    if ma > DOUBLE_INFINITY || mb > DOUBLE_INFINITY {
        return false;
    }
    if a >= DOUBLE_SIGN {
        if b >= DOUBLE_SIGN {
            mb <= ma
        } else {
            true
        }
    } else {
        if b >= DOUBLE_SIGN {
            ma == 0 && mb == 0
        } else {
            ma <= mb
        }
    }
}

/// The key of a double: an unsigned number that grows with the double. The
/// negative zero has the key just below that of the positive one.
pub open spec fn double_key_of(bits: u64) -> u64 {
    if bits >= DOUBLE_SIGN {
        (u64::MAX - bits) as u64
    } else {
        (bits + DOUBLE_SIGN) as u64
    }
}

/// The key of the double with the given bits; see [`double_key_of`].
pub fn double_key(bits: u64) -> (k: u64)
    ensures
        k == double_key_of(bits),
{
    if bits >= DOUBLE_SIGN {
        u64::MAX - bits
    } else {
        bits + DOUBLE_SIGN
    }
}

/// The keys of two doubles that are numbers are in the order of the
/// doubles: the lesser double has the lesser key, and a double whose key is
/// not above that of another is less than or equal to it.
pub proof fn lemma_double_key_order(a: u64, b: u64)
    requires
        !double_is_nan(a),
        !double_is_nan(b),
    ensures
        double_rank(a) < double_rank(b) ==> double_key_of(a) < double_key_of(b),
        double_key_of(a) <= double_key_of(b) ==> double_at_most(a, b),
{
}

/// No two doubles have one key.
pub proof fn lemma_double_key_one_to_one(a: u64, b: u64)
    requires
        double_key_of(a) == double_key_of(b),
    ensures
        a == b,
{
}

} // verus!
