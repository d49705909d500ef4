//! Numbers as the stream spells them: in bytes, the lowest first, and
//! signed ones as two's complements.

use vstd::prelude::*;

verus! {

/// 256 to the power `n`.
pub open spec fn pow256(n: nat) -> nat
    decreases n,
{
    if n == 0 {
        1
    } else {
        256 * pow256((n - 1) as nat)
    }
}

/// The number that `d` spells in little-endian order.
pub open spec fn le_value(d: Seq<u8>) -> nat
    decreases d.len(),
{
    if d.len() == 0 {
        0
    } else {
        d[0] as nat + 256 * le_value(d.skip(1))
    }
}

/// The number that `d` spells in little-endian order as a two's complement
/// of as many bytes as `d` has.
pub open spec fn le_signed(d: Seq<u8>) -> int {
    if d.len() > 0 && 2 * le_value(d) >= pow256(d.len()) {
        le_value(d) - pow256(d.len())
    } else {
        le_value(d) as int
    }
}

/// The `len` bytes that spell `v` in little-endian order as a two's
/// complement.
pub open spec fn le_twos(v: int, len: nat) -> Seq<u8> {
    le_digits((v % (pow256(len) as int)) as nat, len)
}

/// The `len` low digits of `n` to the base 256, the lowest first.
pub open spec fn le_digits(n: nat, len: nat) -> Seq<u8>
    decreases len,
{
    if len == 0 {
        Seq::empty()
    } else {
        seq![(n % 256) as u8] + le_digits(n / 256, (len - 1) as nat)
    }
}

/// The powers of 256 that fit a machine word.
pub proof fn lemma_pow256_values()
    ensures
        pow256(0) == 1,
        pow256(1) == 0x100,
        pow256(2) == 0x1_0000,
        pow256(3) == 0x100_0000,
        pow256(4) == 0x1_0000_0000,
        pow256(5) == 0x100_0000_0000,
        pow256(6) == 0x1_0000_0000_0000,
        pow256(7) == 0x100_0000_0000_0000,
        pow256(8) == 0x1_0000_0000_0000_0000,
{
    reveal_with_fuel(pow256, 9);
}

/// A number of `d.len()` little-endian bytes is less than 256 to that power.
pub proof fn lemma_le_value_bound(d: Seq<u8>)
    ensures
        le_value(d) < pow256(d.len()),
    decreases d.len(),
{
    if d.len() > 0 {
        lemma_le_value_bound(d.skip(1));
    }
}

/// The digits of a number spell it, as far as they reach.
pub proof fn lemma_le_digits(n: nat, len: nat)
    ensures
        le_digits(n, len).len() == len,
        le_value(le_digits(n, len)) == n % pow256(len),
    decreases len,
{
    if len == 0 {
    } else {
        let rest = le_digits(n / 256, (len - 1) as nat);
        let all = le_digits(n, len);
        lemma_le_digits(n / 256, (len - 1) as nat);
        assert(all.skip(1) == rest);
        let p = pow256((len - 1) as nat);
        lemma_pow256_positive((len - 1) as nat);
        // n % (256 * p) == n % 256 + 256 * ((n / 256) % p)
        vstd::arithmetic::div_mod::lemma_breakdown(n as int, 256, p as int);
        assert(256 * p == pow256(len));
    }
}

/// The `len` low digits of a number are those of its remainder by 256 to
/// the power `len`.
pub proof fn lemma_le_digits_mod(n: nat, len: nat)
    ensures
        le_digits(n % pow256(len), len) == le_digits(n, len),
    decreases len,
{
    if len > 0 {
        let p = pow256((len - 1) as nat);
        lemma_pow256_positive((len - 1) as nat);
        let m = n % pow256(len);
        vstd::arithmetic::div_mod::lemma_breakdown(n as int, 256, p as int);
        let q = ((n / 256) % p) as int;
        let r = (n % 256) as int;
        assert(m == q * 256 + r) by (nonlinear_arith)
            requires
                m == 256 * q + r,
        ;
        vstd::arithmetic::div_mod::lemma_fundamental_div_mod_converse(m as int, 256, q, r);
        lemma_le_digits_mod(n / 256, (len - 1) as nat);
    }
}

/// The power of a sum is the product of the powers.
pub proof fn lemma_pow256_add(a: nat, b: nat)
    ensures
        pow256(a + b) == pow256(a) * pow256(b),
    decreases a,
{
    if a == 0 {
        assert(pow256(a + b) == 1 * pow256(b));
    } else {
        lemma_pow256_add((a - 1) as nat, b);
        assert(pow256(a + b) == 256 * pow256((a - 1 + b) as nat));
        assert(256 * (pow256((a - 1) as nat) * pow256(b)) == (256 * pow256((a - 1) as nat))
            * pow256(b)) by (nonlinear_arith);
    }
}

/// An unsigned number that fits `len` bytes is read back from them.
pub proof fn lemma_uint_read_back(n: nat, len: nat)
    requires
        n < pow256(len),
    ensures
        le_digits(n, len).len() == len,
        le_value(le_digits(n, len)) == n,
{
    lemma_le_digits(n, len);
    vstd::arithmetic::div_mod::lemma_small_mod(n, pow256(len));
}

/// A signed number that fits `len` bytes is read back from them.
pub proof fn lemma_int_read_back(v: int, len: nat)
    requires
        len > 0,
        -(pow256(len) as int) <= 2 * v < pow256(len),
    ensures
        le_twos(v, len).len() == len,
        le_signed(le_twos(v, len)) == v,
{
    let p = pow256(len) as int;
    lemma_pow256_positive(len);
    let n = (v % p) as nat;
    vstd::arithmetic::div_mod::lemma_mod_bound(v, p);
    lemma_uint_read_back(n, len);
    if v >= 0 {
        vstd::arithmetic::div_mod::lemma_small_mod(v as nat, p as nat);
    } else {
        vstd::arithmetic::div_mod::lemma_small_mod((v + p) as nat, p as nat);
        vstd::arithmetic::div_mod::lemma_mod_add_multiples_vanish(v, p);
    }
}

/// A higher power of 256 is not less.
pub proof fn lemma_pow256_monotonic(a: nat, b: nat)
    requires
        a <= b,
    ensures
        pow256(a) <= pow256(b),
    decreases b,
{
    if a < b {
        lemma_pow256_monotonic(a, (b - 1) as nat);
    }
}

/// A power of 256 is positive.
pub proof fn lemma_pow256_positive(n: nat)
    ensures
        pow256(n) > 0,
    decreases n,
{
    if n > 0 {
        lemma_pow256_positive((n - 1) as nat);
    }
}

} // verus!
