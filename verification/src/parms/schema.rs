//! How a parameter describes itself to the viewer: as the pairs of a
//! command, with its type, its default and, for a number, its limits, or,
//! for a choice, the values to choose from.

use super::Choice;
use crate::rpc::laws::{encode_pairs, lemma_encode_pairs_push};
use crate::rpc::{
    le_bytes, le_digits, le_twos, lemma_le_digits_mod, lemma_pow256_add, lemma_pow256_positive,
    lemma_pow256_values, pow256, usize_to_u64, Rpc,
};
use vstd::prelude::*;
use vstd::string::StringSliceAdditionalSpecFns;

verus! {

/// The pairs that describe an unsigned number of `width` bytes.
pub open spec fn uint_schema(value: nat, max: nat, width: nat) -> Seq<(Seq<u8>, Seq<u8>)> {
    seq![
        ("type".spec_bytes(), "uint".spec_bytes()),
        ("min".spec_bytes(), le_digits(0, width)),
        ("max".spec_bytes(), le_digits(max, width)),
        ("default".spec_bytes(), le_digits(value, width)),
    ]
}

/// The pairs that describe a signed number of `width` bytes.
pub open spec fn int_schema(value: int, min: int, max: int, width: nat) -> Seq<(Seq<u8>, Seq<u8>)> {
    seq![
        ("type".spec_bytes(), "int".spec_bytes()),
        ("min".spec_bytes(), le_twos(min, width)),
        ("max".spec_bytes(), le_twos(max, width)),
        ("default".spec_bytes(), le_twos(value, width)),
    ]
}

/// The pairs that number the values of a choice from `from` on: the number
/// as eight little-endian bytes is the key of each.
pub open spec fn choice_items(choices: Seq<Seq<char>>, from: nat) -> Seq<(Seq<u8>, Seq<u8>)>
    decreases choices.len(),
{
    if choices.len() == 0 {
        Seq::empty()
    } else {
        choice_items(choices.drop_last(), from).push(
            (
                le_digits((from + choices.len() - 1) as nat, 8),
                vstd::utf8::encode_utf8(choices.last()),
            ),
        )
    }
}

/// Writes one pair after those that were written since `start`.
fn send(
    rpc: &mut Rpc,
    key: &[u8],
    d: &[u8],
    Ghost(start): Ghost<Seq<u8>>,
    Ghost(sent): Ghost<Seq<(Seq<u8>, Seq<u8>)>>,
)
    requires
        old(rpc)@ == start + encode_pairs(sent),
    ensures
        final(rpc)@ == start + encode_pairs(sent.push((key@, d@))),
{
    rpc.kv(key, d);
    proof {
        lemma_encode_pairs_push(sent, key@, d@);
    }
}

/// Writes the pairs that describe an unsigned number of `width` bytes.
fn send_uint(rpc: &mut Rpc, value: u128, max: u128, width: usize)
    ensures
        final(rpc)@ == old(rpc)@ + encode_pairs(uint_schema(value as nat, max as nat, width as nat)),
{
    let ghost start = rpc@;
    let ghost none = Seq::<(Seq<u8>, Seq<u8>)>::empty();
    assert(start + encode_pairs(none) == start);
    send(rpc, "type".as_bytes(), "uint".as_bytes(), Ghost(start), Ghost(none));
    let ghost one = none.push(("type".spec_bytes(), "uint".spec_bytes()));
    let lo = le_bytes(0, width);
    send(rpc, "min".as_bytes(), lo.as_slice(), Ghost(start), Ghost(one));
    let ghost two = one.push(("min".spec_bytes(), lo@));
    let hi = le_bytes(max, width);
    send(rpc, "max".as_bytes(), hi.as_slice(), Ghost(start), Ghost(two));
    let ghost three = two.push(("max".spec_bytes(), hi@));
    let default = le_bytes(value, width);
    send(rpc, "default".as_bytes(), default.as_slice(), Ghost(start), Ghost(three));
    assert(three.push(("default".spec_bytes(), default@)) == uint_schema(
        value as nat,
        max as nat,
        width as nat,
    ));
}

/// The `width` bytes of `v` as a two's complement.
fn twos_bytes(v: i128, width: usize) -> (r: Vec<u8>)
    requires
        width <= 16,
    ensures
        r@ == le_twos(v as int, width as nat),
{
    let n: u128 = if v >= 0 {
        v as u128
    } else {
        (v - i128::MIN) as u128 + 0x8000_0000_0000_0000_0000_0000_0000_0000u128
    };
    proof {
        let p = pow256(width as nat) as int;
        lemma_pow256_positive(width as nat);
        lemma_pow256_add(width as nat, (16 - width) as nat);
        lemma_pow256_add(8, 8);
        lemma_pow256_values();
        assert(pow256(16) == 0x1_0000_0000_0000_0000_0000_0000_0000_0000) by (nonlinear_arith)
            requires
                pow256(16) == pow256(8) * pow256(8),
                pow256(8) == 0x1_0000_0000_0000_0000,
        ;
        lemma_le_digits_mod(n as nat, width as nat);
        if v < 0 {
            let k = pow256((16 - width) as nat) as int;
            assert(n == p * k + v) by (nonlinear_arith)
                requires
                    n == v + pow256(16),
                    pow256(16) == p * k,
            ;
            vstd::arithmetic::div_mod::lemma_mod_multiples_vanish(k, v as int, p);
        }
    }
    le_bytes(n, width)
}

/// Writes the pairs that describe a signed number of `width` bytes.
fn send_int(rpc: &mut Rpc, value: i128, min: i128, max: i128, width: usize)
    requires
        width <= 16,
    ensures
        final(rpc)@ == old(rpc)@ + encode_pairs(
            int_schema(value as int, min as int, max as int, width as nat),
        ),
{
    let ghost start = rpc@;
    let ghost none = Seq::<(Seq<u8>, Seq<u8>)>::empty();
    assert(start + encode_pairs(none) == start);
    send(rpc, "type".as_bytes(), "int".as_bytes(), Ghost(start), Ghost(none));
    let ghost one = none.push(("type".spec_bytes(), "int".spec_bytes()));
    let lo = twos_bytes(min, width);
    send(rpc, "min".as_bytes(), lo.as_slice(), Ghost(start), Ghost(one));
    let ghost two = one.push(("min".spec_bytes(), lo@));
    let hi = twos_bytes(max, width);
    send(rpc, "max".as_bytes(), hi.as_slice(), Ghost(start), Ghost(two));
    let ghost three = two.push(("max".spec_bytes(), hi@));
    let default = twos_bytes(value, width);
    send(rpc, "default".as_bytes(), default.as_slice(), Ghost(start), Ghost(three));
    assert(three.push(("default".spec_bytes(), default@)) == int_schema(
        value as int,
        min as int,
        max as int,
        width as nat,
    ));
}

/// A parameter of a sketch that can describe itself to the viewer.
pub trait Parm {
    /// The keys and the values that describe the parameter.
    spec fn schema(&self) -> Seq<(Seq<u8>, Seq<u8>)>;

    /// Writes the description of the parameter as pairs.
    fn send_schema(&self, rpc: &mut Rpc)
        ensures
            final(rpc)@ == old(rpc)@ + encode_pairs(self.schema()),
    ;
}

impl Parm for bool {
    open spec fn schema(&self) -> Seq<(Seq<u8>, Seq<u8>)> {
        seq![
            ("type".spec_bytes(), "bool".spec_bytes()),
            ("default".spec_bytes(), seq![if *self { 1u8 } else { 0u8 }]),
        ]
    }

    fn send_schema(&self, rpc: &mut Rpc) {
        let ghost start = rpc@;
        let ghost none = Seq::<(Seq<u8>, Seq<u8>)>::empty();
        assert(start + encode_pairs(none) == start);
        send(rpc, "type".as_bytes(), "bool".as_bytes(), Ghost(start), Ghost(none));
        let ghost one = none.push(("type".spec_bytes(), "bool".spec_bytes()));
        let mut value: Vec<u8> = Vec::new();
        value.push(if *self { 1 } else { 0 });
        send(rpc, "default".as_bytes(), value.as_slice(), Ghost(start), Ghost(one));
        assert(value@ == seq![if *self { 1u8 } else { 0u8 }]);
        assert(one.push(("default".spec_bytes(), value@)) == self.schema());
    }
}

impl Parm for String {
    open spec fn schema(&self) -> Seq<(Seq<u8>, Seq<u8>)> {
        seq![
            ("type".spec_bytes(), "string".spec_bytes()),
            ("default".spec_bytes(), vstd::utf8::encode_utf8(self@)),
        ]
    }

    fn send_schema(&self, rpc: &mut Rpc) {
        let ghost start = rpc@;
        let ghost none = Seq::<(Seq<u8>, Seq<u8>)>::empty();
        assert(start + encode_pairs(none) == start);
        send(rpc, "type".as_bytes(), "string".as_bytes(), Ghost(start), Ghost(none));
        let ghost one = none.push(("type".spec_bytes(), "string".spec_bytes()));
        send(rpc, "default".as_bytes(), self.as_str().as_bytes(), Ghost(start), Ghost(one));
        assert(one.push(("default".spec_bytes(), vstd::utf8::encode_utf8(self@))) == self.schema());
    }
}

impl Parm for Choice {
    open spec fn schema(&self) -> Seq<(Seq<u8>, Seq<u8>)> {
        seq![
            ("type".spec_bytes(), "choice".spec_bytes()),
            ("default".spec_bytes(), vstd::utf8::encode_utf8(self@.val)),
            ("len".spec_bytes(), le_digits(self@.choices.len(), 8)),
        ] + choice_items(self@.choices, 0)
    }

    fn send_schema(&self, rpc: &mut Rpc) {
        let ghost start = rpc@;
        let ghost none = Seq::<(Seq<u8>, Seq<u8>)>::empty();
        assert(start + encode_pairs(none) == start);
        send(rpc, "type".as_bytes(), "choice".as_bytes(), Ghost(start), Ghost(none));
        let ghost one = none.push(("type".spec_bytes(), "choice".spec_bytes()));
        send(rpc, "default".as_bytes(), self.value().as_bytes(), Ghost(start), Ghost(one));
        let ghost two = one.push(("default".spec_bytes(), vstd::utf8::encode_utf8(self@.val)));
        let choices = self.choices();
        let len = le_bytes(usize_to_u64(choices.len()) as u128, 8);
        send(rpc, "len".as_bytes(), len.as_slice(), Ghost(start), Ghost(two));
        let ghost head = two.push(("len".spec_bytes(), len@));
        let mut i: usize = 0;
        assert(self@.choices.take(0) == Seq::<Seq<char>>::empty());
        assert(head + choice_items(self@.choices.take(0), 0) == head);
        while i < choices.len()
            invariant
                0 <= i <= choices@.len(),
                self@.choices == Seq::new(choices@.len(), |j: int| choices@[j]@),
                rpc@ == start + encode_pairs(head + choice_items(self@.choices.take(i as int), 0)),
            decreases choices@.len() - i,
        {
            let key = le_bytes(usize_to_u64(i) as u128, 8);
            let ghost sent = head + choice_items(self@.choices.take(i as int), 0);
            send(rpc, key.as_slice(), choices[i].as_bytes(), Ghost(start), Ghost(sent));
            proof {
                let next = self@.choices.take(i + 1);
                assert(next.drop_last() == self@.choices.take(i as int));
                assert(next.last() == choices@[i as int]@);
                assert(sent.push((key@, choices@[i as int].spec_bytes())) == head + choice_items(
                    next,
                    0,
                ));
            }
            i += 1;
        }
        assert(self@.choices.take(i as int) == self@.choices);
        assert(head == seq![
            ("type".spec_bytes(), "choice".spec_bytes()),
            ("default".spec_bytes(), vstd::utf8::encode_utf8(self@.val)),
            ("len".spec_bytes(), le_digits(self@.choices.len(), 8)),
        ]);
    }
}

impl Parm for u8 {
    open spec fn schema(&self) -> Seq<(Seq<u8>, Seq<u8>)> {
        uint_schema(*self as nat, u8::MAX as nat, 1)
    }

    fn send_schema(&self, rpc: &mut Rpc) {
        send_uint(rpc, *self as u128, u8::MAX as u128, 1)
    }
}

impl Parm for u16 {
    open spec fn schema(&self) -> Seq<(Seq<u8>, Seq<u8>)> {
        uint_schema(*self as nat, u16::MAX as nat, 2)
    }

    fn send_schema(&self, rpc: &mut Rpc) {
        send_uint(rpc, *self as u128, u16::MAX as u128, 2)
    }
}

impl Parm for u32 {
    open spec fn schema(&self) -> Seq<(Seq<u8>, Seq<u8>)> {
        uint_schema(*self as nat, u32::MAX as nat, 4)
    }

    fn send_schema(&self, rpc: &mut Rpc) {
        send_uint(rpc, *self as u128, u32::MAX as u128, 4)
    }
}

impl Parm for u64 {
    open spec fn schema(&self) -> Seq<(Seq<u8>, Seq<u8>)> {
        uint_schema(*self as nat, u64::MAX as nat, 8)
    }

    fn send_schema(&self, rpc: &mut Rpc) {
        send_uint(rpc, *self as u128, u64::MAX as u128, 8)
    }
}

impl Parm for u128 {
    open spec fn schema(&self) -> Seq<(Seq<u8>, Seq<u8>)> {
        uint_schema(*self as nat, u128::MAX as nat, 16)
    }

    fn send_schema(&self, rpc: &mut Rpc) {
        send_uint(rpc, *self, u128::MAX, 16)
    }
}

impl Parm for usize {
    open spec fn schema(&self) -> Seq<(Seq<u8>, Seq<u8>)> {
        uint_schema(*self as nat, usize::MAX as nat, (usize::BITS / 8) as nat)
    }

    fn send_schema(&self, rpc: &mut Rpc) {
        send_uint(rpc, *self as u128, usize::MAX as u128, (usize::BITS / 8) as usize)
    }
}

impl Parm for i8 {
    open spec fn schema(&self) -> Seq<(Seq<u8>, Seq<u8>)> {
        int_schema(*self as int, i8::MIN as int, i8::MAX as int, 1)
    }

    fn send_schema(&self, rpc: &mut Rpc) {
        send_int(rpc, *self as i128, i8::MIN as i128, i8::MAX as i128, 1)
    }
}

impl Parm for i16 {
    open spec fn schema(&self) -> Seq<(Seq<u8>, Seq<u8>)> {
        int_schema(*self as int, i16::MIN as int, i16::MAX as int, 2)
    }

    fn send_schema(&self, rpc: &mut Rpc) {
        send_int(rpc, *self as i128, i16::MIN as i128, i16::MAX as i128, 2)
    }
}

impl Parm for i32 {
    open spec fn schema(&self) -> Seq<(Seq<u8>, Seq<u8>)> {
        int_schema(*self as int, i32::MIN as int, i32::MAX as int, 4)
    }

    fn send_schema(&self, rpc: &mut Rpc) {
        send_int(rpc, *self as i128, i32::MIN as i128, i32::MAX as i128, 4)
    }
}

impl Parm for i64 {
    open spec fn schema(&self) -> Seq<(Seq<u8>, Seq<u8>)> {
        int_schema(*self as int, i64::MIN as int, i64::MAX as int, 8)
    }

    fn send_schema(&self, rpc: &mut Rpc) {
        send_int(rpc, *self as i128, i64::MIN as i128, i64::MAX as i128, 8)
    }
}

impl Parm for i128 {
    open spec fn schema(&self) -> Seq<(Seq<u8>, Seq<u8>)> {
        int_schema(*self as int, i128::MIN as int, i128::MAX as int, 16)
    }

    fn send_schema(&self, rpc: &mut Rpc) {
        send_int(rpc, *self, i128::MIN, i128::MAX, 16)
    }
}

impl Parm for isize {
    open spec fn schema(&self) -> Seq<(Seq<u8>, Seq<u8>)> {
        int_schema(*self as int, isize::MIN as int, isize::MAX as int, (isize::BITS / 8) as nat)
    }

    fn send_schema(&self, rpc: &mut Rpc) {
        send_int(rpc, *self as i128, isize::MIN as i128, isize::MAX as i128, (isize::BITS / 8) as usize)
    }
}

} // verus!
