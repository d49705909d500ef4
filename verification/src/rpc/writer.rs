//! The sending side: frames are collected in a buffer, which the caller
//! writes out.

use super::{frame, le_digits, CMD_END_TAG, CMD_START_TAG, DATA_TAG};
use vstd::prelude::*;

verus! {

/// `n` as a `u64`.
pub fn usize_to_u64(n: usize) -> (r: u64)
    ensures
        r == n,
{
    n as u64
}

/// The `len` low little-endian bytes of `n`.
pub fn le_bytes(n: u128, len: usize) -> (r: Vec<u8>)
    ensures
        r@ == le_digits(n as nat, len as nat),
{
    let mut out: Vec<u8> = Vec::new();
    let mut rest: u128 = n;
    let mut i: usize = 0;
    while i < len
        invariant
            0 <= i <= len,
            out@.len() == i,
            out@ + le_digits(rest as nat, (len - i) as nat) == le_digits(n as nat, len as nat),
        decreases len - i,
    {
        let ghost before = out@;
        out.push((rest % 256) as u8);
        proof {
            let tail = le_digits((rest / 256) as nat, (len - i - 1) as nat);
            assert(le_digits(rest as nat, (len - i) as nat) == seq![(rest % 256) as u8] + tail);
            assert(out@ + tail == before + (seq![(rest % 256) as u8] + tail));
        }
        rest = rest / 256;
        i += 1;
    }
    assert(out@ + Seq::<u8>::empty() == out@);
    out
}

/// The frames written so far.
pub struct Rpc {
    out: Vec<u8>,
}

impl View for Rpc {
    type V = Seq<u8>;

    closed spec fn view(&self) -> Seq<u8> {
        self.out@
    }
}

impl Rpc {
    /// A writer that has written nothing yet.
    pub fn new() -> (r: Self)
        ensures
            r@ == Seq::<u8>::empty(),
    {
        Rpc { out: Vec::new() }
    }

    /// The bytes of the frames written so far.
    pub fn bytes(&self) -> (r: &[u8])
        ensures
            r@ == self@,
    {
        self.out.as_slice()
    }

    /// Writes a key and its value, each as a data frame.
    pub fn kv(&mut self, key: &[u8], d: &[u8])
        ensures
            final(self)@ == old(self)@ + frame(DATA_TAG, key@) + frame(DATA_TAG, d@),
    {
        self.data(DATA_TAG, key);
        self.data(DATA_TAG, d);
    }

    /// Writes one frame: the tag, the length of `d` as eight little-endian
    /// bytes, and `d`.
    pub fn data(&mut self, tag: u8, d: &[u8])
        ensures
            final(self)@ == old(self)@ + frame(tag, d@),
    {
        let ghost before = self.out@;
        self.out.push(tag);
        let mut len = le_bytes(usize_to_u64(d.len()) as u128, 8);
        self.out.append(&mut len);
        self.out.extend_from_slice(d);
        proof {
            reveal(frame);
            assert(self.out@ == before + frame(tag, d@));
        }
    }
}

/// The bytes of one command: a start frame with its name, the frames of
/// `body`, and an end frame. Nothing where the stream is not enabled.
pub fn cmd(enabled: bool, name: &[u8], body: &Rpc) -> (r: Vec<u8>)
    ensures
        r@ == if enabled {
            frame(CMD_START_TAG, name@) + body@ + frame(CMD_END_TAG, Seq::empty())
        } else {
            Seq::empty()
        },
{
    let mut rpc = Rpc::new();
    if enabled {
        rpc.data(CMD_START_TAG, name);
        rpc.out.extend_from_slice(body.bytes());
        let empty: Vec<u8> = Vec::new();
        rpc.data(CMD_END_TAG, empty.as_slice());
    }
    rpc.out
}

} // verus!
