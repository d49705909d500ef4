//! The byte stream that a sketch sends to its viewer.
//!
//! A command is a run of frames. Each frame is a tag byte, the length of its
//! payload as eight little-endian bytes, and the payload. The first frame of a
//! command has the start tag and holds the command's name; then come pairs of
//! data frames, a key and its value; a frame with the end tag and no payload
//! closes the command.

use vstd::prelude::*;

pub mod laws;
pub mod number;
pub mod reader;
pub mod writer;

pub use number::{
    le_digits, le_signed, le_twos, le_value, lemma_int_read_back, lemma_le_digits,
    lemma_le_digits_mod, lemma_le_value_bound, lemma_pow256_add, lemma_pow256_monotonic,
    lemma_pow256_positive, lemma_pow256_values, lemma_uint_read_back, pow256,
};
pub use reader::{get_int, get_str, get_uint, parse_cmds, KvCmd};
pub use writer::{cmd, le_bytes, usize_to_u64, Rpc};

verus! {

/// The tag of the frame that opens a command and names it.
pub const CMD_START_TAG: u8 = 0xFF;

/// The tag of the frame that closes a command.
pub const CMD_END_TAG: u8 = 0x00;

/// The tag of the frames that hold a key or a value.
pub const DATA_TAG: u8 = 0x0F;

/// Why a stream or a value in it could not be read.
#[derive(Debug, Clone, Copy, PartialEq, Eq, Structural)]
pub enum RpcError {
    /// The stream ends before the frame does.
    Truncated,
    /// A frame starts with another tag than the one that must stand there.
    TagMismatch { expected: u8 },
    /// The command has no value under the key.
    NotFound,
    /// The value is no UTF-8 text.
    InvalidUtf8,
    /// The value is longer than the eight bytes of a number.
    InvalidNumber,
    /// The value has no byte that could be a truth value.
    InvalidBool,
}

/// The frame with the given tag and payload.
#[verifier::opaque]
pub open spec fn frame(tag: u8, d: Seq<u8>) -> Seq<u8> {
    seq![tag] + le_digits(d.len(), 8) + d
}

} // verus!
