//! The receiving side: a stream is cut into commands, and the values of a
//! command are read as text or as numbers.

use super::{
    le_signed, le_value, lemma_le_value_bound, lemma_pow256_monotonic, lemma_pow256_values,
    pow256, RpcError, CMD_END_TAG, CMD_START_TAG, DATA_TAG,
};
use vstd::prelude::*;
use vstd::slice::{slice_subrange, slice_to_vec};
use vstd::utf8::{decode_utf8, valid_utf8};

verus! {

/// The keys of a command with their values, as the contracts see them.
pub type KvMap = Map<Seq<u8>, Seq<u8>>;

/// The map that comes of inserting the pairs one after the other: of two
/// pairs with one key the later one stays.
pub open spec fn kv_map(pairs: Seq<(Seq<u8>, Seq<u8>)>) -> KvMap
    decreases pairs.len(),
{
    if pairs.len() == 0 {
        Map::empty()
    } else {
        kv_map(pairs.drop_last()).insert(pairs.last().0, pairs.last().1)
    }
}

/// The keys of a command with their values. Keys and values are parts of the
/// stream that the command was read from.
#[derive(Debug)]
pub struct KvCmd<'a> {
    pairs: Vec<(&'a [u8], &'a [u8])>,
}

impl<'a> KvCmd<'a> {
    /// The pairs in the order in which they were inserted.
    pub closed spec fn pairs(&self) -> Seq<(Seq<u8>, Seq<u8>)> {
        Seq::new(self.pairs@.len(), |i: int| (self.pairs@[i].0@, self.pairs@[i].1@))
    }
}

impl<'a> View for KvCmd<'a> {
    type V = KvMap;

    open spec fn view(&self) -> KvMap {
        kv_map(self.pairs())
    }
}

/// Whether `a` and `b` hold the same bytes.
pub(crate) fn same_bytes(a: &[u8], b: &[u8]) -> (r: bool)
    ensures
        r == (a@ == b@),
{
    if a.len() != b.len() {
        return false;
    }
    let mut i: usize = 0;
    while i < a.len()
        invariant
            0 <= i <= a@.len(),
            a@.len() == b@.len(),
            forall|j: int| 0 <= j < i ==> a@[j] == b@[j],
        decreases a@.len() - i,
    {
        if a[i] != b[i] {
            return false;
        }
        i += 1;
    }
    assert(a@ =~= b@);
    true
}

impl<'a> KvCmd<'a> {
    /// A command without keys.
    pub fn new() -> (kv: Self)
        ensures
            kv@ == KvMap::empty(),
            kv.pairs() == Seq::<(Seq<u8>, Seq<u8>)>::empty(),
    {
        let kv = KvCmd { pairs: Vec::new() };
        assert(kv.pairs() == Seq::<(Seq<u8>, Seq<u8>)>::empty());
        kv
    }

    /// Puts `value` under `key`, in place of what was there.
    pub fn insert(&mut self, key: &'a [u8], value: &'a [u8])
        ensures
            final(self)@ == old(self)@.insert(key@, value@),
            final(self).pairs() == old(self).pairs().push((key@, value@)),
    {
        self.pairs.push((key, value));
        assert(self.pairs() == old(self).pairs().push((key@, value@)));
        assert(self.pairs().drop_last() == old(self).pairs());
    }

    /// The value under `key`, if there is one.
    pub fn get(&self, key: &[u8]) -> (r: Option<&'a [u8]>)
        ensures
            match r {
                Some(v) => self@.dom().contains(key@) && v@ == self@[key@],
                None => !self@.dom().contains(key@),
            },
    {
        let mut i: usize = self.pairs.len();
        let ghost all = self.pairs();
        assert(all.take(i as int) == all);
        while i > 0
            invariant
                0 <= i <= self.pairs@.len(),
                all == self.pairs(),
                kv_map(all.take(i as int)).dom().contains(key@) == kv_map(all).dom().contains(key@),
                kv_map(all).dom().contains(key@) ==> kv_map(all.take(i as int))[key@] == kv_map(
                    all,
                )[key@],
            decreases i,
        {
            i -= 1;
            proof {
                assert(all.take(i + 1).drop_last() == all.take(i as int));
                assert(all.take(i + 1).last() == all[i as int]);
            }
            if same_bytes(self.pairs[i].0, key) {
                return Some(self.pairs[i].1);
            }
        }
        proof {
            assert(all.take(0) == Seq::<(Seq<u8>, Seq<u8>)>::empty());
        }
        None
    }
}

/// What reading one frame with the tag `tag` at `pos` gives: its payload and
/// the place after it. After a frame at least one more byte must follow.
pub open spec fn read_frame(data: Seq<u8>, pos: int, tag: u8) -> Result<(Seq<u8>, int), RpcError> {
    if pos >= data.len() {
        Err(RpcError::Truncated)
    } else if data[pos] != tag {
        Err(RpcError::TagMismatch { expected: tag })
    } else if pos + 8 >= data.len() {
        Err(RpcError::Truncated)
    } else if pos + 9 + le_value(data.subrange(pos + 1, pos + 9)) >= data.len() {
        Err(RpcError::Truncated)
    } else {
        Ok(
            (
                data.subrange(pos + 9, pos + 9 + le_value(data.subrange(pos + 1, pos + 9))),
                pos + 9 + le_value(data.subrange(pos + 1, pos + 9)),
            ),
        )
    }
}

/// What reading the pairs of a command from `pos` on gives: the pairs up to
/// the end frame, and the place after the nine bytes of that frame.
pub open spec fn read_pairs(data: Seq<u8>, pos: int) -> Result<(Seq<(Seq<u8>, Seq<u8>)>, int), RpcError>
    decreases data.len() - pos,
{
    if pos < 0 || pos >= data.len() {
        Err(RpcError::Truncated)
    } else if data[pos] == CMD_END_TAG {
        Ok((Seq::empty(), pos + 9))
    } else {
        match read_frame(data, pos, DATA_TAG) {
            Err(e) => Err(e),
            Ok((key, after_key)) => match read_frame(data, after_key, DATA_TAG) {
                Err(e) => Err(e),
                Ok((value, after_value)) => match read_pairs(data, after_value) {
                    Err(e) => Err(e),
                    Ok((rest, end)) => Ok((seq![(key, value)] + rest, end)),
                },
            },
        }
    }
}

/// The pairs of a command end after the place where they start.
pub proof fn lemma_read_pairs_advances(data: Seq<u8>, pos: int)
    ensures
        read_pairs(data, pos) matches Ok((pairs, end)) ==> pos < end,
    decreases data.len() - pos,
{
    if 0 <= pos < data.len() && data[pos] != CMD_END_TAG {
        match read_frame(data, pos, DATA_TAG) {
            Err(e) => {},
            Ok((key, after_key)) => match read_frame(data, after_key, DATA_TAG) {
                Err(e) => {},
                Ok((value, after_value)) => {
                    lemma_read_pairs_advances(data, after_value);
                },
            },
        }
    }
}

/// What reading one command at `pos` gives: its name, its pairs, and the
/// place after it.
pub open spec fn read_cmd(data: Seq<u8>, pos: int) -> Result<
    (Seq<u8>, Seq<(Seq<u8>, Seq<u8>)>, int),
    RpcError,
> {
    match read_frame(data, pos, CMD_START_TAG) {
        Err(e) => Err(e),
        Ok((name, after_name)) => match read_pairs(data, after_name) {
            Err(e) => Err(e),
            Ok((pairs, end)) => Ok((name, pairs, end)),
        },
    }
}

/// The commands of the stream from `pos` on, each with its name and its
/// pairs. What cannot be read ends the sequence with its error.
pub open spec fn read_cmds(data: Seq<u8>, pos: int) -> Seq<
    Result<(Seq<u8>, Seq<(Seq<u8>, Seq<u8>)>), RpcError>,
>
    decreases data.len() - pos,
{
    if pos < 0 || pos >= data.len() {
        Seq::empty()
    } else {
        match read_cmd(data, pos) {
            Err(e) => seq![Err(e)],
            Ok((name, pairs, end)) => if pos < end < data.len() {
                seq![Ok((name, pairs))] + read_cmds(data, end)
            } else {
                seq![Ok((name, pairs))]
            },
        }
    }
}

/// A command as the contracts see it: its name and its pairs, or the error
/// that stands in its place.
pub type CmdView = Result<(Seq<u8>, Seq<(Seq<u8>, Seq<u8>)>), RpcError>;

/// What `c` holds.
pub open spec fn cmd_view(c: Result<(&[u8], KvCmd), RpcError>) -> CmdView {
    match c {
        Ok((name, kv)) => Ok((name@, kv.pairs())),
        Err(e) => Err(e),
    }
}

/// What each of `cmds` holds.
pub open spec fn cmds_view(cmds: Seq<Result<(&[u8], KvCmd), RpcError>>) -> Seq<CmdView> {
    Seq::new(cmds.len(), |i: int| cmd_view(cmds[i]))
}

/// The number that at most eight bytes spell in little-endian order.
fn le_number(d: &[u8]) -> (r: u64)
    requires
        d@.len() <= 8,
    ensures
        r == le_value(d@),
{
    let mut acc: u64 = 0;
    let mut i: usize = d.len();
    assert(d@.skip(i as int) == Seq::<u8>::empty());
    while i > 0
        invariant
            0 <= i <= d@.len() <= 8,
            acc == le_value(d@.skip(i as int)),
        decreases i,
    {
        proof {
            lemma_le_value_bound(d@.skip(i as int));
            lemma_pow256_monotonic((d@.len() - i) as nat, 7);
            lemma_pow256_values();
            assert(d@.skip(i - 1).skip(1) == d@.skip(i as int));
        }
        i -= 1;
        acc = acc * 256 + d[i] as u64;
    }
    assert(d@.skip(0) == d@);
    acc
}

/// Reads the frame with the tag `tag` at `pos`; see [`read_frame`].
fn read_data<'a>(data: &'a [u8], pos: usize, tag: u8) -> (r: Result<(&'a [u8], usize), RpcError>)
    ensures
        match r {
            Ok((d, next)) => read_frame(data@, pos as int, tag) == Ok::<_, RpcError>(
                (d@, next as int),
            ) && pos < next < data@.len(),
            Err(e) => read_frame(data@, pos as int, tag) == Err::<(Seq<u8>, int), _>(e),
        },
{
    let len = data.len();
    if pos >= len {
        return Err(RpcError::Truncated);
    }
    if data[pos] != tag {
        return Err(RpcError::TagMismatch { expected: tag });
    }
    if len - pos <= 8 {
        return Err(RpcError::Truncated);
    }
    let size = le_number(slice_subrange(data, pos + 1, pos + 9));
    let start: usize = pos + 9;
    if size >= (len - start) as u64 {
        return Err(RpcError::Truncated);
    }
    let end: usize = start + size as usize;
    Ok((slice_subrange(data, start, end), end))
}

/// Reads the pairs of a command from `pos` on; see [`read_pairs`]. The place
/// that is returned is the end of the stream where the command ends beyond it.
fn read_kv<'a>(data: &'a [u8], pos: usize) -> (r: Result<(KvCmd<'a>, usize), RpcError>)
    requires
        pos < data@.len(),
    ensures
        match r {
            Ok((kv, next)) => read_pairs(data@, pos as int) matches Ok((pairs, end)) && pairs
                == kv.pairs() && pos < end && next == if end < data@.len() {
                end
            } else {
                data@.len() as int
            },
            Err(e) => read_pairs(data@, pos as int) == Err::<(Seq<(Seq<u8>, Seq<u8>)>, int), _>(e),
        },
{
    let mut kv = KvCmd::new();
    let mut p: usize = pos;
    proof {
        lemma_read_pairs_advances(data@, pos as int);
        match read_pairs(data@, pos as int) {
            Ok((rest, end)) => {
                assert(kv.pairs() + rest == rest);
            },
            Err(e) => {},
        }
    }
    loop
        invariant
            pos <= p < data@.len(),
            match read_pairs(data@, p as int) {
                Ok((rest, end)) => read_pairs(data@, pos as int) == Ok::<_, RpcError>(
                    (kv.pairs() + rest, end),
                ) && p < end,
                Err(e) => read_pairs(data@, pos as int) == Err::<(Seq<(Seq<u8>, Seq<u8>)>, int), _>(
                    e,
                ),
            },
        decreases data@.len() - p,
    {
        if data[p] == CMD_END_TAG {
            let next = if data.len() - p > 9 {
                p + 9
            } else {
                data.len()
            };
            assert(kv.pairs() + Seq::<(Seq<u8>, Seq<u8>)>::empty() == kv.pairs());
            return Ok((kv, next));
        }
        let (key, after_key) = match read_data(data, p, DATA_TAG) {
            Ok(r) => r,
            Err(e) => {
                return Err(e);
            },
        };
        let (value, after_value) = match read_data(data, after_key, DATA_TAG) {
            Ok(r) => r,
            Err(e) => {
                return Err(e);
            },
        };
        let ghost before = kv.pairs();
        kv.insert(key, value);
        proof {
            lemma_read_pairs_advances(data@, after_value as int);
            match read_pairs(data@, after_value as int) {
                Ok((rest, end)) => {
                    assert(before + (seq![(key@, value@)] + rest) == kv.pairs() + rest);
                },
                Err(e) => {},
            }
        }
        p = after_value;
    }
}

/// Cuts the stream into its commands, each with its name and its pairs.
///
/// A command that cannot be read ends the result with its error.
pub fn parse_cmds<'a>(data: &'a [u8]) -> (r: Vec<Result<(&'a [u8], KvCmd<'a>), RpcError>>)
    ensures
        cmds_view(r@) == read_cmds(data@, 0),
{
    let mut out: Vec<Result<(&'a [u8], KvCmd<'a>), RpcError>> = Vec::new();
    let mut p: usize = 0;
    assert(cmds_view(out@) == Seq::<CmdView>::empty());
    while p < data.len()
        invariant
            0 <= p <= data@.len(),
            cmds_view(out@) + read_cmds(data@, p as int) == read_cmds(data@, 0),
        decreases data@.len() - p,
    {
        let ghost before = cmds_view(out@);
        let (name, after_name) = match read_data(data, p, CMD_START_TAG) {
            Ok(r) => r,
            Err(e) => {
                out.push(Err(e));
                proof {
                    assert(cmds_view(out@) == before + seq![Err::<(Seq<u8>, Seq<(Seq<u8>, Seq<u8>)>), _>(e)]);
                }
                return out;
            },
        };
        let (kv, next) = match read_kv(data, after_name) {
            Ok(r) => r,
            Err(e) => {
                out.push(Err(e));
                proof {
                    assert(cmds_view(out@) == before + seq![Err::<(Seq<u8>, Seq<(Seq<u8>, Seq<u8>)>), _>(e)]);
                }
                return out;
            },
        };
        let ghost pairs = kv.pairs();
        out.push(Ok((name, kv)));
        proof {
            let one: CmdView = Ok((name@, pairs));
            assert(cmds_view(out@) == before + seq![one]);
            if next < data@.len() {
                assert(before + (seq![one] + read_cmds(data@, next as int)) == cmds_view(out@)
                    + read_cmds(data@, next as int));
            } else {
                assert(read_cmds(data@, next as int) == Seq::<CmdView>::empty());
                assert(cmds_view(out@) + Seq::<CmdView>::empty() == cmds_view(out@));
            }
        }
        p = next;
    }
    assert(cmds_view(out@) + Seq::<CmdView>::empty() == cmds_view(out@));
    out
}

/// `String::from_utf8`: the text that the bytes encode, where they are valid
/// UTF-8, and nothing where they are not.
#[verifier::external_body]
fn string_from_utf8(bytes: Vec<u8>) -> (r: Option<String>)
    ensures
        match r {
            Some(s) => valid_utf8(bytes@) && s@ == decode_utf8(bytes@),
            None => !valid_utf8(bytes@),
        },
{
    String::from_utf8(bytes).ok()
}

/// The value under `k` as text.
///
/// Fails with `NotFound` where there is no such key, and with `InvalidUtf8`
/// where the value is no UTF-8.
pub fn get_str(kv: &KvCmd, k: &[u8]) -> (r: Result<String, RpcError>)
    ensures
        match r {
            Ok(s) => kv@.dom().contains(k@) && valid_utf8(kv@[k@]) && s@ == decode_utf8(kv@[k@]),
            Err(e) => if kv@.dom().contains(k@) {
                e == RpcError::InvalidUtf8 && !valid_utf8(kv@[k@])
            } else {
                e == RpcError::NotFound
            },
        },
{
    match kv.get(k) {
        None => Err(RpcError::NotFound),
        Some(v) => match string_from_utf8(slice_to_vec(v)) {
            Some(s) => Ok(s),
            None => Err(RpcError::InvalidUtf8),
        },
    }
}

/// The value under `k` as a signed number: the two's complement of as many
/// little-endian bytes as the value has, and 0 for none.
///
/// Fails with `NotFound` where there is no such key, and with `InvalidNumber`
/// where the value has more than eight bytes.
pub fn get_int(kv: &KvCmd, k: &[u8]) -> (r: Result<i64, RpcError>)
    ensures
        match r {
            Ok(n) => kv@.dom().contains(k@) && kv@[k@].len() <= 8 && n == le_signed(kv@[k@]),
            Err(e) => if kv@.dom().contains(k@) {
                e == RpcError::InvalidNumber && kv@[k@].len() > 8
            } else {
                e == RpcError::NotFound
            },
        },
{
    let d = match kv.get(k) {
        None => {
            return Err(RpcError::NotFound);
        },
        Some(d) => d,
    };
    if d.len() > 8 {
        return Err(RpcError::InvalidNumber);
    }
    let n = le_number(d);
    proof {
        lemma_le_value_bound(d@);
        lemma_pow256_values();
    }
    if d.len() == 8 {
        if n >= 0x8000_0000_0000_0000 {
            Ok((n - 0x8000_0000_0000_0000) as i64 + i64::MIN)
        } else {
            Ok(n as i64)
        }
    } else {
        let mut limit: u64 = 1;
        let mut i: usize = 0;
        while i < d.len()
            invariant
                0 <= i <= d@.len() < 8,
                limit == pow256(i as nat),
            decreases d@.len() - i,
        {
            proof {
                lemma_pow256_monotonic(i as nat, 6);
                lemma_pow256_values();
            }
            limit = limit * 256;
            i += 1;
        }
        proof {
            lemma_pow256_monotonic(d@.len(), 7);
        }
        if d.len() > 0 && n >= limit / 2 {
            Ok(n as i64 - limit as i64)
        } else {
            Ok(n as i64)
        }
    }
}

/// The value under `k` as an unsigned number, spelled in little-endian
/// order.
///
/// Fails with `NotFound` where there is no such key, and with `InvalidNumber`
/// where the value has more than eight bytes.
pub fn get_uint(kv: &KvCmd, k: &[u8]) -> (r: Result<u64, RpcError>)
    ensures
        match r {
            Ok(n) => kv@.dom().contains(k@) && kv@[k@].len() <= 8 && n == le_value(kv@[k@]),
            Err(e) => if kv@.dom().contains(k@) {
                e == RpcError::InvalidNumber && kv@[k@].len() > 8
            } else {
                e == RpcError::NotFound
            },
        },
{
    match kv.get(k) {
        None => Err(RpcError::NotFound),
        Some(d) => if d.len() > 8 {
            Err(RpcError::InvalidNumber)
        } else {
            Ok(le_number(d))
        },
    }
}

} // verus!
