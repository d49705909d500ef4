//! What the writer writes, the reader reads back.

use super::reader::{read_cmd, read_cmds, read_frame, read_pairs, CmdView};
use super::{
    frame, le_digits, le_value, lemma_le_digits, lemma_pow256_values, pow256, CMD_END_TAG,
    CMD_START_TAG, DATA_TAG,
};
use vstd::prelude::*;

verus! {

/// The frames of the pairs, a key frame and a value frame for each.
pub open spec fn encode_pairs(pairs: Seq<(Seq<u8>, Seq<u8>)>) -> Seq<u8>
    decreases pairs.len(),
{
    if pairs.len() == 0 {
        Seq::empty()
    } else {
        frame(DATA_TAG, pairs[0].0) + frame(DATA_TAG, pairs[0].1) + encode_pairs(pairs.skip(1))
    }
}

/// The bytes of the command with the given name and pairs.
pub open spec fn encode_cmd(name: Seq<u8>, pairs: Seq<(Seq<u8>, Seq<u8>)>) -> Seq<u8> {
    frame(CMD_START_TAG, name) + encode_pairs(pairs) + frame(CMD_END_TAG, Seq::empty())
}

/// The bytes of the commands, one after the other.
pub open spec fn encode_cmds(cmds: Seq<(Seq<u8>, Seq<(Seq<u8>, Seq<u8>)>)>) -> Seq<u8>
    decreases cmds.len(),
{
    if cmds.len() == 0 {
        Seq::empty()
    } else {
        encode_cmd(cmds[0].0, cmds[0].1) + encode_cmds(cmds.skip(1))
    }
}

/// Every key and every value is short enough for its length to be written
/// in eight bytes.
pub open spec fn pairs_fit(pairs: Seq<(Seq<u8>, Seq<u8>)>) -> bool {
    forall|i: int|
        0 <= i < pairs.len() ==> (#[trigger] pairs[i]).0.len() < pow256(8) && pairs[i].1.len()
            < pow256(8)
}

/// Every name, key and value is short enough for its length to be written
/// in eight bytes.
pub open spec fn cmds_fit(cmds: Seq<(Seq<u8>, Seq<(Seq<u8>, Seq<u8>)>)>) -> bool {
    forall|i: int|
        0 <= i < cmds.len() ==> (#[trigger] cmds[i]).0.len() < pow256(8) && pairs_fit(cmds[i].1)
}

/// A frame has nine bytes before its payload.
pub proof fn lemma_frame_len(tag: u8, d: Seq<u8>)
    ensures
        frame(tag, d).len() == 9 + d.len(),
        frame(tag, d)[0] == tag,
        frame(tag, d).subrange(1, 9) == le_digits(d.len(), 8),
        frame(tag, d).subrange(9, 9 + d.len() as int) == d,
{
    reveal(frame);
    lemma_le_digits(d.len(), 8);
}

/// A frame that something follows is read back, wherever it stands.
pub proof fn lemma_read_frame(pre: Seq<u8>, tag: u8, d: Seq<u8>, post: Seq<u8>)
    requires
        d.len() < pow256(8),
        post.len() > 0,
    ensures
        read_frame(pre + frame(tag, d) + post, pre.len() as int, tag) == Ok::<_, super::RpcError>(
            (d, (pre.len() + 9 + d.len()) as int),
        ),
{
    let data = pre + frame(tag, d) + post;
    let pos = pre.len() as int;
    lemma_frame_len(tag, d);
    lemma_le_digits(d.len(), 8);
    lemma_pow256_values();
    assert(data[pos] == frame(tag, d)[0]);
    assert(data.subrange(pos + 1, pos + 9) == frame(tag, d).subrange(1, 9));
    assert(le_value(data.subrange(pos + 1, pos + 9)) == d.len()) by {
        vstd::arithmetic::div_mod::lemma_small_mod(d.len(), pow256(8));
    }
    assert(data.subrange(pos + 9, pos + 9 + d.len()) == frame(tag, d).subrange(9, 9 + d.len() as int));
}

/// Writing one more pair appends its two frames.
pub proof fn lemma_encode_pairs_push(pairs: Seq<(Seq<u8>, Seq<u8>)>, key: Seq<u8>, value: Seq<u8>)
    ensures
        encode_pairs(pairs.push((key, value))) == encode_pairs(pairs) + frame(DATA_TAG, key)
            + frame(DATA_TAG, value),
    decreases pairs.len(),
{
    let more = pairs.push((key, value));
    reveal_with_fuel(encode_pairs, 2);
    if pairs.len() == 0 {
        assert(more.skip(1) == Seq::<(Seq<u8>, Seq<u8>)>::empty());
        assert(encode_pairs(more) == frame(DATA_TAG, key) + frame(DATA_TAG, value)
            + Seq::<u8>::empty());
        assert(encode_pairs(more) == Seq::<u8>::empty() + frame(DATA_TAG, key) + frame(
            DATA_TAG,
            value,
        ));
    } else {
        assert(more.skip(1) == pairs.skip(1).push((key, value)));
        lemma_encode_pairs_push(pairs.skip(1), key, value);
        let head = frame(DATA_TAG, pairs[0].0) + frame(DATA_TAG, pairs[0].1);
        let tail = encode_pairs(pairs.skip(1));
        assert(head + (tail + frame(DATA_TAG, key) + frame(DATA_TAG, value)) == head + tail
            + frame(DATA_TAG, key) + frame(DATA_TAG, value));
    }
}

/// The same bytes, grouped in other ways.
proof fn lemma_regroup(pre: Seq<u8>, a: Seq<u8>, b: Seq<u8>, c: Seq<u8>, d: Seq<u8>, e: Seq<u8>)
    ensures
        pre + (a + b + c) + d + e == pre + a + (b + c + d + e),
        pre + (a + b + c) + d + e == (pre + a) + b + (c + d + e),
        pre + (a + b + c) + d + e == (pre + a + b) + c + d + e,
{
}

/// The pairs of a command are read back up to its end frame.
pub proof fn lemma_read_pairs(pre: Seq<u8>, pairs: Seq<(Seq<u8>, Seq<u8>)>, post: Seq<u8>)
    requires
        pairs_fit(pairs),
    ensures
        read_pairs(
            pre + encode_pairs(pairs) + frame(CMD_END_TAG, Seq::empty()) + post,
            pre.len() as int,
        ) == Ok::<_, super::RpcError>(
            (pairs, (pre.len() + encode_pairs(pairs).len() + 9) as int),
        ),
    decreases pairs.len(),
{
    let end = frame(CMD_END_TAG, Seq::empty());
    let data = pre + encode_pairs(pairs) + end + post;
    let pos = pre.len() as int;
    lemma_frame_len(CMD_END_TAG, Seq::empty());
    if pairs.len() == 0 {
        assert(data[pos] == end[0]);
        assert(pairs == Seq::<(Seq<u8>, Seq<u8>)>::empty());
        assert(read_pairs(data, pos) == Ok::<_, super::RpcError>((pairs, pos + 9)));
    } else {
        let key = pairs[0].0;
        let value = pairs[0].1;
        let fk = frame(DATA_TAG, key);
        let fv = frame(DATA_TAG, value);
        let tail = encode_pairs(pairs.skip(1));
        lemma_frame_len(DATA_TAG, key);
        lemma_frame_len(DATA_TAG, value);
        lemma_regroup(pre, fk, fv, tail, end, post);
        assert(data[pos] == fk[0]);
        lemma_read_frame(pre, DATA_TAG, key, fv + tail + end + post);
        lemma_read_frame(pre + fk, DATA_TAG, value, tail + end + post);
        assert(pairs_fit(pairs.skip(1))) by {
            assert forall|i: int| 0 <= i < pairs.skip(1).len() implies (#[trigger] pairs.skip(
                1,
            )[i]).0.len() < pow256(8) && pairs.skip(1)[i].1.len() < pow256(8) by {
                assert(pairs.skip(1)[i] == pairs[i + 1]);
            }
        }
        lemma_read_pairs(pre + fk + fv, pairs.skip(1), post);
        assert(seq![(key, value)] + pairs.skip(1) == pairs);
        assert(read_frame(data, pos, DATA_TAG) == Ok::<_, super::RpcError>(
            (key, (pos + 9 + key.len()) as int),
        ));
        assert(read_frame(data, pos + 9 + key.len(), DATA_TAG) == Ok::<_, super::RpcError>(
            (value, (pos + 9 + key.len() + 9 + value.len()) as int),
        ));
        assert(read_pairs(data, pos + 9 + key.len() + 9 + value.len()) == Ok::<_, super::RpcError>(
            (pairs.skip(1), (pos + encode_pairs(pairs).len() + 9) as int),
        ));
        assert(read_pairs(data, pos) == Ok::<_, super::RpcError>(
            (seq![(key, value)] + pairs.skip(1), (pos + encode_pairs(pairs).len() + 9) as int),
        ));
    }
}

/// A command is read back, wherever it stands.
pub proof fn lemma_read_cmd(
    pre: Seq<u8>,
    name: Seq<u8>,
    pairs: Seq<(Seq<u8>, Seq<u8>)>,
    post: Seq<u8>,
)
    requires
        name.len() < pow256(8),
        pairs_fit(pairs),
    ensures
        read_cmd(pre + encode_cmd(name, pairs) + post, pre.len() as int) == Ok::<_, super::RpcError>(
            (name, pairs, (pre.len() + encode_cmd(name, pairs).len()) as int),
        ),
{
    let start = frame(CMD_START_TAG, name);
    let end = frame(CMD_END_TAG, Seq::empty());
    let body = encode_pairs(pairs);
    let data = pre + encode_cmd(name, pairs) + post;
    lemma_frame_len(CMD_START_TAG, name);
    lemma_frame_len(CMD_END_TAG, Seq::empty());
    assert(data == pre + start + (body + end + post));
    lemma_read_frame(pre, CMD_START_TAG, name, body + end + post);
    assert(data == (pre + start) + body + end + post);
    lemma_read_pairs(pre + start, pairs, post);
}

/// The commands that follow `pre` are read back from there on.
pub proof fn lemma_read_cmds_from(pre: Seq<u8>, cmds: Seq<(Seq<u8>, Seq<(Seq<u8>, Seq<u8>)>)>)
    requires
        cmds_fit(cmds),
    ensures
        read_cmds(pre + encode_cmds(cmds), pre.len() as int) == Seq::new(
            cmds.len(),
            |i: int| Ok::<_, super::RpcError>(cmds[i]),
        ),
    decreases cmds.len(),
{
    let data = pre + encode_cmds(cmds);
    let want = Seq::new(cmds.len(), |i: int| Ok::<_, super::RpcError>(cmds[i]));
    if cmds.len() == 0 {
        assert(data == pre);
        assert(read_cmds(data, pre.len() as int) == want);
    } else {
        let one = encode_cmd(cmds[0].0, cmds[0].1);
        let rest = encode_cmds(cmds.skip(1));
        lemma_frame_len(CMD_START_TAG, cmds[0].0);
        assert(data == pre + one + rest);
        lemma_read_cmd(pre, cmds[0].0, cmds[0].1, rest);
        assert(cmds_fit(cmds.skip(1))) by {
            assert forall|i: int| 0 <= i < cmds.skip(1).len() implies (#[trigger] cmds.skip(
                1,
            )[i]).0.len() < pow256(8) && pairs_fit(cmds.skip(1)[i].1) by {
                assert(cmds.skip(1)[i] == cmds[i + 1]);
            }
        }
        lemma_read_cmds_from(pre + one, cmds.skip(1));
        let tail = Seq::new(cmds.skip(1).len(), |i: int| Ok::<_, super::RpcError>(cmds.skip(1)[i]));
        let end = pre.len() + one.len();
        if end < data.len() {
        } else {
            assert(rest.len() == 0);
            if cmds.skip(1).len() > 0 {
                lemma_frame_len(CMD_START_TAG, cmds.skip(1)[0].0);
                assert(encode_cmds(cmds.skip(1)).len() >= encode_cmd(
                    cmds.skip(1)[0].0,
                    cmds.skip(1)[0].1,
                ).len());
            }
            assert(tail == Seq::<CmdView>::empty());
        }
        assert(want == seq![Ok::<_, super::RpcError>(cmds[0])] + tail);
    }
}

/// A stream of commands, as [`cmd`](super::cmd) writes them, is read back by
/// [`parse_cmds`](super::parse_cmds) as those commands with their names and
/// their pairs, in their order.
pub proof fn lemma_written_is_read(cmds: Seq<(Seq<u8>, Seq<(Seq<u8>, Seq<u8>)>)>)
    requires
        cmds_fit(cmds),
    ensures
        read_cmds(encode_cmds(cmds), 0) == Seq::new(
            cmds.len(),
            |i: int| Ok::<_, super::RpcError>(cmds[i]),
        ),
{
    assert(Seq::<u8>::empty() + encode_cmds(cmds) == encode_cmds(cmds));
    lemma_read_cmds_from(Seq::empty(), cmds);
}

} // verus!
