//! What a sketch declares of its parameters, the viewer reads back.

use crate::parms::schema::{choice_items, int_schema, uint_schema};
use crate::parms::{Choice, Parm};
use crate::rpc::laws::{cmds_fit, encode_cmds, lemma_written_is_read, pairs_fit};
use crate::rpc::reader::{kv_map, read_cmds, CmdView, KvMap};
use crate::rpc::{
    le_digits, le_twos, lemma_int_read_back, lemma_le_digits, lemma_pow256_monotonic,
    lemma_pow256_values, lemma_uint_read_back, pow256, RpcError,
};
use crate::schema::ParmView;
use crate::viewer::{choices_at, output_after, output_of, parm_of, str_at, OutputView};
use vstd::prelude::*;
use vstd::string::StringSliceAdditionalSpecFns;
use vstd::utf8::{
    encode_utf8, encode_utf8_decode_utf8, encode_utf8_valid_utf8, is_ascii_chars_encode_utf8,
};

verus! {

/// The pairs of a declaration: the name of the parameter under `name`, and
/// then what the parameter says of itself.
pub open spec fn declaration(name: Seq<char>, schema: Seq<(Seq<u8>, Seq<u8>)>) -> Seq<
    (Seq<u8>, Seq<u8>),
> {
    seq![("name".spec_bytes(), encode_utf8(name))] + schema
}

/// Inserting one more pair puts its value under its key.
pub proof fn lemma_kv_map_push(pairs: Seq<(Seq<u8>, Seq<u8>)>, k: Seq<u8>, v: Seq<u8>)
    ensures
        kv_map(pairs.push((k, v))) == kv_map(pairs).insert(k, v),
{
    assert(pairs.push((k, v)).drop_last() == pairs);
}

/// The keys of a declaration are six different texts, none of them eight
/// bytes long.
pub proof fn lemma_keys()
    ensures
        "name".spec_bytes().len() == 4,
        "type".spec_bytes().len() == 4,
        "default".spec_bytes().len() == 7,
        "min".spec_bytes().len() == 3,
        "max".spec_bytes().len() == 3,
        "len".spec_bytes().len() == 3,
        "name".spec_bytes() != "type".spec_bytes(),
        "min".spec_bytes() != "max".spec_bytes(),
        "min".spec_bytes() != "len".spec_bytes(),
        "max".spec_bytes() != "len".spec_bytes(),
{
    reveal_strlit("name");
    reveal_strlit("type");
    reveal_strlit("default");
    reveal_strlit("min");
    reveal_strlit("max");
    reveal_strlit("len");
    is_ascii_chars_encode_utf8("name"@);
    is_ascii_chars_encode_utf8("type"@);
    is_ascii_chars_encode_utf8("default"@);
    is_ascii_chars_encode_utf8("min"@);
    is_ascii_chars_encode_utf8("max"@);
    is_ascii_chars_encode_utf8("len"@);
    assert("name"@[0] == 'n' && "type"@[0] == 't');
    assert("min"@[1] == 'i' && "max"@[1] == 'a' && "len"@[1] == 'e');
    assert("min"@[0] == 'm' && "len"@[0] == 'l');
}

/// The names of the types are six different texts.
pub proof fn lemma_types()
    ensures
        "bool"@ != "int"@,
        "bool"@ != "uint"@,
        "bool"@ != "double"@,
        "bool"@ != "string"@,
        "bool"@ != "choice"@,
        "int"@ != "uint"@,
        "int"@ != "double"@,
        "int"@ != "string"@,
        "int"@ != "choice"@,
        "uint"@ != "double"@,
        "uint"@ != "string"@,
        "uint"@ != "choice"@,
        "double"@ != "string"@,
        "double"@ != "choice"@,
        "string"@ != "choice"@,
{
    reveal_strlit("bool");
    reveal_strlit("int");
    reveal_strlit("uint");
    reveal_strlit("double");
    reveal_strlit("string");
    reveal_strlit("choice");
    assert("bool"@[0] == 'b' && "uint"@[0] == 'u');
    assert("double"@[0] == 'd' && "string"@[0] == 's' && "choice"@[0] == 'c');
}

/// A text that was written is read as that text.
pub proof fn lemma_text_read_back(kv: KvMap, k: Seq<u8>, text: Seq<char>)
    requires
        kv.dom().contains(k),
        kv[k] == encode_utf8(text),
    ensures
        str_at(kv, k) == Ok::<_, RpcError>(text),
{
    encode_utf8_valid_utf8(text);
    encode_utf8_decode_utf8(text);
}

/// A truth value that a sketch declares is read back.
pub proof fn lemma_bool_read_back(name: Seq<char>, value: bool)
    ensures
        parm_of(kv_map(declaration(name, value.schema()))) == Ok::<_, RpcError>(
            Some((name, ParmView::Bool { value })),
        ),
{
    let named = ("name".spec_bytes(), encode_utf8(name));
    let typed = ("type".spec_bytes(), "bool".spec_bytes());
    let second = ("default".spec_bytes(), seq![if value { 1u8 } else { 0u8 }]);
    let none = Seq::<(Seq<u8>, Seq<u8>)>::empty();
    let all = declaration(name, seq![typed, second]);
    assert(all == none.push(named).push(typed).push(second));
    lemma_kv_map_push(none, named.0, named.1);
    lemma_kv_map_push(none.push(named), typed.0, typed.1);
    lemma_kv_map_push(none.push(named).push(typed), second.0, second.1);
    lemma_keys();
    let kv = kv_map(all);
    lemma_text_read_back(kv, named.0, name);
    lemma_text_read_back(kv, typed.0, "bool"@);
}

/// A text that a sketch declares is read back.
pub proof fn lemma_string_read_back(name: Seq<char>, text: String)
    ensures
        parm_of(kv_map(declaration(name, text.schema()))) == Ok::<_, RpcError>(
            Some((name, ParmView::String { value: text@ })),
        ),
{
    let value = text@;
    let named = ("name".spec_bytes(), encode_utf8(name));
    let typed = ("type".spec_bytes(), "string".spec_bytes());
    let second = ("default".spec_bytes(), encode_utf8(value));
    let none = Seq::<(Seq<u8>, Seq<u8>)>::empty();
    let all = declaration(name, seq![typed, second]);
    assert(all == none.push(named).push(typed).push(second));
    lemma_kv_map_push(none, named.0, named.1);
    lemma_kv_map_push(none.push(named), typed.0, typed.1);
    lemma_kv_map_push(none.push(named).push(typed), second.0, second.1);
    lemma_keys();
    lemma_types();
    let kv = kv_map(all);
    lemma_text_read_back(kv, named.0, name);
    lemma_text_read_back(kv, typed.0, "string"@);
    lemma_text_read_back(kv, second.0, value);
}

/// An unsigned number of at most eight bytes that a sketch declares is read
/// back with its limits.
pub proof fn lemma_uint_parm_read_back(name: Seq<char>, value: nat, max: nat, width: nat)
    requires
        width <= 8,
        value < pow256(width),
        max < pow256(width),
    ensures
        parm_of(kv_map(declaration(name, uint_schema(value, max, width)))) == Ok::<_, RpcError>(
            Some((name, ParmView::UInt { value: value as u64, min: 0, max: max as u64 })),
        ),
{
    let named = ("name".spec_bytes(), encode_utf8(name));
    let typed = ("type".spec_bytes(), "uint".spec_bytes());
    let second = ("min".spec_bytes(), le_digits(0, width));
    let third = ("max".spec_bytes(), le_digits(max, width));
    let fourth = ("default".spec_bytes(), le_digits(value, width));
    let none = Seq::<(Seq<u8>, Seq<u8>)>::empty();
    let all = declaration(name, uint_schema(value, max, width));
    assert(all == none.push(named).push(typed).push(second).push(third).push(fourth));
    lemma_kv_map_push(none, named.0, named.1);
    lemma_kv_map_push(none.push(named), typed.0, typed.1);
    lemma_kv_map_push(none.push(named).push(typed), second.0, second.1);
    lemma_kv_map_push(none.push(named).push(typed).push(second), third.0, third.1);
    lemma_kv_map_push(none.push(named).push(typed).push(second).push(third), fourth.0, fourth.1);
    lemma_keys();
    lemma_types();
    let kv = kv_map(all);
    lemma_text_read_back(kv, named.0, name);
    lemma_text_read_back(kv, typed.0, "uint"@);
    crate::rpc::lemma_pow256_positive(width);
    lemma_uint_read_back(0, width);
    lemma_uint_read_back(max, width);
    lemma_uint_read_back(value, width);
    lemma_pow256_monotonic(width, 8);
    lemma_pow256_values();
}

/// A signed number of at most eight bytes that a sketch declares is read
/// back with its limits.
pub proof fn lemma_int_parm_read_back(name: Seq<char>, value: int, min: int, max: int, width: nat)
    requires
        0 < width <= 8,
        -(pow256(width) as int) <= 2 * value < pow256(width),
        -(pow256(width) as int) <= 2 * min < pow256(width),
        -(pow256(width) as int) <= 2 * max < pow256(width),
    ensures
        parm_of(kv_map(declaration(name, int_schema(value, min, max, width)))) == Ok::<_, RpcError>(
            Some((name, ParmView::Int { value: value as i64, min: min as i64, max: max as i64 })),
        ),
{
    let named = ("name".spec_bytes(), encode_utf8(name));
    let typed = ("type".spec_bytes(), "int".spec_bytes());
    let second = ("min".spec_bytes(), le_twos(min, width));
    let third = ("max".spec_bytes(), le_twos(max, width));
    let fourth = ("default".spec_bytes(), le_twos(value, width));
    let none = Seq::<(Seq<u8>, Seq<u8>)>::empty();
    let all = declaration(name, int_schema(value, min, max, width));
    assert(all == none.push(named).push(typed).push(second).push(third).push(fourth));
    lemma_kv_map_push(none, named.0, named.1);
    lemma_kv_map_push(none.push(named), typed.0, typed.1);
    lemma_kv_map_push(none.push(named).push(typed), second.0, second.1);
    lemma_kv_map_push(none.push(named).push(typed).push(second), third.0, third.1);
    lemma_kv_map_push(none.push(named).push(typed).push(second).push(third), fourth.0, fourth.1);
    lemma_keys();
    lemma_types();
    let kv = kv_map(all);
    lemma_text_read_back(kv, named.0, name);
    lemma_text_read_back(kv, typed.0, "int"@);
    lemma_int_read_back(min, width);
    lemma_int_read_back(max, width);
    lemma_int_read_back(value, width);
    lemma_pow256_monotonic(width, 8);
    lemma_pow256_values();
}

/// A pair after which its key does not come again has its value in the map.
pub proof fn lemma_kv_map_last(pairs: Seq<(Seq<u8>, Seq<u8>)>, j: int)
    requires
        0 <= j < pairs.len(),
        forall|m: int| j < m < pairs.len() ==> (#[trigger] pairs[m]).0 != pairs[j].0,
    ensures
        kv_map(pairs).dom().contains(pairs[j].0),
        kv_map(pairs)[pairs[j].0] == pairs[j].1,
    decreases pairs.len(),
{
    if j < pairs.len() - 1 {
        assert(pairs.last() == pairs[pairs.len() - 1]);
        assert forall|m: int| j < m < pairs.drop_last().len() implies (#[trigger] pairs.drop_last()[m]).0
            != pairs.drop_last()[j].0 by {
            assert(pairs.drop_last()[m] == pairs[m]);
        }
        lemma_kv_map_last(pairs.drop_last(), j);
    }
}

/// The values of a choice are numbered in their order.
pub proof fn lemma_choice_items(choices: Seq<Seq<char>>, from: nat)
    ensures
        choice_items(choices, from).len() == choices.len(),
        forall|i: int|
            0 <= i < choices.len() ==> #[trigger] choice_items(choices, from)[i] == (
                le_digits((from + i) as nat, 8),
                encode_utf8(choices[i]),
            ),
    decreases choices.len(),
{
    if choices.len() > 0 {
        lemma_choice_items(choices.drop_last(), from);
    }
}

/// The choices that were written under their numbers are read back.
proof fn lemma_choices_read_back(kv: KvMap, choices: Seq<Seq<char>>, n: nat)
    requires
        n <= choices.len(),
        forall|i: int|
            0 <= i < choices.len() ==> kv.dom().contains(#[trigger] le_digits(i as nat, 8)) && kv[le_digits(
                i as nat,
                8,
            )] == encode_utf8(choices[i]),
    ensures
        choices_at(kv, n) == Ok::<_, RpcError>(choices.take(n as int)),
    decreases n,
{
    if n == 0 {
        assert(choices.take(0) == Seq::<Seq<char>>::empty());
    } else {
        lemma_choices_read_back(kv, choices, (n - 1) as nat);
        let k = le_digits((n - 1) as nat, 8);
        assert(kv.dom().contains(k) && kv[k] == encode_utf8(choices[n - 1]));
        lemma_text_read_back(kv, k, choices[n - 1]);
        assert(choices.take(n as int) == choices.take(n - 1).push(choices[n - 1]));
    }
}

/// A choice that a sketch declares is read back with the values to choose
/// from.
pub proof fn lemma_choice_read_back(name: Seq<char>, c: Choice)
    requires
        c@.choices.len() < pow256(8),
    ensures
        parm_of(kv_map(declaration(name, c.schema()))) == Ok::<_, RpcError>(
            Some((name, ParmView::Choice { value: c@.val, choices: c@.choices })),
        ),
{
    let value = c@.val;
    let choices = c@.choices;
    let named = ("name".spec_bytes(), encode_utf8(name));
    let typed = ("type".spec_bytes(), "choice".spec_bytes());
    let second = ("default".spec_bytes(), encode_utf8(value));
    let third = ("len".spec_bytes(), le_digits(choices.len(), 8));
    let items = choice_items(choices, 0);
    let all = declaration(name, seq![typed, second, third] + items);
    let kv = kv_map(all);
    lemma_choice_items(choices, 0);
    lemma_keys();
    lemma_types();
    lemma_pow256_values();
    assert(all.len() == 4 + choices.len());
    assert(all[0] == named && all[1] == typed && all[2] == second && all[3] == third);
    assert forall|m: int| 4 <= m < all.len() implies (#[trigger] all[m]) == (
        le_digits((m - 4) as nat, 8),
        encode_utf8(choices[m - 4]),
    ) && all[m].0.len() == 8 by {
        assert(all[m] == items[m - 4]);
        lemma_le_digits((m - 4) as nat, 8);
    }
    lemma_kv_map_last(all, 0);
    lemma_kv_map_last(all, 1);
    lemma_kv_map_last(all, 2);
    lemma_kv_map_last(all, 3);
    lemma_text_read_back(kv, named.0, name);
    lemma_text_read_back(kv, typed.0, "choice"@);
    lemma_text_read_back(kv, second.0, value);
    lemma_uint_read_back(choices.len(), 8);
    assert forall|i: int| 0 <= i < choices.len() implies kv.dom().contains(
        #[trigger] le_digits(i as nat, 8),
    ) && kv[le_digits(i as nat, 8)] == encode_utf8(choices[i]) by {
        assert forall|m: int| 4 + i < m < all.len() implies (#[trigger] all[m]).0 != all[4 + i].0 by {
            lemma_uint_read_back((m - 4) as nat, 8);
            lemma_uint_read_back(i as nat, 8);
        }
        lemma_kv_map_last(all, 4 + i);
    }
    lemma_choices_read_back(kv, choices, choices.len());
    assert(choices.take(choices.len() as int) == choices);
}

/// The commands by which a sketch declares parameters: one `PARM` command
/// for each, with the pairs of its declaration.
pub open spec fn declarations(decls: Seq<Seq<(Seq<u8>, Seq<u8>)>>) -> Seq<
    (Seq<u8>, Seq<(Seq<u8>, Seq<u8>)>),
> {
    Seq::new(decls.len(), |i: int| ("PARM".spec_bytes(), decls[i]))
}

/// The commands that declare parameters, read one after the other, give the
/// manifest of those parameters.
proof fn lemma_declarations_give_manifest(
    decls: Seq<Seq<(Seq<u8>, Seq<u8>)>>,
    parms: Seq<(Seq<char>, ParmView)>,
)
    requires
        decls.len() == parms.len(),
        forall|i: int|
            0 <= i < decls.len() ==> parm_of(kv_map(#[trigger] decls[i])) == Ok::<_, RpcError>(
                Some(parms[i]),
            ),
    ensures
        output_of(
            Seq::new(decls.len(), |i: int| Ok::<_, RpcError>(declarations(decls)[i])),
        ) == Ok::<_, RpcError>(OutputView { manifest: parms, svg_filepath: None }),
    decreases decls.len(),
{
    let cmds: Seq<CmdView> = Seq::new(
        decls.len(),
        |i: int| Ok::<_, RpcError>(declarations(decls)[i]),
    );
    if decls.len() == 0 {
        assert(parms == Seq::<(Seq<char>, ParmView)>::empty());
    } else {
        let before: Seq<CmdView> = Seq::new(
            decls.drop_last().len(),
            |i: int| Ok::<_, RpcError>(declarations(decls.drop_last())[i]),
        );
        assert(cmds.drop_last() == before);
        assert forall|i: int| 0 <= i < decls.drop_last().len() implies parm_of(
            kv_map(#[trigger] decls.drop_last()[i]),
        ) == Ok::<_, RpcError>(Some(parms.drop_last()[i])) by {
            assert(decls.drop_last()[i] == decls[i]);
        }
        lemma_declarations_give_manifest(decls.drop_last(), parms.drop_last());
        reveal(output_after);
        reveal_strlit("PARM");
        reveal_strlit("SVG");
        is_ascii_chars_encode_utf8("PARM"@);
        is_ascii_chars_encode_utf8("SVG"@);
        assert(cmds.last() == Ok::<_, RpcError>(("PARM".spec_bytes(), decls.last())));
        assert(decls.last() == decls[decls.len() - 1]);
        assert(parms.drop_last().push(parms.last()) == parms);
    }
}

/// A stream of `PARM` commands, as a sketch writes them to declare its
/// parameters, is read by the viewer as the manifest of those parameters,
/// in their order, where each declaration alone is read as its parameter.
pub proof fn lemma_declared_is_read(
    decls: Seq<Seq<(Seq<u8>, Seq<u8>)>>,
    parms: Seq<(Seq<char>, ParmView)>,
)
    requires
        decls.len() == parms.len(),
        forall|i: int| 0 <= i < decls.len() ==> pairs_fit(#[trigger] decls[i]),
        forall|i: int|
            0 <= i < decls.len() ==> parm_of(kv_map(#[trigger] decls[i])) == Ok::<_, RpcError>(
                Some(parms[i]),
            ),
    ensures
        output_of(read_cmds(encode_cmds(declarations(decls)), 0)) == Ok::<_, RpcError>(
            OutputView { manifest: parms, svg_filepath: None },
        ),
{
    reveal_strlit("PARM");
    is_ascii_chars_encode_utf8("PARM"@);
    lemma_pow256_values();
    assert(cmds_fit(declarations(decls)));
    lemma_written_is_read(declarations(decls));
    lemma_declarations_give_manifest(decls, parms);
}

} // verus!
