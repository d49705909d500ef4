//! What the viewer makes of the stream that a sketch has written: the
//! parameters that the sketch declares and the drawing that it has saved.

use crate::parms::{same_text, texts};
use crate::rpc::reader::same_bytes;
use crate::rpc::reader::{cmds_view, kv_map, read_cmds, CmdView, KvMap};
use crate::rpc::{
    get_int, get_str, get_uint, le_bytes, le_digits, le_signed, le_value, parse_cmds, KvCmd,
    RpcError,
};
use crate::schema::{taken, Manifest, Parm, ParmView};
use vstd::prelude::*;
use vstd::string::StringSliceAdditionalSpecFns;
use vstd::utf8::{decode_utf8, valid_utf8};

verus! {

/// The text under `k`, or why there is none.
pub open spec fn str_at(kv: KvMap, k: Seq<u8>) -> Result<Seq<char>, RpcError> {
    if !kv.dom().contains(k) {
        Err(RpcError::NotFound)
    } else if !valid_utf8(kv[k]) {
        Err(RpcError::InvalidUtf8)
    } else {
        Ok(decode_utf8(kv[k]))
    }
}

/// The unsigned number under `k`, or why there is none.
pub open spec fn uint_at(kv: KvMap, k: Seq<u8>) -> Result<u64, RpcError> {
    if !kv.dom().contains(k) {
        Err(RpcError::NotFound)
    } else if kv[k].len() > 8 {
        Err(RpcError::InvalidNumber)
    } else {
        Ok(le_value(kv[k]) as u64)
    }
}

/// The signed number under `k`, or why there is none.
pub open spec fn int_at(kv: KvMap, k: Seq<u8>) -> Result<i64, RpcError> {
    if !kv.dom().contains(k) {
        Err(RpcError::NotFound)
    } else if kv[k].len() > 8 {
        Err(RpcError::InvalidNumber)
    } else {
        Ok(le_signed(kv[k]) as i64)
    }
}

/// The truth value under `k`, which is whether the first byte is not 0, or
/// why there is none.
pub open spec fn bool_at(kv: KvMap, k: Seq<u8>) -> Result<bool, RpcError> {
    if !kv.dom().contains(k) {
        Err(RpcError::NotFound)
    } else if kv[k].len() == 0 {
        Err(RpcError::InvalidBool)
    } else {
        Ok(kv[k][0] != 0)
    }
}

/// The first `n` choices, each under its number as eight little-endian
/// bytes, or why the first of them that is missing is.
pub open spec fn choices_at(kv: KvMap, n: nat) -> Result<Seq<Seq<char>>, RpcError>
    decreases n,
{
    if n == 0 {
        Ok(Seq::empty())
    } else {
        match choices_at(kv, (n - 1) as nat) {
            Err(e) => Err(e),
            Ok(before) => match str_at(kv, le_digits((n - 1) as nat, 8)) {
                Err(e) => Err(e),
                Ok(c) => Ok(before.push(c)),
            },
        }
    }
}

/// The parameter of the given type that the pairs describe, or why they
/// describe none; `None` for a type that is not known.
pub open spec fn typed_parm(kv: KvMap, ty: Seq<char>) -> Result<Option<ParmView>, RpcError> {
    if ty == "bool"@ {
        match bool_at(kv, "default".spec_bytes()) {
            Err(e) => Err(e),
            Ok(value) => Ok(Some(ParmView::Bool { value })),
        }
    } else if ty == "int"@ {
        match int_at(kv, "default".spec_bytes()) {
            Err(e) => Err(e),
            Ok(value) => match int_at(kv, "min".spec_bytes()) {
                Err(e) => Err(e),
                Ok(min) => match int_at(kv, "max".spec_bytes()) {
                    Err(e) => Err(e),
                    Ok(max) => Ok(Some(ParmView::Int { value, min, max })),
                },
            },
        }
    } else if ty == "uint"@ {
        match uint_at(kv, "default".spec_bytes()) {
            Err(e) => Err(e),
            Ok(value) => match uint_at(kv, "min".spec_bytes()) {
                Err(e) => Err(e),
                Ok(min) => match uint_at(kv, "max".spec_bytes()) {
                    Err(e) => Err(e),
                    Ok(max) => Ok(Some(ParmView::UInt { value, min, max })),
                },
            },
        }
    } else if ty == "double"@ {
        match uint_at(kv, "default".spec_bytes()) {
            Err(e) => Err(e),
            Ok(value) => match uint_at(kv, "min".spec_bytes()) {
                Err(e) => Err(e),
                Ok(min) => match uint_at(kv, "max".spec_bytes()) {
                    Err(e) => Err(e),
                    Ok(max) => Ok(Some(ParmView::Double { value, min, max })),
                },
            },
        }
    } else if ty == "string"@ {
        match str_at(kv, "default".spec_bytes()) {
            Err(e) => Err(e),
            Ok(value) => Ok(Some(ParmView::String { value })),
        }
    } else if ty == "choice"@ {
        match str_at(kv, "default".spec_bytes()) {
            Err(e) => Err(e),
            Ok(value) => match uint_at(kv, "len".spec_bytes()) {
                Err(e) => Err(e),
                Ok(len) => match choices_at(kv, len as nat) {
                    Err(e) => Err(e),
                    Ok(choices) => Ok(Some(ParmView::Choice { value, choices })),
                },
            },
        }
    } else {
        Ok(None)
    }
}

/// The parameter that the pairs describe, with its name, or why they
/// describe none; `None` for a type that is not known.
pub open spec fn parm_of(kv: KvMap) -> Result<Option<(Seq<char>, ParmView)>, RpcError> {
    match str_at(kv, "name".spec_bytes()) {
        Err(e) => Err(e),
        Ok(name) => match str_at(kv, "type".spec_bytes()) {
            Err(e) => Err(e),
            Ok(ty) => match typed_parm(kv, ty) {
                Err(e) => Err(e),
                Ok(None) => Ok(None),
                Ok(Some(p)) => Ok(Some((name, p))),
            },
        },
    }
}

/// What a result of [`parse_parm`] holds.
pub open spec fn parsed_view(r: Result<Option<(String, Parm)>, RpcError>) -> Result<
    Option<(Seq<char>, ParmView)>,
    RpcError,
> {
    match r {
        Err(e) => Err(e),
        Ok(None) => Ok(None),
        Ok(Some((name, p))) => Ok(Some((name@, p@))),
    }
}

/// The truth value under `k`; see [`bool_at`].
fn get_bool(kv: &KvCmd, k: &[u8]) -> (r: Result<bool, RpcError>)
    ensures
        r == bool_at(kv@, k@),
{
    match kv.get(k) {
        None => Err(RpcError::NotFound),
        Some(d) => if d.len() == 0 {
            Err(RpcError::InvalidBool)
        } else {
            Ok(d[0] != 0)
        },
    }
}

/// The first `n` choices; see [`choices_at`].
fn get_choices(kv: &KvCmd, n: u64) -> (r: Result<Vec<String>, RpcError>)
    ensures
        match r {
            Ok(v) => choices_at(kv@, n as nat) == Ok::<_, RpcError>(texts(v@)),
            Err(e) => choices_at(kv@, n as nat) == Err::<Seq<Seq<char>>, _>(e),
        },
{
    let mut out: Vec<String> = Vec::new();
    let mut i: u64 = 0;
    assert(texts(out@) == Seq::<Seq<char>>::empty());
    while i < n
        invariant
            0 <= i <= n,
            choices_at(kv@, i as nat) == Ok::<_, RpcError>(texts(out@)),
        decreases n - i,
    {
        let key = le_bytes(i as u128, 8);
        let ghost before = texts(out@);
        match get_str(kv, key.as_slice()) {
            Ok(c) => {
                out.push(c);
                assert(texts(out@) == before.push(c@));
            },
            Err(e) => {
                proof {
                    lemma_choices_fail(kv@, (i + 1) as nat, n as nat);
                }
                return Err(e);
            },
        }
        i += 1;
    }
    Ok(out)
}

/// Once a choice is missing, the choices after it do not matter.
pub proof fn lemma_choices_fail(kv: KvMap, i: nat, n: nat)
    requires
        i <= n,
        choices_at(kv, i) is Err,
    ensures
        choices_at(kv, n) == choices_at(kv, i),
    decreases n,
{
    if i < n {
        lemma_choices_fail(kv, i, (n - 1) as nat);
    }
}

/// Reads the parameter that the pairs of a command describe: its name under
/// `name`, its type under `type`, and under `default`, `min`, `max` and
/// `len` what the type asks for.
///
/// Returns `None` for a type that is not known, and the error of the first
/// value that is missing or cannot be read.
pub fn parse_parm(kv: &KvCmd) -> (r: Result<Option<(String, Parm)>, RpcError>)
    ensures
        parsed_view(r) == parm_of(kv@),
{
    let name = match get_str(kv, "name".as_bytes()) {
        Ok(s) => s,
        Err(e) => {
            return Err(e);
        },
    };
    let ty = match get_str(kv, "type".as_bytes()) {
        Ok(s) => s,
        Err(e) => {
            return Err(e);
        },
    };
    let ty = ty.as_str();
    let p = if same_text(ty, "bool") {
        match get_bool(kv, "default".as_bytes()) {
            Ok(value) => Parm::Bool { value },
            Err(e) => {
                return Err(e);
            },
        }
    } else if same_text(ty, "int") {
        let value = match get_int(kv, "default".as_bytes()) {
            Ok(n) => n,
            Err(e) => {
                return Err(e);
            },
        };
        let min = match get_int(kv, "min".as_bytes()) {
            Ok(n) => n,
            Err(e) => {
                return Err(e);
            },
        };
        let max = match get_int(kv, "max".as_bytes()) {
            Ok(n) => n,
            Err(e) => {
                return Err(e);
            },
        };
        Parm::Int { value, min, max }
    } else if same_text(ty, "uint") || same_text(ty, "double") {
        let value = match get_uint(kv, "default".as_bytes()) {
            Ok(n) => n,
            Err(e) => {
                return Err(e);
            },
        };
        let min = match get_uint(kv, "min".as_bytes()) {
            Ok(n) => n,
            Err(e) => {
                return Err(e);
            },
        };
        let max = match get_uint(kv, "max".as_bytes()) {
            Ok(n) => n,
            Err(e) => {
                return Err(e);
            },
        };
        if same_text(ty, "uint") {
            Parm::UInt { value, min, max }
        } else {
            Parm::Double { value, min, max }
        }
    } else if same_text(ty, "string") {
        match get_str(kv, "default".as_bytes()) {
            Ok(value) => Parm::String { value },
            Err(e) => {
                return Err(e);
            },
        }
    } else if same_text(ty, "choice") {
        let value = match get_str(kv, "default".as_bytes()) {
            Ok(s) => s,
            Err(e) => {
                return Err(e);
            },
        };
        let len = match get_uint(kv, "len".as_bytes()) {
            Ok(n) => n,
            Err(e) => {
                return Err(e);
            },
        };
        let choices = match get_choices(kv, len) {
            Ok(c) => c,
            Err(e) => {
                return Err(e);
            },
        };
        Parm::Choice { value, choices }
    } else {
        return Ok(None);
    };
    Ok(Some((name, p)))
}

/// What a sketch has put out: the parameters that it declares, and where it
/// has saved its drawing.
#[derive(Debug, Clone)]
pub struct SketchOutput {
    pub manifest: Manifest,
    pub svg_filepath: Option<String>,
}

/// What a [`SketchOutput`] holds.
pub struct OutputView {
    pub manifest: Seq<(Seq<char>, ParmView)>,
    pub svg_filepath: Option<Seq<char>>,
}

/// What each parameter of a manifest holds.
pub open spec fn manifest_view(m: Seq<(String, Parm)>) -> Seq<(Seq<char>, ParmView)> {
    Seq::new(m.len(), |i: int| (m[i].0@, m[i].1@))
}

impl View for SketchOutput {
    type V = OutputView;

    open spec fn view(&self) -> OutputView {
        OutputView {
            manifest: manifest_view(self.manifest@),
            svg_filepath: match self.svg_filepath {
                Some(p) => Some(p@),
                None => None,
            },
        }
    }
}

/// What the output is after one more command: `SVG` names the drawing under
/// `path`, `PARM` declares one more parameter, unless its type is not known,
/// and every other command is passed over.
#[verifier::opaque]
pub open spec fn output_after(out: OutputView, name: Seq<u8>, kv: KvMap) -> Result<
    OutputView,
    RpcError,
> {
    if name == "SVG".spec_bytes() {
        match str_at(kv, "path".spec_bytes()) {
            Err(e) => Err(e),
            Ok(p) => Ok(OutputView { svg_filepath: Some(p), ..out }),
        }
    } else if name == "PARM".spec_bytes() {
        match parm_of(kv) {
            Err(e) => Err(e),
            Ok(None) => Ok(out),
            Ok(Some(p)) => Ok(OutputView { manifest: out.manifest.push(p), ..out }),
        }
    } else {
        Ok(out)
    }
}

/// What the commands make of an output that is empty at first; the first
/// command that cannot be read, or whose values cannot, gives its error.
pub open spec fn output_of(cmds: Seq<CmdView>) -> Result<OutputView, RpcError>
    decreases cmds.len(),
{
    if cmds.len() == 0 {
        Ok(OutputView { manifest: Seq::empty(), svg_filepath: None })
    } else {
        match output_of(cmds.drop_last()) {
            Err(e) => Err(e),
            Ok(out) => match cmds.last() {
                Err(e) => Err(e),
                Ok((name, pairs)) => output_after(out, name, kv_map(pairs)),
            },
        }
    }
}

/// Once a command has failed, the commands after it do not matter.
pub proof fn lemma_output_fail(cmds: Seq<CmdView>, i: int)
    requires
        0 <= i <= cmds.len(),
        output_of(cmds.take(i)) is Err,
    ensures
        output_of(cmds) == output_of(cmds.take(i)),
    decreases cmds.len(),
{
    if i < cmds.len() {
        assert(cmds.drop_last().take(i) == cmds.take(i));
        lemma_output_fail(cmds.drop_last(), i);
    } else {
        assert(cmds.take(i) == cmds);
    }
}

impl SketchOutput {
    /// The output of a sketch that has written nothing.
    pub fn empty() -> (out: Self)
        ensures
            out@ == (OutputView { manifest: Seq::empty(), svg_filepath: None }),
    {
        let out = SketchOutput { manifest: Vec::new(), svg_filepath: None };
        assert(out@.manifest == Seq::<(Seq<char>, ParmView)>::empty());
        out
    }

    /// Takes in one more command; see [`output_after`]. Where that fails,
    /// the output is left as it was.
    fn take_cmd(&mut self, name: &[u8], kv: &KvCmd) -> (r: Result<(), RpcError>)
        ensures
            match r {
                Ok(()) => output_after(old(self)@, name@, kv@) == Ok::<_, RpcError>(final(self)@),
                Err(e) => output_after(old(self)@, name@, kv@) == Err::<OutputView, _>(e)
                    && final(self)@ == old(self)@,
            },
    {
        let ghost before = self@;
        reveal(output_after);
        if same_bytes(name, "SVG".as_bytes()) {
            match get_str(kv, "path".as_bytes()) {
                Ok(p) => {
                    self.svg_filepath = Some(p);
                    Ok(())
                },
                Err(e) => Err(e),
            }
        } else if same_bytes(name, "PARM".as_bytes()) {
            match parse_parm(kv) {
                Ok(Some(p)) => {
                    let ghost pv = (p.0@, p.1@);
                    self.manifest.push(p);
                    assert(self@.manifest == before.manifest.push(pv));
                    Ok(())
                },
                Ok(None) => Ok(()),
                Err(e) => Err(e),
            }
        } else {
            Ok(())
        }
    }

    /// Reads what a sketch has written: see [`output_of`] for what the
    /// commands of the stream mean.
    pub fn from_output(output: &[u8]) -> (r: Result<Self, RpcError>)
        ensures
            match r {
                Ok(out) => output_of(read_cmds(output@, 0)) == Ok::<_, RpcError>(out@),
                Err(e) => output_of(read_cmds(output@, 0)) == Err::<OutputView, _>(e),
            },
    {
        let mut res = SketchOutput::empty();
        let cmds = parse_cmds(output);
        let ghost all = read_cmds(output@, 0);
        let mut i: usize = 0;
        assert(all.take(0) == Seq::<CmdView>::empty());
        while i < cmds.len()
            invariant
                0 <= i <= cmds@.len(),
                cmds_view(cmds@) == all,
                all == read_cmds(output@, 0),
                output_of(all.take(i as int)) == Ok::<_, RpcError>(res@),
            decreases cmds@.len() - i,
        {
            proof {
                assert(all.take(i + 1).drop_last() == all.take(i as int));
                assert(all.take(i + 1).last() == cmds_view(cmds@)[i as int]);
                assert(cmds_view(cmds@)[i as int] == crate::rpc::reader::cmd_view(cmds@[i as int]));
            }
            let step = match &cmds[i] {
                Err(e) => Err(*e),
                Ok((name, kv)) => res.take_cmd(name, kv),
            };
            match step {
                Ok(()) => {},
                Err(e) => {
                    proof {
                        lemma_output_fail(all, i + 1);
                    }
                    return Err(e);
                },
            }
            i += 1;
        }
        assert(all.take(i as int) == all);
        Ok(res)
    }
}

/// The parameters `new` of a sketch that has run again, each with the value
/// that it had in `old`, as far as the two lists go together: a parameter
/// takes the value of the first of `old` that is left if that has its name,
/// and that one is then done with; see [`taken`].
pub open spec fn merged(
    old: Seq<(Seq<char>, ParmView)>,
    new: Seq<(Seq<char>, ParmView)>,
) -> Seq<(Seq<char>, ParmView)>
    decreases new.len(),
{
    if new.len() == 0 {
        Seq::empty()
    } else if old.len() > 0 && old[0].0 == new[0].0 {
        seq![(new[0].0, taken(new[0].1, old[0].1))] + merged(old.skip(1), new.skip(1))
    } else {
        seq![new[0]] + merged(old, new.skip(1))
    }
}

/// A copy of the texts.
fn copy_texts(v: &Vec<String>) -> (r: Vec<String>)
    ensures
        texts(r@) == texts(v@),
{
    let mut out: Vec<String> = Vec::new();
    let mut i: usize = 0;
    while i < v.len()
        invariant
            0 <= i <= v@.len(),
            out@.len() == i,
            forall|j: int| 0 <= j < i ==> out@[j]@ == v@[j]@,
        decreases v@.len() - i,
    {
        out.push(v[i].clone());
        i += 1;
    }
    assert(texts(out@) == texts(v@));
    out
}

/// A copy of the parameter.
fn copy_parm(p: &Parm) -> (r: Parm)
    ensures
        r@ == p@,
{
    match p {
        Parm::String { value } => Parm::String { value: value.clone() },
        Parm::Bool { value } => Parm::Bool { value: *value },
        Parm::Int { value, min, max } => Parm::Int { value: *value, min: *min, max: *max },
        Parm::UInt { value, min, max } => Parm::UInt { value: *value, min: *min, max: *max },
        Parm::Double { value, min, max } => Parm::Double { value: *value, min: *min, max: *max },
        Parm::Choice { value, choices } => Parm::Choice {
            value: value.clone(),
            choices: copy_texts(choices),
        },
    }
}

/// The parameters `new` with the values that they had in `old`; see
/// [`merged`].
pub fn merge_parameters(old: &Manifest, new: &Manifest) -> (r: Manifest)
    ensures
        manifest_view(r@) == merged(manifest_view(old@), manifest_view(new@)),
{
    let mut out: Manifest = Vec::new();
    let mut k: usize = 0;
    let mut i: usize = 0;
    let ghost o = manifest_view(old@);
    let ghost n = manifest_view(new@);
    assert(manifest_view(out@) == Seq::<(Seq<char>, ParmView)>::empty());
    assert(o.skip(0) == o && n.skip(0) == n);
    while i < new.len()
        invariant
            0 <= i <= new@.len(),
            0 <= k <= old@.len(),
            o == manifest_view(old@),
            n == manifest_view(new@),
            manifest_view(out@) + merged(o.skip(k as int), n.skip(i as int)) == merged(o, n),
        decreases new@.len() - i,
    {
        let mut p = copy_parm(&new[i].1);
        let ghost before = manifest_view(out@);
        let ghost rest_old = o.skip(k as int);
        let ghost rest_new = n.skip(i as int);
        proof {
            assert(rest_new[0] == n[i as int]);
            assert(rest_new.skip(1) == n.skip(i + 1));
            if k < old@.len() {
                assert(rest_old[0] == o[k as int]);
                assert(rest_old.skip(1) == o.skip(k + 1));
            }
        }
        if k < old.len() && old[k].0 == new[i].0 {
            p.take_value_from(&old[k].1);
            k += 1;
        }
        let ghost entry = (new@[i as int].0@, p@);
        out.push((new[i].0.clone(), p));
        proof {
            assert(manifest_view(out@) == before.push(entry));
            assert(before.push(entry) + merged(o.skip(k as int), n.skip(i + 1)) == before + (
            seq![entry] + merged(o.skip(k as int), n.skip(i + 1))));
        }
        i += 1;
    }
    assert(manifest_view(out@) + Seq::<(Seq<char>, ParmView)>::empty() == manifest_view(out@));
    out
}

} // verus!
