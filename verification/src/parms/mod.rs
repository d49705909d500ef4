//! The parameters of a sketch as they come from the command line: how the
//! arguments are cut into tokens, and how a token is read as a value.

use vstd::prelude::*;
use vstd::string::{StrSliceExecFns, StringExecFns};

pub mod schema;

pub use schema::Parm;

verus! {

/// The place of the first `c` in `s`, or the length of `s` where there is
/// none.
pub open spec fn find(s: Seq<char>, c: char) -> int
    decreases s.len(),
{
    if s.len() == 0 {
        0
    } else if s[0] == c {
        0
    } else {
        1 + find(s.skip(1), c)
    }
}

/// `find` is the one place before which no `c` stands and at which one does,
/// if it is a place of `s` at all.
pub proof fn lemma_find(s: Seq<char>, c: char, i: int)
    requires
        0 <= i <= s.len(),
        forall|j: int| 0 <= j < i ==> s[j] != c,
        i < s.len() ==> s[i] == c,
    ensures
        find(s, c) == i,
    decreases s.len(),
{
    if s.len() > 0 && i > 0 {
        assert forall|j: int| 0 <= j < i - 1 implies s.skip(1)[j] != c by {
            assert(s.skip(1)[j] == s[j + 1]);
        }
        lemma_find(s.skip(1), c, i - 1);
    }
}

/// The tokens of one argument: the argument itself, or, where it holds a
/// `=`, what stands before the first one and, unless it is empty, what
/// stands after it.
pub open spec fn arg_tokens(arg: Seq<char>) -> Seq<Seq<char>> {
    let i = find(arg, '=');
    if i + 1 < arg.len() {
        seq![arg.take(i), arg.skip(i + 1)]
    } else {
        seq![arg.take(i)]
    }
}

/// The tokens of the arguments, in their order.
pub open spec fn tokens(args: Seq<Seq<char>>) -> Seq<Seq<char>>
    decreases args.len(),
{
    if args.len() == 0 {
        Seq::empty()
    } else {
        tokens(args.drop_last()) + arg_tokens(args.last())
    }
}

/// The text of each string.
pub open spec fn texts(v: Seq<String>) -> Seq<Seq<char>> {
    Seq::new(v.len(), |i: int| v[i]@)
}

/// `s` without one `"` at its start and, of what is left, without one at
/// its end.
pub open spec fn unquoted(s: Seq<char>) -> Seq<char> {
    let a = if s.len() > 0 && s[0] == '"' {
        s.skip(1)
    } else {
        s
    };
    if a.len() > 0 && a.last() == '"' {
        a.drop_last()
    } else {
        a
    }
}

/// Cuts the arguments into tokens: `--name=value` gives the two tokens
/// `--name` and `value`, and every other argument is one token.
pub fn cli_tokens(args: &[String]) -> (r: Vec<String>)
    ensures
        texts(r@) == tokens(texts(args@)),
{
    let mut out: Vec<String> = Vec::new();
    let mut k: usize = 0;
    assert(texts(args@).take(0) == Seq::<Seq<char>>::empty());
    assert(texts(out@) == Seq::<Seq<char>>::empty());
    while k < args.len()
        invariant
            0 <= k <= args@.len(),
            texts(out@) == tokens(texts(args@).take(k as int)),
        decreases args@.len() - k,
    {
        let arg = args[k].as_str();
        let n = arg.unicode_len();
        let mut i: usize = 0;
        while i < n && arg.get_char(i) != '='
            invariant
                0 <= i <= n,
                n == arg@.len(),
                forall|j: int| 0 <= j < i ==> arg@[j] != '=',
            decreases n - i,
        {
            i += 1;
        }
        proof {
            lemma_find(arg@, '=', i as int);
            let done = texts(args@).take(k as int);
            let next = texts(args@).take(k + 1);
            assert(next.drop_last() == done);
            assert(next.last() == arg@);
        }
        let ghost before = texts(out@);
        out.push(String::from_str(arg.substring_char(0, i)));
        if i < n && i + 1 < n {
            out.push(String::from_str(arg.substring_char(i + 1, n)));
            assert(texts(out@) == before + seq![arg@.take(i as int), arg@.skip(i + 1)]);
        } else {
            assert(texts(out@) == before + seq![arg@.take(i as int)]);
        }
        k += 1;
    }
    assert(texts(args@).take(k as int) == texts(args@));
    out
}

/// The value that a string parameter takes from `token`: the token without
/// the quotes around it.
pub fn unquote(token: &str) -> (r: String)
    ensures
        r@ == unquoted(token@),
{
    let n = token.unicode_len();
    let from: usize = if n > 0 && token.get_char(0) == '"' {
        1
    } else {
        0
    };
    let to: usize = if n > from && token.get_char(n - 1) == '"' {
        n - 1
    } else {
        n
    };
    let r = String::from_str(token.substring_char(from, to));
    assert(r@ == unquoted(token@));
    r
}

/// The truth value that a text in lower case spells: `true` and `1` are
/// true, `false` and `0` are false, and nothing else is a truth value.
pub open spec fn truth(lower: Seq<char>) -> Option<bool> {
    if lower == seq!['t', 'r', 'u', 'e'] || lower == seq!['1'] {
        Some(true)
    } else if lower == seq!['f', 'a', 'l', 's', 'e'] || lower == seq!['0'] {
        Some(false)
    } else {
        None
    }
}

/// Whether `a` and `b` are the same text.
pub(crate) fn same_text(a: &str, b: &str) -> (r: bool)
    ensures
        r == (a@ == b@),
{
    let n = a.unicode_len();
    if n != b.unicode_len() {
        return false;
    }
    let mut i: usize = 0;
    while i < n
        invariant
            0 <= i <= n,
            n == a@.len(),
            n == b@.len(),
            forall|j: int| 0 <= j < i ==> a@[j] == b@[j],
        decreases n - i,
    {
        if a.get_char(i) != b.get_char(i) {
            return false;
        }
        i += 1;
    }
    assert(a@ =~= b@);
    true
}

/// The truth value that `lower`, a text in lower case, spells; see
/// [`truth`].
pub fn parse_bool_lowercase(lower: &str) -> (r: Option<bool>)
    ensures
        r == truth(lower@),
{
    proof {
        reveal_strlit("true");
        reveal_strlit("1");
        reveal_strlit("false");
        reveal_strlit("0");
        assert("true"@ =~= seq!['t', 'r', 'u', 'e']);
        assert("1"@ =~= seq!['1']);
        assert("false"@ =~= seq!['f', 'a', 'l', 's', 'e']);
        assert("0"@ =~= seq!['0']);
    }
    if same_text(lower, "true") || same_text(lower, "1") {
        Some(true)
    } else if same_text(lower, "false") || same_text(lower, "0") {
        Some(false)
    } else {
        None
    }
}

/// What `str::to_lowercase` makes of a text.
pub uninterp spec fn lowercase(s: Seq<char>) -> Seq<char>;

/// `str::to_lowercase`: the text in lower case, as Unicode defines it.
#[verifier::external_body]
fn to_lowercase(s: &str) -> (r: String)
    ensures
        r@ == lowercase(s@),
{
    s.to_lowercase()
}

/// The truth value that `token` spells in upper or lower case, if it spells
/// one.
pub fn parse_bool(token: &str) -> (r: Option<bool>)
    ensures
        r == truth(lowercase(token@)),
{
    let lower = to_lowercase(token);
    parse_bool_lowercase(lower.as_str())
}

/// What a [`Choice`] holds: its value and the values it may take.
pub struct ChoiceView {
    pub val: Seq<char>,
    pub choices: Seq<Seq<char>>,
}

/// A parameter that takes one of a fixed list of values.
#[derive(Clone, Debug)]
pub struct Choice {
    val: String,
    choices: &'static [&'static str],
}

impl View for Choice {
    type V = ChoiceView;

    closed spec fn view(&self) -> ChoiceView {
        ChoiceView {
            val: self.val@,
            choices: Seq::new(self.choices@.len(), |i: int| self.choices@[i]@),
        }
    }
}

impl Choice {
    /// The parameter with the value `s`, which may take the values
    /// `choices`.
    pub fn new(s: &'static str, choices: &'static [&'static str]) -> (c: Self)
        ensures
            c@.val == s@,
            c@.choices == Seq::new(choices@.len(), |i: int| choices@[i]@),
    {
        Choice { val: String::from_str(s), choices }
    }

    /// The value.
    pub fn value(&self) -> (r: &str)
        ensures
            r@ == self@.val,
    {
        self.val.as_str()
    }

    /// The values that the parameter may take.
    pub fn choices(&self) -> (r: &'static [&'static str])
        ensures
            self@.choices == Seq::new(r@.len(), |i: int| r@[i]@),
    {
        self.choices
    }

    /// Takes `token` without the quotes around it as the value, and says
    /// whether that is one of the values that the parameter may take.
    pub fn parse(&mut self, token: &str) -> (ok: bool)
        ensures
            final(self)@.val == unquoted(token@),
            final(self)@.choices == old(self)@.choices,
            ok == final(self)@.choices.contains(final(self)@.val),
    {
        self.val = unquote(token);
        let mut i: usize = 0;
        while i < self.choices.len()
            invariant
                0 <= i <= self.choices@.len(),
                self.val@ == unquoted(token@),
                self.choices == old(self).choices,
                forall|j: int| 0 <= j < i ==> self.choices@[j]@ != self.val@,
            decreases self.choices@.len() - i,
        {
            if same_text(self.choices[i], self.val.as_str()) {
                assert(self@.choices[i as int] == self@.val);
                return true;
            }
            i += 1;
        }
        false
    }
}

} // verus!
