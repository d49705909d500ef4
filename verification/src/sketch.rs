//! The names of the files that a sketch saves its drawings under: the name
//! of the sketch, a `-`, a number that counts up, and `.svg`.

use crate::parms::texts;
use vstd::prelude::*;
use vstd::string::{StrSliceExecFns, StringExecFns};

verus! {

/// The greatest number that counts as one of a file; a greater one is not
/// read as a number.
pub const GREATEST_NUMBER: u64 = 0x7fff_ffff;

/// `s` begins with `p`.
pub open spec fn starts_with(s: Seq<char>, p: Seq<char>) -> bool {
    p.len() <= s.len() && s.take(p.len() as int) == p
}

/// `s` without the `p`s that it begins with, however many they are.
pub open spec fn without_runs(s: Seq<char>, p: Seq<char>) -> Seq<char>
    decreases s.len(),
{
    if p.len() > 0 && starts_with(s, p) {
        without_runs(s.skip(p.len() as int), p)
    } else {
        s
    }
}

/// `s` without the `-`s that it begins with.
pub open spec fn without_dashes(s: Seq<char>) -> Seq<char>
    decreases s.len(),
{
    if s.len() > 0 && s[0] == '-' {
        without_dashes(s.skip(1))
    } else {
        s
    }
}

/// The digit that `c` is, if it is one.
pub open spec fn digit_of(c: char) -> Option<nat> {
    if c == '0' {
        Some(0)
    } else if c == '1' {
        Some(1)
    } else if c == '2' {
        Some(2)
    } else if c == '3' {
        Some(3)
    } else if c == '4' {
        Some(4)
    } else if c == '5' {
        Some(5)
    } else if c == '6' {
        Some(6)
    } else if c == '7' {
        Some(7)
    } else if c == '8' {
        Some(8)
    } else if c == '9' {
        Some(9)
    } else {
        None
    }
}

/// The character of the digit `d`.
pub open spec fn digit_char(d: nat) -> char {
    if d == 0 {
        '0'
    } else if d == 1 {
        '1'
    } else if d == 2 {
        '2'
    } else if d == 3 {
        '3'
    } else if d == 4 {
        '4'
    } else if d == 5 {
        '5'
    } else if d == 6 {
        '6'
    } else if d == 7 {
        '7'
    } else if d == 8 {
        '8'
    } else {
        '9'
    }
}

/// Every character of `s` is a digit.
pub open spec fn all_digits(s: Seq<char>) -> bool {
    forall|i: int| 0 <= i < s.len() ==> digit_of(#[trigger] s[i]) is Some
}

/// The number that the digits `s` spell to the base ten.
pub open spec fn digits_value(s: Seq<char>) -> nat
    decreases s.len(),
{
    if s.len() == 0 {
        0
    } else {
        digits_value(s.drop_last()) * 10 + match digit_of(s.last()) {
            Some(d) => d,
            None => 0,
        }
    }
}

/// The number that `s` spells: one digit or more, before which a `+` may
/// stand, and no more than [`GREATEST_NUMBER`]. Nothing else spells a
/// number.
pub open spec fn spelled(s: Seq<char>) -> Option<nat> {
    let d = if s.len() > 0 && s[0] == '+' {
        s.skip(1)
    } else {
        s
    };
    if d.len() > 0 && all_digits(d) && digits_value(d) <= GREATEST_NUMBER {
        Some(digits_value(d))
    } else {
        None
    }
}

/// The number of the file with the stem `stem` among the drawings of the
/// sketch `name`: what the stem spells once the `name`s and then the `-`s
/// that it begins with are taken off, and 0 where that spells no number.
pub open spec fn stem_number(name: Seq<char>, stem: Seq<char>) -> nat {
    match spelled(without_dashes(without_runs(stem, name))) {
        Some(n) => n,
        None => 0,
    }
}

/// The greatest of the numbers of the files with the given stems, and 0
/// where there is no file.
pub open spec fn greatest_number(name: Seq<char>, stems: Seq<Seq<char>>) -> nat
    decreases stems.len(),
{
    if stems.len() == 0 {
        0
    } else {
        let before = greatest_number(name, stems.drop_last());
        let last = stem_number(name, stems.last());
        if last > before {
            last
        } else {
            before
        }
    }
}

/// `n` to the base ten, without zeros before it.
pub open spec fn decimal(n: nat) -> Seq<char>
    decreases n,
{
    if n < 10 {
        seq![digit_char(n)]
    } else {
        decimal(n / 10).push(digit_char(n % 10))
    }
}

/// More digits do not spell less.
pub proof fn lemma_digits_value_grows(s: Seq<char>, k: int)
    requires
        0 <= k <= s.len(),
    ensures
        digits_value(s.take(k)) <= digits_value(s),
    decreases s.len() - k,
{
    if k < s.len() {
        lemma_digits_value_grows(s, k + 1);
        assert(s.take(k + 1).drop_last() == s.take(k));
    } else {
        assert(s.take(k) == s);
    }
}

/// The characters of `s`.
fn chars_of(s: &str) -> (r: Vec<char>)
    ensures
        r@ == s@,
{
    let n = s.unicode_len();
    let mut out: Vec<char> = Vec::new();
    let mut i: usize = 0;
    while i < n
        invariant
            0 <= i <= n,
            n == s@.len(),
            out@ == s@.take(i as int),
        decreases n - i,
    {
        out.push(s.get_char(i));
        assert(s@.take(i + 1) == s@.take(i as int).push(s@[i as int]));
        i += 1;
    }
    assert(s@.take(n as int) == s@);
    out
}

/// Whether what is left of `s` from `from` on begins with `p`.
fn begins_at(s: &Vec<char>, from: usize, p: &Vec<char>) -> (r: bool)
    requires
        from <= s@.len(),
    ensures
        r == starts_with(s@.skip(from as int), p@),
{
    let total = s.len();
    if p.len() > total - from {
        return false;
    }
    let ghost rest = s@.skip(from as int);
    let mut i: usize = 0;
    while i < p.len()
        invariant
            0 <= i <= p@.len(),
            from + p@.len() <= total,
            total == s@.len(),
            rest == s@.skip(from as int),
            forall|j: int| 0 <= j < i ==> rest[j] == p@[j],
        decreases p@.len() - i,
    {
        if s[from + i] != p[i] {
            assert(rest.take(p@.len() as int)[i as int] != p@[i as int]);
            return false;
        }
        i += 1;
    }
    assert(rest.take(p@.len() as int) =~= p@);
    true
}

/// The digit that `c` is, if it is one.
fn digit(c: char) -> (r: Option<u64>)
    ensures
        match r {
            Some(d) => digit_of(c) == Some(d as nat) && d < 10,
            None => digit_of(c) is None,
        },
{
    if c == '0' {
        Some(0)
    } else if c == '1' {
        Some(1)
    } else if c == '2' {
        Some(2)
    } else if c == '3' {
        Some(3)
    } else if c == '4' {
        Some(4)
    } else if c == '5' {
        Some(5)
    } else if c == '6' {
        Some(6)
    } else if c == '7' {
        Some(7)
    } else if c == '8' {
        Some(8)
    } else if c == '9' {
        Some(9)
    } else {
        None
    }
}

/// The number of the file with the stem `stem`; see [`stem_number`].
fn number_of(name: &Vec<char>, stem: &Vec<char>) -> (r: u64)
    ensures
        r == stem_number(name@, stem@),
        r <= GREATEST_NUMBER,
{
    let mut at: usize = 0;
    assert(stem@.skip(0) == stem@);
    let total = stem.len();
    let mut more = name.len() > 0 && begins_at(stem, at, name);
    while more
        invariant
            0 <= at <= total,
            total == stem@.len(),
            more == (name@.len() > 0 && starts_with(stem@.skip(at as int), name@)),
            without_runs(stem@, name@) == without_runs(stem@.skip(at as int), name@),
        decreases stem@.len() - at,
    {
        assert(stem@.skip(at as int).skip(name@.len() as int) == stem@.skip(at + name@.len()));
        at += name.len();
        more = begins_at(stem, at, name);
    }
    while at < stem.len() && stem[at] == '-'
        invariant
            0 <= at <= stem@.len(),
            without_dashes(without_runs(stem@, name@)) == without_dashes(stem@.skip(at as int)),
        decreases stem@.len() - at,
    {
        assert(stem@.skip(at as int).skip(1) == stem@.skip(at + 1));
        at += 1;
    }
    let ghost text = stem@.skip(at as int);
    assert(without_dashes(without_runs(stem@, name@)) == text);
    if at < stem.len() && stem[at] == '+' {
        assert(text.skip(1) == stem@.skip(at + 1));
        at += 1;
    }
    let ghost digits = stem@.skip(at as int);
    if at == stem.len() {
        return 0;
    }
    let from = at;
    let mut n: u64 = 0;
    assert(digits.take(0) == Seq::<char>::empty());
    while at < stem.len()
        invariant
            from <= at <= stem@.len(),
            digits == stem@.skip(from as int),
            digits.len() > 0,
            without_dashes(without_runs(stem@, name@)) == text,
            spelled(text) == if all_digits(digits) && digits_value(digits) <= GREATEST_NUMBER {
                Some(digits_value(digits))
            } else {
                None
            },
            all_digits(digits.take(at - from)),
            n == digits_value(digits.take(at - from)),
            n <= GREATEST_NUMBER,
        decreases stem@.len() - at,
    {
        let ghost seen = digits.take(at - from);
        let ghost more = digits.take(at - from + 1);
        proof {
            assert(more.drop_last() == seen);
            assert(more.last() == stem@[at as int]);
            assert(digits[at - from] == stem@[at as int]);
        }
        match digit(stem[at]) {
            None => {
                assert(digit_of(digits[at - from]) is None);
                return 0;
            },
            Some(d) => {
                n = n * 10 + d;
                assert(n == digits_value(more));
                if n > GREATEST_NUMBER {
                    proof {
                        lemma_digits_value_grows(digits, at - from + 1);
                    }
                    return 0;
                }
                assert forall|i: int| 0 <= i < more.len() implies digit_of(#[trigger] more[i]) is Some by {
                    if i < seen.len() {
                        assert(more[i] == seen[i]);
                    }
                }
            },
        }
        at += 1;
    }
    assert(digits.take(at - from) == digits);
    n
}

/// The character of the digit `d`, as a text.
fn digit_text(d: u64) -> (r: &'static str)
    requires
        d < 10,
    ensures
        r@ == seq![digit_char(d as nat)],
{
    proof {
        reveal_strlit("0");
        reveal_strlit("1");
        reveal_strlit("2");
        reveal_strlit("3");
        reveal_strlit("4");
        reveal_strlit("5");
        reveal_strlit("6");
        reveal_strlit("7");
        reveal_strlit("8");
        reveal_strlit("9");
    }
    let r = if d == 0 {
        "0"
    } else if d == 1 {
        "1"
    } else if d == 2 {
        "2"
    } else if d == 3 {
        "3"
    } else if d == 4 {
        "4"
    } else if d == 5 {
        "5"
    } else if d == 6 {
        "6"
    } else if d == 7 {
        "7"
    } else if d == 8 {
        "8"
    } else {
        "9"
    };
    assert(r@ =~= seq![digit_char(d as nat)]);
    r
}

/// `n` to the base ten; see [`decimal`].
fn decimal_text(n: u64) -> (r: String)
    ensures
        r@ == decimal(n as nat),
    decreases n,
{
    if n < 10 {
        String::from_str(digit_text(n))
    } else {
        let mut r = decimal_text(n / 10);
        r.append(digit_text(n % 10));
        assert(r@ == decimal((n / 10) as nat).push(digit_char((n % 10) as nat)));
        r
    }
}

/// The name of the file for the next drawing of the sketch `name`, where
/// `stems` are the names, without `.svg`, of the drawings that are there:
/// the number in it is one more than the greatest among them.
pub fn next_free_name(name: &str, stems: &[String]) -> (r: String)
    ensures
        r@ == name@ + seq!['-'] + decimal(greatest_number(name@, texts(stems@)) + 1) + ".svg"@,
{
    let of = chars_of(name);
    let mut last: u64 = 0;
    let mut i: usize = 0;
    assert(texts(stems@).take(0) == Seq::<Seq<char>>::empty());
    while i < stems.len()
        invariant
            0 <= i <= stems@.len(),
            of@ == name@,
            last == greatest_number(name@, texts(stems@).take(i as int)),
            last <= GREATEST_NUMBER,
        decreases stems@.len() - i,
    {
        let stem = chars_of(stems[i].as_str());
        let n = number_of(&of, &stem);
        proof {
            let seen = texts(stems@).take(i + 1);
            assert(seen.drop_last() == texts(stems@).take(i as int));
            assert(seen.last() == stem@);
        }
        if n > last {
            last = n;
        }
        i += 1;
    }
    assert(texts(stems@).take(i as int) == texts(stems@));
    let mut r = String::from_str(name);
    proof {
        reveal_strlit("-");
        assert("-"@ =~= seq!['-']);
    }
    r.append("-");
    let number = decimal_text(last + 1);
    r.append(number.as_str());
    r.append(".svg");
    r
}

} // verus!
