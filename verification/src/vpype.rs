//! The command line of `vpype`, the tool that reworks a drawing once it is
//! saved.

use crate::parms::texts;
use vstd::prelude::*;
use vstd::string::StringExecFns;

verus! {

/// The steps that `vpype` is to run on each drawing.
pub struct Vpype {
    plugins: Vec<String>,
}

impl View for Vpype {
    type V = Seq<Seq<char>>;

    closed spec fn view(&self) -> Seq<Seq<char>> {
        texts(self.plugins@)
    }
}

/// The arguments of a `vpype` run that reads the drawing `svg`, runs the
/// steps `plugins` on it and writes it back.
pub open spec fn command_line(plugins: Seq<Seq<char>>, svg: Seq<char>) -> Seq<Seq<char>> {
    seq!["-v"@, "read"@, svg] + plugins + seq!["write"@, svg]
}

impl Vpype {
    /// The steps given by `args`, one argument of `vpype` each.
    pub fn new(args: &[&str]) -> (v: Self)
        ensures
            v@ == Seq::new(args@.len(), |i: int| args@[i]@),
    {
        let mut plugins: Vec<String> = Vec::new();
        let mut i: usize = 0;
        while i < args.len()
            invariant
                0 <= i <= args@.len(),
                plugins@.len() == i,
                forall|j: int| 0 <= j < i ==> (#[trigger] plugins@[j])@ == args@[j]@,
            decreases args@.len() - i,
        {
            plugins.push(String::from_str(args[i]));
            i += 1;
        }
        let v = Vpype { plugins };
        assert(v@ == Seq::new(args@.len(), |i: int| args@[i]@));
        v
    }

    /// The arguments with which `vpype` is run on the drawing `svg`.
    pub fn args(&self, svg: &str) -> (r: Vec<String>)
        ensures
            texts(r@) == command_line(self@, svg@),
    {
        let mut out: Vec<String> = Vec::new();
        out.push(String::from_str("-v"));
        out.push(String::from_str("read"));
        out.push(String::from_str(svg));
        let ghost head = seq!["-v"@, "read"@, svg@];
        assert(texts(out@) == head);
        let mut i: usize = 0;
        while i < self.plugins.len()
            invariant
                0 <= i <= self.plugins@.len(),
                texts(out@) == head + self@.take(i as int),
            decreases self.plugins@.len() - i,
        {
            let ghost before = texts(out@);
            out.push(self.plugins[i].clone());
            assert(texts(out@) == before.push(self.plugins@[i as int]@));
            assert(self@.take(i + 1) == self@.take(i as int).push(self@[i as int]));
            assert(texts(out@) == head + self@.take(i + 1));
            i += 1;
        }
        assert(self@.take(i as int) == self@);
        let ghost body = texts(out@);
        out.push(String::from_str("write"));
        out.push(String::from_str(svg));
        assert(texts(out@) == body + seq!["write"@, svg@]);
        out
    }
}

} // verus!
