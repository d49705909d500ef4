//! The parameters of a sketch as its viewer keeps them: each with its value
//! and with the limits or the choices that the sketch has declared.
//!
//! A floating-point number is kept as the bits of its double; see
//! [`crate::double`].

use crate::double::{double_at_most, double_le};
use vstd::prelude::*;

verus! {

/// A parameter with its value.
#[derive(Debug, Clone, PartialEq)]
#[allow(inconsistent_fields)]
pub enum Parm {
    String { value: String },
    Bool { value: bool },
    Int { value: i64, min: i64, max: i64 },
    UInt { value: u64, min: u64, max: u64 },
    /// The value and the limits are the bits of doubles.
    Double { value: u64, min: u64, max: u64 },
    Choice { value: String, choices: Vec<String> },
}

/// The parameters of a sketch by their names, in the order in which the
/// sketch has declared them.
pub type Manifest = Vec<(String, Parm)>;

/// What a [`Parm`] holds.
#[allow(inconsistent_fields)]
pub enum ParmView {
    String { value: Seq<char> },
    Bool { value: bool },
    Int { value: i64, min: i64, max: i64 },
    UInt { value: u64, min: u64, max: u64 },
    Double { value: u64, min: u64, max: u64 },
    Choice { value: Seq<char>, choices: Seq<Seq<char>> },
}

impl View for Parm {
    type V = ParmView;

    open spec fn view(&self) -> ParmView {
        match *self {
            Parm::String { value } => ParmView::String { value: value@ },
            Parm::Bool { value } => ParmView::Bool { value },
            Parm::Int { value, min, max } => ParmView::Int { value, min, max },
            Parm::UInt { value, min, max } => ParmView::UInt { value, min, max },
            Parm::Double { value, min, max } => ParmView::Double { value, min, max },
            Parm::Choice { value, choices } => ParmView::Choice {
                value: value@,
                choices: crate::parms::texts(choices@),
            },
        }
    }
}

/// The parameter `new` with the value of `old`, where `old` is of the same
/// kind and its value lies within the limits, or among the choices, of
/// `new`; else `new` as it is.
pub open spec fn taken(new: ParmView, old: ParmView) -> ParmView {
    match (new, old) {
        (ParmView::String { .. }, ParmView::String { value }) => ParmView::String { value },
        (ParmView::Bool { .. }, ParmView::Bool { value }) => ParmView::Bool { value },
        (ParmView::Int { min, max, .. }, ParmView::Int { value, .. }) => if min <= value <= max {
            ParmView::Int { value, min, max }
        } else {
            new
        },
        (ParmView::UInt { min, max, .. }, ParmView::UInt { value, .. }) => if min <= value <= max {
            ParmView::UInt { value, min, max }
        } else {
            new
        },
        (ParmView::Double { min, max, .. }, ParmView::Double { value, .. }) => if double_at_most(
            min,
            value,
        ) && double_at_most(value, max) {
            ParmView::Double { value, min, max }
        } else {
            new
        },
        (ParmView::Choice { choices, .. }, ParmView::Choice { value, .. }) => if choices.contains(
            value,
        ) {
            ParmView::Choice { value, choices }
        } else {
            new
        },
        _ => new,
    }
}

/// Whether `s` is one of `list`.
fn listed(list: &Vec<String>, s: &String) -> (r: bool)
    ensures
        r == crate::parms::texts(list@).contains(s@),
{
    let mut i: usize = 0;
    while i < list.len()
        invariant
            0 <= i <= list@.len(),
            forall|j: int| 0 <= j < i ==> list@[j]@ != s@,
        decreases list@.len() - i,
    {
        if list[i] == *s {
            assert(crate::parms::texts(list@)[i as int] == s@);
            return true;
        }
        i += 1;
    }
    false
}

impl Parm {
    /// Takes the value of `other` where that is a parameter of the same kind
    /// whose value this one may have; see [`taken`].
    pub fn take_value_from(&mut self, other: &Parm)
        ensures
            final(self)@ == taken(old(self)@, other@),
    {
        match (self, other) {
            (Parm::String { value }, Parm::String { value: oldval }) => {
                *value = oldval.clone();
            },
            (Parm::Bool { value }, Parm::Bool { value: oldval }) => {
                *value = *oldval;
            },
            (Parm::Int { value, min, max }, Parm::Int { value: oldval, .. }) => {
                if *min <= *oldval && *oldval <= *max {
                    *value = *oldval;
                }
            },
            (Parm::UInt { value, min, max }, Parm::UInt { value: oldval, .. }) => {
                if *min <= *oldval && *oldval <= *max {
                    *value = *oldval;
                }
            },
            (Parm::Double { value, min, max }, Parm::Double { value: oldval, .. }) => {
                if double_le(*min, *oldval) && double_le(*oldval, *max) {
                    *value = *oldval;
                }
            },
            (Parm::Choice { value, choices }, Parm::Choice { value: oldval, .. }) => {
                if listed(choices, oldval) {
                    *value = oldval.clone();
                }
            },
            _ => {},
        }
    }
}

} // verus!
