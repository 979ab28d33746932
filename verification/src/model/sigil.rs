//! Sigils: pool items granting one or two traits, each consuming one slot of a
//! build's budget.

use vstd::prelude::*;

use crate::model::traits::{grant_weight, Trait, TraitKind};
use crate::summation::sum_by;

verus! {

/// A pool item granting one or two traits; consumes one unit of slot budget
/// when chosen. Duplicate sigils in a pool are legal and independent.
#[derive(Clone, Copy, Debug, PartialEq)]
pub struct Sigil {
    pub trait1: Trait,
    pub trait2: Option<Trait>,
}

impl Sigil {
    pub fn new_single(trait1: Trait) -> (s: Sigil)
        ensures
            s.trait1 == trait1,
            s.trait2 is None,
    {
        Sigil { trait1, trait2: None }
    }
}

/// The level a single sigil contributes towards `kind`.
pub open spec fn sigil_level(s: Sigil, kind: TraitKind) -> int {
    grant_weight(kind)(s.trait1) + match s.trait2 {
        Some(t) => grant_weight(kind)(t),
        None => 0,
    }
}

pub open spec fn sigil_weight(kind: TraitKind) -> spec_fn(Sigil) -> int {
    |s: Sigil| sigil_level(s, kind)
}

/// The summed level a sequence of sigils contributes towards `kind`.
pub open spec fn sigils_level(s: Seq<Sigil>, kind: TraitKind) -> int {
    sum_by(s, sigil_weight(kind))
}

/// The total level a single sigil grants, over all kinds.
pub open spec fn sigil_total(s: Sigil) -> int {
    s.trait1.level + match s.trait2 {
        Some(t) => t.level as int,
        None => 0,
    }
}

pub open spec fn sigil_total_weight() -> spec_fn(Sigil) -> int {
    |s: Sigil| sigil_total(s)
}

} // verus!
