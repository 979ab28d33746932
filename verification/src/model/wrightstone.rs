//! Wrightstones: pool items granting one to three traits; a build carries at
//! most one and it consumes no slot budget.

use vstd::prelude::*;

use crate::model::traits::{grant_weight, Trait, TraitKind};

verus! {

/// A pool item granting one to three traits; does not consume slot budget; at
/// most one per build.
#[derive(Clone, Copy, Debug, PartialEq)]
pub struct Wrightstone {
    pub trait1: Trait,
    pub trait2: Option<Trait>,
    pub trait3: Option<Trait>,
}

/// The level a single wrightstone contributes towards `kind`.
pub open spec fn stone_level(w: Wrightstone, kind: TraitKind) -> int {
    grant_weight(kind)(w.trait1) + match w.trait2 {
        Some(t) => grant_weight(kind)(t),
        None => 0,
    } + match w.trait3 {
        Some(t) => grant_weight(kind)(t),
        None => 0,
    }
}

/// The level an optional wrightstone contributes towards `kind`.
pub open spec fn stone_opt_level(w: Option<Wrightstone>, kind: TraitKind) -> int {
    match w {
        Some(stone) => stone_level(stone, kind),
        None => 0,
    }
}

/// The total level a single wrightstone grants, over all kinds.
pub open spec fn stone_total(w: Wrightstone) -> int {
    w.trait1.level + match w.trait2 {
        Some(t) => t.level as int,
        None => 0,
    } + match w.trait3 {
        Some(t) => t.level as int,
        None => 0,
    }
}

pub open spec fn stone_opt_total(w: Option<Wrightstone>) -> int {
    match w {
        Some(stone) => stone_total(stone),
        None => 0,
    }
}

} // verus!
