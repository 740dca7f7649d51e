//! Plain identities: handles into the database and source locations.

use vstd::prelude::*;

verus! {

/// Identity of an interned type.
#[derive(Clone, Copy, PartialEq, Eq, Structural, Debug, Hash, PartialOrd, Ord)]
pub struct TyId(pub usize);

/// Identity of a declared trait.
#[derive(Clone, Copy, PartialEq, Eq, Structural, Debug, Hash, PartialOrd, Ord)]
pub struct TraitDef(pub usize);

/// Identity of an interned trait instance: a trait applied to type arguments.
#[derive(Clone, Copy, PartialEq, Eq, Structural, Debug, Hash, PartialOrd, Ord)]
pub struct TraitInstId(pub usize);

/// Identity of an interned predicate.
#[derive(Clone, Copy, PartialEq, Eq, Structural, Debug, Hash, PartialOrd, Ord)]
pub struct PredicateId(pub usize);

/// Identity of an interned predicate list.
#[derive(Clone, Copy, PartialEq, Eq, Structural, Debug, Hash, PartialOrd, Ord)]
pub struct PredicateListId(pub usize);

/// A list of predicates that are known to hold.
pub type AssumptionListId = PredicateListId;

/// A list of predicates that have to be shown.
pub type ConstraintListId = PredicateListId;

/// Identity of a compilation unit.
#[derive(Clone, Copy, PartialEq, Eq, Structural, Debug, Hash, PartialOrd, Ord)]
pub struct IngotId(pub u64);

/// A range of source text.
#[derive(Clone, Copy, PartialEq, Eq, Structural, Debug, Hash)]
pub struct Span {
    pub file: u64,
    pub start: u64,
    pub end: u64,
}

} // verus!
