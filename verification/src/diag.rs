//! Diagnostics that the analysis hands back beside its results.

use crate::ids::Span;
use vstd::prelude::*;

verus! {

/// A diagnostic that resolving a trait reference produced. It is carried
/// through unchanged.
#[derive(Clone, Copy, PartialEq, Eq, Structural, Debug, Hash)]
pub struct TyLowerDiag {
    pub code: u32,
    pub span: Span,
}

/// A diagnostic about the traits themselves.
#[derive(Clone, Copy, PartialEq, Eq, Structural, Debug, Hash)]
pub enum TraitLowerDiag {
    /// The bound at this place requires a trait that requires this trait in
    /// turn.
    CyclicSuperTraits(Span),
}

/// Any diagnostic of the analysis.
#[derive(Clone, Copy, PartialEq, Eq, Structural, Debug, Hash)]
pub enum TyDiagCollection {
    Ty(TyLowerDiag),
    TraitLower(TraitLowerDiag),
}

impl TyDiagCollection {
    /// The diagnostic for a cyclic super-trait bound at `span`.
    pub open spec fn cyclic(span: Span) -> TyDiagCollection {
        TyDiagCollection::TraitLower(TraitLowerDiag::CyclicSuperTraits(span))
    }

    /// Whether this reports a cyclic super-trait bound.
    pub fn is_cyclic_super_traits(&self) -> (r: bool)
        ensures
            r == (exists|span: Span| *self == Self::cyclic(span)),
    {
        match self {
            TyDiagCollection::TraitLower(TraitLowerDiag::CyclicSuperTraits(span)) => {
                assert(*self == Self::cyclic(*span));
                true
            },
            TyDiagCollection::Ty(_) => false,
        }
    }

    /// The place this diagnostic points at.
    pub fn span(&self) -> (r: Span)
        ensures
            r == match *self {
                TyDiagCollection::Ty(d) => d.span,
                TyDiagCollection::TraitLower(TraitLowerDiag::CyclicSuperTraits(span)) => span,
            },
    {
        match self {
            TyDiagCollection::Ty(d) => d.span,
            TyDiagCollection::TraitLower(TraitLowerDiag::CyclicSuperTraits(span)) => *span,
        }
    }
}

} // verus!
