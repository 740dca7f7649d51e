//! The part of a trait declaration that super-trait collection looks at.
//!
//! A declaration is a list of where-predicates (the bounds of the header
//! come first, in source order) followed by the items declared in the
//! trait's body. Every trait reference carries what resolving it produced.

use crate::diag::TyDiagCollection;
use crate::ids::Span;
use crate::ids::TraitInstId;
use vstd::prelude::*;

verus! {

/// The shape of the type that a where-predicate constrains.
#[derive(Clone, Copy, PartialEq, Eq, Structural, Debug, Hash)]
pub enum TypeKind {
    /// The trait's own `Self` type, applied to this many type arguments.
    SelfType(usize),
    /// Any other type.
    Other,
}

/// A reference to a trait in a bound, with the outcome of resolving it.
#[derive(Debug)]
pub struct TraitRef {
    /// Where the reference stands in the source.
    pub span: Span,
    /// The trait instance the reference resolved to, if it did.
    pub lowered: Option<TraitInstId>,
    /// What resolution reported.
    pub diags: Vec<TyDiagCollection>,
}

/// One bound of a where-predicate.
#[derive(Debug)]
pub enum TypeBound {
    /// The type must implement a trait.
    Trait(TraitRef),
    /// The type must have a certain kind.
    Kind,
}

/// `ty: bounds`.
#[derive(Debug)]
pub struct WherePredicate {
    /// The constrained type; `None` where the source did not parse.
    pub ty: Option<TypeKind>,
    pub bounds: Vec<TypeBound>,
}

/// An item declared inside a trait's body, such as a method.
#[derive(Debug)]
pub struct ItemKind {
    pub where_clause: Vec<WherePredicate>,
}

/// A trait declaration.
#[derive(Debug)]
pub struct TraitDecl {
    pub where_clause: Vec<WherePredicate>,
    pub items: Vec<ItemKind>,
}

impl WherePredicate {
    /// Whether this predicate bounds the trait's own `Self` type, written
    /// without type arguments. Only such a predicate names super traits.
    pub open spec fn is_self_bound(self) -> bool {
        self.ty == Some(TypeKind::SelfType(0))
    }
}

impl TraitDecl {
    /// A declaration without bounds and without items.
    pub fn empty() -> (decl: TraitDecl)
        ensures
            decl.where_clause@.len() == 0,
            decl.items@.len() == 0,
    {
        TraitDecl { where_clause: Vec::new(), items: Vec::new() }
    }
}

} // verus!
