//! Super-trait resolution and predicate lists for a trait system.
//!
//! A trait may require other traits through bounds on its own `Self` type.
//! This crate computes the super traits of every trait definition, reports
//! cyclic requirements, instantiates super traits for a trait applied to type
//! arguments, and keeps interned lists of predicates ("this type implements
//! this trait instance") together with an exact membership test.
//!
//! Every executable function carries a contract that is checked by Verus.

pub use crate::assumptions::compute_super_assumptions;
pub use crate::assumptions::super_trait_insts;
pub use crate::db::AnalysisDb;
pub use crate::ids::AssumptionListId;
pub use crate::ids::ConstraintListId;
pub use crate::ids::PredicateId;
pub use crate::ids::PredicateListId;
pub use crate::ids::TraitDef;
pub use crate::ids::TraitInstId;
pub use crate::ids::TyId;
pub use crate::super_traits::collect_super_traits;
pub use crate::super_traits::recover_collect_super_traits;

pub mod assumptions;
pub mod collector;
pub mod db;
pub mod decl;
pub mod diag;
pub mod fx;
pub mod ids;
pub mod predicate;
pub mod predicate_map;
pub mod subst;
pub mod super_traits;
pub mod theorems;
pub mod ty;
