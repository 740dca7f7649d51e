//! Collecting the super traits that one trait declares.
//!
//! A super trait is named by a bound on the trait's own `Self` type. The
//! collector walks the where-predicates of a declaration in source order
//! and keeps, for every such bound, either the trait instance it resolved
//! to or the diagnostics that stand for it.

use crate::db::AnalysisDb;
use crate::decl::ItemKind;
use crate::decl::TraitRef;
use crate::decl::TypeBound;
use crate::decl::TypeKind;
use crate::decl::WherePredicate;
use crate::diag::TraitLowerDiag;
use crate::diag::TyDiagCollection;
use crate::fx::fx_set_contains;
use crate::ids::TraitDef;
use crate::ids::TraitInstId;
use rustc_hash::FxHashSet;
use vstd::prelude::*;

verus! {

/// What a walk has collected so far.
pub struct Collected {
    pub super_traits: Seq<TraitInstId>,
    pub diags: Seq<TyDiagCollection>,
}

impl Collected {
    /// Nothing collected.
    pub open spec fn empty() -> Collected {
        Collected { super_traits: Seq::empty(), diags: Seq::empty() }
    }
}

/// What one trait reference adds. A reference that did not resolve cleanly
/// adds its diagnostics and nothing else; one that resolved to nothing adds
/// nothing; one that resolved to a trait in `cycle` adds a diagnostic at its
/// own place; any other adds its trait instance.
pub open(crate) spec fn visit_ref(
    db: AnalysisDb,
    cycle: Set<usize>,
    acc: Collected,
    r: TraitRef,
) -> Collected {
    if r.diags@.len() > 0 {
        Collected { super_traits: acc.super_traits, diags: acc.diags + r.diags@ }
    } else {
        match r.lowered {
            None => acc,
            Some(inst) => if cycle.contains(db.inst_def(inst).0) {
                Collected {
                    super_traits: acc.super_traits,
                    diags: acc.diags.push(TyDiagCollection::cyclic(r.span)),
                }
            } else {
                Collected { super_traits: acc.super_traits.push(inst), diags: acc.diags }
            },
        }
    }
}

/// What one bound adds: a kind bound adds nothing.
pub open(crate) spec fn visit_bound(
    db: AnalysisDb,
    cycle: Set<usize>,
    acc: Collected,
    bound: TypeBound,
) -> Collected {
    match bound {
        TypeBound::Trait(r) => visit_ref(db, cycle, acc, r),
        TypeBound::Kind => acc,
    }
}

/// What the first `n` of `bounds` add, in order.
pub open(crate) spec fn visit_bounds(
    db: AnalysisDb,
    cycle: Set<usize>,
    acc: Collected,
    bounds: Seq<TypeBound>,
    n: nat,
) -> Collected
    decreases n,
{
    if n == 0 {
        acc
    } else {
        visit_bound(db, cycle, visit_bounds(db, cycle, acc, bounds, (n - 1) as nat), bounds[n - 1])
    }
}

/// What one where-predicate adds: its bounds if it constrains `Self`
/// without type arguments, nothing otherwise.
pub open(crate) spec fn visit_pred(
    db: AnalysisDb,
    cycle: Set<usize>,
    acc: Collected,
    pred: WherePredicate,
) -> Collected {
    if pred.is_self_bound() {
        visit_bounds(db, cycle, acc, pred.bounds@, pred.bounds@.len())
    } else {
        acc
    }
}

/// What the first `n` of `preds` add, in order.
pub open(crate) spec fn visit_preds(
    db: AnalysisDb,
    cycle: Set<usize>,
    acc: Collected,
    preds: Seq<WherePredicate>,
    n: nat,
) -> Collected
    decreases n,
{
    if n == 0 {
        acc
    } else {
        visit_pred(db, cycle, visit_preds(db, cycle, acc, preds, (n - 1) as nat), preds[n - 1])
    }
}

/// What a walk of the declaration of `def` adds to `acc`. The items in the
/// body of the declaration play no part.
pub open(crate) spec fn walked(
    db: AnalysisDb,
    def: TraitDef,
    cycle: Set<usize>,
    acc: Collected,
) -> Collected {
    let preds = db.trait_decl(def).where_clause@;
    visit_preds(db, cycle, acc, preds, preds.len())
}

/// The super traits and diagnostics of `def` when the traits in `cycle`
/// are known to require `def` in turn.
pub open(crate) spec fn collected(db: AnalysisDb, def: TraitDef, cycle: Set<usize>) -> Collected {
    walked(db, def, cycle, Collected::empty())
}

/// Walks one trait declaration.
pub struct SuperTraitCollector<'db> {
    db: &'db AnalysisDb,
    trait_: TraitDef,
    super_traits: Vec<TraitInstId>,
    diags: Vec<TyDiagCollection>,
    cycle: FxHashSet<usize>,
}

impl<'db> SuperTraitCollector<'db> {
    /// The database that the collector reads.
    pub closed spec fn db(self) -> AnalysisDb {
        *self.db
    }

    /// The trait whose declaration is walked.
    pub closed spec fn trait_def(self) -> TraitDef {
        self.trait_
    }

    /// The traits that are known to lie on a cycle.
    pub closed spec fn cycle(self) -> Set<usize> {
        self.cycle@
    }

    /// What has been collected so far.
    pub closed spec fn state(self) -> Collected {
        Collected { super_traits: self.super_traits@, diags: self.diags@ }
    }

    /// The database is well formed and declares the trait.
    pub open(crate) spec fn inv(self) -> bool {
        &&& self.db().wf()
        &&& self.db().has_trait(self.trait_def())
    }

    /// `self` differs from `old` in what it has collected at most.
    pub open spec fn same_walk(self, old: Self) -> bool {
        &&& self.db() == old.db()
        &&& self.trait_def() == old.trait_def()
        &&& self.cycle() == old.cycle()
    }

    /// A collector for `trait_` that has collected nothing yet. `cycle`
    /// holds the traits that are known to lie on a cycle with it.
    pub fn new(db: &'db AnalysisDb, trait_: TraitDef, cycle: FxHashSet<usize>) -> (collector: Self)
        requires
            db.wf(),
            db.has_trait(trait_),
        ensures
            collector.inv(),
            collector.db() == *db,
            collector.trait_def() == trait_,
            collector.cycle() == cycle@,
            collector.state() == Collected::empty(),
    {
        Self { db, trait_, super_traits: Vec::new(), diags: Vec::new(), cycle }
    }

    /// Walks the declaration and hands out what was collected, before the
    /// walk and by it: the super traits in the order of their bounds, and
    /// the diagnostics.
    pub fn finalize(self) -> (result: (Vec<TraitInstId>, Vec<TyDiagCollection>))
        requires
            self.inv(),
        ensures
            result.0@ == walked(
                self.db(),
                self.trait_def(),
                self.cycle(),
                self.state(),
            ).super_traits,
            result.1@ == walked(self.db(), self.trait_def(), self.cycle(), self.state()).diags,
    {
        let mut this = self;
        let db: &'db AnalysisDb = this.db;
        let decl = this.trait_.decl(db);
        let mut i: usize = 0;
        while i < decl.where_clause.len()
            invariant
                i <= decl.where_clause@.len(),
                *decl == db.trait_decl(this.trait_def()),
                this.inv(),
                this.same_walk(self),
                this.db() == *db,
                this.state() == visit_preds(
                    *db,
                    this.cycle(),
                    self.state(),
                    decl.where_clause@,
                    i as nat,
                ),
            decreases decl.where_clause@.len() - i,
        {
            proof {
                assert(db.decl_ok(db.trait_decls@[this.trait_def().0 as int]));
            }
            this.visit_where_predicate(&decl.where_clause[i]);
            i += 1;
        }
        let mut k: usize = 0;
        while k < decl.items.len()
            invariant
                k <= decl.items@.len(),
                this.inv(),
                this.same_walk(self),
                this.state() == visit_preds(
                    *db,
                    this.cycle(),
                    self.state(),
                    decl.where_clause@,
                    decl.where_clause@.len(),
                ),
            decreases decl.items@.len() - k,
        {
            this.visit_item(&decl.items[k]);
            k += 1;
        }
        (this.super_traits, this.diags)
    }

    /// Takes in one trait reference of a bound on `Self`.
    pub fn visit_trait_ref(&mut self, trait_ref: &TraitRef)
        requires
            old(self).inv(),
            old(self).db().bound_ok(TypeBound::Trait(*trait_ref)),
        ensures
            final(self).inv(),
            final(self).same_walk(*old(self)),
            final(self).state() == visit_ref(
                old(self).db(),
                old(self).cycle(),
                old(self).state(),
                *trait_ref,
            ),
    {
        if trait_ref.diags.len() > 0 {
            let mut i: usize = 0;
            while i < trait_ref.diags.len()
                invariant
                    i <= trait_ref.diags@.len(),
                    self.inv(),
                    self.same_walk(*old(self)),
                    self.super_traits@ == old(self).super_traits@,
                    self.diags@ == old(self).diags@ + trait_ref.diags@.take(i as int),
                decreases trait_ref.diags@.len() - i,
            {
                self.diags.push(trait_ref.diags[i]);
                assert(trait_ref.diags@.take(i + 1) =~= trait_ref.diags@.take(i as int).push(
                    trait_ref.diags@[i as int],
                ));
                i += 1;
            }
            assert(trait_ref.diags@.take(trait_ref.diags@.len() as int) =~= trait_ref.diags@);
            return ;
        }
        let trait_inst = match trait_ref.lowered {
            Some(trait_inst) => trait_inst,
            None => {
                return ;
            },
        };
        if fx_set_contains(&self.cycle, trait_inst.def(self.db).0) {
            self.diags.push(
                TyDiagCollection::TraitLower(TraitLowerDiag::CyclicSuperTraits(trait_ref.span)),
            );
            return ;
        }
        self.super_traits.push(trait_inst);
    }

    /// Takes in one where-predicate: its bounds count if it constrains
    /// `Self` without type arguments, and are passed over otherwise.
    pub fn visit_where_predicate(&mut self, pred: &WherePredicate)
        requires
            old(self).inv(),
            forall|j: int|
                0 <= j < pred.bounds@.len() ==> old(self).db().bound_ok(#[trigger] pred.bounds@[j]),
        ensures
            final(self).inv(),
            final(self).same_walk(*old(self)),
            final(self).state() == visit_pred(
                old(self).db(),
                old(self).cycle(),
                old(self).state(),
                *pred,
            ),
    {
        match pred.ty {
            Some(TypeKind::SelfType(n_args)) => {
                if n_args == 0 {
                    self.walk_where_predicate(pred);
                }
            },
            _ => {},
        }
    }

    /// Passes over an item in the body of the trait: what it declares says
    /// nothing about the trait's super traits.
    pub fn visit_item(&mut self, item: &ItemKind)
        ensures
            *final(self) == *old(self),
    {
    }

    /// Takes in the bounds of a where-predicate, in order.
    fn walk_where_predicate(&mut self, pred: &WherePredicate)
        requires
            old(self).inv(),
            forall|j: int|
                0 <= j < pred.bounds@.len() ==> old(self).db().bound_ok(#[trigger] pred.bounds@[j]),
        ensures
            final(self).inv(),
            final(self).same_walk(*old(self)),
            final(self).state() == visit_bounds(
                old(self).db(),
                old(self).cycle(),
                old(self).state(),
                pred.bounds@,
                pred.bounds@.len(),
            ),
    {
        let mut j: usize = 0;
        while j < pred.bounds.len()
            invariant
                j <= pred.bounds@.len(),
                self.inv(),
                self.same_walk(*old(self)),
                forall|j: int|
                    0 <= j < pred.bounds@.len() ==> old(self).db().bound_ok(
                        #[trigger] pred.bounds@[j],
                    ),
                self.state() == visit_bounds(
                    old(self).db(),
                    old(self).cycle(),
                    old(self).state(),
                    pred.bounds@,
                    j as nat,
                ),
            decreases pred.bounds@.len() - j,
        {
            match &pred.bounds[j] {
                TypeBound::Trait(trait_ref) => {
                    self.visit_trait_ref(trait_ref);
                },
                TypeBound::Kind => {},
            }
            j += 1;
        }
    }
}

} // verus!
