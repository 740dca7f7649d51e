//! Predicates and predicate lists.
//!
//! A predicate says that a type implements a trait instance. A predicate
//! list names, for every type of a scope, the trait instances that the type
//! is known to implement (an assumption list) or has to implement (a
//! constraint list). Both are interned.

use crate::db::list_data_same;
use crate::db::AnalysisDb;
use crate::db::PredicateData;
use crate::db::PredicateListData;
use crate::ids::IngotId;
use crate::ids::PredicateId;
use crate::ids::PredicateListId;
use crate::ids::TraitInstId;
use crate::ids::TyId;
use crate::predicate_map::inst_vec_contains;
use crate::predicate_map::PredicateMap;
use crate::subst::subst_inst;
use crate::subst::subst_term;
use crate::subst::subst_valid;
use crate::subst::term_subst;
use crate::subst::lemma_term_subst_extends;
use crate::subst::Subst;
use crate::ty::is_prefix;
use vstd::prelude::*;

verus! {

impl AnalysisDb {
    /// The place of `data` among the predicates, if it is interned.
    fn find_pred(&self, data: PredicateData) -> (found: Option<usize>)
        ensures
            match found {
                Some(i) => i < self.preds@.len() && self.preds@[i as int] == data,
                None => forall|k: int| 0 <= k < self.preds@.len() ==> self.preds@[k] != data,
            },
    {
        let mut i: usize = 0;
        while i < self.preds.len()
            invariant
                i <= self.preds@.len(),
                forall|k: int| 0 <= k < i ==> self.preds@[k] != data,
            decreases self.preds@.len() - i,
        {
            if self.preds[i] == data {
                return Some(i);
            }
            i += 1;
        }
        None
    }

    /// The place of the list with these predicates for this compilation
    /// unit, if it is interned.
    fn find_list(&self, predicates: &PredicateMap, ingot: IngotId) -> (found: Option<usize>)
        ensures
            match found {
                Some(i) => i < self.lists@.len() && self.lists@[i as int].predicates.repr()
                    == predicates.repr() && self.lists@[i as int].ingot == ingot,
                None => forall|k: int|
                    0 <= k < self.lists@.len() ==> !((#[trigger] self.lists@[k]).predicates.repr()
                        == predicates.repr() && self.lists@[k].ingot == ingot),
            },
    {
        let mut i: usize = 0;
        while i < self.lists.len()
            invariant
                i <= self.lists@.len(),
                forall|k: int|
                    0 <= k < i ==> !((#[trigger] self.lists@[k]).predicates.repr()
                        == predicates.repr() && self.lists@[k].ingot == ingot),
            decreases self.lists@.len() - i,
        {
            if self.lists[i].ingot == ingot && self.lists[i].predicates.eq_map(predicates) {
                return Some(i);
            }
            i += 1;
        }
        None
    }
}

impl PredicateId {
    /// Interns the predicate "`ty` implements `trait_`". The same parts
    /// always give the same handle.
    pub fn new(db: &mut AnalysisDb, ty: TyId, trait_: TraitInstId) -> (pred: PredicateId)
        requires
            old(db).wf(),
            old(db).has_ty(ty),
            old(db).has_inst(trait_),
        ensures
            final(db).wf(),
            final(db).extends(*old(db)),
            final(db).has_pred(pred),
            final(db).pred_ty(pred) == ty,
            final(db).pred_inst(pred) == trait_,
    {
        let data = PredicateData { ty, trait_ };
        match db.find_pred(data) {
            Some(i) => PredicateId(i),
            None => {
                let i = db.preds.len();
                db.preds.push(data);
                proof {
                    assert(is_prefix(old(db).preds@, db.preds@));
                    assert(db.preds_wf());
                    assert(db.stored_wf());
                    db.lemma_memo_extends(*old(db));
                    db.lemma_inst_memo_extends(*old(db));
                }
                PredicateId(i)
            },
        }
    }

    /// The type that this predicate speaks of.
    pub fn ty(self, db: &AnalysisDb) -> (ty: TyId)
        requires
            db.wf(),
            db.has_pred(self),
        ensures
            ty == db.pred_ty(self),
            db.has_ty(ty),
    {
        assert(db.has_ty(db.preds@[self.0 as int].ty));
        db.preds[self.0].ty
    }

    /// The trait instance that this predicate speaks of.
    pub fn trait_(self, db: &AnalysisDb) -> (trait_: TraitInstId)
        requires
            db.wf(),
            db.has_pred(self),
        ensures
            trait_ == db.pred_inst(self),
            db.has_inst(trait_),
    {
        assert(db.has_ty(db.preds@[self.0 as int].ty));
        db.preds[self.0].trait_
    }

    /// This predicate with its type and its trait instance rewritten under
    /// `subst`.
    pub fn apply_subst<S: Subst>(self, db: &mut AnalysisDb, subst: &mut S) -> (pred: PredicateId)
        requires
            old(db).wf(),
            old(db).has_pred(self),
            subst_valid(*old(db), old(subst).table()),
        ensures
            final(db).wf(),
            final(db).extends(*old(db)),
            final(db).has_pred(pred),
            final(subst).table() == old(subst).table(),
            final(db).term(final(db).pred_ty(pred)) == subst_term(
                old(db).term(old(db).pred_ty(self)),
                term_subst(*old(db), old(subst).table()),
            ),
            final(db).inst_term(final(db).pred_inst(pred)) == subst_inst(
                old(db).inst_term(old(db).pred_inst(self)),
                term_subst(*old(db), old(subst).table()),
            ),
    {
        let ghost db0 = *db;
        let ghost table = subst.table();
        let old_ty = self.ty(db);
        let old_trait = self.trait_(db);
        let ty = old_ty.apply_subst(db, subst);
        let ghost db1 = *db;
        proof {
            lemma_term_subst_extends(db0, db1, table);
            db1.lemma_extends_inst(db0, old_trait);
        }
        let trait_ = old_trait.apply_subst(db, subst);
        let ghost db2 = *db;
        proof {
            db2.lemma_extends_term(db1, ty);
            db2.lemma_extends_trans(db1, db0);
        }
        let pred = PredicateId::new(db, ty, trait_);
        proof {
            db.lemma_extends_trans(db2, db0);
            db.lemma_extends_term(db2, ty);
            db.lemma_extends_inst(db2, trait_);
        }
        pred
    }
}

impl PredicateListId {
    /// Interns a predicate list. The same predicates for the same
    /// compilation unit always give the same handle.
    pub fn new(db: &mut AnalysisDb, predicates: PredicateMap, ingot: IngotId) -> (list:
        PredicateListId)
        requires
            old(db).wf(),
            predicates.wf(),
            old(db).map_ok(predicates),
        ensures
            final(db).wf(),
            final(db).extends(*old(db)),
            final(db).has_list(list),
            final(db).list_map(list) == predicates@,
            final(db).list_ingot(list) == ingot,
    {
        match db.find_list(&predicates, ingot) {
            Some(i) => {
                proof {
                    assert(db.lists@[i as int].predicates.wf());
                    db.lists@[i as int].predicates.lemma_repr_view(predicates);
                }
                PredicateListId(i)
            },
            None => {
                let i = db.lists.len();
                let data = PredicateListData { predicates, ingot };
                db.lists.push(data);
                proof {
                    assert(is_prefix(old(db).lists@, db.lists@));
                    assert forall|a: int, b: int| 0 <= a < b < db.lists@.len() implies !list_data_same(
                        #[trigger] db.lists@[a],
                        #[trigger] db.lists@[b],
                    ) by {
                        if b < i {
                            assert(!list_data_same(old(db).lists@[a], old(db).lists@[b]));
                        }
                    }
                    assert forall|k: int| 0 <= k < db.lists@.len() implies (
                    #[trigger] db.lists@[k]).predicates.wf() && db.map_ok(
                        db.lists@[k].predicates,
                    ) by {
                        if k < i {
                            assert(old(db).lists@[k].predicates.wf());
                        }
                    }
                    assert(db.lists_wf());
                    assert(db.stored_wf());
                    db.lemma_memo_extends(*old(db));
                    db.lemma_inst_memo_extends(*old(db));
                }
                PredicateListId(i)
            },
        }
    }

    /// The predicates of this list.
    pub fn predicates(self, db: &AnalysisDb) -> (predicates: &PredicateMap)
        requires
            db.wf(),
            db.has_list(self),
        ensures
            *predicates == db.list_data(self),
            predicates@ == db.list_map(self),
            predicates.wf(),
            db.map_ok(*predicates),
    {
        assert(db.lists@[self.0 as int].predicates.wf());
        &db.lists[self.0].predicates
    }

    /// The compilation unit that this list belongs to.
    pub fn ingot(self, db: &AnalysisDb) -> (ingot: IngotId)
        requires
            db.has_list(self),
        ensures
            ingot == db.list_ingot(self),
    {
        db.lists[self.0].ingot
    }

    /// Whether this list names the predicate: whether the predicate's type
    /// is a key of the list and the predicate's trait instance stands under
    /// it.
    pub fn does_satisfy(self, db: &AnalysisDb, predicate: PredicateId) -> (holds: bool)
        requires
            db.wf(),
            db.has_list(self),
            db.has_pred(predicate),
        ensures
            holds == (db.list_map(self).contains_key(db.pred_ty(predicate)) && db.list_map(
                self,
            )[db.pred_ty(predicate)].contains(db.pred_inst(predicate))),
    {
        let trait_ = predicate.trait_(db);
        let ty = predicate.ty(db);
        let insts = match self.predicates(db).get(ty) {
            Some(insts) => insts,
            None => {
                return false;
            },
        };
        inst_vec_contains(insts, trait_)
    }
}

} // verus!
