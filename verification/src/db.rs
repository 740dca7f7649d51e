//! The database: the declared traits and the interning tables.
//!
//! Every interned value is stored once. A handle is the position of its
//! value, so two handles of one database are equal exactly if their values
//! are.

use crate::assumptions::lemma_super_inst_terms_extends;
use crate::assumptions::super_inst_terms;
use crate::decl::TraitDecl;
use crate::decl::TypeBound;
use crate::diag::TyDiagCollection;
use crate::ids::IngotId;
use crate::ids::PredicateId;
use crate::ids::PredicateListId;
use crate::ids::TraitDef;
use crate::ids::TraitInstId;
use crate::ids::TyId;
use crate::predicate_map::PredicateMap;
use crate::super_traits::lemma_super_traits_extends;
use crate::super_traits::super_traits_of;
use crate::ty::copy_vec;
use crate::ty::is_prefix;
use crate::ty::lemma_term_prefix;
use crate::ty::term_at;
use crate::ty::terms_at;
use crate::ty::ty_vec_eq;
use crate::ty::tys_wf;
use crate::ty::Term;
use crate::ty::TyData;
use vstd::prelude::*;

verus! {

/// What a trait instance is made of.
pub struct TraitInstData {
    pub def: TraitDef,
    pub substs: Vec<TyId>,
}

/// A trait instance with its type arguments written out as terms.
pub struct InstTerm {
    pub def: TraitDef,
    pub args: Seq<Term>,
}

/// What a predicate is made of: a type and the trait instance that it is
/// to implement.
#[derive(Clone, Copy, PartialEq, Eq, Structural)]
pub struct PredicateData {
    pub ty: TyId,
    pub trait_: TraitInstId,
}

/// What a predicate list is made of.
pub struct PredicateListData {
    pub predicates: PredicateMap,
    pub ingot: IngotId,
}

/// Whether two predicate lists are made of the same parts.
pub open(crate) spec fn list_data_same(a: PredicateListData, b: PredicateListData) -> bool {
    &&& a.predicates.repr() == b.predicates.repr()
    &&& a.ingot == b.ingot
}

/// Whether two trait instances are made of the same parts.
pub open spec fn inst_data_same(a: TraitInstData, b: TraitInstData) -> bool {
    &&& a.def == b.def
    &&& a.substs@ == b.substs@
}

/// The declared traits and everything that was interned.
pub struct AnalysisDb {
    pub(crate) tys: Vec<TyData>,
    pub(crate) trait_params: Vec<Vec<TyId>>,
    pub(crate) trait_decls: Vec<TraitDecl>,
    pub(crate) insts: Vec<TraitInstData>,
    pub(crate) preds: Vec<PredicateData>,
    pub(crate) lists: Vec<PredicateListData>,
    pub(crate) memo: Vec<Option<(Vec<TraitInstId>, Vec<TyDiagCollection>)>>,
    pub(crate) inst_memo: Vec<Option<Vec<TraitInstId>>>,
}

impl AnalysisDb {
    // ----- types -----
    /// Whether `ty` is a type of this database.
    pub open(crate) spec fn has_ty(self, ty: TyId) -> bool {
        ty.0 < self.tys@.len()
    }

    /// Whether all of `tys` are types of this database.
    pub open(crate) spec fn has_tys(self, tys: Seq<TyId>) -> bool {
        forall|k: int| 0 <= k < tys.len() ==> self.has_ty(#[trigger] tys[k])
    }

    /// The node that `ty` names.
    pub open(crate) spec fn ty_data(self, ty: TyId) -> TyData {
        self.tys@[ty.0 as int]
    }

    /// The term that `ty` stands for.
    pub open(crate) spec fn term(self, ty: TyId) -> Term {
        term_at(self.tys@, ty.0 as int)
    }

    /// The terms that `tys` stand for.
    pub open(crate) spec fn terms(self, tys: Seq<TyId>) -> Seq<Term> {
        terms_at(self.tys@, tys)
    }

    /// Whether a node may be interned: the parts of an application are
    /// types of this database.
    pub open(crate) spec fn ty_data_ok(self, data: TyData) -> bool {
        data matches TyData::App(l, r) ==> self.has_ty(l) && self.has_ty(r)
    }

    /// The term of a node whose parts are types of this database.
    pub open(crate) spec fn data_term(self, data: TyData) -> Term {
        match data {
            TyData::Base(b) => Term::Base(b),
            TyData::Param(p) => Term::Param(p),
            TyData::App(l, r) => Term::App(Box::new(self.term(l)), Box::new(self.term(r))),
        }
    }

    // ----- traits -----
    /// The number of declared traits.
    pub open(crate) spec fn trait_count(self) -> nat {
        self.trait_decls@.len()
    }

    /// Whether `def` is a trait of this database.
    pub open(crate) spec fn has_trait(self, def: TraitDef) -> bool {
        def.0 < self.trait_decls@.len()
    }

    /// The type parameters of `def`.
    pub open(crate) spec fn trait_params(self, def: TraitDef) -> Seq<TyId> {
        self.trait_params@[def.0 as int]@
    }

    /// The declaration of `def`.
    pub open(crate) spec fn trait_decl(self, def: TraitDef) -> TraitDecl {
        self.trait_decls@[def.0 as int]
    }

    /// Whether a bound only names trait instances of this database.
    pub open(crate) spec fn bound_ok(self, bound: TypeBound) -> bool {
        match bound {
            TypeBound::Trait(r) => match r.lowered {
                Some(inst) => self.has_inst(inst),
                None => true,
            },
            TypeBound::Kind => true,
        }
    }

    /// Whether the bounds of a declaration only name trait instances of
    /// this database.
    pub open(crate) spec fn decl_ok(self, decl: TraitDecl) -> bool {
        forall|i: int, j: int|
            0 <= i < decl.where_clause@.len() && 0 <= j < decl.where_clause@[i].bounds@.len()
                ==> self.bound_ok(#[trigger] decl.where_clause@[i].bounds@[j])
    }

    // ----- trait instances -----
    /// Whether `inst` is a trait instance of this database.
    pub open(crate) spec fn has_inst(self, inst: TraitInstId) -> bool {
        inst.0 < self.insts@.len()
    }

    /// Whether all of `insts` are trait instances of this database.
    pub open(crate) spec fn has_insts(self, insts: Seq<TraitInstId>) -> bool {
        forall|k: int| 0 <= k < insts.len() ==> self.has_inst(#[trigger] insts[k])
    }

    /// The trait that `inst` instantiates.
    pub open(crate) spec fn inst_def(self, inst: TraitInstId) -> TraitDef {
        self.insts@[inst.0 as int].def
    }

    /// The type arguments of `inst`.
    pub open(crate) spec fn inst_substs(self, inst: TraitInstId) -> Seq<TyId> {
        self.insts@[inst.0 as int].substs@
    }

    /// `inst` with its type arguments written out.
    pub open(crate) spec fn inst_term(self, inst: TraitInstId) -> InstTerm {
        InstTerm { def: self.inst_def(inst), args: self.terms(self.inst_substs(inst)) }
    }

    /// Each of `insts` with its type arguments written out.
    pub open(crate) spec fn inst_terms(self, insts: Seq<TraitInstId>) -> Seq<InstTerm> {
        Seq::new(insts.len(), |k: int| self.inst_term(insts[k]))
    }

    /// Whether `inst` is made of these parts.
    pub open(crate) spec fn inst_is(self, inst: TraitInstId, def: TraitDef, substs: Seq<TyId>) -> bool {
        &&& self.inst_def(inst) == def
        &&& self.inst_substs(inst) == substs
    }

    // ----- predicates -----
    /// Whether `pred` is a predicate of this database.
    pub open(crate) spec fn has_pred(self, pred: PredicateId) -> bool {
        pred.0 < self.preds@.len()
    }

    /// The type that `pred` speaks of.
    pub open(crate) spec fn pred_ty(self, pred: PredicateId) -> TyId {
        self.preds@[pred.0 as int].ty
    }

    /// The trait instance that `pred` speaks of.
    pub open(crate) spec fn pred_inst(self, pred: PredicateId) -> TraitInstId {
        self.preds@[pred.0 as int].trait_
    }

    // ----- predicate lists -----
    /// Whether `list` is a predicate list of this database.
    pub open(crate) spec fn has_list(self, list: PredicateListId) -> bool {
        list.0 < self.lists@.len()
    }

    /// The predicates of `list` as they are stored.
    pub open(crate) spec fn list_data(self, list: PredicateListId) -> PredicateMap {
        self.lists@[list.0 as int].predicates
    }

    /// The predicates of `list`: for every type, the trait instances that
    /// the list names for it.
    pub open(crate) spec fn list_map(self, list: PredicateListId) -> Map<TyId, Set<TraitInstId>> {
        self.lists@[list.0 as int].predicates@
    }

    /// The compilation unit that `list` belongs to.
    pub open(crate) spec fn list_ingot(self, list: PredicateListId) -> IngotId {
        self.lists@[list.0 as int].ingot
    }

    /// Whether a map only names types and trait instances of this
    /// database.
    pub open(crate) spec fn map_ok(self, map: PredicateMap) -> bool {
        forall|i: int|
            0 <= i < map.entries@.len() ==> self.has_ty((#[trigger] map.entries@[i]).ty)
                && self.has_insts(map.entries@[i].insts@)
    }

    // ----- the invariant -----
    /// The type parameters of every trait are types of this database, and
    /// its bounds name trait instances of this database.
    pub open(crate) spec fn traits_wf(self) -> bool {
        &&& self.trait_params@.len() == self.trait_decls@.len()
        &&& forall|t: int|
            0 <= t < self.trait_params@.len() ==> self.has_tys((#[trigger] self.trait_params@[t])@)
        &&& forall|t: int|
            0 <= t < self.trait_decls@.len() ==> self.decl_ok(#[trigger] self.trait_decls@[t])
    }

    /// Every trait instance is made of a trait and of types of this
    /// database, and none is stored twice.
    pub open(crate) spec fn insts_wf(self) -> bool {
        &&& forall|k: int|
            0 <= k < self.insts@.len() ==> self.has_trait((#[trigger] self.insts@[k]).def)
        &&& forall|k: int|
            0 <= k < self.insts@.len() ==> self.has_tys((#[trigger] self.insts@[k]).substs@)
        &&& forall|a: int, b: int|
            0 <= a < b < self.insts@.len() ==> !inst_data_same(
                #[trigger] self.insts@[a],
                #[trigger] self.insts@[b],
            )
    }

    /// Every predicate is made of a type and a trait instance of this
    /// database, and none is stored twice.
    pub open(crate) spec fn preds_wf(self) -> bool {
        &&& forall|k: int|
            0 <= k < self.preds@.len() ==> self.has_ty((#[trigger] self.preds@[k]).ty)
                && self.has_inst(self.preds@[k].trait_)
        &&& forall|a: int, b: int|
            0 <= a < b < self.preds@.len() ==> #[trigger] self.preds@[a] != #[trigger] self.preds@[b]
    }

    /// Every predicate list is in order and names types and trait
    /// instances of this database, and none is stored twice.
    pub open(crate) spec fn lists_wf(self) -> bool {
        &&& forall|k: int|
            0 <= k < self.lists@.len() ==> (#[trigger] self.lists@[k]).predicates.wf()
                && self.map_ok(self.lists@[k].predicates)
        &&& forall|a: int, b: int|
            0 <= a < b < self.lists@.len() ==> !list_data_same(
                #[trigger] self.lists@[a],
                #[trigger] self.lists@[b],
            )
    }

    /// Whether `entry` holds the super traits of trait `t`.
    pub open(crate) spec fn memo_entry_ok(
        self,
        t: int,
        entry: (Vec<TraitInstId>, Vec<TyDiagCollection>),
    ) -> bool {
        &&& entry.0@ == super_traits_of(self, TraitDef(t as usize)).super_traits
        &&& entry.1@ == super_traits_of(self, TraitDef(t as usize)).diags
    }

    /// What is kept of a trait's super traits is what they are.
    pub open(crate) spec fn memo_wf(self) -> bool {
        &&& self.memo@.len() == self.trait_decls@.len()
        &&& forall|t: int|
            0 <= t < self.memo@.len() ==> ((#[trigger] self.memo@[t]) matches Some(entry)
                ==> self.memo_entry_ok(t, entry))
    }

    /// Whether `entry` holds the super-trait instances of trait instance
    /// `i`.
    pub open(crate) spec fn inst_memo_entry_ok(self, i: int, entry: Vec<TraitInstId>) -> bool {
        &&& self.has_insts(entry@)
        &&& self.inst_terms(entry@) == super_inst_terms(
            self,
            self.inst_term(TraitInstId(i as usize)),
        )
    }

    /// What is kept of a trait instance's super-trait instances is what
    /// they are.
    pub open(crate) spec fn inst_memo_wf(self) -> bool {
        &&& self.inst_memo@.len() == self.insts@.len()
        &&& forall|i: int|
            0 <= i < self.inst_memo@.len() ==> ((#[trigger] self.inst_memo@[i]) matches Some(entry)
                ==> self.inst_memo_entry_ok(i, entry))
    }

    /// The invariant of what is stored: every handle names something of
    /// this database, the parts of a type come before it, and nothing is
    /// stored twice.
    pub open(crate) spec fn stored_wf(self) -> bool {
        &&& tys_wf(self.tys@)
        &&& self.traits_wf()
        &&& self.insts_wf()
        &&& self.preds_wf()
        &&& self.lists_wf()
    }

    /// The invariant of the database.
    pub open(crate) spec fn wf(self) -> bool {
        &&& self.stored_wf()
        &&& self.memo_wf()
        &&& self.inst_memo_wf()
    }

    /// Whether the super traits of `def` are kept, so that they need not be
    /// computed again.
    pub open(crate) spec fn is_kept(self, def: TraitDef) -> bool {
        def.0 < self.memo@.len() && self.memo@[def.0 as int] is Some
    }

    /// Whether the super-trait instances of `inst` are kept, so that they
    /// need not be computed again.
    pub open(crate) spec fn is_inst_kept(self, inst: TraitInstId) -> bool {
        inst.0 < self.inst_memo@.len() && self.inst_memo@[inst.0 as int] is Some
    }

    /// `self` holds everything that `old` holds, under the same handles,
    /// declares the same traits, and keeps the super traits and super-trait
    /// instances that `old` keeps.
    pub open(crate) spec fn extends(self, old: AnalysisDb) -> bool {
        &&& forall|i: int|
            0 <= i < old.inst_memo@.len() && (#[trigger] old.inst_memo@[i]) is Some ==> i
                < self.inst_memo@.len() && self.inst_memo@[i] is Some
        &&& forall|t: int|
            0 <= t < old.memo@.len() && (#[trigger] old.memo@[t]) is Some ==> t < self.memo@.len()
                && self.memo@[t] is Some
        &&& is_prefix(old.tys@, self.tys@)
        &&& is_prefix(old.insts@, self.insts@)
        &&& is_prefix(old.preds@, self.preds@)
        &&& is_prefix(old.lists@, self.lists@)
        &&& self.trait_params@ == old.trait_params@
        &&& self.trait_decls@ == old.trait_decls@
    }

    /// `self` has interned exactly what `old` has.
    pub open(crate) spec fn same_interned(self, old: AnalysisDb) -> bool {
        &&& self.tys@ == old.tys@
        &&& self.insts@ == old.insts@
        &&& self.preds@ == old.preds@
        &&& self.lists@ == old.lists@
    }

    /// Extending twice is extending.
    pub proof fn lemma_extends_trans(self, mid: AnalysisDb, old: AnalysisDb)
        requires
            self.extends(mid),
            mid.extends(old),
        ensures
            self.extends(old),
    {
        assert forall|t: int| 0 <= t < old.memo@.len() && (#[trigger] old.memo@[t])
            is Some implies t < self.memo@.len() && self.memo@[t] is Some by {
            assert(mid.memo@[t] is Some);
        }
        assert forall|i: int| 0 <= i < old.inst_memo@.len() && (#[trigger] old.inst_memo@[i])
            is Some implies i < self.inst_memo@.len() && self.inst_memo@[i] is Some by {
            assert(mid.inst_memo@[i] is Some);
        }
    }

    /// A type of the old database stands for the same term in a database
    /// that extends it.
    pub proof fn lemma_extends_term(self, old: AnalysisDb, ty: TyId)
        requires
            self.extends(old),
            old.has_ty(ty),
        ensures
            self.has_ty(ty),
            self.term(ty) == old.term(ty),
            self.ty_data(ty) == old.ty_data(ty),
    {
        lemma_term_prefix(old.tys@, self.tys@, ty.0 as int);
    }

    /// A trait instance of the old database is the same trait instance in a
    /// database that extends it.
    pub proof fn lemma_extends_inst(self, old: AnalysisDb, inst: TraitInstId)
        requires
            old.wf(),
            self.extends(old),
            old.has_inst(inst),
        ensures
            self.has_inst(inst),
            self.inst_def(inst) == old.inst_def(inst),
            self.inst_substs(inst) == old.inst_substs(inst),
            self.inst_term(inst) == old.inst_term(inst),
            old.has_tys(old.inst_substs(inst)),
            old.has_trait(old.inst_def(inst)),
    {
        assert(old.has_tys(old.insts@[inst.0 as int].substs@));
        assert(old.has_trait(old.insts@[inst.0 as int].def));
        self.lemma_extends_terms(old, old.inst_substs(inst));
    }

    /// A predicate of the old database is the same predicate in a database
    /// that extends it.
    pub proof fn lemma_extends_pred(self, old: AnalysisDb, pred: PredicateId)
        requires
            old.wf(),
            self.extends(old),
            old.has_pred(pred),
        ensures
            self.has_pred(pred),
            self.pred_ty(pred) == old.pred_ty(pred),
            self.pred_inst(pred) == old.pred_inst(pred),
            old.has_ty(old.pred_ty(pred)),
            old.has_inst(old.pred_inst(pred)),
    {
        assert(old.has_ty(old.preds@[pred.0 as int].ty));
    }

    /// A predicate list of the old database is the same predicate list in
    /// a database that extends it.
    pub proof fn lemma_extends_list(self, old: AnalysisDb, list: PredicateListId)
        requires
            old.wf(),
            self.extends(old),
            old.has_list(list),
        ensures
            self.has_list(list),
            self.list_data(list) == old.list_data(list),
            self.list_map(list) == old.list_map(list),
            self.list_ingot(list) == old.list_ingot(list),
            old.list_data(list).wf(),
            old.map_ok(old.list_data(list)),
    {
        assert(old.lists@[list.0 as int].predicates.wf());
    }

    /// Two trait instances of a database that are written out alike are
    /// the same trait instance.
    pub proof fn lemma_inst_term_injective(self, a: TraitInstId, b: TraitInstId)
        requires
            self.wf(),
            self.has_inst(a),
            self.has_inst(b),
            self.inst_term(a) == self.inst_term(b),
        ensures
            a == b,
    {
        let sa = self.inst_substs(a);
        let sb = self.inst_substs(b);
        assert(self.has_tys(self.insts@[a.0 as int].substs@));
        assert(self.has_tys(self.insts@[b.0 as int].substs@));
        assert(self.terms(sa).len() == self.terms(sb).len());
        assert forall|k: int| 0 <= k < sa.len() implies sa[k] == sb[k] by {
            assert(self.terms(sa)[k] == self.terms(sb)[k]);
            assert(self.has_ty(sa[k]));
            assert(self.has_ty(sb[k]));
            crate::ty::lemma_term_injective(self.tys@, sa[k].0 as int, sb[k].0 as int);
        }
        assert(sa =~= sb);
        assert(inst_data_same(self.insts@[a.0 as int], self.insts@[b.0 as int]));
        if a.0 < b.0 {
            assert(!inst_data_same(self.insts@[a.0 as int], self.insts@[b.0 as int]));
        } else if b.0 < a.0 {
            assert(!inst_data_same(self.insts@[b.0 as int], self.insts@[a.0 as int]));
        }
    }

    /// Two types of a database that stand for the same term are the same
    /// type.
    pub proof fn lemma_ty_term_injective(self, a: TyId, b: TyId)
        requires
            self.wf(),
            self.has_ty(a),
            self.has_ty(b),
            self.term(a) == self.term(b),
        ensures
            a == b,
    {
        crate::ty::lemma_term_injective(self.tys@, a.0 as int, b.0 as int);
    }

    /// What was kept of trait instances stays right when more is interned.
    pub(crate) proof fn lemma_inst_memo_extends(self, old: AnalysisDb)
        requires
            old.wf(),
            self.extends(old),
            self.inst_memo@.len() == self.insts@.len(),
            forall|i: int|
                0 <= i < self.inst_memo@.len() && (#[trigger] self.inst_memo@[i]) is Some ==> i
                    < old.inst_memo@.len() && old.inst_memo@[i] == self.inst_memo@[i],
        ensures
            self.inst_memo_wf(),
    {
        assert forall|i: int|
            0 <= i < self.inst_memo@.len() && (#[trigger] self.inst_memo@[i]) is Some implies i
            < old.insts@.len() && old.inst_memo_entry_ok(i, self.inst_memo@[i]->0) by {
            assert(old.inst_memo@[i] == self.inst_memo@[i]);
        }
        self.lemma_inst_memo_ok(old);
    }

    /// Entries that were right for the old database are right for a
    /// database that extends it.
    pub(crate) proof fn lemma_inst_memo_ok(self, old: AnalysisDb)
        requires
            old.wf(),
            self.extends(old),
            self.inst_memo@.len() == self.insts@.len(),
            forall|i: int|
                0 <= i < self.inst_memo@.len() && (#[trigger] self.inst_memo@[i]) is Some ==> i
                    < old.insts@.len() && old.inst_memo_entry_ok(i, self.inst_memo@[i]->0),
        ensures
            self.inst_memo_wf(),
    {
        assert forall|i: int| 0 <= i < self.inst_memo@.len() implies ((
        #[trigger] self.inst_memo@[i]) matches Some(entry) ==> self.inst_memo_entry_ok(
            i,
            entry,
        )) by {
            if self.inst_memo@[i] is Some {
                let entry = self.inst_memo@[i]->0;
                assert(old.inst_memo_entry_ok(i, entry));
                let inst = TraitInstId(i as usize);
                self.lemma_extends_inst(old, inst);
                lemma_super_inst_terms_extends(old, self, inst);
                assert forall|k: int| 0 <= k < entry@.len() implies self.has_inst(
                    #[trigger] entry@[k],
                ) && self.inst_term(entry@[k]) == old.inst_term(entry@[k]) by {
                    assert(old.has_inst(entry@[k]));
                    self.lemma_extends_inst(old, entry@[k]);
                }
                assert(self.inst_terms(entry@) =~= old.inst_terms(entry@));
            }
        }
    }

    /// What was kept stays right when more is interned.
    pub(crate) proof fn lemma_memo_extends(self, old: AnalysisDb)
        requires
            old.wf(),
            self.extends(old),
            self.memo@ == old.memo@,
        ensures
            self.memo_wf(),
    {
        assert forall|t: int| 0 <= t < self.memo@.len() implies ((#[trigger] self.memo@[t])
            matches Some(entry) ==> self.memo_entry_ok(t, entry)) by {
            lemma_super_traits_extends(old, self, TraitDef(t as usize));
            assert(self.memo@[t] == old.memo@[t]);
        }
    }

    /// What holds of the old database's handles holds of them in a database
    /// that extends it.
    pub proof fn lemma_extends_terms(self, old: AnalysisDb, tys: Seq<TyId>)
        requires
            self.extends(old),
            old.has_tys(tys),
        ensures
            self.has_tys(tys),
            self.terms(tys) == old.terms(tys),
    {
        assert forall|k: int| 0 <= k < tys.len() implies self.has_ty(#[trigger] tys[k]) && term_at(
            self.tys@,
            tys[k].0 as int,
        ) == term_at(old.tys@, tys[k].0 as int) by {
            assert(old.has_ty(tys[k]));
            lemma_term_prefix(old.tys@, self.tys@, tys[k].0 as int);
        }
        assert(self.terms(tys) =~= old.terms(tys));
    }

    /// A database with nothing in it.
    pub fn new() -> (db: AnalysisDb)
        ensures
            db.wf(),
            db.trait_count() == 0,
            forall|ty: TyId| !db.has_ty(ty),
            forall|inst: TraitInstId| !db.has_inst(inst),
            forall|pred: PredicateId| !db.has_pred(pred),
            forall|list: PredicateListId| !db.has_list(list),
    {
        AnalysisDb {
            tys: Vec::new(),
            trait_params: Vec::new(),
            trait_decls: Vec::new(),
            insts: Vec::new(),
            preds: Vec::new(),
            lists: Vec::new(),
            memo: Vec::new(),
            inst_memo: Vec::new(),
        }
    }

    /// Whether `ty` is a type of this database.
    pub fn is_ty(&self, ty: TyId) -> (r: bool)
        ensures
            r == self.has_ty(ty),
    {
        ty.0 < self.tys.len()
    }

    /// Whether `def` is a trait of this database.
    pub fn is_trait(&self, def: TraitDef) -> (r: bool)
        ensures
            r == self.has_trait(def),
    {
        def.0 < self.trait_decls.len()
    }

    /// Whether `inst` is a trait instance of this database.
    pub fn is_inst(&self, inst: TraitInstId) -> (r: bool)
        ensures
            r == self.has_inst(inst),
    {
        inst.0 < self.insts.len()
    }

    /// Whether `pred` is a predicate of this database.
    pub fn is_pred(&self, pred: PredicateId) -> (r: bool)
        ensures
            r == self.has_pred(pred),
    {
        pred.0 < self.preds.len()
    }

    /// Whether `list` is a predicate list of this database.
    pub fn is_list(&self, list: PredicateListId) -> (r: bool)
        ensures
            r == self.has_list(list),
    {
        list.0 < self.lists.len()
    }

    /// Whether all of `tys` are types of this database.
    pub fn are_tys(&self, tys: &Vec<TyId>) -> (r: bool)
        ensures
            r == self.has_tys(tys@),
    {
        let mut i: usize = 0;
        while i < tys.len()
            invariant
                i <= tys@.len(),
                forall|k: int| 0 <= k < i ==> self.has_ty(#[trigger] tys@[k]),
            decreases tys@.len() - i,
        {
            if !self.is_ty(tys[i]) {
                return false;
            }
            i += 1;
        }
        true
    }

    /// Whether all of `insts` are trait instances of this database.
    pub fn are_insts(&self, insts: &Vec<TraitInstId>) -> (r: bool)
        ensures
            r == self.has_insts(insts@),
    {
        let mut i: usize = 0;
        while i < insts.len()
            invariant
                i <= insts@.len(),
                forall|k: int| 0 <= k < i ==> self.has_inst(#[trigger] insts@[k]),
            decreases insts@.len() - i,
        {
            if !self.is_inst(insts[i]) {
                return false;
            }
            i += 1;
        }
        true
    }

    /// Whether the bounds of `decl` only name trait instances of this
    /// database, so that `decl` may become the declaration of a trait.
    pub fn is_decl_ok(&self, decl: &TraitDecl) -> (r: bool)
        ensures
            r == self.decl_ok(*decl),
    {
        let mut i: usize = 0;
        while i < decl.where_clause.len()
            invariant
                i <= decl.where_clause@.len(),
                forall|a: int, b: int|
                    0 <= a < i && 0 <= b < decl.where_clause@[a].bounds@.len() ==> self.bound_ok(
                        #[trigger] decl.where_clause@[a].bounds@[b],
                    ),
            decreases decl.where_clause@.len() - i,
        {
            let pred = &decl.where_clause[i];
            let mut j: usize = 0;
            while j < pred.bounds.len()
                invariant
                    j <= pred.bounds@.len(),
                    i < decl.where_clause@.len(),
                    *pred == decl.where_clause@[i as int],
                    forall|a: int, b: int|
                        0 <= a < i && 0 <= b < decl.where_clause@[a].bounds@.len()
                            ==> self.bound_ok(#[trigger] decl.where_clause@[a].bounds@[b]),
                    forall|b: int| 0 <= b < j ==> self.bound_ok(#[trigger] pred.bounds@[b]),
                decreases pred.bounds@.len() - j,
            {
                let ok = match &pred.bounds[j] {
                    TypeBound::Trait(r) => match r.lowered {
                        Some(inst) => self.is_inst(inst),
                        None => true,
                    },
                    TypeBound::Kind => true,
                };
                if !ok {
                    assert(!self.bound_ok(decl.where_clause@[i as int].bounds@[j as int]));
                    return false;
                }
                j += 1;
            }
            i += 1;
        }
        true
    }

    /// Whether `map` only names types and trait instances of this
    /// database, so that it may become a predicate list.
    pub fn is_map_ok(&self, map: &PredicateMap) -> (r: bool)
        ensures
            r == self.map_ok(*map),
    {
        let mut i: usize = 0;
        while i < map.len()
            invariant
                i <= map.entries@.len(),
                forall|k: int|
                    0 <= k < i ==> self.has_ty((#[trigger] map.entries@[k]).ty) && self.has_insts(
                        map.entries@[k].insts@,
                    ),
            decreases map.entries@.len() - i,
        {
            if !self.is_ty(map.ty_at(i)) || !self.are_insts(map.insts_at(i)) {
                assert(!(self.has_ty(map.entries@[i as int].ty) && self.has_insts(
                    map.entries@[i as int].insts@,
                )));
                return false;
            }
            i += 1;
        }
        true
    }

    /// The number of declared traits.
    pub fn num_traits(&self) -> (n: usize)
        ensures
            n == self.trait_count(),
    {
        self.trait_decls.len()
    }

    /// What is kept of the super traits of `def`, if anything.
    pub(crate) fn kept_super_traits(&self, def: TraitDef) -> (kept: Option<
        (Vec<TraitInstId>, Vec<TyDiagCollection>),
    >)
        requires
            self.wf(),
            self.has_trait(def),
        ensures
            kept matches Some(entry) ==> self.memo_entry_ok(def.0 as int, entry),
            kept is Some == self.is_kept(def),
    {
        match &self.memo[def.0] {
            Some(entry) => {
                assert(self.memo_entry_ok(def.0 as int, *entry));
                Some((copy_vec(&entry.0), copy_vec(&entry.1)))
            },
            None => None,
        }
    }

    /// Keeps the super traits of `def`.
    pub(crate) fn keep_super_traits(
        &mut self,
        def: TraitDef,
        insts: Vec<TraitInstId>,
        diags: Vec<TyDiagCollection>,
    )
        requires
            old(self).wf(),
            old(self).has_trait(def),
            old(self).memo_entry_ok(def.0 as int, (insts, diags)),
        ensures
            final(self).wf(),
            final(self).extends(*old(self)),
            final(self).same_interned(*old(self)),
            final(self).is_kept(def),
    {
        self.memo.set(def.0, Some((insts, diags)));
        proof {
            assert(self.extends(*old(self)));
            self.lemma_inst_memo_extends(*old(self));
            assert forall|t: int| 0 <= t < self.memo@.len() implies ((#[trigger] self.memo@[t])
                matches Some(entry) ==> self.memo_entry_ok(t, entry)) by {
                lemma_super_traits_extends(*old(self), *self, TraitDef(t as usize));
                if t != def.0 {
                    assert(self.memo@[t] == old(self).memo@[t]);
                }
            }
        }
    }

    /// Forgets what was kept: for after a change to the declared traits.
    fn forget(&mut self)
        ensures
            final(self).tys@ == old(self).tys@,
            final(self).insts@ == old(self).insts@,
            final(self).preds@ == old(self).preds@,
            final(self).lists@ == old(self).lists@,
            final(self).trait_params@ == old(self).trait_params@,
            final(self).trait_decls@ == old(self).trait_decls@,
            final(self).memo_wf(),
            final(self).inst_memo_wf(),
            forall|t: TraitDef| !final(self).is_kept(t),
            forall|i: TraitInstId| !final(self).is_inst_kept(i),
    {
        let n = self.trait_decls.len();
        let mut memo: Vec<Option<(Vec<TraitInstId>, Vec<TyDiagCollection>)>> = Vec::new();
        let mut i: usize = 0;
        while i < n
            invariant
                i <= n,
                memo@.len() == i,
                forall|t: int| 0 <= t < i ==> (#[trigger] memo@[t]) is None,
            decreases n - i,
        {
            memo.push(None);
            i += 1;
        }
        self.memo = memo;
        let m = self.insts.len();
        let mut inst_memo: Vec<Option<Vec<TraitInstId>>> = Vec::new();
        let mut k: usize = 0;
        while k < m
            invariant
                k <= m,
                inst_memo@.len() == k,
                forall|t: int| 0 <= t < k ==> (#[trigger] inst_memo@[t]) is None,
            decreases m - k,
        {
            inst_memo.push(None);
            k += 1;
        }
        self.inst_memo = inst_memo;
    }

    /// What is kept of the super-trait instances of `inst`, if anything.
    pub(crate) fn kept_super_insts(&self, inst: TraitInstId) -> (kept: Option<Vec<TraitInstId>>)
        requires
            self.wf(),
            self.has_inst(inst),
        ensures
            kept matches Some(entry) ==> self.inst_memo_entry_ok(inst.0 as int, entry),
            kept is Some == self.is_inst_kept(inst),
    {
        match &self.inst_memo[inst.0] {
            Some(entry) => {
                assert(self.inst_memo_entry_ok(inst.0 as int, *entry));
                Some(copy_vec(entry))
            },
            None => None,
        }
    }

    /// Keeps the super-trait instances of `inst`.
    pub(crate) fn keep_super_insts(&mut self, inst: TraitInstId, supers: Vec<TraitInstId>)
        requires
            old(self).wf(),
            old(self).has_inst(inst),
            old(self).inst_memo_entry_ok(inst.0 as int, supers),
        ensures
            final(self).wf(),
            final(self).extends(*old(self)),
            final(self).same_interned(*old(self)),
            final(self).is_inst_kept(inst),
    {
        self.inst_memo.set(inst.0, Some(supers));
        proof {
            assert(self.extends(*old(self)));
            self.lemma_memo_extends(*old(self));
            assert forall|i: int|
                0 <= i < self.inst_memo@.len() && (#[trigger] self.inst_memo@[i]) is Some implies i
                < old(self).insts@.len() && old(self).inst_memo_entry_ok(
                i,
                self.inst_memo@[i]->0,
            ) by {
                if i != inst.0 {
                    assert(old(self).inst_memo@[i] == self.inst_memo@[i]);
                }
            }
            self.lemma_inst_memo_ok(*old(self));
        }
    }

    /// The place of `data` among the types, if it is interned.
    fn find_ty(&self, data: TyData) -> (found: Option<usize>)
        ensures
            match found {
                Some(i) => i < self.tys@.len() && self.tys@[i as int] == data,
                None => forall|k: int| 0 <= k < self.tys@.len() ==> self.tys@[k] != data,
            },
    {
        let mut i: usize = 0;
        while i < self.tys.len()
            invariant
                i <= self.tys@.len(),
                forall|k: int| 0 <= k < i ==> self.tys@[k] != data,
            decreases self.tys@.len() - i,
        {
            if self.tys[i] == data {
                return Some(i);
            }
            i += 1;
        }
        None
    }

    /// The place of the trait instance `def<substs>`, if it is interned.
    fn find_inst(&self, def: TraitDef, substs: &Vec<TyId>) -> (found: Option<usize>)
        ensures
            match found {
                Some(i) => i < self.insts@.len() && self.inst_is(TraitInstId(i), def, substs@),
                None => forall|h: TraitInstId|
                    self.has_inst(h) ==> !#[trigger] self.inst_is(h, def, substs@),
            },
    {
        let mut i: usize = 0;
        while i < self.insts.len()
            invariant
                i <= self.insts@.len(),
                forall|h: TraitInstId| h.0 < i ==> !#[trigger] self.inst_is(h, def, substs@),
            decreases self.insts@.len() - i,
        {
            let data = &self.insts[i];
            if data.def == def && ty_vec_eq(&data.substs, substs) {
                return Some(i);
            }
            i += 1;
        }
        None
    }
}

impl TyId {
    /// Interns a type node. The node's handle is the one it got when it was
    /// first interned.
    pub fn new(db: &mut AnalysisDb, data: TyData) -> (ty: TyId)
        requires
            old(db).wf(),
            old(db).ty_data_ok(data),
        ensures
            final(db).wf(),
            final(db).extends(*old(db)),
            final(db).has_ty(ty),
            final(db).ty_data(ty) == data,
            final(db).term(ty) == old(db).data_term(data),
    {
        let found = db.find_ty(data);
        let ty = match found {
            Some(i) => TyId(i),
            None => {
                let i = db.tys.len();
                db.tys.push(data);
                proof {
                    assert(is_prefix(old(db).tys@, db.tys@));
                    assert(tys_wf(db.tys@));
                    assert(db.stored_wf());
                    db.lemma_memo_extends(*old(db));
                    db.lemma_inst_memo_extends(*old(db));
                }
                TyId(i)
            },
        };
        proof {
            match data {
                TyData::App(l, r) => {
                    lemma_term_prefix(old(db).tys@, db.tys@, l.0 as int);
                    lemma_term_prefix(old(db).tys@, db.tys@, r.0 as int);
                },
                _ => {},
            }
        }
        ty
    }

    /// The node that this type names.
    pub fn data(self, db: &AnalysisDb) -> (data: TyData)
        requires
            db.has_ty(self),
        ensures
            data == db.ty_data(self),
    {
        db.tys[self.0]
    }
}

impl TraitDef {
    /// Declares a trait with the given type parameters. Its declaration
    /// starts out without bounds. No super traits are kept afterwards: a
    /// new trait may change what is asked of the others.
    pub fn new(db: &mut AnalysisDb, params: Vec<TyId>) -> (def: TraitDef)
        requires
            old(db).wf(),
            old(db).has_tys(params@),
        ensures
            final(db).wf(),
            def.0 == old(db).trait_count(),
            final(db).trait_count() == old(db).trait_count() + 1,
            final(db).trait_params(def) == params@,
            final(db).trait_decl(def).where_clause@.len() == 0,
            final(db).trait_decl(def).items@.len() == 0,
            final(db).same_interned(*old(db)),
            forall|t: TraitDef| !final(db).is_kept(t),
            forall|i: TraitInstId| !final(db).is_inst_kept(i),
            forall|t: TraitDef|
                old(db).has_trait(t) ==> final(db).trait_params(t) == old(db).trait_params(t)
                    && final(db).trait_decl(t) == old(db).trait_decl(t),
    {
        let i = db.trait_decls.len();
        db.trait_params.push(params);
        db.trait_decls.push(TraitDecl::empty());
        db.forget();
        proof {
            assert forall|t: int| 0 <= t < db.trait_params@.len() implies db.has_tys(
                (#[trigger] db.trait_params@[t])@,
            ) by {
                if t < i {
                    assert(db.trait_params@[t] == old(db).trait_params@[t]);
                }
            }
            assert forall|t: int| 0 <= t < db.trait_decls@.len() implies db.decl_ok(
                #[trigger] db.trait_decls@[t],
            ) by {
                let d = db.trait_decls@[t];
                if t < i {
                    assert(d == old(db).trait_decls@[t]);
                    assert(old(db).decl_ok(old(db).trait_decls@[t]));
                    assert forall|a: int, b: int|
                        0 <= a < d.where_clause@.len() && 0 <= b < d.where_clause@[a].bounds@.len()
                        implies db.bound_ok(#[trigger] d.where_clause@[a].bounds@[b]) by {
                        assert(old(db).bound_ok(d.where_clause@[a].bounds@[b]));
                    }
                } else {
                    assert(d.where_clause@.len() == 0);
                }
            }
        }
        TraitDef(i)
    }

    /// Replaces the declaration of this trait. No super traits are kept
    /// afterwards: the change may open or close a cycle anywhere.
    pub fn set_decl(self, db: &mut AnalysisDb, decl: TraitDecl)
        requires
            old(db).wf(),
            old(db).has_trait(self),
            old(db).decl_ok(decl),
        ensures
            final(db).wf(),
            final(db).trait_decl(self) == decl,
            final(db).trait_count() == old(db).trait_count(),
            final(db).same_interned(*old(db)),
            forall|t: TraitDef| !final(db).is_kept(t),
            forall|i: TraitInstId| !final(db).is_inst_kept(i),
            forall|t: TraitDef|
                old(db).has_trait(t) ==> final(db).trait_params(t) == old(db).trait_params(t),
            forall|t: TraitDef|
                old(db).has_trait(t) && t != self ==> final(db).trait_decl(t) == old(db).trait_decl(
                    t,
                ),
    {
        db.trait_decls.set(self.0, decl);
        db.forget();
        proof {
            assert forall|t: int| 0 <= t < db.trait_decls@.len() implies db.decl_ok(
                #[trigger] db.trait_decls@[t],
            ) by {
                let d = db.trait_decls@[t];
                if t != self.0 {
                    assert(d == old(db).trait_decls@[t]);
                    assert(old(db).decl_ok(old(db).trait_decls@[t]));
                } else {
                    assert(d == decl);
                }
                assert(old(db).decl_ok(d));
                assert forall|a: int, b: int|
                    0 <= a < d.where_clause@.len() && 0 <= b < d.where_clause@[a].bounds@.len()
                    implies db.bound_ok(#[trigger] d.where_clause@[a].bounds@[b]) by {
                    assert(old(db).bound_ok(d.where_clause@[a].bounds@[b]));
                }
            }
        }
    }

    /// The type parameters of this trait.
    pub fn params(self, db: &AnalysisDb) -> (params: &Vec<TyId>)
        requires
            db.wf(),
            db.has_trait(self),
        ensures
            params@ == db.trait_params(self),
            db.has_tys(params@),
    {
        assert(db.has_tys(db.trait_params@[self.0 as int]@));
        &db.trait_params[self.0]
    }

    /// The declaration of this trait.
    pub fn decl(self, db: &AnalysisDb) -> (decl: &TraitDecl)
        requires
            db.has_trait(self),
        ensures
            *decl == db.trait_decl(self),
    {
        &db.trait_decls[self.0]
    }
}

impl TraitInstId {
    /// Interns the trait instance `def<substs>`. The same parts always give
    /// the same handle.
    pub fn new(db: &mut AnalysisDb, def: TraitDef, substs: Vec<TyId>) -> (inst: TraitInstId)
        requires
            old(db).wf(),
            old(db).has_trait(def),
            old(db).has_tys(substs@),
        ensures
            final(db).wf(),
            final(db).extends(*old(db)),
            final(db).has_inst(inst),
            final(db).inst_is(inst, def, substs@),
    {
        let found = db.find_inst(def, &substs);
        match found {
            Some(i) => TraitInstId(i),
            None => {
                let i = db.insts.len();
                db.insts.push(TraitInstData { def, substs });
                db.inst_memo.push(None);
                proof {
                    assert(is_prefix(old(db).insts@, db.insts@));
                    assert forall|a: int, b: int| 0 <= a < b < db.insts@.len() implies !inst_data_same(
                        #[trigger] db.insts@[a],
                        #[trigger] db.insts@[b],
                    ) by {
                        if b < i {
                            assert(!inst_data_same(old(db).insts@[a], old(db).insts@[b]));
                        } else {
                            assert(!old(db).inst_is(TraitInstId(a as usize), def, substs@));
                        }
                    }
                    assert(db.stored_wf());
                    db.lemma_memo_extends(*old(db));
                    db.lemma_inst_memo_extends(*old(db));
                }
                TraitInstId(i)
            },
        }
    }

    /// The trait that this instance instantiates.
    pub fn def(self, db: &AnalysisDb) -> (def: TraitDef)
        requires
            db.wf(),
            db.has_inst(self),
        ensures
            def == db.inst_def(self),
            db.has_trait(def),
    {
        assert(db.has_trait(db.insts@[self.0 as int].def));
        db.insts[self.0].def
    }

    /// The type arguments of this instance.
    pub fn substs(self, db: &AnalysisDb) -> (substs: &Vec<TyId>)
        requires
            db.wf(),
            db.has_inst(self),
        ensures
            substs@ == db.inst_substs(self),
            db.has_tys(substs@),
    {
        assert(db.has_tys(db.insts@[self.0 as int].substs@));
        &db.insts[self.0].substs
    }

}

} // verus!
