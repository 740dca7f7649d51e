//! Substitution: rewriting types, and what is made of types, under a table
//! that maps types to types.
//!
//! A type that the table maps is replaced by what it maps to. Any other
//! application is rewritten part by part, and any other type stays.

use crate::db::AnalysisDb;
use crate::db::InstTerm;
use crate::fx::fx_map_get;
use crate::fx::fx_map_insert;
use crate::ids::TraitInstId;
use crate::ids::TyId;
use crate::ty::copy_vec;
use crate::ty::Term;
use crate::ty::TyData;
use rustc_hash::FxHashMap;
use vstd::prelude::*;

verus! {

// ----- substitution on terms -----
/// `t` rewritten under `s`.
pub open spec fn subst_term(t: Term, s: Map<Term, Term>) -> Term
    decreases t,
{
    if s.contains_key(t) {
        s[t]
    } else {
        match t {
            Term::App(l, r) => Term::App(
                Box::new(subst_term(*l, s)),
                Box::new(subst_term(*r, s)),
            ),
            _ => t,
        }
    }
}

/// Each of `ts` rewritten under `s`.
pub open spec fn subst_terms(ts: Seq<Term>, s: Map<Term, Term>) -> Seq<Term> {
    Seq::new(ts.len(), |k: int| subst_term(ts[k], s))
}

/// A trait instance with its type arguments rewritten under `s`.
pub open spec fn subst_inst(inst: InstTerm, s: Map<Term, Term>) -> InstTerm {
    InstTerm { def: inst.def, args: subst_terms(inst.args, s) }
}

// ----- tables of handles, read as maps on terms -----
/// Every type that the table names is a type of the database.
pub open(crate) spec fn subst_valid(db: AnalysisDb, table: Map<TyId, TyId>) -> bool {
    forall|k: TyId| #[trigger] table.contains_key(k) ==> db.has_ty(k) && db.has_ty(table[k])
}

/// A key of the table that stands for `t`.
pub open(crate) spec fn key_for(db: AnalysisDb, table: Map<TyId, TyId>, t: Term) -> TyId {
    choose|k: TyId| #[trigger] table.contains_key(k) && db.term(k) == t
}

/// The table as a map on terms: the term of each key maps to the term of
/// its value.
pub open(crate) spec fn term_subst(db: AnalysisDb, table: Map<TyId, TyId>) -> Map<Term, Term> {
    Map::new(
        |t: Term| exists|k: TyId| #[trigger] table.contains_key(k) && db.term(k) == t,
        |t: Term| db.term(table[key_for(db, table, t)]),
    )
}

/// What the table says of a key, it says of the key's term.
pub proof fn lemma_term_subst_key(db: AnalysisDb, table: Map<TyId, TyId>, k: TyId)
    requires
        db.wf(),
        subst_valid(db, table),
        table.contains_key(k),
    ensures
        term_subst(db, table).contains_key(db.term(k)),
        term_subst(db, table)[db.term(k)] == db.term(table[k]),
{
    let t = db.term(k);
    let chosen = key_for(db, table, t);
    assert(table.contains_key(chosen) && db.term(chosen) == t);
    db.lemma_ty_term_injective(chosen, k);
}

/// What the table says of a type of the database, it says of the type's
/// term.
pub proof fn lemma_term_subst_at(db: AnalysisDb, table: Map<TyId, TyId>, from: TyId)
    requires
        db.wf(),
        subst_valid(db, table),
        db.has_ty(from),
    ensures
        term_subst(db, table).contains_key(db.term(from)) == table.contains_key(from),
        table.contains_key(from) ==> term_subst(db, table)[db.term(from)] == db.term(table[from]),
{
    if table.contains_key(from) {
        lemma_term_subst_key(db, table, from);
    } else {
        if term_subst(db, table).contains_key(db.term(from)) {
            let k = key_for(db, table, db.term(from));
            assert(table.contains_key(k) && db.term(k) == db.term(from));
            db.lemma_ty_term_injective(k, from);
        }
    }
}

/// A table reads the same in a database that extends the one it was made
/// for.
pub proof fn lemma_term_subst_extends(old: AnalysisDb, new: AnalysisDb, table: Map<TyId, TyId>)
    requires
        old.wf(),
        new.wf(),
        new.extends(old),
        subst_valid(old, table),
    ensures
        subst_valid(new, table),
        term_subst(new, table) == term_subst(old, table),
{
    assert forall|k: TyId| #[trigger] table.contains_key(k) implies new.has_ty(k) && new.has_ty(
        table[k],
    ) && new.term(k) == old.term(k) && new.term(table[k]) == old.term(table[k]) by {
        new.lemma_extends_term(old, k);
        new.lemma_extends_term(old, table[k]);
    }
    let a = term_subst(new, table);
    let b = term_subst(old, table);
    assert forall|t: Term| a.contains_key(t) == b.contains_key(t) by {
        if a.contains_key(t) {
            let k = key_for(new, table, t);
            assert(table.contains_key(k) && old.term(k) == t);
        }
        if b.contains_key(t) {
            let k = key_for(old, table, t);
            assert(table.contains_key(k) && new.term(k) == t);
        }
    }
    assert forall|t: Term| a.contains_key(t) implies a[t] == b[t] by {
        let k = key_for(new, table, t);
        assert(table.contains_key(k) && new.term(k) == t);
        lemma_term_subst_key(old, table, k);
    }
    assert(a =~= b);
}

/// Adding an entry to the table adds the entry of the terms.
pub proof fn lemma_term_subst_insert(db: AnalysisDb, table: Map<TyId, TyId>, k: TyId, v: TyId)
    requires
        db.wf(),
        subst_valid(db, table),
        db.has_ty(k),
        db.has_ty(v),
    ensures
        subst_valid(db, table.insert(k, v)),
        term_subst(db, table.insert(k, v)) == term_subst(db, table).insert(db.term(k), db.term(v)),
{
    let more = table.insert(k, v);
    assert(subst_valid(db, more));
    let a = term_subst(db, more);
    let b = term_subst(db, table).insert(db.term(k), db.term(v));
    assert forall|t: Term| a.contains_key(t) == b.contains_key(t) by {
        if a.contains_key(t) {
            let c = key_for(db, more, t);
            assert(more.contains_key(c) && db.term(c) == t);
            if c != k {
                assert(table.contains_key(c));
            }
        }
        if b.contains_key(t) {
            if t == db.term(k) {
                assert(more.contains_key(k));
            } else {
                let c = key_for(db, table, t);
                assert(table.contains_key(c) && db.term(c) == t);
                assert(more.contains_key(c));
            }
        }
    }
    assert forall|t: Term| a.contains_key(t) implies a[t] == b[t] by {
        let c = key_for(db, more, t);
        assert(more.contains_key(c) && db.term(c) == t);
        lemma_term_subst_key(db, more, c);
        if c != k {
            assert(table.contains_key(c));
            lemma_term_subst_key(db, table, c);
            if db.term(c) == db.term(k) {
                db.lemma_ty_term_injective(c, k);
            }
        }
    }
    assert(a =~= b);
}

/// Nothing in the table, nothing in the map.
pub proof fn lemma_term_subst_empty(db: AnalysisDb)
    ensures
        term_subst(db, Map::<TyId, TyId>::empty()) == Map::<Term, Term>::empty(),
        subst_valid(db, Map::<TyId, TyId>::empty()),
{
    assert(term_subst(db, Map::<TyId, TyId>::empty()) =~= Map::<Term, Term>::empty());
}

// ----- the substitution that a trait instance stands for -----
/// The table that maps the first `n` of `params` to the first `n` of
/// `args`, one by one. Where a parameter occurs twice, its last argument
/// counts.
pub open spec fn zip_table(params: Seq<TyId>, args: Seq<TyId>, n: nat) -> Map<TyId, TyId>
    decreases n,
{
    if n == 0 {
        Map::empty()
    } else {
        zip_table(params, args, (n - 1) as nat).insert(params[n - 1], args[n - 1])
    }
}

/// The map that takes the first `n` of `params` to the first `n` of `args`,
/// one by one.
pub open spec fn zip_terms(params: Seq<Term>, args: Seq<Term>, n: nat) -> Map<Term, Term>
    decreases n,
{
    if n == 0 {
        Map::empty()
    } else {
        zip_terms(params, args, (n - 1) as nat).insert(params[n - 1], args[n - 1])
    }
}

/// The smaller of two lengths.
pub open spec fn min_len(a: nat, b: nat) -> nat {
    if a <= b {
        a
    } else {
        b
    }
}

/// The substitution that a trait instance stands for: each type parameter
/// of its trait is replaced by the argument in its place. Parameters
/// without an argument, and arguments without a parameter, play no part.
pub open(crate) spec fn inst_subst(db: AnalysisDb, inst: InstTerm) -> Map<Term, Term> {
    let params = db.terms(db.trait_params(inst.def));
    zip_terms(params, inst.args, min_len(params.len(), inst.args.len()))
}

/// The table of handles that `inst` stands for.
pub open(crate) spec fn inst_table(db: AnalysisDb, inst: TraitInstId) -> Map<TyId, TyId> {
    let params = db.trait_params(db.inst_def(inst));
    let args = db.inst_substs(inst);
    zip_table(params, args, min_len(params.len(), args.len()))
}

// ----- the capability -----
/// Something that maps types to types.
pub trait Subst {
    /// The types that are mapped, each with what it is mapped to.
    spec fn table(&self) -> Map<TyId, TyId>;

    /// What `from` is mapped to, if it is mapped. A lookup may rearrange
    /// what `self` holds, but not what it maps.
    fn get(&mut self, from: TyId) -> (to: Option<TyId>)
        ensures
            final(self).table() == old(self).table(),
            to == (if old(self).table().contains_key(from) {
                Some(old(self).table()[from])
            } else {
                None::<TyId>
            }),
    ;
}

/// A substitution that is written down entry by entry.
pub struct SubstTable {
    map: FxHashMap<usize, usize>,
}

impl SubstTable {
    /// A table that maps nothing.
    pub fn new() -> (table: SubstTable)
        ensures
            table.table() == Map::<TyId, TyId>::empty(),
    {
        let table = SubstTable { map: FxHashMap::default() };
        assert(table.table() =~= Map::<TyId, TyId>::empty());
        table
    }

    /// Maps `from` to `to`, in place of what `from` was mapped to before.
    pub fn insert(&mut self, from: TyId, to: TyId)
        ensures
            final(self).table() == old(self).table().insert(from, to),
    {
        fx_map_insert(&mut self.map, from.0, to.0);
        assert(self.table() =~= old(self).table().insert(from, to));
    }
}

impl Subst for SubstTable {
    closed spec fn table(&self) -> Map<TyId, TyId> {
        Map::new(|k: TyId| self.map@.contains_key(k.0), |k: TyId| TyId(self.map@[k.0]))
    }

    fn get(&mut self, from: TyId) -> (to: Option<TyId>) {
        match fx_map_get(&self.map, from.0) {
            Some(to) => Some(TyId(to)),
            None => None,
        }
    }
}

// ----- rewriting what is interned -----
impl TyId {
    /// This type rewritten under `subst`.
    pub fn apply_subst<S: Subst>(self, db: &mut AnalysisDb, subst: &mut S) -> (ty: TyId)
        requires
            old(db).wf(),
            old(db).has_ty(self),
            subst_valid(*old(db), old(subst).table()),
        ensures
            final(db).wf(),
            final(db).extends(*old(db)),
            final(db).has_ty(ty),
            final(subst).table() == old(subst).table(),
            final(db).term(ty) == subst_term(
                old(db).term(self),
                term_subst(*old(db), old(subst).table()),
            ),
        decreases self.0,
    {
        proof {
            lemma_term_subst_at(*db, subst.table(), self);
        }
        match subst.get(self) {
            Some(to) => {
                return to;
            },
            None => {},
        }
        match self.data(db) {
            TyData::App(l, r) => {
                let ghost db0 = *db;
                let ghost table = subst.table();
                assert(db0.tys@[self.0 as int] == TyData::App(l, r));
                let l2 = l.apply_subst(db, subst);
                let ghost db1 = *db;
                proof {
                    lemma_term_subst_extends(db0, db1, table);
                    db1.lemma_extends_term(db0, r);
                }
                let r2 = r.apply_subst(db, subst);
                let ghost db2 = *db;
                proof {
                    db2.lemma_extends_term(db1, l2);
                    db2.lemma_extends_trans(db1, db0);
                }
                let ty = TyId::new(db, TyData::App(l2, r2));
                proof {
                    db.lemma_extends_trans(db2, db0);
                }
                ty
            },
            _ => self,
        }
    }
}

impl TraitInstId {
    /// The substitution that this trait instance stands for: the type
    /// parameters of its trait, each mapped to the argument in its place.
    pub fn subst_table(self, db: &AnalysisDb) -> (table: SubstTable)
        requires
            db.wf(),
            db.has_inst(self),
        ensures
            table.table() == inst_table(*db, self),
            subst_valid(*db, table.table()),
            term_subst(*db, table.table()) == inst_subst(*db, db.inst_term(self)),
    {
        let def = self.def(db);
        let params = def.params(db);
        let args = self.substs(db);
        let n = if params.len() <= args.len() {
            params.len()
        } else {
            args.len()
        };
        let mut table = SubstTable::new();
        proof {
            lemma_term_subst_empty(*db);
            assert(db.has_tys(db.trait_params@[def.0 as int]@));
        }
        let mut i: usize = 0;
        while i < n
            invariant
                i <= n,
                n == min_len(params@.len(), args@.len()),
                db.wf(),
                db.has_tys(params@),
                db.has_tys(args@),
                table.table() == zip_table(params@, args@, i as nat),
                subst_valid(*db, table.table()),
                term_subst(*db, table.table()) == zip_terms(
                    db.terms(params@),
                    db.terms(args@),
                    i as nat,
                ),
            decreases n - i,
        {
            proof {
                assert(db.has_ty(params@[i as int]));
                assert(db.has_ty(args@[i as int]));
                lemma_term_subst_insert(*db, table.table(), params@[i as int], args@[i as int]);
            }
            table.insert(params[i], args[i]);
            i += 1;
        }
        table
    }

    /// This trait instance with its type arguments rewritten under
    /// `subst`.
    pub fn apply_subst<S: Subst>(self, db: &mut AnalysisDb, subst: &mut S) -> (inst: TraitInstId)
        requires
            old(db).wf(),
            old(db).has_inst(self),
            subst_valid(*old(db), old(subst).table()),
        ensures
            final(db).wf(),
            final(db).extends(*old(db)),
            final(db).has_inst(inst),
            final(subst).table() == old(subst).table(),
            final(db).inst_term(inst) == subst_inst(
                old(db).inst_term(self),
                term_subst(*old(db), old(subst).table()),
            ),
    {
        let def = self.def(db);
        let args = copy_vec(self.substs(db));
        let ghost db0 = *db;
        let ghost table = subst.table();
        let ghost s0 = term_subst(db0, table);
        let mut substs: Vec<TyId> = Vec::new();
        let mut i: usize = 0;
        while i < args.len()
            invariant
                i <= args@.len(),
                db0.wf(),
                db0.has_tys(args@),
                db.wf(),
                db.extends(db0),
                subst.table() == table,
                subst_valid(db0, table),
                subst_valid(*db, table),
                term_subst(*db, table) == s0,
                s0 == term_subst(db0, table),
                substs@.len() == i,
                db.has_tys(substs@),
                forall|k: int|
                    0 <= k < i ==> db.term(#[trigger] substs@[k]) == subst_term(
                        db0.term(args@[k]),
                        s0,
                    ),
            decreases args@.len() - i,
        {
            let ghost before = *db;
            let ghost done = substs@;
            proof {
                assert(db0.has_ty(args@[i as int]));
                before.lemma_extends_term(db0, args@[i as int]);
            }
            let ty = args[i].apply_subst(db, subst);
            substs.push(ty);
            proof {
                db.lemma_extends_trans(before, db0);
                lemma_term_subst_extends(before, *db, table);
                assert forall|k: int| 0 <= k < i + 1 implies db.has_ty(#[trigger] substs@[k])
                    && db.term(substs@[k]) == subst_term(db0.term(args@[k]), s0) by {
                    if k < i {
                        assert(before.has_ty(done[k]));
                        db.lemma_extends_term(before, done[k]);
                    }
                }
            }
            i += 1;
        }
        let ghost db1 = *db;
        let ghost new_substs = substs@;
        let inst = TraitInstId::new(db, def, substs);
        proof {
            db.lemma_extends_trans(db1, db0);
            db.lemma_extends_terms(db1, new_substs);
            assert(db.inst_term(inst).args =~= subst_terms(db0.inst_term(self).args, s0)) by {
                assert forall|k: int| 0 <= k < new_substs.len() implies db.terms(new_substs)[k]
                    == subst_term(db0.terms(args@)[k], s0) by {
                    assert(db1.terms(new_substs)[k] == db1.term(new_substs[k]));
                }
            }
        }
        inst
    }
}

} // verus!
