//! What follows from a trait instance: the super traits of its trait, with
//! the instance's type arguments put in.

use crate::db::AnalysisDb;
use crate::db::InstTerm;
use crate::ids::AssumptionListId;
use crate::ids::PredicateListId;
use crate::ids::TraitInstId;
use crate::ids::TyId;
use crate::predicate_map::insert_inst;
use crate::predicate_map::insts_sorted;
use crate::predicate_map::PredicateMap;
use crate::subst::inst_subst;
use crate::subst::lemma_term_subst_extends;
use crate::subst::subst_inst;
use crate::subst::Subst;
use crate::subst::subst_valid;
use crate::subst::term_subst;
use crate::super_traits::collect_super_traits;
use crate::super_traits::cycle_of;
use crate::super_traits::lemma_collected_valid;
use crate::super_traits::lemma_super_traits_extends;
use crate::ty::copy_vec;
use crate::super_traits::super_traits_of;
use vstd::prelude::*;

verus! {

/// The super-trait instances of a trait instance: every super trait of its
/// trait, in order, rewritten under the substitution that the instance
/// stands for.
pub open(crate) spec fn super_inst_terms(db: AnalysisDb, inst: InstTerm) -> Seq<InstTerm> {
    let supers = super_traits_of(db, inst.def).super_traits;
    Seq::new(supers.len(), |k: int| subst_inst(db.inst_term(supers[k]), inst_subst(db, inst)))
}

/// The super-trait instances of `trait_inst`, in the order of the bounds
/// that name them. The result is kept, so that it is computed once for
/// every trait instance.
pub fn super_trait_insts(db: &mut AnalysisDb, trait_inst: TraitInstId) -> (insts: Vec<TraitInstId>)
    requires
        old(db).wf(),
        old(db).has_inst(trait_inst),
    ensures
        final(db).wf(),
        final(db).extends(*old(db)),
        final(db).has_insts(insts@),
        final(db).inst_terms(insts@) == super_inst_terms(
            *old(db),
            old(db).inst_term(trait_inst),
        ),
        final(db).is_inst_kept(trait_inst),
{
    match db.kept_super_insts(trait_inst) {
        Some(insts) => {
            return insts;
        },
        None => {},
    }
    let ghost db0 = *db;
    let trait_def = trait_inst.def(db);
    let (super_traits, _) = collect_super_traits(db, trait_def);
    let ghost db1 = *db;
    proof {
        lemma_collected_valid(db0, trait_def, cycle_of(db0, trait_def));
        db1.lemma_extends_inst(db0, trait_inst);
        assert forall|k: int| 0 <= k < super_traits@.len() implies db1.has_inst(
            #[trigger] super_traits@[k],
        ) && db1.inst_term(super_traits@[k]) == db0.inst_term(super_traits@[k]) by {
            assert(db0.has_inst(super_traits@[k]));
            db1.lemma_extends_inst(db0, super_traits@[k]);
        }
    }
    let mut subst = trait_inst.subst_table(db);
    let ghost table = subst.table();
    let ghost s0 = inst_subst(db0, db0.inst_term(trait_inst));
    proof {
        assert(db1.trait_params(trait_def) == db0.trait_params(trait_def));
        assert(db0.has_tys(db0.trait_params@[trait_def.0 as int]@));
        db1.lemma_extends_terms(db0, db0.trait_params(trait_def));
        assert(inst_subst(db1, db1.inst_term(trait_inst)) == s0);
    }
    let mut insts: Vec<TraitInstId> = Vec::new();
    let mut i: usize = 0;
    while i < super_traits.len()
        invariant
            i <= super_traits@.len(),
            db1.wf(),
            db.wf(),
            db.extends(db1),
            db1.has_insts(super_traits@),
            subst.table() == table,
            subst_valid(*db, table),
            term_subst(*db, table) == s0,
            insts@.len() == i,
            db.has_insts(insts@),
            forall|k: int|
                0 <= k < i ==> db.inst_term(#[trigger] insts@[k]) == subst_inst(
                    db1.inst_term(super_traits@[k]),
                    s0,
                ),
        decreases super_traits@.len() - i,
    {
        let ghost before = *db;
        let ghost done = insts@;
        proof {
            assert(db1.has_inst(super_traits@[i as int]));
            before.lemma_extends_inst(db1, super_traits@[i as int]);
        }
        let inst = super_traits[i].apply_subst(db, &mut subst);
        insts.push(inst);
        proof {
            db.lemma_extends_trans(before, db1);
            lemma_term_subst_extends(before, *db, table);
            assert forall|k: int| 0 <= k < i + 1 implies db.has_inst(#[trigger] insts@[k])
                && db.inst_term(insts@[k]) == subst_inst(db1.inst_term(super_traits@[k]), s0) by {
                if k < i {
                    assert(before.has_inst(done[k]));
                    db.lemma_extends_inst(before, done[k]);
                }
            }
        }
        i += 1;
    }
    let ghost db2 = *db;
    proof {
        db.lemma_extends_trans(db1, db0);
        assert(db.inst_terms(insts@) =~= super_inst_terms(db0, db0.inst_term(trait_inst)));
        db.lemma_extends_inst(db0, trait_inst);
        lemma_super_inst_terms_extends(db0, db2, trait_inst);
    }
    db.keep_super_insts(trait_inst, copy_vec(&insts));
    proof {
        db.lemma_extends_trans(db2, db0);
    }
    insts
}

/// Whether one of the first `j` trait instances of `src` has `t` among its
/// super-trait instances.
pub open(crate) spec fn term_wanted(
    origin: AnalysisDb,
    src: Seq<TraitInstId>,
    j: int,
    t: InstTerm,
) -> bool {
    exists|q: int|
        0 <= q < j && q < src.len() && #[trigger] super_inst_terms(
            origin,
            origin.inst_term(src[q]),
        ).contains(t)
}

/// Whether one of `found` is the trait instance `t`.
pub open(crate) spec fn term_found(db: AnalysisDb, found: Seq<TraitInstId>, t: InstTerm) -> bool {
    exists|h: TraitInstId| #[trigger] found.contains(h) && db.inst_term(h) == t
}

/// `found` holds the super-trait instances of the first `j` trait
/// instances of `src`, and nothing else.
pub open(crate) spec fn supers_found(
    origin: AnalysisDb,
    db: AnalysisDb,
    src: Seq<TraitInstId>,
    j: int,
    found: Seq<TraitInstId>,
) -> bool {
    &&& db.has_insts(found)
    &&& forall|h: TraitInstId| #[trigger]
        found.contains(h) ==> term_wanted(origin, src, j, db.inst_term(h))
    &&& forall|t: InstTerm| #[trigger]
        term_wanted(origin, src, j, t) ==> term_found(db, found, t)
}

/// The trait instances of `db` that are super-trait instances of one of
/// `insts`, read in `origin`.
pub open(crate) spec fn super_set(
    origin: AnalysisDb,
    db: AnalysisDb,
    insts: Set<TraitInstId>,
) -> Set<TraitInstId> {
    Set::new(
        |h: TraitInstId|
            db.has_inst(h) && exists|inst: TraitInstId| #[trigger]
                insts.contains(inst) && super_inst_terms(origin, origin.inst_term(inst)).contains(
                    db.inst_term(h),
                ),
    )
}

/// The map that has the keys of `map` and, under each key, the super-trait
/// instances of the trait instances that `map` has under it.
pub open(crate) spec fn super_assumptions(
    origin: AnalysisDb,
    db: AnalysisDb,
    map: Map<TyId, Set<TraitInstId>>,
) -> Map<TyId, Set<TraitInstId>> {
    Map::new(|ty: TyId| map.contains_key(ty), |ty: TyId| super_set(origin, db, map[ty]))
}

/// The super-trait instances of a trait instance are the same in a
/// database that extends the one it was made in.
pub proof fn lemma_super_inst_terms_extends(old: AnalysisDb, new: AnalysisDb, inst: TraitInstId)
    requires
        old.wf(),
        new.extends(old),
        old.has_inst(inst),
    ensures
        super_inst_terms(new, new.inst_term(inst)) == super_inst_terms(old, old.inst_term(inst)),
{
    new.lemma_extends_inst(old, inst);
    let def = old.inst_def(inst);
    lemma_super_traits_extends(old, new, def);
    lemma_collected_valid(old, def, cycle_of(old, def));
    let supers = super_traits_of(old, def).super_traits;
    assert(old.has_tys(old.trait_params@[def.0 as int]@));
    new.lemma_extends_terms(old, old.trait_params(def));
    assert(inst_subst(new, new.inst_term(inst)) == inst_subst(old, old.inst_term(inst)));
    assert forall|k: int| 0 <= k < supers.len() implies new.inst_term(supers[k]) == old.inst_term(
        supers[k],
    ) by {
        assert(old.has_inst(supers[k]));
        new.lemma_extends_inst(old, supers[k]);
    }
    assert(super_inst_terms(new, new.inst_term(inst)) =~= super_inst_terms(
        old,
        old.inst_term(inst),
    ));
}

/// What was found stays found when more is interned.
pub proof fn lemma_supers_found_extends(
    origin: AnalysisDb,
    old: AnalysisDb,
    new: AnalysisDb,
    src: Seq<TraitInstId>,
    j: int,
    found: Seq<TraitInstId>,
)
    requires
        old.wf(),
        new.extends(old),
        supers_found(origin, old, src, j, found),
    ensures
        supers_found(origin, new, src, j, found),
{
    assert forall|k: int| 0 <= k < found.len() implies new.has_inst(#[trigger] found[k])
        && new.inst_term(found[k]) == old.inst_term(found[k]) by {
        assert(old.has_inst(found[k]));
        new.lemma_extends_inst(old, found[k]);
    }
    assert forall|h: TraitInstId| #[trigger] found.contains(h) implies term_wanted(
        origin,
        src,
        j,
        new.inst_term(h),
    ) by {
        let k = choose|k: int| 0 <= k < found.len() && found[k] == h;
        assert(new.inst_term(found[k]) == old.inst_term(found[k]));
    }
    assert forall|t: InstTerm| #[trigger] term_wanted(origin, src, j, t) implies term_found(
        new,
        found,
        t,
    ) by {
        assert(term_found(old, found, t));
        let h = choose|h: TraitInstId| #[trigger] found.contains(h) && old.inst_term(h) == t;
        let k = choose|k: int| 0 <= k < found.len() && found[k] == h;
        assert(new.inst_term(found[k]) == old.inst_term(found[k]));
    }
}

/// What was found for all of `src` is the set of their super-trait
/// instances.
pub proof fn lemma_supers_found_set(
    origin: AnalysisDb,
    db: AnalysisDb,
    src: Seq<TraitInstId>,
    found: Seq<TraitInstId>,
)
    requires
        db.wf(),
        supers_found(origin, db, src, src.len() as int, found),
    ensures
        found.to_set() == super_set(origin, db, src.to_set()),
{
    let want = super_set(origin, db, src.to_set());
    assert forall|h: TraitInstId| found.to_set().contains(h) == want.contains(h) by {
        if found.contains(h) {
            let k = choose|k: int| 0 <= k < found.len() && found[k] == h;
            assert(db.has_inst(found[k]));
            assert(term_wanted(origin, src, src.len() as int, db.inst_term(h)));
            let q = choose|q: int|
                0 <= q < src.len() && q < src.len() && #[trigger] super_inst_terms(
                    origin,
                    origin.inst_term(src[q]),
                ).contains(db.inst_term(h));
            assert(src.contains(src[q]));
            assert(src.to_set().contains(src[q]));
        }
        if want.contains(h) {
            let inst = choose|inst: TraitInstId| #[trigger]
                src.to_set().contains(inst) && super_inst_terms(
                    origin,
                    origin.inst_term(inst),
                ).contains(db.inst_term(h));
            assert(src.contains(inst));
            let q = choose|q: int| 0 <= q < src.len() && src[q] == inst;
            assert(super_inst_terms(origin, origin.inst_term(src[q])).contains(db.inst_term(h)));
            assert(term_wanted(origin, src, src.len() as int, db.inst_term(h)));
            assert(term_found(db, found, db.inst_term(h)));
            let g = choose|g: TraitInstId| #[trigger]
                found.contains(g) && db.inst_term(g) == db.inst_term(h);
            let k = choose|k: int| 0 <= k < found.len() && found[k] == g;
            assert(db.has_inst(found[k]));
            db.lemma_inst_term_injective(g, h);
        }
    }
    assert(found.to_set() =~= want);
}

/// The super-trait instances of all of `insts`, in rising order and each
/// once.
fn super_insts_of_all(
    db: &mut AnalysisDb,
    Ghost(origin): Ghost<AnalysisDb>,
    insts: &Vec<TraitInstId>,
) -> (found: Vec<TraitInstId>)
    requires
        origin.wf(),
        old(db).wf(),
        old(db).extends(origin),
        origin.has_insts(insts@),
    ensures
        final(db).wf(),
        final(db).extends(*old(db)),
        insts_sorted(found@),
        supers_found(origin, *final(db), insts@, insts@.len() as int, found@),
{
    let mut found: Vec<TraitInstId> = Vec::new();
    let mut j: usize = 0;
    while j < insts.len()
        invariant
            j <= insts@.len(),
            origin.wf(),
            origin.has_insts(insts@),
            db.wf(),
            db.extends(origin),
            db.extends(*old(db)),
            insts_sorted(found@),
            supers_found(origin, *db, insts@, j as int, found@),
        decreases insts@.len() - j,
    {
        let ghost before = *db;
        proof {
            assert(origin.has_inst(insts@[j as int]));
            before.lemma_extends_inst(origin, insts@[j as int]);
            lemma_super_inst_terms_extends(origin, before, insts@[j as int]);
        }
        let supers = super_trait_insts(db, insts[j]);
        let ghost wanted = super_inst_terms(origin, origin.inst_term(insts@[j as int]));
        proof {
            db.lemma_extends_trans(before, origin);
            db.lemma_extends_trans(before, *old(db));
            lemma_supers_found_extends(origin, before, *db, insts@, j as int, found@);
            assert(db.inst_terms(supers@) == wanted);
        }
        let mut k: usize = 0;
        while k < supers.len()
            invariant
                k <= supers@.len(),
                j < insts@.len(),
                db.wf(),
                db.has_insts(supers@),
                db.inst_terms(supers@) == wanted,
                wanted == super_inst_terms(origin, origin.inst_term(insts@[j as int])),
                insts_sorted(found@),
                db.has_insts(found@),
                forall|h: TraitInstId| #[trigger]
                    found@.contains(h) ==> term_wanted(origin, insts@, j + 1, db.inst_term(h)),
                forall|t: InstTerm| #[trigger]
                    term_wanted(origin, insts@, j as int, t) ==> term_found(*db, found@, t),
                forall|m: int| 0 <= m < k ==> term_found(*db, found@, #[trigger] wanted[m]),
            decreases supers@.len() - k,
        {
            let ghost prior = found@;
            insert_inst(&mut found, supers[k]);
            proof {
                let h_new = supers@[k as int];
                assert(db.has_inst(h_new));
                assert(db.inst_terms(supers@)[k as int] == db.inst_term(h_new));
                assert(wanted.contains(db.inst_term(h_new))) by {
                    assert(wanted[k as int] == db.inst_term(h_new));
                }
                assert(term_wanted(origin, insts@, j + 1, db.inst_term(h_new)));
                assert forall|i: int| 0 <= i < found@.len() implies db.has_inst(
                    #[trigger] found@[i],
                ) by {
                    assert(found@.contains(found@[i]));
                    if found@[i] != h_new {
                        assert(prior.contains(found@[i]));
                        let p = choose|p: int| 0 <= p < prior.len() && prior[p] == found@[i];
                        assert(db.has_inst(prior[p]));
                    }
                }
                assert forall|h: TraitInstId| #[trigger] found@.contains(h) implies term_wanted(
                    origin,
                    insts@,
                    j + 1,
                    db.inst_term(h),
                ) by {
                    if h != h_new {
                        assert(prior.contains(h));
                    }
                }
                assert forall|t: InstTerm| term_found(*db, prior, t) implies term_found(
                    *db,
                    found@,
                    t,
                ) by {
                    let h = choose|h: TraitInstId| #[trigger]
                        prior.contains(h) && db.inst_term(h) == t;
                    assert(found@.contains(h));
                }
                assert forall|t: InstTerm| #[trigger]
                    term_wanted(origin, insts@, j as int, t) implies term_found(
                    *db,
                    found@,
                    t,
                ) by {
                    assert(term_found(*db, prior, t));
                }
                assert forall|m: int| 0 <= m < k + 1 implies term_found(
                    *db,
                    found@,
                    #[trigger] wanted[m],
                ) by {
                    if m < k {
                        assert(term_found(*db, prior, wanted[m]));
                    } else {
                        assert(found@.contains(h_new));
                    }
                }
            }
            k += 1;
        }
        proof {
            assert forall|t: InstTerm| #[trigger]
                term_wanted(origin, insts@, j + 1, t) implies term_found(*db, found@, t) by {
                let q = choose|q: int|
                    0 <= q < j + 1 && q < insts@.len() && #[trigger] super_inst_terms(
                        origin,
                        origin.inst_term(insts@[q]),
                    ).contains(t);
                if q < j {
                    assert(term_wanted(origin, insts@, j as int, t));
                } else {
                    let m = choose|m: int| 0 <= m < wanted.len() && wanted[m] == t;
                    assert(term_found(*db, found@, wanted[m]));
                }
            }
        }
        j += 1;
    }
    found
}

/// For every type of an assumption list, what follows from what the list
/// assumes of it: the result has the keys of `assumptions` and, under each
/// key, the super-trait instances of the trait instances that `assumptions`
/// has under it. It belongs to the same compilation unit.
pub fn compute_super_assumptions(db: &mut AnalysisDb, assumptions: AssumptionListId) -> (list:
    AssumptionListId)
    requires
        old(db).wf(),
        old(db).has_list(assumptions),
    ensures
        final(db).wf(),
        final(db).extends(*old(db)),
        final(db).has_list(list),
        final(db).list_ingot(list) == old(db).list_ingot(assumptions),
        final(db).list_map(list) == super_assumptions(
            *old(db),
            *final(db),
            old(db).list_map(assumptions),
        ),
{
    let ghost db0 = *db;
    let ghost src = db0.list_data(assumptions);
    let ingot = assumptions.ingot(db);
    let n = assumptions.predicates(db).len();
    let mut super_assumptions = PredicateMap::new();
    proof {
        db.lemma_extends_list(db0, assumptions);
    }
    let mut i: usize = 0;
    while i < n
        invariant
            i <= n,
            n == src.count(),
            db0.wf(),
            db0.has_list(assumptions),
            src == db0.list_data(assumptions),
            src.wf(),
            db0.map_ok(src),
            db.wf(),
            db.extends(db0),
            super_assumptions.wf(),
            super_assumptions.count() == i,
            db.map_ok(super_assumptions),
            forall|e: int|
                0 <= e < i ==> #[trigger] super_assumptions.key(e) == src.key(e) && supers_found(
                    db0,
                    *db,
                    src.insts(e),
                    src.insts(e).len() as int,
                    super_assumptions.insts(e),
                ),
        decreases n - i,
    {
        let ghost before = *db;
        let ghost done = super_assumptions;
        proof {
            db.lemma_extends_list(db0, assumptions);
            assert(db0.has_ty(src.entries@[i as int].ty) && db0.has_insts(
                src.entries@[i as int].insts@,
            ));
        }
        let ty = assumptions.predicates(db).ty_at(i);
        let insts = copy_vec(assumptions.predicates(db).insts_at(i));
        let super_insts = super_insts_of_all(db, Ghost(db0), &insts);
        proof {
            db.lemma_extends_trans(before, db0);
            db.lemma_extends_term(db0, ty);
            assert forall|k: int| 0 <= k < i implies done.key(k).0 < ty.0 by {
                assert(src.entries@[k].ty.0 < src.entries@[i as int].ty.0);
            }
        }
        super_assumptions.push_entry(ty, super_insts);
        proof {
            assert forall|e: int| 0 <= e < i + 1 implies #[trigger] super_assumptions.key(e)
                == src.key(e) && supers_found(
                db0,
                *db,
                src.insts(e),
                src.insts(e).len() as int,
                super_assumptions.insts(e),
            ) by {
                if e < i {
                    assert(done.key(e) == src.key(e));
                    lemma_supers_found_extends(
                        db0,
                        before,
                        *db,
                        src.insts(e),
                        src.insts(e).len() as int,
                        done.insts(e),
                    );
                }
            }
            assert forall|e: int| 0 <= e < super_assumptions.entries@.len() implies db.has_ty(
                (#[trigger] super_assumptions.entries@[e]).ty,
            ) && db.has_insts(super_assumptions.entries@[e].insts@) by {
                assert(super_assumptions.key(e) == src.key(e));
                assert(db0.has_ty(src.entries@[e].ty));
                db.lemma_extends_term(db0, src.entries@[e].ty);
            }
        }
        i += 1;
    }
    let ghost db1 = *db;
    let ghost result = super_assumptions;
    let list = PredicateListId::new(db, super_assumptions, ingot);
    proof {
        db.lemma_extends_trans(db1, db0);
        let got = db.list_map(list);
        let want = crate::assumptions::super_assumptions(db0, *db, db0.list_map(assumptions));
        assert forall|e: int| 0 <= e < n implies result.insts(e).to_set() == super_set(
            db0,
            *db,
            src.insts(e).to_set(),
        ) by {
            assert(result.key(e) == src.key(e));
            lemma_supers_found_extends(
                db0,
                db1,
                *db,
                src.insts(e),
                src.insts(e).len() as int,
                result.insts(e),
            );
            lemma_supers_found_set(db0, *db, src.insts(e), result.insts(e));
        }
        assert forall|t: TyId| got.contains_key(t) == want.contains_key(t) by {
            if got.contains_key(t) {
                result.lemma_view_key(t);
                let e = result.index_for(t);
                assert(result.key(e) == src.key(e));
                src.lemma_view_at(e);
            }
            if want.contains_key(t) {
                src.lemma_view_key(t);
                let e = src.index_for(t);
                assert(result.key(e) == src.key(e));
                result.lemma_view_at(e);
            }
        }
        assert forall|t: TyId| got.contains_key(t) implies got[t] == want[t] by {
            result.lemma_view_key(t);
            let e = result.index_for(t);
            assert(result.key(e) == src.key(e));
            src.lemma_view_at(e);
            result.lemma_view_at(e);
        }
        assert(got =~= want);
    }
    list
}

} // verus!
