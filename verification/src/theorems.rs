//! Theorems about the analysis as a whole.
//!
//! Each statement below is proved from the definitions that the contracts
//! of the functions use.

use crate::assumptions::super_inst_terms;
use crate::collector::collected;
use crate::collector::visit_bound;
use crate::collector::visit_bounds;
use crate::collector::visit_pred;
use crate::collector::visit_preds;
use crate::collector::Collected;
use crate::db::inst_data_same;
use crate::db::list_data_same;
use crate::db::AnalysisDb;
use crate::db::InstTerm;
use crate::decl::TraitDecl;
use crate::decl::TraitRef;
use crate::decl::TypeBound;
use crate::diag::TyDiagCollection;
use crate::ids::IngotId;
use crate::ids::PredicateId;
use crate::ids::PredicateListId;
use crate::ids::TraitDef;
use crate::ids::TraitInstId;
use crate::ids::TyId;
use crate::subst::inst_subst;
use crate::subst::min_len;
use crate::subst::subst_inst;
use crate::subst::subst_term;
use crate::subst::subst_terms;
use crate::subst::zip_terms;
use crate::super_traits::cycle_of;
use crate::super_traits::direct_supers;
use crate::super_traits::is_chain;
use crate::super_traits::lemma_requires_direct;
use crate::super_traits::lemma_super_traits_extends;
use crate::super_traits::requires_directly;
use crate::super_traits::requires_trait;
use crate::super_traits::super_traits_of;
use crate::ty::Term;
use vstd::prelude::*;

verus! {

// ----- the same question has the same answer -----
/// The super traits and diagnostics of a trait do not depend on when they
/// are asked for: they are the same in every database that extends the one
/// in which they were first computed, by however much was interned in
/// between.
pub proof fn super_traits_are_stable(first: AnalysisDb, later: AnalysisDb, def: TraitDef)
    requires
        first.wf(),
        first.has_trait(def),
        later.extends(first),
    ensures
        super_traits_of(later, def) == super_traits_of(first, def),
{
    lemma_super_traits_extends(first, later, def);
}

// ----- no trait is its own super trait -----
/// Trait `a` has `b` among its super traits.
pub open(crate) spec fn has_super_trait(db: AnalysisDb, a: usize, b: usize) -> bool {
    &&& db.has_trait(TraitDef(a))
    &&& exists|i: int|
        0 <= i < super_traits_of(db, TraitDef(a)).super_traits.len() && db.inst_def(
            #[trigger] super_traits_of(db, TraitDef(a)).super_traits[i],
        ).0 == b
}

/// Every trait of `chain` has the next one among its super traits.
pub open(crate) spec fn is_super_chain(db: AnalysisDb, chain: Seq<usize>) -> bool {
    &&& chain.len() >= 2
    &&& forall|i: int|
        0 <= i < chain.len() - 1 ==> has_super_trait(db, #[trigger] chain[i], chain[i + 1])
}

/// Trait `b` is a super trait of `a`, or a super trait of one of its super
/// traits, and so on.
pub open(crate) spec fn has_super_trait_transitively(db: AnalysisDb, a: usize, b: usize) -> bool {
    exists|chain: Seq<usize>| #[trigger]
        is_super_chain(db, chain) && chain[0] == a && chain.last() == b
}

/// Each of `kept` is one of `all` and instantiates no trait of `cycle`.
spec fn kept_ok(
    db: AnalysisDb,
    cycle: Set<usize>,
    kept: Seq<TraitInstId>,
    all: Seq<TraitInstId>,
) -> bool {
    forall|i: int|
        0 <= i < kept.len() ==> all.contains(#[trigger] kept[i]) && !cycle.contains(
            db.inst_def(kept[i]).0,
        )
}

/// One bound keeps `kept_ok` between a walk with a cycle and the walk
/// without one.
proof fn lemma_visit_bound_kept(
    db: AnalysisDb,
    cycle: Set<usize>,
    c: Collected,
    e: Collected,
    bound: TypeBound,
)
    requires
        kept_ok(db, cycle, c.super_traits, e.super_traits),
    ensures
        kept_ok(
            db,
            cycle,
            visit_bound(db, cycle, c, bound).super_traits,
            visit_bound(db, Set::empty(), e, bound).super_traits,
        ),
{
    let c2 = visit_bound(db, cycle, c, bound).super_traits;
    let e2 = visit_bound(db, Set::empty(), e, bound).super_traits;
    assert forall|i: int| 0 <= i < c2.len() implies e2.contains(#[trigger] c2[i])
        && !cycle.contains(db.inst_def(c2[i]).0) by {
        if i < c.super_traits.len() {
            assert(c2[i] == c.super_traits[i]);
            assert(e.super_traits.contains(c.super_traits[i]));
            let j = choose|j: int|
                0 <= j < e.super_traits.len() && e.super_traits[j] == c.super_traits[i];
            assert(e2[j] == c2[i]);
        } else {
            assert(e2[e2.len() - 1] == c2[i]);
        }
    }
}

/// Bounds keep `kept_ok` between a walk with a cycle and the walk without
/// one.
proof fn lemma_visit_bounds_kept(
    db: AnalysisDb,
    cycle: Set<usize>,
    c: Collected,
    e: Collected,
    bounds: Seq<TypeBound>,
    n: nat,
)
    requires
        n <= bounds.len(),
        kept_ok(db, cycle, c.super_traits, e.super_traits),
    ensures
        kept_ok(
            db,
            cycle,
            visit_bounds(db, cycle, c, bounds, n).super_traits,
            visit_bounds(db, Set::empty(), e, bounds, n).super_traits,
        ),
    decreases n,
{
    if n > 0 {
        lemma_visit_bounds_kept(db, cycle, c, e, bounds, (n - 1) as nat);
        lemma_visit_bound_kept(
            db,
            cycle,
            visit_bounds(db, cycle, c, bounds, (n - 1) as nat),
            visit_bounds(db, Set::empty(), e, bounds, (n - 1) as nat),
            bounds[n - 1],
        );
    }
}

/// Where-predicates keep `kept_ok` between a walk with a cycle and the
/// walk without one.
proof fn lemma_visit_preds_kept(
    db: AnalysisDb,
    cycle: Set<usize>,
    c: Collected,
    e: Collected,
    decl: TraitDecl,
    n: nat,
)
    requires
        n <= decl.where_clause@.len(),
        kept_ok(db, cycle, c.super_traits, e.super_traits),
    ensures
        kept_ok(
            db,
            cycle,
            visit_preds(db, cycle, c, decl.where_clause@, n).super_traits,
            visit_preds(db, Set::empty(), e, decl.where_clause@, n).super_traits,
        ),
    decreases n,
{
    if n > 0 {
        lemma_visit_preds_kept(db, cycle, c, e, decl, (n - 1) as nat);
        let pred = decl.where_clause@[n - 1];
        lemma_visit_bounds_kept(
            db,
            cycle,
            visit_preds(db, cycle, c, decl.where_clause@, (n - 1) as nat),
            visit_preds(db, Set::empty(), e, decl.where_clause@, (n - 1) as nat),
            pred.bounds@,
            pred.bounds@.len(),
        );
    }
}

/// A super trait is required directly, and does not lie on a cycle with
/// the trait that it is a super trait of.
pub proof fn lemma_super_trait_is_off_cycle(db: AnalysisDb, a: usize, b: usize)
    requires
        has_super_trait(db, a, b),
    ensures
        requires_directly(db, a, b),
        !cycle_of(db, TraitDef(a)).contains(b),
{
    let def = TraitDef(a);
    let decl = db.trait_decl(def);
    lemma_visit_preds_kept(
        db,
        cycle_of(db, def),
        Collected::empty(),
        Collected::empty(),
        decl,
        decl.where_clause@.len(),
    );
    let kept = super_traits_of(db, def).super_traits;
    let all = direct_supers(db, a);
    let i = choose|i: int| 0 <= i < kept.len() && db.inst_def(#[trigger] kept[i]).0 == b;
    assert(all.contains(kept[i]));
    let j = choose|j: int| 0 <= j < all.len() && all[j] == kept[i];
    assert(db.inst_def(direct_supers(db, a)[j]).0 == b);
}

/// No trait is among its own super traits, neither directly nor through
/// the super traits of its super traits.
pub proof fn super_traits_are_acyclic(db: AnalysisDb, def: TraitDef)
    requires
        db.wf(),
        db.has_trait(def),
    ensures
        !has_super_trait_transitively(db, def.0, def.0),
{
    if has_super_trait_transitively(db, def.0, def.0) {
        let chain = choose|chain: Seq<usize>| #[trigger]
            is_super_chain(db, chain) && chain[0] == def.0 && chain.last() == def.0;
        assert forall|i: int| 0 <= i < chain.len() - 1 implies requires_directly(
            db,
            #[trigger] chain[i],
            chain[i + 1],
        ) by {
            assert(has_super_trait(db, chain[i], chain[i + 1]));
            lemma_super_trait_is_off_cycle(db, chain[i], chain[i + 1]);
        }
        assert(is_chain(db, chain));
        assert(has_super_trait(db, chain[0], chain[1]));
        lemma_super_trait_is_off_cycle(db, chain[0], chain[1]);
        lemma_requires_direct(db, chain[0], chain[1]);
        let next = chain[1];
        if chain.len() == 2 {
            assert(next == def.0);
        } else {
            let rest = chain.subrange(1, chain.len() as int);
            assert forall|i: int| 0 <= i < rest.len() - 1 implies requires_directly(
                db,
                #[trigger] rest[i],
                rest[i + 1],
            ) by {
                assert(requires_directly(db, chain[i + 1], chain[i + 1 + 1]));
            }
            assert(is_chain(db, rest));
            assert(rest[0] == next && rest.last() == def.0);
        }
        assert(requires_trait(db, next, def.0));
        assert(cycle_of(db, def).contains(next));
    }
}

// ----- a bound that would close a cycle is reported -----
/// A diagnostic that was collected stays collected over further bounds.
proof fn lemma_visit_bounds_keeps_diag(
    db: AnalysisDb,
    cycle: Set<usize>,
    acc: Collected,
    bounds: Seq<TypeBound>,
    n: nat,
    d: TyDiagCollection,
)
    requires
        n <= bounds.len(),
        acc.diags.contains(d),
    ensures
        visit_bounds(db, cycle, acc, bounds, n).diags.contains(d),
    decreases n,
{
    if n > 0 {
        lemma_visit_bounds_keeps_diag(db, cycle, acc, bounds, (n - 1) as nat, d);
        let before = visit_bounds(db, cycle, acc, bounds, (n - 1) as nat);
        let after = visit_bound(db, cycle, before, bounds[n - 1]);
        let k = choose|k: int| 0 <= k < before.diags.len() && before.diags[k] == d;
        assert(after.diags[k] == d);
    }
}

/// A diagnostic that was collected stays collected over further
/// where-predicates.
proof fn lemma_visit_preds_keeps_diag(
    db: AnalysisDb,
    cycle: Set<usize>,
    acc: Collected,
    preds: Seq<crate::decl::WherePredicate>,
    n: nat,
    d: TyDiagCollection,
)
    requires
        n <= preds.len(),
        acc.diags.contains(d),
    ensures
        visit_preds(db, cycle, acc, preds, n).diags.contains(d),
    decreases n,
{
    if n > 0 {
        lemma_visit_preds_keeps_diag(db, cycle, acc, preds, (n - 1) as nat, d);
        let before = visit_preds(db, cycle, acc, preds, (n - 1) as nat);
        lemma_visit_bounds_keeps_diag(
            db,
            cycle,
            before,
            preds[n - 1].bounds@,
            preds[n - 1].bounds@.len(),
            d,
        );
    }
}

/// A super trait that was collected stays collected over further bounds.
proof fn lemma_visit_bounds_keeps_inst(
    db: AnalysisDb,
    cycle: Set<usize>,
    acc: Collected,
    bounds: Seq<TypeBound>,
    n: nat,
    inst: TraitInstId,
)
    requires
        n <= bounds.len(),
        acc.super_traits.contains(inst),
    ensures
        visit_bounds(db, cycle, acc, bounds, n).super_traits.contains(inst),
    decreases n,
{
    if n > 0 {
        lemma_visit_bounds_keeps_inst(db, cycle, acc, bounds, (n - 1) as nat, inst);
        let before = visit_bounds(db, cycle, acc, bounds, (n - 1) as nat);
        let after = visit_bound(db, cycle, before, bounds[n - 1]);
        let k = choose|k: int| 0 <= k < before.super_traits.len() && before.super_traits[k] == inst;
        assert(after.super_traits[k] == inst);
    }
}

/// A super trait that was collected stays collected over further
/// where-predicates.
proof fn lemma_visit_preds_keeps_inst(
    db: AnalysisDb,
    cycle: Set<usize>,
    acc: Collected,
    preds: Seq<crate::decl::WherePredicate>,
    n: nat,
    inst: TraitInstId,
)
    requires
        n <= preds.len(),
        acc.super_traits.contains(inst),
    ensures
        visit_preds(db, cycle, acc, preds, n).super_traits.contains(inst),
    decreases n,
{
    if n > 0 {
        lemma_visit_preds_keeps_inst(db, cycle, acc, preds, (n - 1) as nat, inst);
        let before = visit_preds(db, cycle, acc, preds, (n - 1) as nat);
        lemma_visit_bounds_keeps_inst(
            db,
            cycle,
            before,
            preds[n - 1].bounds@,
            preds[n - 1].bounds@.len(),
            inst,
        );
    }
}

/// The `j`-th bound of the `i`-th where-predicate of `def` is a bound on
/// `Self` that resolved, without diagnostics, to the trait instance `inst`
/// at `r`.
pub open(crate) spec fn is_super_bound(
    db: AnalysisDb,
    def: TraitDef,
    i: int,
    j: int,
    r: TraitRef,
    inst: TraitInstId,
) -> bool {
    let preds = db.trait_decl(def).where_clause@;
    &&& db.has_trait(def)
    &&& 0 <= i < preds.len()
    &&& preds[i].is_self_bound()
    &&& 0 <= j < preds[i].bounds@.len()
    &&& preds[i].bounds@[j] == TypeBound::Trait(r)
    &&& r.diags@.len() == 0
    &&& r.lowered == Some(inst)
}

/// What a bound on `Self` brings in is among what the walk collects: its
/// trait instance, or else the diagnostic at its place.
proof fn lemma_super_bound_taken(
    db: AnalysisDb,
    def: TraitDef,
    cycle: Set<usize>,
    i: int,
    j: int,
    r: TraitRef,
    inst: TraitInstId,
)
    requires
        is_super_bound(db, def, i, j, r, inst),
    ensures
        cycle.contains(db.inst_def(inst).0) ==> collected(db, def, cycle).diags.contains(
            TyDiagCollection::cyclic(r.span),
        ),
        !cycle.contains(db.inst_def(inst).0) ==> collected(db, def, cycle).super_traits.contains(
            inst,
        ),
{
    let preds = db.trait_decl(def).where_clause@;
    let bounds = preds[i].bounds@;
    let start = visit_preds(db, cycle, Collected::empty(), preds, i as nat);
    let before = visit_bounds(db, cycle, start, bounds, j as nat);
    let at = visit_bounds(db, cycle, start, bounds, (j + 1) as nat);
    assert(at == visit_bound(db, cycle, before, bounds[j]));
    let done = visit_preds(db, cycle, Collected::empty(), preds, (i + 1) as nat);
    assert(done == visit_pred(db, cycle, start, preds[i]));
    if cycle.contains(db.inst_def(inst).0) {
        let d = TyDiagCollection::cyclic(r.span);
        assert(at.diags[at.diags.len() - 1] == d);
        lemma_bounds_from(db, cycle, start, bounds, (j + 1) as nat, bounds.len());
        lemma_visit_bounds_keeps_diag(
            db,
            cycle,
            at,
            bounds.subrange(j + 1, bounds.len() as int),
            (bounds.len() - j - 1) as nat,
            d,
        );
        lemma_preds_from(db, cycle, Collected::empty(), preds, (i + 1) as nat, preds.len());
        lemma_visit_preds_keeps_diag(
            db,
            cycle,
            done,
            preds.subrange(i + 1, preds.len() as int),
            (preds.len() - i - 1) as nat,
            d,
        );
    } else {
        assert(at.super_traits[at.super_traits.len() - 1] == inst);
        lemma_bounds_from(db, cycle, start, bounds, (j + 1) as nat, bounds.len());
        lemma_visit_bounds_keeps_inst(
            db,
            cycle,
            at,
            bounds.subrange(j + 1, bounds.len() as int),
            (bounds.len() - j - 1) as nat,
            inst,
        );
        lemma_preds_from(db, cycle, Collected::empty(), preds, (i + 1) as nat, preds.len());
        lemma_visit_preds_keeps_inst(
            db,
            cycle,
            done,
            preds.subrange(i + 1, preds.len() as int),
            (preds.len() - i - 1) as nat,
            inst,
        );
    }
}

/// Walking the first `n` bounds is walking the first `m` and then the
/// rest.
proof fn lemma_bounds_from(
    db: AnalysisDb,
    cycle: Set<usize>,
    acc: Collected,
    bounds: Seq<TypeBound>,
    m: nat,
    n: nat,
)
    requires
        m <= n <= bounds.len(),
    ensures
        visit_bounds(db, cycle, acc, bounds, n) == visit_bounds(
            db,
            cycle,
            visit_bounds(db, cycle, acc, bounds, m),
            bounds.subrange(m as int, bounds.len() as int),
            (n - m) as nat,
        ),
    decreases n,
{
    if n > m {
        lemma_bounds_from(db, cycle, acc, bounds, m, (n - 1) as nat);
        assert(bounds.subrange(m as int, bounds.len() as int)[n - m - 1] == bounds[n - 1]);
    }
}

/// Walking the first `n` where-predicates is walking the first `m` and
/// then the rest.
proof fn lemma_preds_from(
    db: AnalysisDb,
    cycle: Set<usize>,
    acc: Collected,
    preds: Seq<crate::decl::WherePredicate>,
    m: nat,
    n: nat,
)
    requires
        m <= n <= preds.len(),
    ensures
        visit_preds(db, cycle, acc, preds, n) == visit_preds(
            db,
            cycle,
            visit_preds(db, cycle, acc, preds, m),
            preds.subrange(m as int, preds.len() as int),
            (n - m) as nat,
        ),
    decreases n,
{
    if n > m {
        lemma_preds_from(db, cycle, acc, preds, m, (n - 1) as nat);
        assert(preds.subrange(m as int, preds.len() as int)[n - m - 1] == preds[n - 1]);
    }
}

/// A bound on `Self` that names the trait itself, or a trait that requires
/// it in turn, is reported at its place.
pub proof fn cyclic_bound_is_reported(
    db: AnalysisDb,
    def: TraitDef,
    i: int,
    j: int,
    r: TraitRef,
    inst: TraitInstId,
)
    requires
        db.wf(),
        is_super_bound(db, def, i, j, r, inst),
        db.inst_def(inst) == def || requires_trait(db, db.inst_def(inst).0, def.0),
    ensures
        super_traits_of(db, def).diags.contains(TyDiagCollection::cyclic(r.span)),
{
    let to = db.inst_def(inst).0;
    lemma_super_bound_taken(db, def, Set::empty(), i, j, r, inst);
    let all = direct_supers(db, def.0);
    let k = choose|k: int| 0 <= k < all.len() && all[k] == inst;
    assert(db.inst_def(direct_supers(db, def.0)[k]).0 == to);
    assert(requires_directly(db, def.0, to));
    lemma_requires_direct(db, def.0, to);
    assert(cycle_of(db, def).contains(to));
    lemma_super_bound_taken(db, def, cycle_of(db, def), i, j, r, inst);
}

// ----- super traits and substitution -----
/// `s` maps no application of a type to an argument.
pub open spec fn maps_no_application(s: Map<Term, Term>) -> bool {
    forall|t: Term| #[trigger] s.contains_key(t) ==> !(t is App)
}

/// Every part of `b` that `sigma` leaves in place, and that is no
/// application, is left in place by `s` too.
pub open spec fn untouched_outside(b: Term, sigma: Map<Term, Term>, s: Map<Term, Term>) -> bool
    decreases b,
{
    if sigma.contains_key(b) {
        true
    } else {
        match b {
            Term::App(l, r) => untouched_outside(*l, sigma, s) && untouched_outside(*r, sigma, s),
            _ => s.contains_key(b) ==> s[b] == b,
        }
    }
}

/// Rewriting the arguments of a substitution rewrites what it maps to,
/// and leaves what it maps as it is.
proof fn lemma_zip_subst(params: Seq<Term>, args: Seq<Term>, s: Map<Term, Term>, n: nat)
    requires
        n <= params.len(),
        n <= args.len(),
    ensures
        zip_terms(params, subst_terms(args, s), n).dom() == zip_terms(params, args, n).dom(),
        forall|p: Term|
            zip_terms(params, args, n).contains_key(p) ==> #[trigger] zip_terms(
                params,
                subst_terms(args, s),
                n,
            )[p] == subst_term(zip_terms(params, args, n)[p], s),
    decreases n,
{
    if n > 0 {
        lemma_zip_subst(params, args, s, (n - 1) as nat);
        assert(subst_terms(args, s)[n - 1] == subst_term(args[n - 1], s));
        assert(zip_terms(params, subst_terms(args, s), n).dom() =~= zip_terms(
            params,
            args,
            n,
        ).dom());
    } else {
        assert(zip_terms(params, subst_terms(args, s), n).dom() =~= zip_terms(
            params,
            args,
            n,
        ).dom());
    }
}

/// Rewriting under `sigma` and then under `s` is rewriting under `sigma`
/// with its results rewritten under `s`, on a term that `s` does not
/// touch outside `sigma`.
proof fn lemma_subst_compose(
    b: Term,
    sigma: Map<Term, Term>,
    sigma2: Map<Term, Term>,
    s: Map<Term, Term>,
)
    requires
        maps_no_application(s),
        untouched_outside(b, sigma, s),
        sigma2.dom() == sigma.dom(),
        forall|p: Term| sigma.contains_key(p) ==> #[trigger] sigma2[p] == subst_term(sigma[p], s),
    ensures
        subst_term(subst_term(b, sigma), s) == subst_term(b, sigma2),
    decreases b,
{
    assert(sigma2.contains_key(b) == sigma.contains_key(b)) by {
        assert(sigma2.dom().contains(b) == sigma.dom().contains(b));
    }
    if sigma.contains_key(b) {
        assert(sigma2[b] == subst_term(sigma[b], s));
    } else {
        match b {
            Term::App(l, r) => {
                lemma_subst_compose(*l, sigma, sigma2, s);
                lemma_subst_compose(*r, sigma, sigma2, s);
                let mid = Term::App(
                    Box::new(subst_term(*l, sigma)),
                    Box::new(subst_term(*r, sigma)),
                );
                assert(subst_term(b, sigma) == mid);
                assert(!s.contains_key(mid));
            },
            _ => {},
        }
    }
}

/// Taking the super-trait instances of a rewritten trait instance gives
/// what rewriting its super-trait instances gives, one by one.
///
/// This holds where `s` maps no application, and where `s` leaves in place
/// what the type arguments of the trait's super traits mention beside the
/// parameters that the instance replaces.
pub proof fn super_trait_insts_commute_with_subst(
    db: AnalysisDb,
    inst: InstTerm,
    s: Map<Term, Term>,
)
    requires
        db.wf(),
        db.has_trait(inst.def),
        maps_no_application(s),
        forall|k: int, a: int|
            0 <= k < super_traits_of(db, inst.def).super_traits.len() && 0 <= a < db.inst_term(
                super_traits_of(db, inst.def).super_traits[k],
            ).args.len() ==> untouched_outside(
                #[trigger] db.inst_term(super_traits_of(db, inst.def).super_traits[k]).args[a],
                inst_subst(db, inst),
                s,
            ),
    ensures
        super_inst_terms(db, subst_inst(inst, s)).len() == super_inst_terms(db, inst).len(),
        forall|k: int|
            0 <= k < super_inst_terms(db, inst).len() ==> #[trigger] super_inst_terms(
                db,
                subst_inst(inst, s),
            )[k] == subst_inst(super_inst_terms(db, inst)[k], s),
{
    let supers = super_traits_of(db, inst.def).super_traits;
    let params = db.terms(db.trait_params(inst.def));
    let n = min_len(params.len(), inst.args.len());
    let sigma = inst_subst(db, inst);
    let sigma2 = inst_subst(db, subst_inst(inst, s));
    assert(subst_inst(inst, s).args.len() == inst.args.len());
    lemma_zip_subst(params, inst.args, s, n);
    assert(sigma2 == zip_terms(params, subst_terms(inst.args, s), n));
    assert forall|k: int| 0 <= k < supers.len() implies #[trigger] super_inst_terms(
        db,
        subst_inst(inst, s),
    )[k] == subst_inst(super_inst_terms(db, inst)[k], s) by {
        let e = db.inst_term(supers[k]);
        let lhs = subst_inst(e, sigma2);
        let rhs = subst_inst(subst_inst(e, sigma), s);
        assert forall|a: int| 0 <= a < e.args.len() implies lhs.args[a] == rhs.args[a] by {
            assert(untouched_outside(
                db.inst_term(super_traits_of(db, inst.def).super_traits[k]).args[a],
                sigma,
                s,
            ));
            lemma_subst_compose(e.args[a], sigma, sigma2, s);
        }
        assert(lhs.args =~= rhs.args);
    }
}

// ----- what is interned is stored once -----
/// A type has one handle: two types of a database that are made of the
/// same node are the same type.
pub proof fn type_is_interned_once(db: AnalysisDb, a: TyId, b: TyId)
    requires
        db.wf(),
        db.has_ty(a),
        db.has_ty(b),
        db.ty_data(a) == db.ty_data(b),
    ensures
        a == b,
{
    if a.0 < b.0 {
        assert(db.tys@[a.0 as int] != db.tys@[b.0 as int]);
    } else if b.0 < a.0 {
        assert(db.tys@[b.0 as int] != db.tys@[a.0 as int]);
    }
}

/// A trait instance has one handle: two trait instances of a database with
/// the same trait and the same type arguments are the same trait instance.
pub proof fn trait_inst_is_interned_once(db: AnalysisDb, a: TraitInstId, b: TraitInstId)
    requires
        db.wf(),
        db.has_inst(a),
        db.has_inst(b),
        db.inst_def(a) == db.inst_def(b),
        db.inst_substs(a) == db.inst_substs(b),
    ensures
        a == b,
{
    if a.0 < b.0 {
        assert(!inst_data_same(db.insts@[a.0 as int], db.insts@[b.0 as int]));
    } else if b.0 < a.0 {
        assert(!inst_data_same(db.insts@[b.0 as int], db.insts@[a.0 as int]));
    }
}

/// Interning the same trait with the same type arguments a second time,
/// in the same database or after more was interned, gives the handle that
/// the first time gave.
pub proof fn interning_a_trait_inst_again(
    first: AnalysisDb,
    later: AnalysisDb,
    a: TraitInstId,
    b: TraitInstId,
    def: TraitDef,
    substs: Seq<TyId>,
)
    requires
        first.wf(),
        first.has_inst(a),
        first.inst_is(a, def, substs),
        later.wf(),
        later.extends(first),
        later.has_inst(b),
        later.inst_is(b, def, substs),
    ensures
        a == b,
{
    later.lemma_extends_inst(first, a);
    trait_inst_is_interned_once(later, a, b);
}

/// A predicate has one handle: two predicates of a database that speak of
/// the same type and the same trait instance are the same predicate.
pub proof fn predicate_is_interned_once(db: AnalysisDb, a: PredicateId, b: PredicateId)
    requires
        db.wf(),
        db.has_pred(a),
        db.has_pred(b),
        db.pred_ty(a) == db.pred_ty(b),
        db.pred_inst(a) == db.pred_inst(b),
    ensures
        a == b,
{
    if a.0 < b.0 {
        assert(db.preds@[a.0 as int] != db.preds@[b.0 as int]);
    } else if b.0 < a.0 {
        assert(db.preds@[b.0 as int] != db.preds@[a.0 as int]);
    }
}

/// Interning the same type with the same trait instance as a predicate a
/// second time, in the same database or after more was interned, gives the
/// handle that the first time gave.
pub proof fn interning_a_predicate_again(
    first: AnalysisDb,
    later: AnalysisDb,
    a: PredicateId,
    b: PredicateId,
    ty: TyId,
    trait_: TraitInstId,
)
    requires
        first.wf(),
        first.has_pred(a),
        first.pred_ty(a) == ty,
        first.pred_inst(a) == trait_,
        later.wf(),
        later.extends(first),
        later.has_pred(b),
        later.pred_ty(b) == ty,
        later.pred_inst(b) == trait_,
    ensures
        a == b,
{
    later.lemma_extends_pred(first, a);
    predicate_is_interned_once(later, a, b);
}

/// A predicate list has one handle: two predicate lists of a database that
/// hold the same map and belong to the same compilation unit are the same
/// predicate list.
pub proof fn predicate_list_is_interned_once(db: AnalysisDb, a: PredicateListId, b: PredicateListId)
    requires
        db.wf(),
        db.has_list(a),
        db.has_list(b),
        db.list_map(a) == db.list_map(b),
        db.list_ingot(a) == db.list_ingot(b),
    ensures
        a == b,
{
    let x = db.lists@[a.0 as int];
    let y = db.lists@[b.0 as int];
    assert(x.predicates.wf() && y.predicates.wf());
    x.predicates.lemma_view_repr(y.predicates);
    assert(list_data_same(x, y));
    assert(list_data_same(y, x));
    if a.0 < b.0 {
        assert(!list_data_same(db.lists@[a.0 as int], db.lists@[b.0 as int]));
    } else if b.0 < a.0 {
        assert(!list_data_same(db.lists@[b.0 as int], db.lists@[a.0 as int]));
    }
}

/// Interning the same map for the same compilation unit a second time, in
/// the same database or after more was interned, gives the handle that the
/// first time gave.
pub proof fn interning_a_predicate_list_again(
    first: AnalysisDb,
    later: AnalysisDb,
    a: PredicateListId,
    b: PredicateListId,
    map: Map<TyId, Set<TraitInstId>>,
    ingot: IngotId,
)
    requires
        first.wf(),
        first.has_list(a),
        first.list_map(a) == map,
        first.list_ingot(a) == ingot,
        later.wf(),
        later.extends(first),
        later.has_list(b),
        later.list_map(b) == map,
        later.list_ingot(b) == ingot,
    ensures
        a == b,
{
    later.lemma_extends_list(first, a);
    predicate_list_is_interned_once(later, a, b);
}

} // verus!
