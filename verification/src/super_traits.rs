//! The super traits of a trait, with cyclic requirements left out.
//!
//! Trait `a` requires trait `b` directly if a bound on `Self` in the
//! declaration of `a` resolves to an instance of `b`. Where a chain of such
//! requirements leads from a trait back to itself, the traits on the chain
//! form a cycle. A bound of a trait that names a trait on a cycle with it is
//! not a super trait: it is reported.
//!
//! Which bound is charged with a cycle does not depend on the order in
//! which traits are asked about. Every trait on a cycle is charged, at each
//! of its own bounds that names a trait on a cycle with it, and loses those
//! bounds as super traits. A trait that only leads into a cycle is charged
//! with nothing and keeps all its super traits.

use crate::collector::collected;
use crate::collector::visit_bounds;
use crate::collector::visit_preds;
use crate::collector::Collected;
use crate::collector::SuperTraitCollector;
use crate::db::AnalysisDb;
use crate::decl::TraitDecl;
use crate::decl::TypeBound;
use crate::diag::TyDiagCollection;
use crate::fx::fx_set_insert;
use crate::ids::TraitDef;
use crate::ids::TraitInstId;
use crate::ty::copy_vec;
use crate::ty::is_prefix;
use rustc_hash::FxHashSet;
use vstd::prelude::*;
use vstd::set_lib::lemma_int_range;
use vstd::set_lib::lemma_len_subset;
use vstd::set_lib::set_int_range;

verus! {

// ----- the relation between traits -----
/// The trait instances that the bounds on `Self` of trait `a` resolve to,
/// in source order, cyclic or not.
pub open(crate) spec fn direct_supers(db: AnalysisDb, a: usize) -> Seq<TraitInstId> {
    collected(db, TraitDef(a), Set::empty()).super_traits
}

/// Trait `a` has a bound on `Self` that resolves to an instance of `b`.
pub open(crate) spec fn requires_directly(db: AnalysisDb, a: usize, b: usize) -> bool {
    &&& db.has_trait(TraitDef(a))
    &&& exists|i: int|
        0 <= i < direct_supers(db, a).len() && db.inst_def(#[trigger] direct_supers(db, a)[i]).0
            == b
}

/// Every trait of `chain` requires the next one directly.
pub open(crate) spec fn is_chain(db: AnalysisDb, chain: Seq<usize>) -> bool {
    &&& chain.len() >= 2
    &&& forall|i: int|
        0 <= i < chain.len() - 1 ==> requires_directly(db, #[trigger] chain[i], chain[i + 1])
}

/// Trait `a` requires trait `b`, directly or through other traits.
pub open(crate) spec fn requires_trait(db: AnalysisDb, a: usize, b: usize) -> bool {
    exists|chain: Seq<usize>| #[trigger] is_chain(db, chain) && chain[0] == a && chain.last() == b
}

/// The traits that lie on a cycle with `def`: those that `def` requires and
/// that require `def`. The set is empty unless `def` requires itself, and
/// holds `def` if it does.
pub open(crate) spec fn cycle_of(db: AnalysisDb, def: TraitDef) -> Set<usize> {
    Set::new(|u: usize| requires_trait(db, def.0, u) && requires_trait(db, u, def.0))
}

/// The super traits of `def` and the diagnostics of its declaration: what
/// the walk of its declaration collects when the traits on a cycle with it
/// are known.
pub open(crate) spec fn super_traits_of(db: AnalysisDb, def: TraitDef) -> Collected {
    collected(db, def, cycle_of(db, def))
}

// ----- what a walk collects is made of the database's trait instances -----
/// Bounds that name trait instances of the database add only such.
proof fn lemma_visit_bounds_valid(
    db: AnalysisDb,
    cycle: Set<usize>,
    acc: Collected,
    bounds: Seq<TypeBound>,
    n: nat,
)
    requires
        n <= bounds.len(),
        forall|j: int| 0 <= j < bounds.len() ==> db.bound_ok(#[trigger] bounds[j]),
        db.has_insts(acc.super_traits),
    ensures
        db.has_insts(visit_bounds(db, cycle, acc, bounds, n).super_traits),
    decreases n,
{
    if n > 0 {
        lemma_visit_bounds_valid(db, cycle, acc, bounds, (n - 1) as nat);
        assert(db.bound_ok(bounds[n - 1]));
    }
}

/// Where-predicates of a declaration of the database add only trait
/// instances of the database.
proof fn lemma_visit_preds_valid(
    db: AnalysisDb,
    cycle: Set<usize>,
    acc: Collected,
    decl: TraitDecl,
    n: nat,
)
    requires
        n <= decl.where_clause@.len(),
        db.decl_ok(decl),
        db.has_insts(acc.super_traits),
    ensures
        db.has_insts(visit_preds(db, cycle, acc, decl.where_clause@, n).super_traits),
    decreases n,
{
    if n > 0 {
        lemma_visit_preds_valid(db, cycle, acc, decl, (n - 1) as nat);
        let before = visit_preds(db, cycle, acc, decl.where_clause@, (n - 1) as nat);
        let pred = decl.where_clause@[n - 1];
        assert forall|j: int| 0 <= j < pred.bounds@.len() implies db.bound_ok(
            #[trigger] pred.bounds@[j],
        ) by {
            assert(db.bound_ok(decl.where_clause@[n - 1].bounds@[j]));
        }
        lemma_visit_bounds_valid(db, cycle, before, pred.bounds@, pred.bounds@.len());
    }
}

/// Every collected super trait is a trait instance of the database, and
/// instantiates one of its traits.
pub proof fn lemma_collected_valid(db: AnalysisDb, def: TraitDef, cycle: Set<usize>)
    requires
        db.wf(),
        db.has_trait(def),
    ensures
        db.has_insts(collected(db, def, cycle).super_traits),
        forall|i: int|
            0 <= i < collected(db, def, cycle).super_traits.len() ==> db.has_trait(
                db.inst_def(#[trigger] collected(db, def, cycle).super_traits[i]),
            ),
{
    let decl = db.trait_decl(def);
    assert(db.decl_ok(db.trait_decls@[def.0 as int]));
    lemma_visit_preds_valid(db, cycle, Collected::empty(), decl, decl.where_clause@.len());
    let supers = collected(db, def, cycle).super_traits;
    assert forall|i: int| 0 <= i < supers.len() implies db.has_trait(
        db.inst_def(#[trigger] supers[i]),
    ) by {
        assert(db.has_inst(supers[i]));
        assert(db.has_trait(db.insts@[supers[i].0 as int].def));
    }
}

/// A direct requirement is a requirement.
pub proof fn lemma_requires_direct(db: AnalysisDb, a: usize, b: usize)
    requires
        requires_directly(db, a, b),
    ensures
        requires_trait(db, a, b),
{
    let chain = seq![a, b];
    assert(is_chain(db, chain));
}

/// A requirement goes on through a direct requirement.
pub proof fn lemma_requires_step(db: AnalysisDb, a: usize, b: usize, c: usize)
    requires
        requires_trait(db, a, b),
        requires_directly(db, b, c),
    ensures
        requires_trait(db, a, c),
{
    let chain = choose|chain: Seq<usize>| #[trigger]
        is_chain(db, chain) && chain[0] == a && chain.last() == b;
    let longer = chain.push(c);
    assert forall|i: int| 0 <= i < longer.len() - 1 implies requires_directly(
        db,
        #[trigger] longer[i],
        longer[i + 1],
    ) by {
        if i < chain.len() - 1 {
            assert(requires_directly(db, chain[i], chain[i + 1]));
        }
    }
    assert(is_chain(db, longer));
}

// ----- interning more leaves the relation as it is -----
/// Bounds add the same in a database that extends the one they were
/// written for.
proof fn lemma_visit_bounds_extends(
    old: AnalysisDb,
    new: AnalysisDb,
    cycle: Set<usize>,
    acc: Collected,
    bounds: Seq<TypeBound>,
    n: nat,
)
    requires
        n <= bounds.len(),
        forall|j: int| 0 <= j < bounds.len() ==> old.bound_ok(#[trigger] bounds[j]),
        is_prefix(old.insts@, new.insts@),
    ensures
        visit_bounds(new, cycle, acc, bounds, n) == visit_bounds(old, cycle, acc, bounds, n),
    decreases n,
{
    if n > 0 {
        lemma_visit_bounds_extends(old, new, cycle, acc, bounds, (n - 1) as nat);
        assert(old.bound_ok(bounds[n - 1]));
    }
}

/// Where-predicates add the same in a database that extends the one they
/// were written for.
proof fn lemma_visit_preds_extends(
    old: AnalysisDb,
    new: AnalysisDb,
    cycle: Set<usize>,
    acc: Collected,
    decl: TraitDecl,
    n: nat,
)
    requires
        n <= decl.where_clause@.len(),
        old.decl_ok(decl),
        is_prefix(old.insts@, new.insts@),
    ensures
        visit_preds(new, cycle, acc, decl.where_clause@, n) == visit_preds(
            old,
            cycle,
            acc,
            decl.where_clause@,
            n,
        ),
    decreases n,
{
    if n > 0 {
        lemma_visit_preds_extends(old, new, cycle, acc, decl, (n - 1) as nat);
        let before = visit_preds(old, cycle, acc, decl.where_clause@, (n - 1) as nat);
        let pred = decl.where_clause@[n - 1];
        assert forall|j: int| 0 <= j < pred.bounds@.len() implies old.bound_ok(
            #[trigger] pred.bounds@[j],
        ) by {
            assert(old.bound_ok(decl.where_clause@[n - 1].bounds@[j]));
        }
        lemma_visit_bounds_extends(old, new, cycle, before, pred.bounds@, pred.bounds@.len());
    }
}

/// A walk collects the same in a database that extends the one it was made
/// for.
pub proof fn lemma_collected_extends(
    old: AnalysisDb,
    new: AnalysisDb,
    def: TraitDef,
    cycle: Set<usize>,
)
    requires
        old.wf(),
        new.extends(old),
        old.has_trait(def),
    ensures
        collected(new, def, cycle) == collected(old, def, cycle),
{
    let decl = old.trait_decl(def);
    assert(old.decl_ok(old.trait_decls@[def.0 as int]));
    lemma_visit_preds_extends(old, new, cycle, Collected::empty(), decl, decl.where_clause@.len());
}

/// A direct requirement is one in a database that extends the one it was
/// read in, and the other way round.
pub proof fn lemma_requires_directly_extends(old: AnalysisDb, new: AnalysisDb, a: usize, b: usize)
    requires
        old.wf(),
        new.extends(old),
    ensures
        requires_directly(new, a, b) == requires_directly(old, a, b),
{
    if old.has_trait(TraitDef(a)) {
        lemma_collected_extends(old, new, TraitDef(a), Set::empty());
        lemma_collected_valid(old, TraitDef(a), Set::empty());
        let supers = direct_supers(old, a);
        assert(supers == direct_supers(new, a));
        if requires_directly(old, a, b) {
            let i = choose|i: int|
                0 <= i < supers.len() && old.inst_def(#[trigger] supers[i]).0 == b;
            assert(old.has_inst(supers[i]));
            assert(new.inst_def(direct_supers(new, a)[i]).0 == b);
        }
        if requires_directly(new, a, b) {
            let i = choose|i: int|
                0 <= i < supers.len() && new.inst_def(#[trigger] direct_supers(new, a)[i]).0 == b;
            assert(old.has_inst(supers[i]));
            assert(old.inst_def(direct_supers(old, a)[i]).0 == b);
        }
    }
}

/// A chain is one in a database that extends the one it was read in, and
/// the other way round.
pub proof fn lemma_chain_extends(old: AnalysisDb, new: AnalysisDb, chain: Seq<usize>)
    requires
        old.wf(),
        new.extends(old),
    ensures
        is_chain(new, chain) == is_chain(old, chain),
{
    if chain.len() >= 2 {
        assert forall|i: int| 0 <= i < chain.len() - 1 implies requires_directly(
            new,
            #[trigger] chain[i],
            chain[i + 1],
        ) == requires_directly(old, chain[i], chain[i + 1]) by {
            lemma_requires_directly_extends(old, new, chain[i], chain[i + 1]);
        }
    }
}

/// A requirement is one in a database that extends the one it was read
/// in, and the other way round.
pub proof fn lemma_requires_extends(old: AnalysisDb, new: AnalysisDb, a: usize, b: usize)
    requires
        old.wf(),
        new.extends(old),
    ensures
        requires_trait(new, a, b) == requires_trait(old, a, b),
{
    if requires_trait(old, a, b) {
        let chain = choose|chain: Seq<usize>| #[trigger]
            is_chain(old, chain) && chain[0] == a && chain.last() == b;
        lemma_chain_extends(old, new, chain);
    }
    if requires_trait(new, a, b) {
        let chain = choose|chain: Seq<usize>| #[trigger]
            is_chain(new, chain) && chain[0] == a && chain.last() == b;
        lemma_chain_extends(old, new, chain);
    }
}

/// The super traits of a trait are the same in a database that extends the
/// one they were computed in.
pub proof fn lemma_super_traits_extends(old: AnalysisDb, new: AnalysisDb, def: TraitDef)
    requires
        old.wf(),
        new.extends(old),
        old.has_trait(def),
    ensures
        cycle_of(new, def) == cycle_of(old, def),
        super_traits_of(new, def) == super_traits_of(old, def),
{
    assert forall|u: usize| cycle_of(new, def).contains(u) == cycle_of(old, def).contains(u) by {
        lemma_requires_extends(old, new, def.0, u);
        lemma_requires_extends(old, new, u, def.0);
    }
    assert(cycle_of(new, def) =~= cycle_of(old, def));
    lemma_collected_extends(old, new, def, cycle_of(old, def));
}

// ----- searching the relation -----
/// Whether trait `w` is marked.
pub open spec fn is_marked(marks: Seq<bool>, w: usize) -> bool {
    w < marks.len() && marks[w as int]
}

/// The positions that are marked.
pub open spec fn marked_set(marks: Seq<bool>) -> Set<int> {
    Set::new(|i: int| 0 <= i < marks.len() && marks[i])
}

/// Every trait that `u` requires directly is marked.
pub open(crate) spec fn succ_marked(db: AnalysisDb, marks: Seq<bool>, u: usize) -> bool {
    forall|w: usize| #[trigger] requires_directly(db, u, w) ==> is_marked(marks, w)
}

/// No more positions are marked than there are.
proof fn lemma_marked_bound(marks: Seq<bool>)
    ensures
        marked_set(marks).finite(),
        marked_set(marks).len() <= marks.len(),
{
    lemma_int_range(0, marks.len() as int);
    assert(marked_set(marks).subset_of(set_int_range(0, marks.len() as int)));
    lemma_len_subset(marked_set(marks), set_int_range(0, marks.len() as int));
}

/// Marking a position that was not marked marks one more.
proof fn lemma_mark_one(marks: Seq<bool>, d: int)
    requires
        0 <= d < marks.len(),
        !marks[d],
    ensures
        marked_set(marks.update(d, true)).len() == marked_set(marks).len() + 1,
{
    lemma_marked_bound(marks);
    assert(marked_set(marks.update(d, true)) =~= marked_set(marks).insert(d));
}

/// Where the marks are closed under direct requirements and hold what
/// `start` requires directly, they hold everything that `start` requires.
proof fn lemma_closed_complete(
    db: AnalysisDb,
    marks: Seq<bool>,
    start: usize,
    chain: Seq<usize>,
    i: int,
)
    requires
        is_chain(db, chain),
        chain[0] == start,
        succ_marked(db, marks, start),
        forall|w: usize| #[trigger] is_marked(marks, w) ==> succ_marked(db, marks, w),
        1 <= i < chain.len(),
    ensures
        is_marked(marks, chain[i]),
    decreases i,
{
    if i == 1 {
        assert(requires_directly(db, chain[0], chain[1]));
    } else {
        lemma_closed_complete(db, marks, start, chain, i - 1);
        assert(requires_directly(db, chain[i - 1], chain[i - 1 + 1]));
    }
}

/// The traits that `def` requires directly, by number.
fn direct_super_defs(db: &AnalysisDb, def: TraitDef) -> (defs: Vec<usize>)
    requires
        db.wf(),
        db.has_trait(def),
    ensures
        defs@.len() == direct_supers(*db, def.0).len(),
        forall|i: int|
            0 <= i < defs@.len() ==> #[trigger] defs@[i] == db.inst_def(
                direct_supers(*db, def.0)[i],
            ).0 && defs@[i] < db.trait_count(),
{
    let collector = SuperTraitCollector::new(db, def, FxHashSet::default());
    let (insts, _) = collector.finalize();
    proof {
        lemma_collected_valid(*db, def, Set::empty());
        assert(insts@ == direct_supers(*db, def.0));
    }
    let mut defs: Vec<usize> = Vec::new();
    let mut i: usize = 0;
    while i < insts.len()
        invariant
            i <= insts@.len(),
            db.wf(),
            db.has_insts(insts@),
            insts@ == direct_supers(*db, def.0),
            defs@.len() == i,
            forall|k: int|
                0 <= k < i ==> #[trigger] defs@[k] == db.inst_def(insts@[k]).0 && defs@[k]
                    < db.trait_count(),
        decreases insts@.len() - i,
    {
        assert(db.has_inst(insts@[i as int]));
        let d = insts[i].def(db);
        defs.push(d.0);
        i += 1;
    }
    defs
}

/// Marks every trait that `u` requires directly, and puts those that were
/// not marked before on the stack.
fn mark_successors(db: &AnalysisDb, u: usize, marks: &mut Vec<bool>, stack: &mut Vec<usize>)
    requires
        db.wf(),
        db.has_trait(TraitDef(u)),
        old(marks)@.len() == db.trait_count(),
    ensures
        final(marks)@.len() == old(marks)@.len(),
        forall|w: usize| #[trigger] is_marked(old(marks)@, w) ==> is_marked(final(marks)@, w),
        succ_marked(*db, final(marks)@, u),
        is_prefix(old(stack)@, final(stack)@),
        forall|k: int|
            old(stack)@.len() <= k < final(stack)@.len() ==> is_marked(
                final(marks)@,
                #[trigger] final(stack)@[k],
            ),
        forall|w: usize|
            #[trigger] is_marked(final(marks)@, w) && !is_marked(old(marks)@, w)
                ==> requires_directly(*db, u, w) && final(stack)@.contains(w),
        marked_set(final(marks)@).len() - marked_set(old(marks)@).len() == final(stack)@.len() - old(
            stack,
        )@.len(),
{
    let succ = direct_super_defs(db, TraitDef(u));
    let mut i: usize = 0;
    while i < succ.len()
        invariant
            i <= succ@.len(),
            succ@.len() == direct_supers(*db, u).len(),
            forall|k: int|
                0 <= k < succ@.len() ==> #[trigger] succ@[k] == db.inst_def(
                    direct_supers(*db, u)[k],
                ).0 && succ@[k] < db.trait_count(),
            db.has_trait(TraitDef(u)),
            marks@.len() == old(marks)@.len(),
            marks@.len() == db.trait_count(),
            forall|w: usize| #[trigger] is_marked(old(marks)@, w) ==> is_marked(marks@, w),
            forall|k: int| 0 <= k < i ==> is_marked(marks@, #[trigger] succ@[k]),
            is_prefix(old(stack)@, stack@),
            forall|k: int|
                old(stack)@.len() <= k < stack@.len() ==> is_marked(marks@, #[trigger] stack@[k]),
            forall|w: usize|
                #[trigger] is_marked(marks@, w) && !is_marked(old(marks)@, w) ==> requires_directly(
                    *db,
                    u,
                    w,
                ) && stack@.contains(w),
            marked_set(marks@).len() - marked_set(old(marks)@).len() == stack@.len() - old(
                stack,
            )@.len(),
        decreases succ@.len() - i,
    {
        let d = succ[i];
        assert(d == db.inst_def(direct_supers(*db, u)[i as int]).0);
        if !marks[d] {
            let ghost before_marks = marks@;
            let ghost before_stack = stack@;
            proof {
                lemma_mark_one(marks@, d as int);
                assert(requires_directly(*db, u, d));
            }
            marks.set(d, true);
            stack.push(d);
            proof {
                assert(stack@[stack@.len() - 1] == d);
                assert forall|w: usize| #[trigger]
                    is_marked(marks@, w) && !is_marked(old(marks)@, w) implies requires_directly(
                    *db,
                    u,
                    w,
                ) && stack@.contains(w) by {
                    if w != d {
                        assert(is_marked(before_marks, w));
                        assert(before_stack.contains(w));
                        let k = choose|k: int| 0 <= k < before_stack.len() && before_stack[k] == w;
                        assert(stack@[k] == w);
                    }
                }
                assert forall|k: int| 0 <= k < i + 1 implies is_marked(
                    marks@,
                    #[trigger] succ@[k],
                ) by {
                    if k < i {
                        assert(is_marked(before_marks, succ@[k]));
                    }
                }
                assert forall|k: int| old(stack)@.len() <= k < stack@.len() implies is_marked(
                    marks@,
                    #[trigger] stack@[k],
                ) by {
                    if k < before_stack.len() {
                        assert(is_marked(before_marks, before_stack[k]));
                    }
                }
            }
        }
        i += 1;
    }
    proof {
        assert forall|w: usize| #[trigger] requires_directly(*db, u, w) implies is_marked(
            marks@,
            w,
        ) by {
            let k = choose|k: int|
                0 <= k < direct_supers(*db, u).len() && db.inst_def(
                    #[trigger] direct_supers(*db, u)[k],
                ).0 == w;
            assert(succ@[k] == w);
        }
    }
}

/// Marks the traits that `start` requires, directly or through other
/// traits.
pub fn reachable_from(db: &AnalysisDb, start: TraitDef) -> (marks: Vec<bool>)
    requires
        db.wf(),
        db.has_trait(start),
    ensures
        marks@.len() == db.trait_count(),
        forall|u: usize| #[trigger] is_marked(marks@, u) == requires_trait(*db, start.0, u),
{
    let n = db.num_traits();
    let mut marks: Vec<bool> = Vec::new();
    let mut k: usize = 0;
    while k < n
        invariant
            k <= n,
            marks@.len() == k,
            forall|j: int| 0 <= j < marks@.len() ==> !marks@[j],
        decreases n - k,
    {
        marks.push(false);
        k += 1;
    }
    let mut stack: Vec<usize> = Vec::new();
    mark_successors(db, start.0, &mut marks, &mut stack);
    proof {
        lemma_marked_bound(marks@);
        assert forall|w: usize| #[trigger] is_marked(marks@, w) implies requires_trait(
            *db,
            start.0,
            w,
        ) by {
            lemma_requires_direct(*db, start.0, w);
        }
        assert forall|j: int| 0 <= j < stack@.len() implies is_marked(
            marks@,
            #[trigger] stack@[j],
        ) by {}
    }
    while stack.len() > 0
        invariant
            db.wf(),
            db.has_trait(start),
            marks@.len() == db.trait_count(),
            forall|w: usize| #[trigger] is_marked(marks@, w) ==> requires_trait(*db, start.0, w),
            forall|j: int| 0 <= j < stack@.len() ==> is_marked(marks@, #[trigger] stack@[j]),
            forall|w: usize|
                #[trigger] is_marked(marks@, w) ==> stack@.contains(w) || succ_marked(
                    *db,
                    marks@,
                    w,
                ),
            succ_marked(*db, marks@, start.0),
            marked_set(marks@).finite(),
            marked_set(marks@).len() <= marks@.len(),
        decreases marks@.len() - marked_set(marks@).len() + stack@.len(),
    {
        let ghost marks0 = marks@;
        let ghost stack0 = stack@;
        let u = stack.pop().unwrap();
        let ghost popped = stack@;
        assert(is_marked(marks0, stack0[stack0.len() - 1]));
        mark_successors(db, u, &mut marks, &mut stack);
        proof {
            lemma_marked_bound(marks@);
            assert forall|w: usize| #[trigger] is_marked(marks@, w) implies requires_trait(
                *db,
                start.0,
                w,
            ) by {
                if !is_marked(marks0, w) {
                    lemma_requires_step(*db, start.0, u, w);
                }
            }
            assert forall|j: int| 0 <= j < stack@.len() implies is_marked(
                marks@,
                #[trigger] stack@[j],
            ) by {
                if j < popped.len() {
                    assert(stack@[j] == stack0[j]);
                    assert(is_marked(marks0, stack0[j]));
                }
            }
            assert forall|w: usize| #[trigger] is_marked(marks@, w) implies stack@.contains(w)
                || succ_marked(*db, marks@, w) by {
                if w == u {
                } else if is_marked(marks0, w) {
                    if stack0.contains(w) {
                        let j = choose|j: int| 0 <= j < stack0.len() && stack0[j] == w;
                        assert(j < popped.len());
                        assert(stack@[j] == w);
                    } else {
                        assert(succ_marked(*db, marks0, w));
                        assert forall|x: usize| #[trigger]
                            requires_directly(*db, w, x) implies is_marked(marks@, x) by {
                            assert(is_marked(marks0, x));
                        }
                    }
                }
            }
            assert forall|x: usize| #[trigger] requires_directly(*db, start.0, x) implies is_marked(
                marks@,
                x,
            ) by {
                assert(is_marked(marks0, x));
            }
        }
    }
    proof {
        assert forall|u: usize| #[trigger]
            is_marked(marks@, u) == requires_trait(*db, start.0, u) by {
            if requires_trait(*db, start.0, u) {
                let chain = choose|chain: Seq<usize>| #[trigger]
                    is_chain(*db, chain) && chain[0] == start.0 && chain.last() == u;
                assert forall|w: usize| #[trigger] is_marked(marks@, w) implies succ_marked(
                    *db,
                    marks@,
                    w,
                ) by {
                    assert(!stack@.contains(w));
                }
                lemma_closed_complete(*db, marks@, start.0, chain, chain.len() - 1);
            }
        }
    }
    marks
}

// ----- cycles -----
/// The traits that were found to require each other.
pub struct Cycle {
    participants: Vec<TraitDef>,
}

impl Cycle {
    /// The participants, in the order in which they were given.
    pub closed spec fn keys(self) -> Seq<TraitDef> {
        self.participants@
    }

    /// The participants as a set of trait numbers.
    pub open spec fn traits(self) -> Set<usize> {
        Set::new(|u: usize| self.keys().contains(TraitDef(u)))
    }

    /// A cycle of the given traits.
    pub fn new(participants: Vec<TraitDef>) -> (cycle: Cycle)
        ensures
            cycle.keys() == participants@,
    {
        Cycle { participants }
    }

    /// The traits that take part in the cycle.
    pub fn participant_keys(&self) -> (keys: &Vec<TraitDef>)
        ensures
            keys@ == self.keys(),
    {
        &self.participants
    }
}

/// Finds the traits that lie on a cycle with `def`, in rising order.
pub fn find_cycle(db: &AnalysisDb, def: TraitDef) -> (cycle: Cycle)
    requires
        db.wf(),
        db.has_trait(def),
    ensures
        cycle.traits() == cycle_of(*db, def),
        forall|i: int, j: int|
            0 <= i < j < cycle.keys().len() ==> (#[trigger] cycle.keys()[i]).0 < (
            #[trigger] cycle.keys()[j]).0,
{
    let n = db.num_traits();
    let forward = reachable_from(db, def);
    let mut participants: Vec<TraitDef> = Vec::new();
    let mut u: usize = 0;
    while u < n
        invariant
            u <= n,
            n == db.trait_count(),
            db.wf(),
            db.has_trait(def),
            forward@.len() == n,
            forall|w: usize| #[trigger] is_marked(forward@, w) == requires_trait(*db, def.0, w),
            forall|w: usize|
                #[trigger] participants@.contains(TraitDef(w)) <==> w < u && cycle_of(
                    *db,
                    def,
                ).contains(w),
            forall|k: int| 0 <= k < participants@.len() ==> (#[trigger] participants@[k]).0 < u,
            forall|i: int, j: int|
                0 <= i < j < participants@.len() ==> (#[trigger] participants@[i]).0 < (
                #[trigger] participants@[j]).0,
        decreases n - u,
    {
        let ghost before = participants@;
        let mut on_cycle = false;
        if forward[u] {
            let backward = reachable_from(db, TraitDef(u));
            on_cycle = backward[def.0];
            proof {
                assert(is_marked(forward@, u));
                assert(is_marked(backward@, def.0) == requires_trait(*db, u, def.0));
            }
        } else {
            assert(!is_marked(forward@, u));
        }
        if on_cycle {
            participants.push(TraitDef(u));
        }
        proof {
            assert(on_cycle == cycle_of(*db, def).contains(u));
            assert forall|w: usize| #[trigger]
                participants@.contains(TraitDef(w)) <==> w < u + 1 && cycle_of(*db, def).contains(
                    w,
                ) by {
                if participants@.contains(TraitDef(w)) {
                    let k = choose|k: int|
                        0 <= k < participants@.len() && participants@[k] == TraitDef(w);
                    if k < before.len() {
                        assert(before[k] == TraitDef(w));
                        assert(before.contains(TraitDef(w)));
                    }
                }
                if w < u + 1 && cycle_of(*db, def).contains(w) {
                    if w < u {
                        assert(before.contains(TraitDef(w)));
                        let k = choose|k: int| 0 <= k < before.len() && before[k] == TraitDef(w);
                        assert(participants@[k] == TraitDef(w));
                    } else {
                        assert(participants@[participants@.len() - 1] == TraitDef(w));
                    }
                }
            }
        }
        u += 1;
    }
    let cycle = Cycle::new(participants);
    proof {
        assert forall|w: usize| cycle.traits().contains(w) == cycle_of(*db, def).contains(w) by {
            if cycle_of(*db, def).contains(w) {
                assert(is_marked(forward@, w));
            }
        }
        assert(cycle.traits() =~= cycle_of(*db, def));
    }
    cycle
}

// ----- the two ways to the super traits of a trait -----
/// Collects the super traits of `trait_` when the traits of `cycle` are
/// known to lie on a cycle with it: a bound that names one of them is
/// reported and left out.
pub fn recover_collect_super_traits(db: &AnalysisDb, cycle: &Cycle, trait_: TraitDef) -> (result: (
    Vec<TraitInstId>,
    Vec<TyDiagCollection>,
))
    requires
        db.wf(),
        db.has_trait(trait_),
    ensures
        result.0@ == collected(*db, trait_, cycle.traits()).super_traits,
        result.1@ == collected(*db, trait_, cycle.traits()).diags,
{
    let keys = cycle.participant_keys();
    let mut participants: FxHashSet<usize> = FxHashSet::default();
    let mut i: usize = 0;
    while i < keys.len()
        invariant
            i <= keys@.len(),
            forall|u: usize|
                participants@.contains(u) <==> exists|k: int|
                    0 <= k < i && #[trigger] keys@[k] == TraitDef(u),
        decreases keys@.len() - i,
    {
        let ghost before = participants@;
        fx_set_insert(&mut participants, keys[i].0);
        proof {
            assert forall|u: usize|
                participants@.contains(u) <==> exists|k: int|
                    0 <= k < i + 1 && #[trigger] keys@[k] == TraitDef(u) by {
                if participants@.contains(u) {
                    if u == keys@[i as int].0 {
                        assert(keys@[i as int] == TraitDef(u));
                    } else {
                        assert(before.contains(u));
                        let k = choose|k: int| 0 <= k < i && #[trigger] keys@[k] == TraitDef(u);
                        assert(0 <= k < i + 1 && keys@[k] == TraitDef(u));
                    }
                }
                if exists|k: int| 0 <= k < i + 1 && #[trigger] keys@[k] == TraitDef(u) {
                    let k = choose|k: int| 0 <= k < i + 1 && #[trigger] keys@[k] == TraitDef(u);
                    if k < i {
                        assert(before.contains(u));
                    }
                }
            }
        }
        i += 1;
    }
    proof {
        assert forall|u: usize| participants@.contains(u) == cycle.traits().contains(u) by {
            if participants@.contains(u) {
                let k = choose|k: int| 0 <= k < i && #[trigger] keys@[k] == TraitDef(u);
                assert(keys@.contains(TraitDef(u)));
            }
            if cycle.traits().contains(u) {
                let k = choose|k: int| 0 <= k < keys@.len() && keys@[k] == TraitDef(u);
                assert(0 <= k < i && keys@[k] == TraitDef(u));
            }
        }
        assert(participants@ =~= cycle.traits());
    }
    let collector = SuperTraitCollector::new(db, trait_, participants);
    collector.finalize()
}

/// The super traits of `trait_`, in the order of their bounds, and the
/// diagnostics of its declaration. A bound that names a trait on a cycle
/// with `trait_` is reported and left out. The result is kept, so that it is
/// computed once for every trait.
pub fn collect_super_traits(db: &mut AnalysisDb, trait_: TraitDef) -> (result: (
    Vec<TraitInstId>,
    Vec<TyDiagCollection>,
))
    requires
        old(db).wf(),
        old(db).has_trait(trait_),
    ensures
        final(db).wf(),
        final(db).extends(*old(db)),
        final(db).same_interned(*old(db)),
        final(db).is_kept(trait_),
        result.0@ == super_traits_of(*old(db), trait_).super_traits,
        result.1@ == super_traits_of(*old(db), trait_).diags,
{
    match db.kept_super_traits(trait_) {
        Some(result) => {
            return result;
        },
        None => {},
    }
    let result = compute_super_traits(db, trait_);
    db.keep_super_traits(trait_, copy_vec(&result.0), copy_vec(&result.1));
    result
}

/// The super traits of `trait_`, computed anew: first without a known
/// cycle, then, where `trait_` turns out to lie on a cycle, once more with
/// the traits of that cycle known.
pub fn compute_super_traits(db: &AnalysisDb, trait_: TraitDef) -> (result: (
    Vec<TraitInstId>,
    Vec<TyDiagCollection>,
))
    requires
        db.wf(),
        db.has_trait(trait_),
    ensures
        result.0@ == super_traits_of(*db, trait_).super_traits,
        result.1@ == super_traits_of(*db, trait_).diags,
{
    let collector = SuperTraitCollector::new(db, trait_, FxHashSet::default());
    let (insts, diags) = collector.finalize();
    // Check for cycles.
    let cycle = find_cycle(db, trait_);
    if cycle.participant_keys().len() == 0 {
        proof {
            assert(cycle.traits() =~= Set::<usize>::empty());
        }
        return (insts, diags);
    }
    recover_collect_super_traits(db, &cycle, trait_)
}

} // verus!
