use rustc_hash::FxHashSet;
use trait_constraint::collector::SuperTraitCollector;
use trait_constraint::db::AnalysisDb;
use trait_constraint::decl::{ItemKind, TraitDecl, TraitRef, TypeBound, TypeKind, WherePredicate};
use trait_constraint::diag::{TraitLowerDiag, TyDiagCollection, TyLowerDiag};
use trait_constraint::ids::{Span, TraitDef, TraitInstId};
use trait_constraint::super_traits::{
    collect_super_traits, compute_super_traits, find_cycle, reachable_from,
    recover_collect_super_traits, Cycle,
};
use trait_constraint::ty::TyData;
use trait_constraint::ids::TyId;

fn span(at: u64) -> Span {
    Span { file: 7, start: at, end: at + 1 }
}

fn cyclic(at: u64) -> TyDiagCollection {
    TyDiagCollection::TraitLower(TraitLowerDiag::CyclicSuperTraits(span(at)))
}

fn trait_ref(lowered: Option<TraitInstId>, at: u64) -> TypeBound {
    TypeBound::Trait(TraitRef { span: span(at), lowered, diags: vec![] })
}

fn self_bound(bounds: Vec<TypeBound>) -> WherePredicate {
    WherePredicate { ty: Some(TypeKind::SelfType(0)), bounds }
}

fn decl(where_clause: Vec<WherePredicate>) -> TraitDecl {
    TraitDecl { where_clause, items: vec![] }
}

/// Declares `n` traits without parameters and one instance of each.
fn traits(db: &mut AnalysisDb, n: usize) -> (Vec<TraitDef>, Vec<TraitInstId>) {
    let mut defs = vec![];
    let mut insts = vec![];
    for _ in 0..n {
        let def = TraitDef::new(db, vec![]);
        defs.push(def);
        insts.push(TraitInstId::new(db, def, vec![]));
    }
    (defs, insts)
}

/// Gives trait `from` one bound `Self: to` for each of `to`, the `k`-th at
/// place `10 * from + k`.
fn require(db: &mut AnalysisDb, defs: &[TraitDef], insts: &[TraitInstId], from: usize, to: &[usize]) {
    let bounds = to
        .iter()
        .enumerate()
        .map(|(k, t)| trait_ref(Some(insts[*t]), (10 * from + k) as u64))
        .collect();
    let d = decl(vec![self_bound(bounds)]);
    assert!(db.is_decl_ok(&d));
    defs[from].set_decl(db, d);
}

#[test]
fn trait_without_bounds_has_no_super_traits() {
    let mut db = AnalysisDb::new();
    let (defs, _) = traits(&mut db, 1);
    assert_eq!(collect_super_traits(&mut db, defs[0]), (vec![], vec![]));
}

#[test]
fn super_trait_of_a_trait_that_has_none() {
    let mut db = AnalysisDb::new();
    let (defs, insts) = traits(&mut db, 2);
    require(&mut db, &defs, &insts, 0, &[1]);
    assert_eq!(collect_super_traits(&mut db, defs[0]), (vec![insts[1]], vec![]));
    assert_eq!(collect_super_traits(&mut db, defs[1]), (vec![], vec![]));
}

#[test]
fn two_traits_that_require_each_other() {
    let mut db = AnalysisDb::new();
    let (defs, insts) = traits(&mut db, 2);
    require(&mut db, &defs, &insts, 0, &[1]);
    require(&mut db, &defs, &insts, 1, &[0]);
    assert_eq!(collect_super_traits(&mut db, defs[0]), (vec![], vec![cyclic(0)]));
    assert_eq!(collect_super_traits(&mut db, defs[1]), (vec![], vec![cyclic(10)]));
}

#[test]
fn trait_that_requires_itself() {
    let mut db = AnalysisDb::new();
    let (defs, insts) = traits(&mut db, 1);
    require(&mut db, &defs, &insts, 0, &[0]);
    assert_eq!(collect_super_traits(&mut db, defs[0]), (vec![], vec![cyclic(0)]));
}

#[test]
fn trait_that_leads_into_a_cycle_keeps_its_super_trait() {
    let mut db = AnalysisDb::new();
    let (defs, insts) = traits(&mut db, 3);
    require(&mut db, &defs, &insts, 0, &[1]);
    require(&mut db, &defs, &insts, 1, &[2]);
    require(&mut db, &defs, &insts, 2, &[1]);
    assert_eq!(collect_super_traits(&mut db, defs[0]), (vec![insts[1]], vec![]));
    assert_eq!(collect_super_traits(&mut db, defs[1]), (vec![], vec![cyclic(10)]));
    assert_eq!(collect_super_traits(&mut db, defs[2]), (vec![], vec![cyclic(20)]));
}

#[test]
fn trait_on_two_cycles_reports_both_bounds() {
    let mut db = AnalysisDb::new();
    let (defs, insts) = traits(&mut db, 4);
    require(&mut db, &defs, &insts, 0, &[1, 3, 2]);
    require(&mut db, &defs, &insts, 1, &[0]);
    require(&mut db, &defs, &insts, 2, &[0]);
    // Trait 3 requires nothing, so it stays a super trait of trait 0.
    assert_eq!(
        collect_super_traits(&mut db, defs[0]),
        (vec![insts[3]], vec![cyclic(0), cyclic(2)])
    );
    // Traits 1 and 2 lie on one cycle through trait 0.
    assert_eq!(collect_super_traits(&mut db, defs[1]), (vec![], vec![cyclic(10)]));
    assert_eq!(collect_super_traits(&mut db, defs[2]), (vec![], vec![cyclic(20)]));
}

#[test]
fn long_cycle_is_cut_at_every_trait() {
    let mut db = AnalysisDb::new();
    let (defs, insts) = traits(&mut db, 5);
    for t in 0..5 {
        require(&mut db, &defs, &insts, t, &[(t + 1) % 5]);
    }
    for t in 0..5 {
        assert_eq!(
            collect_super_traits(&mut db, defs[t]),
            (vec![], vec![cyclic(10 * t as u64)])
        );
    }
}

#[test]
fn super_traits_come_in_the_order_of_their_bounds() {
    let mut db = AnalysisDb::new();
    let (defs, insts) = traits(&mut db, 4);
    let d = decl(vec![
        self_bound(vec![trait_ref(Some(insts[3]), 0), trait_ref(Some(insts[1]), 1)]),
        self_bound(vec![trait_ref(Some(insts[2]), 2), trait_ref(Some(insts[1]), 3)]),
    ]);
    defs[0].set_decl(&mut db, d);
    assert_eq!(
        collect_super_traits(&mut db, defs[0]),
        (vec![insts[3], insts[1], insts[2], insts[1]], vec![])
    );
}

#[test]
fn reference_that_failed_to_resolve_brings_only_its_diagnostics() {
    let mut db = AnalysisDb::new();
    let (defs, insts) = traits(&mut db, 2);
    let unresolved = TyDiagCollection::Ty(TyLowerDiag { code: 404, span: span(3) });
    let arity = TyDiagCollection::Ty(TyLowerDiag { code: 9, span: span(4) });
    let failed = TypeBound::Trait(TraitRef {
        span: span(3),
        lowered: None,
        diags: vec![unresolved, arity],
    });
    // A reference that resolved but was reported on is left out as well,
    // even where it names the trait itself.
    let reported = TypeBound::Trait(TraitRef {
        span: span(5),
        lowered: Some(insts[0]),
        diags: vec![arity],
    });
    let d = decl(vec![self_bound(vec![failed, trait_ref(Some(insts[1]), 6), reported])]);
    defs[0].set_decl(&mut db, d);
    assert_eq!(
        collect_super_traits(&mut db, defs[0]),
        (vec![insts[1]], vec![unresolved, arity, arity])
    );
}

#[test]
fn reference_that_resolved_to_nothing_is_passed_over() {
    let mut db = AnalysisDb::new();
    let (defs, insts) = traits(&mut db, 2);
    let d = decl(vec![self_bound(vec![trait_ref(None, 0), trait_ref(Some(insts[1]), 1)])]);
    defs[0].set_decl(&mut db, d);
    assert_eq!(collect_super_traits(&mut db, defs[0]), (vec![insts[1]], vec![]));
}

#[test]
fn only_bounds_on_bare_self_name_super_traits() {
    let mut db = AnalysisDb::new();
    let (defs, insts) = traits(&mut db, 5);
    let d = TraitDecl {
        where_clause: vec![
            WherePredicate { ty: Some(TypeKind::Other), bounds: vec![trait_ref(Some(insts[1]), 0)] },
            WherePredicate {
                ty: Some(TypeKind::SelfType(1)),
                bounds: vec![trait_ref(Some(insts[2]), 1)],
            },
            WherePredicate { ty: None, bounds: vec![trait_ref(Some(insts[3]), 2)] },
            self_bound(vec![TypeBound::Kind, trait_ref(Some(insts[4]), 3), TypeBound::Kind]),
        ],
        items: vec![ItemKind { where_clause: vec![self_bound(vec![trait_ref(Some(insts[1]), 4)])] }],
    };
    defs[0].set_decl(&mut db, d);
    assert_eq!(collect_super_traits(&mut db, defs[0]), (vec![insts[4]], vec![]));
}

#[test]
fn ignored_bounds_close_no_cycle() {
    let mut db = AnalysisDb::new();
    let (defs, insts) = traits(&mut db, 2);
    require(&mut db, &defs, &insts, 0, &[1]);
    // Trait 1 names trait 0 only in a bound on another type.
    let d = decl(vec![WherePredicate {
        ty: Some(TypeKind::Other),
        bounds: vec![trait_ref(Some(insts[0]), 10)],
    }]);
    defs[1].set_decl(&mut db, d);
    assert_eq!(collect_super_traits(&mut db, defs[0]), (vec![insts[1]], vec![]));
    assert_eq!(collect_super_traits(&mut db, defs[1]), (vec![], vec![]));
}

#[test]
fn asking_again_gives_the_same_answer() {
    let mut db = AnalysisDb::new();
    let (defs, insts) = traits(&mut db, 3);
    require(&mut db, &defs, &insts, 0, &[1, 2]);
    require(&mut db, &defs, &insts, 2, &[0]);
    let first = collect_super_traits(&mut db, defs[0]);
    assert_eq!(first, (vec![insts[1]], vec![cyclic(1)]));
    let second = collect_super_traits(&mut db, defs[0]);
    assert_eq!(first, second);
    // Interning more changes nothing.
    let int = TyId::new(&mut db, TyData::Base(1));
    TraitInstId::new(&mut db, defs[1], vec![int]);
    assert_eq!(collect_super_traits(&mut db, defs[0]), first);
    // The result that is kept is the result that is computed.
    assert_eq!(compute_super_traits(&db, defs[0]), first);
}

#[test]
fn changed_declaration_is_walked_anew() {
    let mut db = AnalysisDb::new();
    let (defs, insts) = traits(&mut db, 2);
    require(&mut db, &defs, &insts, 0, &[1]);
    assert_eq!(collect_super_traits(&mut db, defs[0]), (vec![insts[1]], vec![]));
    require(&mut db, &defs, &insts, 1, &[0]);
    assert_eq!(collect_super_traits(&mut db, defs[0]), (vec![], vec![cyclic(0)]));
    defs[1].set_decl(&mut db, TraitDecl::empty());
    assert_eq!(collect_super_traits(&mut db, defs[0]), (vec![insts[1]], vec![]));
    // A trait that is declared later is asked about like any other.
    let late = TraitDef::new(&mut db, vec![]);
    assert_eq!(late, TraitDef(2));
    assert_eq!(collect_super_traits(&mut db, late), (vec![], vec![]));
    assert_eq!(collect_super_traits(&mut db, defs[0]), (vec![insts[1]], vec![]));
}

#[test]
fn recovery_reports_the_bounds_that_name_a_participant() {
    let mut db = AnalysisDb::new();
    let (defs, insts) = traits(&mut db, 4);
    require(&mut db, &defs, &insts, 0, &[1, 2, 3]);
    let none = Cycle::new(vec![]);
    assert_eq!(
        recover_collect_super_traits(&db, &none, defs[0]),
        (vec![insts[1], insts[2], insts[3]], vec![])
    );
    let some = Cycle::new(vec![defs[3], defs[1], defs[3]]);
    assert_eq!(some.participant_keys(), &vec![defs[3], defs[1], defs[3]]);
    assert_eq!(
        recover_collect_super_traits(&db, &some, defs[0]),
        (vec![insts[2]], vec![cyclic(0), cyclic(2)])
    );
    // A participant that no bound names changes nothing.
    let other = Cycle::new(vec![defs[0]]);
    assert_eq!(
        recover_collect_super_traits(&db, &other, defs[0]),
        (vec![insts[1], insts[2], insts[3]], vec![])
    );
}

#[test]
fn collector_walks_with_a_given_cycle() {
    let mut db = AnalysisDb::new();
    let (defs, insts) = traits(&mut db, 3);
    require(&mut db, &defs, &insts, 0, &[2, 1]);
    let mut cycle = FxHashSet::default();
    cycle.insert(2usize);
    let collector = SuperTraitCollector::new(&db, defs[0], cycle);
    assert_eq!(collector.finalize(), (vec![insts[1]], vec![cyclic(0)]));
}

#[test]
fn collector_takes_in_one_node_at_a_time() {
    let mut db = AnalysisDb::new();
    let (defs, insts) = traits(&mut db, 3);
    // The declaration of trait 0 stays empty: what is visited by hand is
    // all that is collected.
    let mut cycle = FxHashSet::default();
    cycle.insert(1usize);
    let mut collector = SuperTraitCollector::new(&db, defs[0], cycle);
    let clean = TraitRef { span: span(1), lowered: Some(insts[2]), diags: vec![] };
    let on_cycle = TraitRef { span: span(2), lowered: Some(insts[1]), diags: vec![] };
    collector.visit_trait_ref(&clean);
    collector.visit_trait_ref(&on_cycle);
    collector.visit_item(&ItemKind { where_clause: vec![self_bound(vec![trait_ref(Some(insts[2]), 3)])] });
    collector.visit_where_predicate(&WherePredicate {
        ty: Some(TypeKind::Other),
        bounds: vec![trait_ref(Some(insts[2]), 4)],
    });
    collector.visit_where_predicate(&self_bound(vec![
        trait_ref(Some(insts[0]), 5),
        trait_ref(Some(insts[1]), 6),
    ]));
    assert_eq!(
        collector.finalize(),
        (vec![insts[2], insts[0]], vec![cyclic(2), cyclic(6)])
    );
}

#[test]
fn walk_adds_to_what_was_visited_before() {
    let mut db = AnalysisDb::new();
    let (defs, insts) = traits(&mut db, 3);
    require(&mut db, &defs, &insts, 0, &[1, 2]);
    let mut cycle = FxHashSet::default();
    cycle.insert(2usize);
    let mut collector = SuperTraitCollector::new(&db, defs[0], cycle);
    collector.visit_trait_ref(&TraitRef { span: span(7), lowered: Some(insts[2]), diags: vec![] });
    collector.visit_trait_ref(&TraitRef { span: span(8), lowered: Some(insts[0]), diags: vec![] });
    assert_eq!(
        collector.finalize(),
        (vec![insts[0], insts[1]], vec![cyclic(7), cyclic(1)])
    );
}


#[test]
fn reachable_traits_are_marked() {
    let mut db = AnalysisDb::new();
    let (defs, insts) = traits(&mut db, 5);
    require(&mut db, &defs, &insts, 0, &[1]);
    require(&mut db, &defs, &insts, 1, &[2, 1]);
    require(&mut db, &defs, &insts, 3, &[0]);
    assert_eq!(reachable_from(&db, defs[0]), vec![false, true, true, false, false]);
    assert_eq!(reachable_from(&db, defs[1]), vec![false, true, true, false, false]);
    assert_eq!(reachable_from(&db, defs[2]), vec![false, false, false, false, false]);
    assert_eq!(reachable_from(&db, defs[3]), vec![true, true, true, false, false]);
    assert_eq!(reachable_from(&db, defs[4]), vec![false; 5]);
}

#[test]
fn cycle_holds_the_traits_that_require_each_other() {
    let mut db = AnalysisDb::new();
    let (defs, insts) = traits(&mut db, 5);
    require(&mut db, &defs, &insts, 0, &[1]);
    require(&mut db, &defs, &insts, 1, &[2, 4]);
    require(&mut db, &defs, &insts, 2, &[1]);
    require(&mut db, &defs, &insts, 3, &[3]);
    assert_eq!(find_cycle(&db, defs[0]).participant_keys(), &Vec::<TraitDef>::new());
    assert_eq!(find_cycle(&db, defs[1]).participant_keys(), &vec![defs[1], defs[2]]);
    assert_eq!(find_cycle(&db, defs[2]).participant_keys(), &vec![defs[1], defs[2]]);
    assert_eq!(find_cycle(&db, defs[3]).participant_keys(), &vec![defs[3]]);
    assert_eq!(find_cycle(&db, defs[4]).participant_keys(), &Vec::<TraitDef>::new());
}

#[test]
fn no_trait_is_left_among_its_own_super_traits() {
    // Two loops that share trait 0, and a tail that leads into them.
    let mut db = AnalysisDb::new();
    let (defs, insts) = traits(&mut db, 6);
    require(&mut db, &defs, &insts, 0, &[1, 3]);
    require(&mut db, &defs, &insts, 1, &[2]);
    require(&mut db, &defs, &insts, 2, &[0]);
    require(&mut db, &defs, &insts, 3, &[0, 4]);
    require(&mut db, &defs, &insts, 5, &[0, 4]);
    let n = defs.len();
    let mut supers = vec![];
    for t in 0..n {
        let (kept, _) = collect_super_traits(&mut db, defs[t]);
        supers.push(kept.iter().map(|inst| inst.def(&db).0).collect::<Vec<_>>());
    }
    assert_eq!(supers, vec![vec![], vec![], vec![], vec![4], vec![], vec![0, 4]]);
    // Follow the super traits from every trait: none comes back to itself.
    for start in 0..n {
        let mut seen = vec![false; n];
        let mut pending = supers[start].clone();
        while let Some(t) = pending.pop() {
            assert_ne!(t, start);
            if !seen[t] {
                seen[t] = true;
                pending.extend(supers[t].iter().copied());
            }
        }
    }
}

#[test]
fn diagnostics_tell_their_kind_and_place() {
    let d = cyclic(5);
    assert!(d.is_cyclic_super_traits());
    assert_eq!(d.span(), span(5));
    let other = TyDiagCollection::Ty(TyLowerDiag { code: 1, span: span(8) });
    assert!(!other.is_cyclic_super_traits());
    assert_eq!(other.span(), span(8));
}

#[test]
fn declarations_are_checked_against_the_database() {
    let mut db = AnalysisDb::new();
    let (defs, insts) = traits(&mut db, 1);
    assert!(db.is_trait(defs[0]));
    assert!(!db.is_trait(TraitDef(1)));
    assert_eq!(db.num_traits(), 1);
    assert!(db.is_inst(insts[0]));
    assert!(!db.is_inst(TraitInstId(1)));
    assert!(db.is_decl_ok(&decl(vec![self_bound(vec![trait_ref(Some(insts[0]), 0)])])));
    assert!(db.is_decl_ok(&decl(vec![self_bound(vec![trait_ref(None, 0), TypeBound::Kind])])));
    assert!(!db.is_decl_ok(&decl(vec![
        self_bound(vec![]),
        self_bound(vec![trait_ref(Some(insts[0]), 0), trait_ref(Some(TraitInstId(9)), 1)]),
    ])));
    assert_eq!(defs[0].params(&db), &Vec::<TyId>::new());
    assert_eq!(defs[0].decl(&db).where_clause.len(), 0);
}
