use trait_constraint::assumptions::compute_super_assumptions;
use trait_constraint::db::AnalysisDb;
use trait_constraint::decl::{TraitDecl, TraitRef, TypeBound, TypeKind, WherePredicate};
use trait_constraint::ids::{
    IngotId, PredicateId, PredicateListId, Span, TraitDef, TraitInstId, TyId,
};
use trait_constraint::predicate_map::{
    insert_inst, inst_vec_contains, inst_vec_eq, PredicateMap,
};
use trait_constraint::ty::TyData;

const INGOT: IngotId = IngotId(1);

struct World {
    db: AnalysisDb,
    tys: Vec<TyId>,
    defs: Vec<TraitDef>,
    insts: Vec<TraitInstId>,
}

/// Three types, and four traits without parameters with one instance each.
/// Trait 0 requires traits 1 and 2, trait 1 requires trait 3.
fn world() -> World {
    let mut db = AnalysisDb::new();
    let tys = (0..3).map(|n| TyId::new(&mut db, TyData::Base(n))).collect();
    let mut defs = vec![];
    let mut insts = vec![];
    for _ in 0..4 {
        let def = TraitDef::new(&mut db, vec![]);
        defs.push(def);
        insts.push(TraitInstId::new(&mut db, def, vec![]));
    }
    let mut w = World { db, tys, defs, insts };
    w.require(0, &[1, 2]);
    w.require(1, &[3]);
    w
}

impl World {
    fn require(&mut self, from: usize, to: &[usize]) {
        let bounds = to
            .iter()
            .map(|t| {
                TypeBound::Trait(TraitRef {
                    span: Span { file: 0, start: *t as u64, end: 0 },
                    lowered: Some(self.insts[*t]),
                    diags: vec![],
                })
            })
            .collect();
        let decl = TraitDecl {
            where_clause: vec![WherePredicate { ty: Some(TypeKind::SelfType(0)), bounds }],
            items: vec![],
        };
        self.defs[from].set_decl(&mut self.db, decl);
    }

    fn list(&mut self, pairs: &[(usize, usize)]) -> PredicateListId {
        let map = self.map(pairs);
        assert!(self.db.is_map_ok(&map));
        PredicateListId::new(&mut self.db, map, INGOT)
    }

    /// The map with `insts[i]` under `tys[t]` for each `(t, i)`.
    fn map(&self, pairs: &[(usize, usize)]) -> PredicateMap {
        let mut map = PredicateMap::new();
        for (t, i) in pairs {
            map.insert(self.tys[*t], self.insts[*i]);
        }
        map
    }
}

fn contents(map: &PredicateMap) -> Vec<(TyId, Vec<TraitInstId>)> {
    (0..map.len()).map(|i| (map.ty_at(i), map.insts_at(i).clone())).collect()
}

#[test]
fn map_keeps_keys_and_instances_in_rising_order() {
    let mut map = PredicateMap::new();
    assert_eq!(map.len(), 0);
    map.insert(TyId(5), TraitInstId(9));
    map.insert(TyId(2), TraitInstId(4));
    map.insert(TyId(5), TraitInstId(1));
    map.insert(TyId(8), TraitInstId(0));
    map.insert(TyId(5), TraitInstId(9));
    map.insert(TyId(5), TraitInstId(3));
    assert_eq!(
        contents(&map),
        vec![
            (TyId(2), vec![TraitInstId(4)]),
            (TyId(5), vec![TraitInstId(1), TraitInstId(3), TraitInstId(9)]),
            (TyId(8), vec![TraitInstId(0)]),
        ]
    );
    assert_eq!(map.find(TyId(5)), Some(1));
    assert_eq!(map.find(TyId(2)), Some(0));
    assert_eq!(map.find(TyId(8)), Some(2));
    assert_eq!(map.find(TyId(3)), None);
    assert_eq!(map.find(TyId(9)), None);
    assert!(map.contains(TyId(5), TraitInstId(3)));
    assert!(!map.contains(TyId(5), TraitInstId(4)));
    assert!(!map.contains(TyId(3), TraitInstId(4)));
    assert!(map.contains(TyId(8), TraitInstId(0)));
    assert_eq!(map.get(TyId(5)), Some(&vec![TraitInstId(1), TraitInstId(3), TraitInstId(9)]));
    assert_eq!(map.get(TyId(8)), Some(&vec![TraitInstId(0)]));
    assert_eq!(map.get(TyId(4)), None);
}

#[test]
fn maps_with_the_same_contents_are_stored_alike() {
    let mut a = PredicateMap::new();
    let mut b = PredicateMap::new();
    for (t, i) in [(1, 1), (3, 2), (1, 5), (2, 2)] {
        a.insert(TyId(t), TraitInstId(i));
    }
    for (t, i) in [(2, 2), (1, 5), (1, 1), (3, 2), (1, 5)] {
        b.insert(TyId(t), TraitInstId(i));
    }
    assert!(a.eq_map(&b));
    assert!(b.eq_map(&a));
    b.insert(TyId(3), TraitInstId(3));
    assert!(!a.eq_map(&b));
    let mut c = PredicateMap::new();
    assert!(!a.eq_map(&c));
    assert!(c.eq_map(&PredicateMap::new()));
    c.insert(TyId(1), TraitInstId(1));
    c.insert(TyId(1), TraitInstId(5));
    c.insert(TyId(2), TraitInstId(2));
    c.insert(TyId(4), TraitInstId(2));
    assert!(!a.eq_map(&c));
}

#[test]
fn rising_list_takes_each_instance_once() {
    let mut v = vec![];
    for n in [4, 1, 9, 4, 0, 9, 5] {
        insert_inst(&mut v, TraitInstId(n));
    }
    let want: Vec<_> = [0, 1, 4, 5, 9].into_iter().map(TraitInstId).collect();
    assert_eq!(v, want);
    assert!(inst_vec_contains(&v, TraitInstId(5)));
    assert!(!inst_vec_contains(&v, TraitInstId(2)));
    assert!(!inst_vec_contains(&vec![], TraitInstId(2)));
    assert!(inst_vec_eq(&v, &want));
    assert!(!inst_vec_eq(&v, &vec![]));
    assert!(!inst_vec_eq(&v, &vec![TraitInstId(0); 5]));
}

#[test]
fn same_predicate_has_one_handle() {
    let mut w = world();
    let p = PredicateId::new(&mut w.db, w.tys[0], w.insts[1]);
    assert_eq!(PredicateId::new(&mut w.db, w.tys[0], w.insts[1]), p);
    assert_ne!(PredicateId::new(&mut w.db, w.tys[1], w.insts[1]), p);
    assert_ne!(PredicateId::new(&mut w.db, w.tys[0], w.insts[0]), p);
    TyId::new(&mut w.db, TyData::Param(4));
    assert_eq!(PredicateId::new(&mut w.db, w.tys[0], w.insts[1]), p);
    assert_eq!(p.ty(&w.db), w.tys[0]);
    assert_eq!(p.trait_(&w.db), w.insts[1]);
    assert!(w.db.is_pred(p));
    assert!(!w.db.is_pred(PredicateId(17)));
}

#[test]
fn same_predicate_list_has_one_handle() {
    let mut w = world();
    let a = w.list(&[(0, 1), (2, 0), (0, 3)]);
    let b = w.list(&[(0, 3), (0, 1), (2, 0), (0, 1)]);
    assert_eq!(a, b);
    let other = w.list(&[(0, 3), (0, 1)]);
    assert_ne!(a, other);
    // The same map for another compilation unit is another list.
    let map = w.map(&[(0, 1), (2, 0), (0, 3)]);
    let elsewhere = PredicateListId::new(&mut w.db, map, IngotId(2));
    assert_ne!(a, elsewhere);
    assert_eq!(a.ingot(&w.db), INGOT);
    assert_eq!(elsewhere.ingot(&w.db), IngotId(2));
    assert_eq!(
        contents(a.predicates(&w.db)),
        vec![(w.tys[0], vec![w.insts[1], w.insts[3]]), (w.tys[2], vec![w.insts[0]])]
    );
    let empty = PredicateListId::new(&mut w.db, PredicateMap::new(), INGOT);
    assert_eq!(PredicateListId::new(&mut w.db, PredicateMap::new(), INGOT), empty);
    assert_ne!(empty, a);
    assert!(w.db.is_list(elsewhere));
    assert!(!w.db.is_list(PredicateListId(40)));
}

#[test]
fn list_satisfies_exactly_the_predicates_it_names() {
    let mut w = world();
    let list = w.list(&[(0, 1), (0, 2), (1, 3)]);
    for t in 0..3 {
        for i in 0..4 {
            let pred = PredicateId::new(&mut w.db, w.tys[t], w.insts[i]);
            let named = [(0, 1), (0, 2), (1, 3)].contains(&(t, i));
            assert_eq!(list.does_satisfy(&w.db, pred), named);
        }
    }
    let empty = PredicateListId::new(&mut w.db, PredicateMap::new(), INGOT);
    let pred = PredicateId::new(&mut w.db, w.tys[0], w.insts[1]);
    assert!(!empty.does_satisfy(&w.db, pred));
}

#[test]
fn list_names_no_super_trait_that_it_does_not_hold() {
    // Trait 0 requires trait 1, but a list that names trait 0 for a type
    // does not thereby name trait 1 for it: the match is exact.
    let mut w = world();
    let list = w.list(&[(0, 0)]);
    let held = PredicateId::new(&mut w.db, w.tys[0], w.insts[0]);
    let implied = PredicateId::new(&mut w.db, w.tys[0], w.insts[1]);
    assert!(list.does_satisfy(&w.db, held));
    assert!(!list.does_satisfy(&w.db, implied));
    // Neither does an instance of the same trait with other arguments.
    let other = TraitInstId::new(&mut w.db, w.defs[0], vec![w.tys[1]]);
    let near = PredicateId::new(&mut w.db, w.tys[0], other);
    assert!(!list.does_satisfy(&w.db, near));
}

#[test]
fn super_assumptions_of_one_assumption() {
    let mut w = world();
    let list = w.list(&[(1, 1)]);
    let supers = compute_super_assumptions(&mut w.db, list);
    assert_eq!(contents(supers.predicates(&w.db)), vec![(w.tys[1], vec![w.insts[3]])]);
    assert_eq!(supers.ingot(&w.db), INGOT);
    assert_eq!(supers, w.list(&[(1, 3)]));
}

#[test]
fn super_assumptions_go_one_level_up_for_every_type() {
    let mut w = world();
    let list = w.list(&[(0, 0), (0, 1), (1, 3), (2, 1), (2, 2)]);
    let supers = compute_super_assumptions(&mut w.db, list);
    assert_eq!(
        contents(supers.predicates(&w.db)),
        vec![
            // Traits 1 and 2 from trait 0, trait 3 from trait 1; not trait 3
            // from trait 0, which is two levels up.
            (w.tys[0], vec![w.insts[1], w.insts[2], w.insts[3]]),
            // Trait 3 requires nothing: the type stays, with nothing under it.
            (w.tys[1], vec![]),
            (w.tys[2], vec![w.insts[3]]),
        ]
    );
    // What is assumed is not among what follows from it.
    let held = PredicateId::new(&mut w.db, w.tys[0], w.insts[0]);
    let follows = PredicateId::new(&mut w.db, w.tys[0], w.insts[2]);
    assert!(list.does_satisfy(&w.db, held));
    assert!(!supers.does_satisfy(&w.db, held));
    assert!(supers.does_satisfy(&w.db, follows));
    assert!(!list.does_satisfy(&w.db, follows));
    // Asking again gives the same list.
    assert_eq!(compute_super_assumptions(&mut w.db, list), supers);
}

#[test]
fn super_assumptions_of_nothing_are_nothing() {
    let mut w = world();
    let empty = PredicateListId::new(&mut w.db, PredicateMap::new(), IngotId(6));
    let supers = compute_super_assumptions(&mut w.db, empty);
    assert_eq!(supers, empty);
    assert_eq!(supers.ingot(&w.db), IngotId(6));
}

#[test]
fn super_assumptions_put_in_the_arguments_and_leave_out_cycles() {
    let mut db = AnalysisDb::new();
    let int = TyId::new(&mut db, TyData::Base(1));
    let bool_ = TyId::new(&mut db, TyData::Base(2));
    let x = TyId::new(&mut db, TyData::Param(0));
    let a = TraitDef::new(&mut db, vec![x]);
    let b = TraitDef::new(&mut db, vec![x]);
    let c = TraitDef::new(&mut db, vec![x]);
    let a_x = TraitInstId::new(&mut db, a, vec![x]);
    let b_x = TraitInstId::new(&mut db, b, vec![x]);
    let c_x = TraitInstId::new(&mut db, c, vec![x]);
    let bound = |inst: TraitInstId| {
        TypeBound::Trait(TraitRef {
            span: Span { file: 0, start: 0, end: 0 },
            lowered: Some(inst),
            diags: vec![],
        })
    };
    let decl = |bounds: Vec<TypeBound>| TraitDecl {
        where_clause: vec![WherePredicate { ty: Some(TypeKind::SelfType(0)), bounds }],
        items: vec![],
    };
    a.set_decl(&mut db, decl(vec![bound(b_x), bound(c_x)]));
    c.set_decl(&mut db, decl(vec![bound(a_x)]));
    let a_int = TraitInstId::new(&mut db, a, vec![int]);
    let a_bool = TraitInstId::new(&mut db, a, vec![bool_]);
    let mut map = PredicateMap::new();
    map.insert(x, a_int);
    map.insert(x, a_bool);
    map.insert(int, a_int);
    let list = PredicateListId::new(&mut db, map, INGOT);
    let supers = compute_super_assumptions(&mut db, list);
    let b_int = TraitInstId::new(&mut db, b, vec![int]);
    let b_bool = TraitInstId::new(&mut db, b, vec![bool_]);
    let mut want = PredicateMap::new();
    want.insert(x, b_int);
    want.insert(x, b_bool);
    want.insert(int, b_int);
    assert!(supers.predicates(&db).eq_map(&want));
    assert_eq!(PredicateListId::new(&mut db, want, INGOT), supers);
}

#[test]
fn maps_are_checked_against_the_database() {
    let mut w = world();
    let good = w.map(&[(0, 1), (2, 3)]);
    assert!(w.db.is_map_ok(&good));
    assert!(w.db.is_map_ok(&PredicateMap::new()));
    let mut bad_key = PredicateMap::new();
    bad_key.insert(w.tys[0], w.insts[0]);
    bad_key.insert(TyId(99), w.insts[0]);
    assert!(!w.db.is_map_ok(&bad_key));
    let mut bad_inst = PredicateMap::new();
    bad_inst.insert(w.tys[0], w.insts[0]);
    bad_inst.insert(w.tys[0], TraitInstId(99));
    assert!(!w.db.is_map_ok(&bad_inst));
}
