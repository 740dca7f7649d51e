use trait_constraint::assumptions::super_trait_insts;
use trait_constraint::db::AnalysisDb;
use trait_constraint::decl::{TraitDecl, TraitRef, TypeBound, TypeKind, WherePredicate};
use trait_constraint::ids::{PredicateId, Span, TraitDef, TraitInstId, TyId};
use trait_constraint::subst::{Subst, SubstTable};
use trait_constraint::ty::{copy_vec, ty_vec_eq, TyData};

fn base(db: &mut AnalysisDb, n: u64) -> TyId {
    TyId::new(db, TyData::Base(n))
}

fn param(db: &mut AnalysisDb, n: u64) -> TyId {
    TyId::new(db, TyData::Param(n))
}

fn app(db: &mut AnalysisDb, l: TyId, r: TyId) -> TyId {
    TyId::new(db, TyData::App(l, r))
}

fn self_requires(db: &mut AnalysisDb, def: TraitDef, supers: &[TraitInstId]) {
    let bounds = supers
        .iter()
        .enumerate()
        .map(|(k, inst)| {
            TypeBound::Trait(TraitRef {
                span: Span { file: 0, start: k as u64, end: k as u64 + 1 },
                lowered: Some(*inst),
                diags: vec![],
            })
        })
        .collect();
    let decl = TraitDecl {
        where_clause: vec![WherePredicate { ty: Some(TypeKind::SelfType(0)), bounds }],
        items: vec![],
    };
    def.set_decl(db, decl);
}

#[test]
fn same_type_node_has_one_handle() {
    let mut db = AnalysisDb::new();
    let int = base(&mut db, 1);
    let x = param(&mut db, 1);
    assert_ne!(int, x);
    assert_eq!(base(&mut db, 1), int);
    assert_eq!(param(&mut db, 1), x);
    let vec_int = app(&mut db, x, int);
    assert_eq!(app(&mut db, x, int), vec_int);
    assert_ne!(app(&mut db, int, x), vec_int);
    assert_eq!(vec_int.data(&db), TyData::App(x, int));
    assert_eq!(int.data(&db), TyData::Base(1));
    assert!(db.is_ty(vec_int));
    assert!(!db.is_ty(TyId(100)));
    assert!(db.are_tys(&vec![int, x, vec_int]));
    assert!(!db.are_tys(&vec![int, TyId(100)]));
}

#[test]
fn same_trait_instance_has_one_handle() {
    let mut db = AnalysisDb::new();
    let int = base(&mut db, 1);
    let bool_ = base(&mut db, 2);
    let a = TraitDef::new(&mut db, vec![]);
    let b = TraitDef::new(&mut db, vec![]);
    let a_int = TraitInstId::new(&mut db, a, vec![int]);
    assert_eq!(TraitInstId::new(&mut db, a, vec![int]), a_int);
    assert_ne!(TraitInstId::new(&mut db, a, vec![bool_]), a_int);
    assert_ne!(TraitInstId::new(&mut db, b, vec![int]), a_int);
    assert_ne!(TraitInstId::new(&mut db, a, vec![]), a_int);
    assert_ne!(TraitInstId::new(&mut db, a, vec![int, int]), a_int);
    // Interning other things in between changes nothing.
    base(&mut db, 77);
    assert_eq!(TraitInstId::new(&mut db, a, vec![int]), a_int);
    assert_eq!(a_int.def(&db), a);
    assert_eq!(a_int.substs(&db), &vec![int]);
    assert!(db.are_insts(&vec![a_int]));
    assert!(!db.are_insts(&vec![a_int, TraitInstId(50)]));
}

#[test]
fn table_answers_what_was_put_in() {
    let mut table = SubstTable::new();
    assert_eq!(table.get(TyId(0)), None);
    table.insert(TyId(0), TyId(5));
    table.insert(TyId(2), TyId(2));
    assert_eq!(table.get(TyId(0)), Some(TyId(5)));
    assert_eq!(table.get(TyId(2)), Some(TyId(2)));
    assert_eq!(table.get(TyId(5)), None);
    table.insert(TyId(0), TyId(6));
    assert_eq!(table.get(TyId(0)), Some(TyId(6)));
}

#[test]
fn substitution_rewrites_a_type_part_by_part() {
    let mut db = AnalysisDb::new();
    let int = base(&mut db, 1);
    let list = base(&mut db, 2);
    let pair = base(&mut db, 3);
    let x = param(&mut db, 0);
    let y = param(&mut db, 1);
    let list_x = app(&mut db, list, x);
    let pair_x = app(&mut db, pair, x);
    let pair_x_y = app(&mut db, pair_x, y);
    let list_pair = app(&mut db, list, pair_x_y);
    let mut table = SubstTable::new();
    table.insert(x, int);
    table.insert(y, list_x);
    assert_eq!(x.apply_subst(&mut db, &mut table), int);
    assert_eq!(int.apply_subst(&mut db, &mut table), int);
    assert_eq!(list.apply_subst(&mut db, &mut table), list);
    let list_int = list_x.apply_subst(&mut db, &mut table);
    assert_eq!(list_int.data(&db), TyData::App(list, int));
    // `y` becomes `list<x>` as it stands: what is put in is not rewritten
    // again.
    let got = list_pair.apply_subst(&mut db, &mut table);
    let pair_int = app(&mut db, pair, int);
    let pair_int_list_x = app(&mut db, pair_int, list_x);
    assert_eq!(got.data(&db), TyData::App(list, pair_int_list_x));
    // A table without entries changes nothing and interns nothing.
    let mut empty = SubstTable::new();
    assert_eq!(list_pair.apply_subst(&mut db, &mut empty), list_pair);
}

#[test]
fn entry_for_a_whole_type_wins_over_its_parts() {
    let mut db = AnalysisDb::new();
    let int = base(&mut db, 1);
    let bool_ = base(&mut db, 2);
    let list = base(&mut db, 3);
    let x = param(&mut db, 0);
    let list_x = app(&mut db, list, x);
    let outer = app(&mut db, list, list_x);
    let mut table = SubstTable::new();
    table.insert(x, int);
    table.insert(list_x, bool_);
    let got = outer.apply_subst(&mut db, &mut table);
    assert_eq!(got.data(&db), TyData::App(list, bool_));
}

#[test]
fn substitution_rewrites_the_arguments_of_a_trait_instance() {
    let mut db = AnalysisDb::new();
    let int = base(&mut db, 1);
    let list = base(&mut db, 2);
    let x = param(&mut db, 0);
    let list_x = app(&mut db, list, x);
    let a = TraitDef::new(&mut db, vec![x]);
    let inst = TraitInstId::new(&mut db, a, vec![x, list_x, int]);
    let mut table = SubstTable::new();
    table.insert(x, int);
    let got = inst.apply_subst(&mut db, &mut table);
    let list_int = app(&mut db, list, int);
    assert_eq!(got.def(&db), a);
    assert_eq!(got.substs(&db), &vec![int, list_int, int]);
    assert_eq!(TraitInstId::new(&mut db, a, vec![int, list_int, int]), got);
}

#[test]
fn substitution_rewrites_both_sides_of_a_predicate() {
    let mut db = AnalysisDb::new();
    let int = base(&mut db, 1);
    let x = param(&mut db, 0);
    let y = param(&mut db, 1);
    let a = TraitDef::new(&mut db, vec![y]);
    let a_y = TraitInstId::new(&mut db, a, vec![y]);
    let pred = PredicateId::new(&mut db, x, a_y);
    let mut table = SubstTable::new();
    table.insert(x, int);
    table.insert(y, x);
    let got = pred.apply_subst(&mut db, &mut table);
    let a_x = TraitInstId::new(&mut db, a, vec![x]);
    assert_eq!(got.ty(&db), int);
    assert_eq!(got.trait_(&db), a_x);
    assert_eq!(PredicateId::new(&mut db, int, a_x), got);
    assert_ne!(got, pred);
    // Nothing to rewrite: the predicate itself comes back.
    let mut empty = SubstTable::new();
    assert_eq!(pred.apply_subst(&mut db, &mut empty), pred);
}

#[test]
fn instance_stands_for_parameters_mapped_to_arguments() {
    let mut db = AnalysisDb::new();
    let int = base(&mut db, 1);
    let bool_ = base(&mut db, 2);
    let x = param(&mut db, 0);
    let y = param(&mut db, 1);
    let a = TraitDef::new(&mut db, vec![x, y]);
    let full = TraitInstId::new(&mut db, a, vec![int, bool_]);
    let mut table = full.subst_table(&db);
    assert_eq!(table.get(x), Some(int));
    assert_eq!(table.get(y), Some(bool_));
    assert_eq!(table.get(int), None);
    // Too few arguments: the parameters without one stay.
    let short = TraitInstId::new(&mut db, a, vec![bool_]);
    let mut table = short.subst_table(&db);
    assert_eq!(table.get(x), Some(bool_));
    assert_eq!(table.get(y), None);
    // Too many arguments: the ones without a parameter play no part.
    let long = TraitInstId::new(&mut db, a, vec![int, int, bool_]);
    let mut table = long.subst_table(&db);
    assert_eq!(table.get(x), Some(int));
    assert_eq!(table.get(y), Some(int));
    assert_eq!(table.get(bool_), None);
}

#[test]
fn super_trait_of_an_instance_takes_its_argument() {
    let mut db = AnalysisDb::new();
    let int = base(&mut db, 1);
    let x = param(&mut db, 0);
    let a = TraitDef::new(&mut db, vec![x]);
    let b = TraitDef::new(&mut db, vec![x]);
    let b_x = TraitInstId::new(&mut db, b, vec![x]);
    self_requires(&mut db, a, &[b_x]);
    let a_int = TraitInstId::new(&mut db, a, vec![int]);
    let b_int = TraitInstId::new(&mut db, b, vec![int]);
    assert_eq!(super_trait_insts(&mut db, a_int), vec![b_int]);
    assert_eq!(super_trait_insts(&mut db, a_int), vec![b_int]);
    assert_eq!(super_trait_insts(&mut db, b_int), vec![]);
}

#[test]
fn super_traits_of_an_instance_keep_their_order_and_shape() {
    let mut db = AnalysisDb::new();
    let int = base(&mut db, 1);
    let bool_ = base(&mut db, 2);
    let list = base(&mut db, 3);
    let x = param(&mut db, 0);
    let y = param(&mut db, 1);
    let list_y = app(&mut db, list, y);
    let a = TraitDef::new(&mut db, vec![x, y]);
    let b = TraitDef::new(&mut db, vec![x]);
    let c = TraitDef::new(&mut db, vec![]);
    let b_list_y = TraitInstId::new(&mut db, b, vec![list_y]);
    let c_plain = TraitInstId::new(&mut db, c, vec![]);
    let b_x_int = TraitInstId::new(&mut db, b, vec![x, int]);
    self_requires(&mut db, a, &[b_list_y, c_plain, b_x_int]);
    let a_inst = TraitInstId::new(&mut db, a, vec![int, bool_]);
    let got = super_trait_insts(&mut db, a_inst);
    let list_bool = app(&mut db, list, bool_);
    let want = vec![
        TraitInstId::new(&mut db, b, vec![list_bool]),
        c_plain,
        TraitInstId::new(&mut db, b, vec![int, int]),
    ];
    assert_eq!(got, want);
}

#[test]
fn cyclic_super_trait_has_no_instance() {
    let mut db = AnalysisDb::new();
    let int = base(&mut db, 1);
    let x = param(&mut db, 0);
    let a = TraitDef::new(&mut db, vec![x]);
    let b = TraitDef::new(&mut db, vec![x]);
    let c = TraitDef::new(&mut db, vec![x]);
    let a_x = TraitInstId::new(&mut db, a, vec![x]);
    let b_x = TraitInstId::new(&mut db, b, vec![x]);
    let c_x = TraitInstId::new(&mut db, c, vec![x]);
    self_requires(&mut db, a, &[b_x, c_x]);
    self_requires(&mut db, b, &[a_x]);
    let a_int = TraitInstId::new(&mut db, a, vec![int]);
    let c_int = TraitInstId::new(&mut db, c, vec![int]);
    assert_eq!(super_trait_insts(&mut db, a_int), vec![c_int]);
}

#[test]
fn rewriting_before_or_after_taking_super_traits_is_the_same() {
    let mut db = AnalysisDb::new();
    let int = base(&mut db, 1);
    let list = base(&mut db, 2);
    let x = param(&mut db, 0);
    let y = param(&mut db, 1);
    let z = param(&mut db, 2);
    let list_x = app(&mut db, list, x);
    let list_z = app(&mut db, list, z);
    let a = TraitDef::new(&mut db, vec![x, y]);
    let b = TraitDef::new(&mut db, vec![x]);
    let b_list_x = TraitInstId::new(&mut db, b, vec![list_x, y]);
    let b_y = TraitInstId::new(&mut db, b, vec![y]);
    self_requires(&mut db, a, &[b_list_x, b_y]);
    // `a<z, list<z>>`, rewritten under `z := int`.
    let inst = TraitInstId::new(&mut db, a, vec![z, list_z]);
    let mut s = SubstTable::new();
    s.insert(z, int);
    let rewritten = inst.apply_subst(&mut db, &mut s);
    let after = super_trait_insts(&mut db, rewritten);
    let before = super_trait_insts(&mut db, inst);
    let mut each = vec![];
    for e in before {
        each.push(e.apply_subst(&mut db, &mut s));
    }
    assert_eq!(after, each);
    let list_int = app(&mut db, list, int);
    let want = vec![
        TraitInstId::new(&mut db, b, vec![list_int, list_int]),
        TraitInstId::new(&mut db, b, vec![list_int]),
    ];
    assert_eq!(after, want);
}

#[test]
fn lists_of_types_compare_and_copy_by_content() {
    let a = vec![TyId(1), TyId(2)];
    assert!(ty_vec_eq(&a, &vec![TyId(1), TyId(2)]));
    assert!(!ty_vec_eq(&a, &vec![TyId(1), TyId(3)]));
    assert!(!ty_vec_eq(&a, &vec![TyId(1)]));
    assert!(ty_vec_eq(&vec![], &vec![]));
    assert_eq!(copy_vec(&a), a);
    assert_eq!(copy_vec(&Vec::<TyId>::new()), vec![]);
}

#[test]
fn parameter_of_another_trait_is_rewritten_only_afterwards() {
    // The super trait of `a<x>` mentions `y`, which is no parameter of `a`.
    // Rewriting `y` reaches it in the super-trait instances of `a<int>`, but
    // not through `a<int>` itself.
    let mut db = AnalysisDb::new();
    let int = base(&mut db, 1);
    let bool_ = base(&mut db, 2);
    let x = param(&mut db, 0);
    let y = param(&mut db, 1);
    let a = TraitDef::new(&mut db, vec![x]);
    let b = TraitDef::new(&mut db, vec![x]);
    let b_y = TraitInstId::new(&mut db, b, vec![y]);
    self_requires(&mut db, a, &[b_y]);
    let a_int = TraitInstId::new(&mut db, a, vec![int]);
    let mut s = SubstTable::new();
    s.insert(y, bool_);
    let rewritten = a_int.apply_subst(&mut db, &mut s);
    assert_eq!(rewritten, a_int);
    assert_eq!(super_trait_insts(&mut db, rewritten), vec![b_y]);
    let mut each = vec![];
    for e in super_trait_insts(&mut db, a_int) {
        each.push(e.apply_subst(&mut db, &mut s));
    }
    assert_eq!(each, vec![TraitInstId::new(&mut db, b, vec![bool_])]);
}

#[test]
fn changed_declaration_changes_the_super_trait_instances() {
    let mut db = AnalysisDb::new();
    let int = base(&mut db, 1);
    let x = param(&mut db, 0);
    let a = TraitDef::new(&mut db, vec![x]);
    let b = TraitDef::new(&mut db, vec![x]);
    let c = TraitDef::new(&mut db, vec![x]);
    let b_x = TraitInstId::new(&mut db, b, vec![x]);
    let c_x = TraitInstId::new(&mut db, c, vec![x]);
    let a_int = TraitInstId::new(&mut db, a, vec![int]);
    let b_int = TraitInstId::new(&mut db, b, vec![int]);
    let c_int = TraitInstId::new(&mut db, c, vec![int]);
    self_requires(&mut db, a, &[b_x]);
    assert_eq!(super_trait_insts(&mut db, a_int), vec![b_int]);
    // Interning in between leaves what was found as it is.
    let late = TraitInstId::new(&mut db, c, vec![x, x]);
    assert_eq!(super_trait_insts(&mut db, late), vec![]);
    assert_eq!(super_trait_insts(&mut db, a_int), vec![b_int]);
    a.set_decl(&mut db, TraitDecl::empty());
    assert_eq!(super_trait_insts(&mut db, a_int), vec![]);
    self_requires(&mut db, a, &[c_x, b_x]);
    assert_eq!(super_trait_insts(&mut db, a_int), vec![c_int, b_int]);
    // A trait that is declared later closes a cycle through `b`.
    let d = TraitDef::new(&mut db, vec![]);
    let d_inst = TraitInstId::new(&mut db, d, vec![]);
    let a_x = TraitInstId::new(&mut db, a, vec![x]);
    self_requires(&mut db, b, &[d_inst]);
    self_requires(&mut db, d, &[a_x]);
    assert_eq!(super_trait_insts(&mut db, a_int), vec![c_int]);
}
