//! Types as the analysis sees them: interned nodes, and the terms they
//! stand for.

use crate::ids::TyId;
use vstd::prelude::*;

verus! {

/// One node of an interned type.
#[derive(Clone, Copy, PartialEq, Eq, Structural, Debug, Hash)]
pub enum TyData {
    /// A nominal type or type constructor.
    Base(u64),
    /// A type parameter.
    Param(u64),
    /// A type applied to an argument.
    App(TyId, TyId),
}

/// The type that a `TyId` stands for, written out as a tree. Two handles of
/// one database stand for the same term only if they are the same handle.
pub enum Term {
    Base(u64),
    Param(u64),
    App(Box<Term>, Box<Term>),
}

/// `a` is an initial part of `b`.
pub open spec fn is_prefix<T>(a: Seq<T>, b: Seq<T>) -> bool {
    &&& a.len() <= b.len()
    &&& forall|i: int| 0 <= i < a.len() ==> a[i] == b[i]
}

/// The arguments of every application come before it, and no node occurs
/// twice.
pub open spec fn tys_wf(tys: Seq<TyData>) -> bool {
    &&& forall|i: int|
        0 <= i < tys.len() ==> (#[trigger] tys[i] matches TyData::App(l, r) ==> l.0 < i && r.0 < i)
    &&& forall|i: int, j: int| 0 <= i < j < tys.len() ==> #[trigger] tys[i] != #[trigger] tys[j]
}

/// The term of node `i`.
pub open spec fn term_at(tys: Seq<TyData>, i: int) -> Term
    decreases i,
{
    if 0 <= i < tys.len() {
        match tys[i] {
            TyData::Base(b) => Term::Base(b),
            TyData::Param(p) => Term::Param(p),
            TyData::App(l, r) => if l.0 < i && r.0 < i {
                Term::App(Box::new(term_at(tys, l.0 as int)), Box::new(term_at(tys, r.0 as int)))
            } else {
                Term::Base(0)
            },
        }
    } else {
        Term::Base(0)
    }
}

/// The terms of a list of nodes.
pub open spec fn terms_at(tys: Seq<TyData>, ids: Seq<TyId>) -> Seq<Term> {
    Seq::new(ids.len(), |k: int| term_at(tys, ids[k].0 as int))
}

/// Adding nodes leaves the terms of the earlier nodes as they were.
pub proof fn lemma_term_prefix(a: Seq<TyData>, b: Seq<TyData>, i: int)
    requires
        is_prefix(a, b),
        0 <= i < a.len(),
    ensures
        term_at(a, i) == term_at(b, i),
    decreases i,
{
    match a[i] {
        TyData::App(l, r) => {
            if l.0 < i && r.0 < i {
                lemma_term_prefix(a, b, l.0 as int);
                lemma_term_prefix(a, b, r.0 as int);
            }
        },
        _ => {},
    }
}

/// Different nodes stand for different terms.
pub proof fn lemma_term_injective(tys: Seq<TyData>, i: int, j: int)
    requires
        tys_wf(tys),
        0 <= i < tys.len(),
        0 <= j < tys.len(),
        term_at(tys, i) == term_at(tys, j),
    ensures
        i == j,
    decreases i,
{
    match tys[i] {
        TyData::App(l1, r1) => {
            match tys[j] {
                TyData::App(l2, r2) => {
                    lemma_term_injective(tys, l1.0 as int, l2.0 as int);
                    lemma_term_injective(tys, r1.0 as int, r2.0 as int);
                    assert(tys[i] == tys[j]);
                },
                _ => {},
            }
        },
        _ => {
            assert(tys[i] == tys[j]);
        },
    }
    if i < j {
        assert(tys[i] != tys[j]);
    } else if j < i {
        assert(tys[j] != tys[i]);
    }
}

/// Whether two lists of types are the same list.
pub fn ty_vec_eq(a: &Vec<TyId>, b: &Vec<TyId>) -> (same: bool)
    ensures
        same == (a@ == b@),
{
    if a.len() != b.len() {
        return false;
    }
    let mut i: usize = 0;
    while i < a.len()
        invariant
            i <= a.len(),
            a.len() == b.len(),
            forall|k: int| 0 <= k < i ==> a@[k] == b@[k],
        decreases a.len() - i,
    {
        if a[i] != b[i] {
            return false;
        }
        i += 1;
    }
    assert(a@ =~= b@);
    true
}

/// A copy of a list of plain values.
pub fn copy_vec<T: Copy>(a: &Vec<T>) -> (copy: Vec<T>)
    ensures
        copy@ == a@,
{
    let mut out: Vec<T> = Vec::new();
    let mut i: usize = 0;
    while i < a.len()
        invariant
            i <= a.len(),
            out@ == a@.take(i as int),
        decreases a.len() - i,
    {
        out.push(a[i]);
        assert(a@.take(i + 1) =~= a@.take(i as int).push(a@[i as int]));
        i += 1;
    }
    assert(a@.take(a.len() as int) =~= a@);
    out
}

} // verus!
