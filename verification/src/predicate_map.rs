//! An ordered map from types to ordered sets of trait instances.
//!
//! The keys are kept in rising order of their handles, and so are the trait
//! instances under each key. Two maps with the same contents are therefore
//! stored alike.

use crate::ids::TraitInstId;
use crate::ids::TyId;
use vstd::prelude::*;

verus! {

/// No trait instance occurs twice, and the handles rise.
pub open spec fn insts_sorted(s: Seq<TraitInstId>) -> bool {
    forall|i: int, j: int| 0 <= i < j < s.len() ==> (#[trigger] s[i]).0 < (#[trigger] s[j]).0
}

/// Two rising lists with the same elements are the same list.
pub proof fn lemma_sorted_insts_canonical(a: Seq<TraitInstId>, b: Seq<TraitInstId>)
    requires
        insts_sorted(a),
        insts_sorted(b),
        a.to_set() == b.to_set(),
    ensures
        a == b,
    decreases a.len(),
{
    if a.len() == 0 {
        if b.len() > 0 {
            assert(b.contains(b[0]));
            assert(b.to_set().contains(b[0]));
            assert(a.contains(b[0]));
        }
        assert(a =~= b);
    } else {
        let x = a.last();
        assert(a.contains(x));
        assert(a.to_set().contains(x));
        assert(b.contains(x));
        let y = b.last();
        assert(b.contains(y));
        assert(b.to_set().contains(y));
        assert(a.contains(y));
        let kx = choose|k: int| 0 <= k < b.len() && b[k] == x;
        let ky = choose|k: int| 0 <= k < a.len() && a[k] == y;
        assert(x.0 <= y.0) by {
            if kx < b.len() - 1 {
                assert(b[kx].0 < b[b.len() - 1].0);
            }
        }
        assert(y.0 <= x.0) by {
            if ky < a.len() - 1 {
                assert(a[ky].0 < a[a.len() - 1].0);
            }
        }
        assert(x == y);
        let a1 = a.drop_last();
        let b1 = b.drop_last();
        assert forall|h: TraitInstId| a1.to_set().contains(h) == b1.to_set().contains(h) by {
            if a1.contains(h) {
                let k = choose|k: int| 0 <= k < a1.len() && a1[k] == h;
                assert(a[k] == h);
                assert(a[k].0 < a[a.len() - 1].0);
                assert(a.contains(h));
                assert(a.to_set().contains(h));
                assert(b.contains(h));
                let m = choose|m: int| 0 <= m < b.len() && b[m] == h;
                assert(m < b.len() - 1);
                assert(b1[m] == h);
            }
            if b1.contains(h) {
                let k = choose|k: int| 0 <= k < b1.len() && b1[k] == h;
                assert(b[k] == h);
                assert(b[k].0 < b[b.len() - 1].0);
                assert(b.contains(h));
                assert(b.to_set().contains(h));
                assert(a.contains(h));
                let m = choose|m: int| 0 <= m < a.len() && a[m] == h;
                assert(m < a.len() - 1);
                assert(a1[m] == h);
            }
        }
        assert(a1.to_set() =~= b1.to_set());
        lemma_sorted_insts_canonical(a1, b1);
        assert(a =~= a1.push(x));
        assert(b =~= b1.push(y));
    }
}

/// Whether `inst` is among `insts`.
pub fn inst_vec_contains(insts: &Vec<TraitInstId>, inst: TraitInstId) -> (found: bool)
    ensures
        found == insts@.contains(inst),
{
    let mut i: usize = 0;
    while i < insts.len()
        invariant
            i <= insts@.len(),
            forall|k: int| 0 <= k < i ==> insts@[k] != inst,
        decreases insts@.len() - i,
    {
        if insts[i] == inst {
            return true;
        }
        i += 1;
    }
    false
}

/// Whether two lists of trait instances are the same list.
pub fn inst_vec_eq(a: &Vec<TraitInstId>, b: &Vec<TraitInstId>) -> (same: bool)
    ensures
        same == (a@ == b@),
{
    if a.len() != b.len() {
        return false;
    }
    let mut i: usize = 0;
    while i < a.len()
        invariant
            i <= a.len(),
            a.len() == b.len(),
            forall|k: int| 0 <= k < i ==> a@[k] == b@[k],
        decreases a.len() - i,
    {
        if a[i] != b[i] {
            return false;
        }
        i += 1;
    }
    assert(a@ =~= b@);
    true
}

/// Puts `inst` into a rising list, unless it is there.
pub fn insert_inst(insts: &mut Vec<TraitInstId>, inst: TraitInstId)
    requires
        insts_sorted(old(insts)@),
    ensures
        insts_sorted(final(insts)@),
        final(insts)@.to_set() == old(insts)@.to_set().insert(inst),
        forall|h: TraitInstId| final(insts)@.contains(h) <==> old(insts)@.contains(h) || h == inst,
{
    let mut pos: usize = 0;
    while pos < insts.len() && insts[pos].0 < inst.0
        invariant
            pos <= insts@.len(),
            insts@ == old(insts)@,
            forall|k: int| 0 <= k < pos ==> (#[trigger] insts@[k]).0 < inst.0,
        decreases insts@.len() - pos,
    {
        pos += 1;
    }
    let ghost before = insts@;
    if pos < insts.len() && insts[pos] == inst {
        proof {
            assert(before.contains(inst));
            assert(before.to_set() =~= before.to_set().insert(inst));
        }
        return ;
    }
    insts.insert(pos, inst);
    proof {
        let after = insts@;
        assert(after.len() == before.len() + 1);
        assert(after[pos as int] == inst);
        assert forall|k: int| 0 <= k < after.len() implies #[trigger] after[k] == (if k < pos {
            before[k]
        } else if k == pos {
            inst
        } else {
            before[k - 1]
        }) by {}
        assert forall|i: int, j: int| 0 <= i < j < after.len() implies (#[trigger] after[i]).0 < (
        #[trigger] after[j]).0 by {
            if j < pos {
                assert(before[i].0 < before[j].0);
            } else if j == pos {
                assert(before[i].0 < inst.0);
            } else {
                if i < pos {
                    assert(before[i].0 < before[j - 1].0);
                } else if i == pos {
                    if pos < before.len() {
                        assert(before[pos as int].0 >= inst.0);
                        assert(before[pos as int] != inst);
                        if pos < j - 1 {
                            assert(before[pos as int].0 < before[j - 1].0);
                        }
                    }
                } else {
                    assert(before[i - 1].0 < before[j - 1].0);
                }
            }
        }
        assert forall|h: TraitInstId| after.contains(h) <==> before.contains(h) || h == inst by {
            if after.contains(h) {
                let k = choose|k: int| 0 <= k < after.len() && after[k] == h;
                if k < pos {
                    assert(before[k] == h);
                } else if k > pos {
                    assert(before[k - 1] == h);
                }
            }
            if before.contains(h) {
                let k = choose|k: int| 0 <= k < before.len() && before[k] == h;
                if k < pos {
                    assert(after[k] == h);
                } else {
                    assert(after[k + 1] == h);
                }
            }
        }
        assert(after.to_set() =~= before.to_set().insert(inst));
    }
}

/// One key of a predicate map with the trait instances under it.
pub struct PredicateEntry {
    pub(crate) ty: TyId,
    pub(crate) insts: Vec<TraitInstId>,
}

/// An ordered map from types to sets of trait instances: for every type,
/// the trait instances that it must or may implement.
pub struct PredicateMap {
    pub(crate) entries: Vec<PredicateEntry>,
}

impl PredicateMap {
    /// The number of keys.
    pub open(crate) spec fn count(self) -> nat {
        self.entries@.len()
    }

    /// The `i`-th key.
    pub open(crate) spec fn key(self, i: int) -> TyId {
        self.entries@[i].ty
    }

    /// The trait instances under the `i`-th key, in rising order.
    pub open(crate) spec fn insts(self, i: int) -> Seq<TraitInstId> {
        self.entries@[i].insts@
    }

    /// The keys rise, and so do the trait instances under each key.
    pub open(crate) spec fn wf(self) -> bool {
        &&& forall|i: int, j: int|
            0 <= i < j < self.entries@.len() ==> (#[trigger] self.entries@[i]).ty.0 < (
            #[trigger] self.entries@[j]).ty.0
        &&& forall|i: int|
            0 <= i < self.entries@.len() ==> insts_sorted((#[trigger] self.entries@[i]).insts@)
    }

    /// A place at which `ty` is a key.
    pub open(crate) spec fn index_for(self, ty: TyId) -> int {
        choose|i: int| 0 <= i < self.entries@.len() && (#[trigger] self.entries@[i]).ty == ty
    }

    /// The map that is stored: every key with the set of trait instances
    /// under it.
    pub open(crate) spec fn view(self) -> Map<TyId, Set<TraitInstId>> {
        Map::new(
            |ty: TyId|
                exists|i: int|
                    0 <= i < self.entries@.len() && (#[trigger] self.entries@[i]).ty == ty,
            |ty: TyId| self.entries@[self.index_for(ty)].insts@.to_set(),
        )
    }

    /// The map as it is stored: the keys in order, each with its trait
    /// instances in order.
    pub open(crate) spec fn repr(self) -> Seq<(TyId, Seq<TraitInstId>)> {
        Seq::new(self.entries@.len(), |i: int| (self.entries@[i].ty, self.entries@[i].insts@))
    }

    /// The `i`-th key is a key of the map, with the `i`-th set under it.
    pub proof fn lemma_view_at(self, i: int)
        requires
            self.wf(),
            0 <= i < self.count(),
        ensures
            self@.contains_key(self.key(i)),
            self@[self.key(i)] == self.insts(i).to_set(),
            self.index_for(self.key(i)) == i,
    {
        let ty = self.entries@[i].ty;
        let j = self.index_for(ty);
        assert(0 <= j < self.entries@.len() && self.entries@[j].ty == ty);
        if j < i {
            assert(self.entries@[j].ty.0 < self.entries@[i].ty.0);
        } else if i < j {
            assert(self.entries@[i].ty.0 < self.entries@[j].ty.0);
        }
    }

    /// Every key of the map stands at some place.
    pub proof fn lemma_view_key(self, ty: TyId)
        requires
            self.wf(),
            self@.contains_key(ty),
        ensures
            0 <= self.index_for(ty) < self.count(),
            self.key(self.index_for(ty)) == ty,
            self@[ty] == self.insts(self.index_for(ty)).to_set(),
    {
    }

    /// Maps that are stored alike hold the same.
    pub proof fn lemma_repr_view(self, other: PredicateMap)
        requires
            self.wf(),
            other.wf(),
            self.repr() == other.repr(),
        ensures
            self@ == other@,
    {
        assert(self.repr().len() == self.count());
        assert(other.repr().len() == other.count());
        assert forall|i: int| 0 <= i < self.count() implies self.key(i) == other.key(i)
            && self.insts(i) == other.insts(i) by {
            assert(self.repr()[i] == other.repr()[i]);
        }
        assert forall|ty: TyId| self@.contains_key(ty) == other@.contains_key(ty) by {
            if self@.contains_key(ty) {
                self.lemma_view_key(ty);
                let i = self.index_for(ty);
                assert(other.key(i) == ty);
                other.lemma_view_at(i);
            }
            if other@.contains_key(ty) {
                other.lemma_view_key(ty);
                let i = other.index_for(ty);
                assert(self.key(i) == ty);
                self.lemma_view_at(i);
            }
        }
        assert forall|ty: TyId| self@.contains_key(ty) implies self@[ty] == other@[ty] by {
            self.lemma_view_key(ty);
            let i = self.index_for(ty);
            assert(other.key(i) == ty);
            other.lemma_view_at(i);
        }
        assert(self@ =~= other@);
    }

    /// Maps that hold the same are stored alike.
    pub proof fn lemma_view_repr(self, other: PredicateMap)
        requires
            self.wf(),
            other.wf(),
            self@ == other@,
        ensures
            self.repr() == other.repr(),
    {
        assert forall|ty: TyId| #[trigger]
            self.has_key_below(self.count() as int, ty) <==> other.has_key_below(
                other.count() as int,
                ty,
            ) by {
            if self.has_key_below(self.count() as int, ty) {
                let i = choose|i: int|
                    0 <= i < self.count() && i < self.entries@.len() && (
                    #[trigger] self.entries@[i]).ty == ty;
                assert(self@.contains_key(ty));
                other.lemma_view_key(ty);
                assert(other.entries@[other.index_for(ty)].ty == ty);
            }
            if other.has_key_below(other.count() as int, ty) {
                let i = choose|i: int|
                    0 <= i < other.count() && i < other.entries@.len() && (
                    #[trigger] other.entries@[i]).ty == ty;
                assert(other@.contains_key(ty));
                self.lemma_view_key(ty);
                assert(self.entries@[self.index_for(ty)].ty == ty);
            }
        }
        self.lemma_keys_canonical(other, self.count() as int, other.count() as int);
        assert forall|i: int| 0 <= i < self.count() implies self.repr()[i] == other.repr()[i] by {
            self.lemma_view_at(i);
            other.lemma_view_at(i);
            lemma_sorted_insts_canonical(self.insts(i), other.insts(i));
        }
        assert(self.repr() =~= other.repr());
    }

    /// Whether `ty` is among the first `n` keys.
    pub open(crate) spec fn has_key_below(self, n: int, ty: TyId) -> bool {
        exists|i: int| 0 <= i < n && i < self.entries@.len() && (#[trigger] self.entries@[i]).ty == ty
    }

    /// The first `n` keys of one map and the first `m` keys of another are
    /// the same keys in the same order, if they are the same as sets.
    proof fn lemma_keys_canonical(self, other: PredicateMap, n: int, m: int)
        requires
            self.wf(),
            other.wf(),
            0 <= n <= self.count(),
            0 <= m <= other.count(),
            forall|ty: TyId| #[trigger] self.has_key_below(n, ty) <==> other.has_key_below(m, ty),
        ensures
            n == m,
            forall|i: int| 0 <= i < n ==> self.key(i) == other.key(i),
        decreases n,
    {
        if n == 0 {
            if m > 0 {
                assert(other.entries@[0].ty == other.key(0));
                assert(other.has_key_below(m, other.key(0)));
                assert(self.has_key_below(n, other.key(0)));
            }
        } else {
            let x = self.key(n - 1);
            assert(self.entries@[n - 1].ty == x);
            assert(self.has_key_below(n, x));
            assert(other.has_key_below(m, x));
            let j = choose|j: int|
                0 <= j < m && j < other.entries@.len() && (#[trigger] other.entries@[j]).ty == x;
            let y = other.key(m - 1);
            assert(other.entries@[m - 1].ty == y);
            assert(other.has_key_below(m, y));
            assert(self.has_key_below(n, y));
            let i = choose|i: int|
                0 <= i < n && i < self.entries@.len() && (#[trigger] self.entries@[i]).ty == y;
            assert(x.0 <= y.0) by {
                if j < m - 1 {
                    assert(other.entries@[j].ty.0 < other.entries@[m - 1].ty.0);
                }
            }
            assert(y.0 <= x.0) by {
                if i < n - 1 {
                    assert(self.entries@[i].ty.0 < self.entries@[n - 1].ty.0);
                }
            }
            assert(x == y);
            assert forall|ty: TyId| #[trigger]
                self.has_key_below(n - 1, ty) <==> other.has_key_below(m - 1, ty) by {
                if self.has_key_below(n - 1, ty) {
                    let i = choose|i: int|
                        0 <= i < n - 1 && i < self.entries@.len() && (
                        #[trigger] self.entries@[i]).ty == ty;
                    assert(self.entries@[i].ty.0 < self.entries@[n - 1].ty.0);
                    assert(self.has_key_below(n, ty));
                    assert(other.has_key_below(m, ty));
                    let j = choose|j: int|
                        0 <= j < m && j < other.entries@.len() && (
                        #[trigger] other.entries@[j]).ty == ty;
                    assert(j < m - 1);
                }
                if other.has_key_below(m - 1, ty) {
                    let j = choose|j: int|
                        0 <= j < m - 1 && j < other.entries@.len() && (
                        #[trigger] other.entries@[j]).ty == ty;
                    assert(other.entries@[j].ty.0 < other.entries@[m - 1].ty.0);
                    assert(other.has_key_below(m, ty));
                    assert(self.has_key_below(n, ty));
                    let i = choose|i: int|
                        0 <= i < n && i < self.entries@.len() && (#[trigger] self.entries@[i]).ty
                            == ty;
                    assert(i < n - 1);
                }
            }
            self.lemma_keys_canonical(other, n - 1, m - 1);
        }
    }

    /// A map without keys.
    pub fn new() -> (map: PredicateMap)
        ensures
            map.wf(),
            map@ == Map::<TyId, Set<TraitInstId>>::empty(),
            map.count() == 0,
    {
        let map = PredicateMap { entries: Vec::new() };
        assert(map@ =~= Map::<TyId, Set<TraitInstId>>::empty());
        map
    }

    /// The number of keys.
    pub fn len(&self) -> (n: usize)
        ensures
            n == self.count(),
    {
        self.entries.len()
    }

    /// The `i`-th key, counting from the smallest.
    pub fn ty_at(&self, i: usize) -> (ty: TyId)
        requires
            i < self.count(),
        ensures
            ty == self.key(i as int),
    {
        self.entries[i].ty
    }

    /// The trait instances under the `i`-th key, in rising order.
    pub fn insts_at(&self, i: usize) -> (insts: &Vec<TraitInstId>)
        requires
            i < self.count(),
        ensures
            insts@ == self.insts(i as int),
    {
        &self.entries[i].insts
    }

    /// The place of the first key that is not smaller than `ty`.
    fn lower_bound(&self, ty: TyId) -> (pos: usize)
        ensures
            pos <= self.count(),
            forall|k: int| 0 <= k < pos ==> (#[trigger] self.entries@[k]).ty.0 < ty.0,
            pos < self.count() ==> self.entries@[pos as int].ty.0 >= ty.0,
    {
        let mut pos: usize = 0;
        while pos < self.entries.len() && self.entries[pos].ty.0 < ty.0
            invariant
                pos <= self.entries@.len(),
                forall|k: int| 0 <= k < pos ==> (#[trigger] self.entries@[k]).ty.0 < ty.0,
            decreases self.entries@.len() - pos,
        {
            pos += 1;
        }
        pos
    }

    /// The place of the key `ty`, if it is a key.
    pub fn find(&self, ty: TyId) -> (place: Option<usize>)
        requires
            self.wf(),
        ensures
            match place {
                Some(i) => i < self.count() && self.key(i as int) == ty && self@.contains_key(ty)
                    && self@[ty] == self.insts(i as int).to_set(),
                None => !self@.contains_key(ty),
            },
    {
        let pos = self.lower_bound(ty);
        if pos < self.entries.len() && self.entries[pos].ty == ty {
            proof {
                self.lemma_view_at(pos as int);
            }
            Some(pos)
        } else {
            proof {
                if self@.contains_key(ty) {
                    self.lemma_view_key(ty);
                    let i = self.index_for(ty);
                    if i < pos {
                        assert(self.entries@[i].ty.0 < ty.0);
                    } else if i > pos {
                        assert(self.entries@[pos as int].ty.0 < self.entries@[i].ty.0);
                    }
                }
            }
            None
        }
    }

    /// The trait instances under the key `ty`, in rising order, if `ty` is
    /// a key.
    pub fn get(&self, ty: TyId) -> (insts: Option<&Vec<TraitInstId>>)
        requires
            self.wf(),
        ensures
            match insts {
                Some(insts) => self@.contains_key(ty) && insts@.to_set() == self@[ty]
                    && insts_sorted(insts@),
                None => !self@.contains_key(ty),
            },
    {
        match self.find(ty) {
            Some(i) => Some(&self.entries[i].insts),
            None => None,
        }
    }

    /// Whether `inst` stands under the key `ty`.
    pub fn contains(&self, ty: TyId, inst: TraitInstId) -> (found: bool)
        requires
            self.wf(),
        ensures
            found == (self@.contains_key(ty) && self@[ty].contains(inst)),
    {
        match self.get(ty) {
            Some(insts) => inst_vec_contains(insts, inst),
            None => false,
        }
    }

    /// Adds the key `ty` with the trait instances `insts` under it. The key
    /// has to be greater than every key of the map.
    pub(crate) fn push_entry(&mut self, ty: TyId, insts: Vec<TraitInstId>)
        requires
            old(self).wf(),
            insts_sorted(insts@),
            forall|k: int| 0 <= k < old(self).count() ==> old(self).key(k).0 < ty.0,
        ensures
            final(self).wf(),
            final(self).count() == old(self).count() + 1,
            final(self).key(old(self).count() as int) == ty,
            final(self).insts(old(self).count() as int) == insts@,
            forall|k: int|
                0 <= k < old(self).count() ==> final(self).key(k) == old(self).key(k)
                    && final(self).insts(k) == old(self).insts(k),
            final(self)@ == old(self)@.insert(ty, insts@.to_set()),
    {
        let ghost n = self.entries@.len() as int;
        let ghost set = insts@.to_set();
        self.entries.push(PredicateEntry { ty, insts });
        proof {
            assert forall|i: int, j: int| 0 <= i < j < self.entries@.len() implies (
            #[trigger] self.entries@[i]).ty.0 < (#[trigger] self.entries@[j]).ty.0 by {
                if j < n {
                    assert(old(self).entries@[i].ty.0 < old(self).entries@[j].ty.0);
                } else {
                    assert(old(self).key(i).0 < ty.0);
                }
            }
            assert(self.wf());
            let a = self@;
            let b = old(self)@.insert(ty, set);
            assert forall|t: TyId| a.contains_key(t) == b.contains_key(t) by {
                if a.contains_key(t) {
                    self.lemma_view_key(t);
                    let i = self.index_for(t);
                    if i < n {
                        assert(old(self).entries@[i].ty == t);
                    }
                }
                if b.contains_key(t) {
                    if t == ty {
                        assert(self.entries@[n].ty == t);
                    } else {
                        old(self).lemma_view_key(t);
                        let i = old(self).index_for(t);
                        assert(self.entries@[i].ty == t);
                    }
                }
            }
            assert forall|t: TyId| a.contains_key(t) implies a[t] == b[t] by {
                self.lemma_view_key(t);
                let i = self.index_for(t);
                if i < n {
                    assert(old(self).entries@[i].ty == t);
                    assert(old(self).key(i).0 < ty.0);
                    old(self).lemma_view_at(i);
                }
            }
            assert(a =~= b);
        }
    }

    /// Puts `inst` under the key `ty`, which becomes a key if it is none.
    pub fn insert(&mut self, ty: TyId, inst: TraitInstId)
        requires
            old(self).wf(),
        ensures
            final(self).wf(),
            final(self)@ == old(self)@.insert(
                ty,
                (if old(self)@.contains_key(ty) {
                    old(self)@[ty]
                } else {
                    Set::empty()
                }).insert(inst),
            ),
    {
        let pos = self.lower_bound(ty);
        let ghost before = *self;
        let ghost n = self.entries@.len() as int;
        let present = pos < self.entries.len() && self.entries[pos].ty == ty;
        let mut insts: Vec<TraitInstId> = Vec::new();
        if present {
            let entry = self.entries.remove(pos);
            insts = entry.insts;
        }
        let ghost old_insts = insts@;
        insert_inst(&mut insts, inst);
        let ghost new_insts = insts@;
        self.entries.insert(pos, PredicateEntry { ty, insts });
        proof {
            let after = self.entries@;
            let prior = before.entries@;
            // where each entry went
            assert forall|k: int| 0 <= k < after.len() implies (#[trigger] after[k]).ty == (if k
                == pos {
                ty
            } else if k < pos {
                prior[k].ty
            } else if present {
                prior[k].ty
            } else {
                prior[k - 1].ty
            }) && after[k].insts@ == (if k == pos {
                new_insts
            } else if k < pos {
                prior[k].insts@
            } else if present {
                prior[k].insts@
            } else {
                prior[k - 1].insts@
            }) by {}
            assert forall|i: int, j: int| 0 <= i < j < after.len() implies (#[trigger] after[i]).ty.0
                < (#[trigger] after[j]).ty.0 by {
                let pi = if i <= pos || present {
                    i
                } else {
                    i - 1
                };
                let pj = if j <= pos || present {
                    j
                } else {
                    j - 1
                };
                if i != pos && j != pos {
                    assert(prior[pi].ty.0 < prior[pj].ty.0);
                } else if i == pos {
                    if present {
                        assert(prior[pos as int].ty.0 < prior[pj].ty.0);
                    } else {
                        if pos < pj {
                            assert(prior[pos as int].ty.0 < prior[pj].ty.0);
                        }
                    }
                } else {
                    assert(prior[pi].ty.0 < ty.0);
                }
            }
            assert forall|i: int| 0 <= i < after.len() implies insts_sorted(
                (#[trigger] after[i]).insts@,
            ) by {
                let pi = if i <= pos || present {
                    i
                } else {
                    i - 1
                };
                if i != pos {
                    assert(insts_sorted(prior[pi].insts@));
                }
            }
            assert(self.wf());
            let old_set = if before@.contains_key(ty) {
                before@[ty]
            } else {
                Set::empty()
            };
            if present {
                before.lemma_view_at(pos as int);
                assert(old_set == old_insts.to_set());
            } else {
                if before@.contains_key(ty) {
                    before.lemma_view_key(ty);
                    let i = before.index_for(ty);
                    if i < pos {
                        assert(prior[i].ty.0 < ty.0);
                    } else if i > pos {
                        assert(prior[pos as int].ty.0 < prior[i].ty.0);
                    }
                }
                assert(old_insts.to_set() =~= Set::<TraitInstId>::empty());
            }
            let a = self@;
            let b = before@.insert(ty, old_set.insert(inst));
            assert forall|t: TyId| a.contains_key(t) == b.contains_key(t) by {
                if a.contains_key(t) {
                    self.lemma_view_key(t);
                    let i = self.index_for(t);
                    if i != pos {
                        let pi = if i <= pos || present {
                            i
                        } else {
                            i - 1
                        };
                        assert(prior[pi].ty == t);
                    }
                }
                if b.contains_key(t) && t != ty {
                    before.lemma_view_key(t);
                    let i = before.index_for(t);
                    let ai = if i < pos || present {
                        i
                    } else {
                        i + 1
                    };
                    assert(after[ai].ty == t);
                }
                if t == ty {
                    assert(after[pos as int].ty == t);
                }
            }
            assert forall|t: TyId| a.contains_key(t) implies a[t] == b[t] by {
                self.lemma_view_key(t);
                let i = self.index_for(t);
                if i != pos {
                    let pi = if i <= pos || present {
                        i
                    } else {
                        i - 1
                    };
                    assert(prior[pi].ty == t);
                    before.lemma_view_at(pi);
                    assert(after[pos as int].ty == ty);
                    if t == ty {
                        self.lemma_view_at(pos as int);
                    }
                }
            }
            assert(a =~= b);
        }
    }

    /// Whether two maps are stored alike.
    pub fn eq_map(&self, other: &PredicateMap) -> (same: bool)
        ensures
            same == (self.repr() == other.repr()),
    {
        if self.entries.len() != other.entries.len() {
            assert(self.repr().len() != other.repr().len());
            return false;
        }
        let mut i: usize = 0;
        while i < self.entries.len()
            invariant
                i <= self.entries@.len(),
                self.entries@.len() == other.entries@.len(),
                forall|k: int| 0 <= k < i ==> self.repr()[k] == other.repr()[k],
            decreases self.entries@.len() - i,
        {
            if self.entries[i].ty != other.entries[i].ty || !inst_vec_eq(
                &self.entries[i].insts,
                &other.entries[i].insts,
            ) {
                assert(self.repr()[i as int] != other.repr()[i as int]);
                return false;
            }
            i += 1;
        }
        assert(self.repr() =~= other.repr());
        true
    }
}

} // verus!
