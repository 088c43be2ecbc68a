use vstd::prelude::*;
use std::collections::HashMap;

verus! {

broadcast use vstd::std_specs::hash::group_hash_axioms;

/// Per-component-type storage: a growable container mapping entity
/// identifiers to values, with constant-time lookup through a hash index
/// and iteration in insertion order through a dense entry list.
pub struct SparseVec<V> {
    entries: Vec<(u32, V)>,
    index: HashMap<u32, usize>,
}

impl<V> View for SparseVec<V> {
    type V = Seq<(u32, V)>;

    /// The stored pairs, in insertion order.
    closed spec fn view(&self) -> Seq<(u32, V)> {
        self.entries@
    }
}

impl<V> SparseVec<V> {
    /// The hash index lists exactly the identifiers present in the dense
    /// entry list, each mapped to its position there.
    pub closed spec fn wf(self) -> bool {
        &&& forall|i: int|
            0 <= i < self.entries@.len() ==> self.index@.contains_key(
                (#[trigger] self.entries@[i]).0,
            ) && self.index@[self.entries@[i].0] as int == i
        &&& forall|k: u32|
            #[trigger] self.index@.contains_key(k) ==> (self.index@[k] as int) < self.entries@.len()
                && self.entries@[self.index@[k] as int].0 == k
    }

    /// The value stored under `id`, if any.
    pub closed spec fn lookup(self, id: u32) -> Option<V> {
        if self.index@.contains_key(id) {
            Some(self.entries@[self.index@[id] as int].1)
        } else {
            None
        }
    }

    /// `lookup` agrees with a positional search of the view.
    pub proof fn lemma_lookup_positions(self, id: u32)
        requires
            self.wf(),
        ensures
            (self.lookup(id) is Some) <==> (exists|i: int|
                0 <= i < self@.len() && (#[trigger] self@[i]).0 == id),
            forall|i: int|
                0 <= i < self@.len() && (#[trigger] self@[i]).0 == id ==> self.lookup(id) == Some(
                    self@[i].1,
                ),
    {
        if self.index@.contains_key(id) {
            assert(self@[self.index@[id] as int].0 == id);
        }
        assert forall|i: int|
            0 <= i < self@.len() && (#[trigger] self@[i]).0 == id implies self.lookup(id) == Some(
            self@[i].1,
        ) by {
            assert(self.index@.contains_key(self.entries@[i].0));
            assert(self.index@[self.entries@[i].0] as int == i);
        }
    }

    /// No identifier occurs twice in the view.
    pub proof fn lemma_distinct_ids(self)
        requires
            self.wf(),
        ensures
            forall|i: int, j: int|
                0 <= i < j < self@.len() ==> (#[trigger] self@[i]).0 != (#[trigger] self@[j]).0,
    {
        assert forall|i: int, j: int|
            0 <= i < j < self@.len() implies (#[trigger] self@[i]).0 != (#[trigger] self@[j]).0 by {
            assert(self.index@[self.entries@[i].0] as int == i);
            assert(self.index@[self.entries@[j].0] as int == j);
        }
    }

    pub fn new() -> (s: Self)
        ensures
            s@ == Seq::<(u32, V)>::empty(),
            s.wf(),
            forall|k: u32| (#[trigger] s.lookup(k)) is None,
    {
        SparseVec { entries: Vec::new(), index: HashMap::new() }
    }

    pub fn len(&self) -> (n: usize)
        ensures
            n == self@.len(),
    {
        self.entries.len()
    }

    /// The pair at position `i` of the insertion order.
    pub fn entry_at(&self, i: usize) -> (r: (u32, &V))
        requires
            i < self@.len(),
        ensures
            r.0 == self@[i as int].0,
            *r.1 == self@[i as int].1,
    {
        let e = &self.entries[i];
        (e.0, &e.1)
    }

    pub fn contains(&self, id: u32) -> (r: bool)
        requires
            self.wf(),
        ensures
            r == (self.lookup(id) is Some),
    {
        self.index.contains_key(&id)
    }

    pub fn get(&self, id: u32) -> (r: Option<&V>)
        requires
            self.wf(),
        ensures
            match r {
                Some(v) => self.lookup(id) == Some(*v),
                None => self.lookup(id) is None,
            },
    {
        match self.index.get(&id) {
            Some(i) => Some(&self.entries[*i].1),
            None => None,
        }
    }

    /// Stores `value` under `id`, overwriting in place if `id` is already
    /// present and appending to the insertion order otherwise.
    pub fn insert(&mut self, id: u32, value: V)
        requires
            old(self).wf(),
        ensures
            final(self).wf(),
            final(self).lookup(id) == Some(value),
            forall|k: u32| k != id ==> final(self).lookup(k) == old(self).lookup(k),
            old(self).lookup(id) is None ==> final(self)@ == old(self)@.push((id, value)),
            old(self).lookup(id) is Some ==> {
                &&& final(self)@.len() == old(self)@.len()
                &&& forall|i: int|
                    0 <= i < old(self)@.len() && (#[trigger] old(self)@[i]).0 != id
                        ==> final(self)@[i] == old(self)@[i]
                &&& forall|i: int|
                    0 <= i < old(self)@.len() && (#[trigger] old(self)@[i]).0 == id
                        ==> final(self)@[i] == (id, value)
            },
    {
        let pos = match self.index.get(&id) {
            Some(i) => Some(*i),
            None => None,
        };
        match pos {
            Some(i) => {
                proof {
                    old(self).lemma_distinct_ids();
                    assert(old(self).entries@[i as int].0 == id);
                }
                self.entries[i] = (id, value);
                proof {
                    assert forall|k: u32| k != id implies self.lookup(k) == old(self).lookup(
                        k,
                    ) by {
                        if old(self).index@.contains_key(k) {
                            assert(old(self).entries@[old(self).index@[k] as int].0 == k);
                        }
                    }
                    assert forall|j: int|
                        0 <= j < old(self)@.len() && (#[trigger] old(self)@[j]).0 == id implies self@[j]
                        == (id, value) by {
                        assert(old(self).index@[old(self).entries@[j].0] as int == j);
                    }
                }
            },
            None => {
                let n = self.entries.len();
                self.index.insert(id, n);
                self.entries.push((id, value));
                proof {
                    assert forall|k: u32| k != id implies self.lookup(k) == old(self).lookup(
                        k,
                    ) by {
                        if old(self).index@.contains_key(k) {
                            assert(old(self).index@[k] < old(self).entries@.len());
                        }
                    }
                }
            },
        }
    }

    /// Mutable access to the value stored under `id`, if any.
    pub fn get_mut(&mut self, id: u32) -> (r: Option<&mut V>)
        requires
            old(self).wf(),
        ensures
            final(self).wf(),
            match r {
                Some(v) => {
                    &&& old(self).lookup(id) == Some(*v)
                    &&& final(self).lookup(id) == Some(*final(v))
                    &&& forall|k: u32| k != id ==> final(self).lookup(k) == old(self).lookup(k)
                    &&& final(self)@.len() == old(self)@.len()
                    &&& forall|i: int|
                        0 <= i < old(self)@.len() && (#[trigger] old(self)@[i]).0 != id
                            ==> final(self)@[i] == old(self)@[i]
                    &&& forall|i: int|
                        0 <= i < old(self)@.len() && (#[trigger] old(self)@[i]).0 == id
                            ==> final(self)@[i] == (id, *final(v))
                },
                None => {
                    &&& old(self).lookup(id) is None
                    &&& *final(self) == *old(self)
                },
            },
    {
        let pos = match self.index.get(&id) {
            Some(i) => Some(*i),
            None => None,
        };
        match pos {
            Some(i) => {
                proof {
                    old(self).lemma_distinct_ids();
                    assert(old(self)@[i as int].0 == id);
                    assert forall|k: u32|
                        k != id && old(self).index@.contains_key(k) implies old(
                        self,
                    ).index@[k] as int != i as int by {
                        assert(old(self).entries@[old(self).index@[k] as int].0 == k);
                    }
                }
                let e = &mut self.entries[i];
                Some(&mut e.1)
            },
            None => None,
        }
    }

    /// Mutable access to the value at position `i` of the insertion
    /// order; the identifier at that position keeps its slot.
    pub fn value_at_mut(&mut self, i: usize) -> (r: &mut V)
        requires
            old(self).wf(),
            i < old(self)@.len(),
        ensures
            final(self).wf(),
            *r == old(self)@[i as int].1,
            final(self)@ == old(self)@.update(
                i as int,
                (old(self)@[i as int].0, *final(r)),
            ),
            final(self).lookup(old(self)@[i as int].0) == Some(*final(r)),
            forall|k: u32|
                k != old(self)@[i as int].0 ==> final(self).lookup(k) == old(self).lookup(k),
    {
        proof {
            old(self).lemma_distinct_ids();
            assert(old(self).index@[old(self).entries@[i as int].0] as int == i);
            assert forall|k: u32|
                k != old(self)@[i as int].0 && old(self).index@.contains_key(k) implies old(
                self,
            ).index@[k] as int != i as int by {
                assert(old(self).entries@[old(self).index@[k] as int].0 == k);
            }
        }
        let e = &mut self.entries[i];
        &mut e.1
    }

    /// Removes the value stored under `id`, if any, closing the gap in the
    /// insertion order.
    pub fn remove(&mut self, id: u32)
        requires
            old(self).wf(),
        ensures
            final(self).wf(),
            final(self).lookup(id) is None,
            forall|k: u32| k != id ==> final(self).lookup(k) == old(self).lookup(k),
            old(self).lookup(id) is None ==> *final(self) == *old(self),
            old(self).lookup(id) is Some ==> exists|i: int|
                0 <= i < old(self)@.len() && (#[trigger] old(self)@[i]).0 == id && final(self)@
                    == old(self)@.remove(i),
    {
        let pos = match self.index.get(&id) {
            Some(i) => Some(*i),
            None => None,
        };
        match pos {
            None => {},
            Some(i) => {
                proof {
                    old(self).lemma_distinct_ids();
                    assert(old(self).entries@[i as int].0 == id);
                }
                self.index.remove(&id);
                self.entries.remove(i);
                let ghost s2 = self.entries@;
                proof {
                    old(self).entries@.remove_ensures(i as int);
                    assert forall|p: int, q: int|
                        0 <= p < q < s2.len() implies (#[trigger] s2[p]).0 != (
                    #[trigger] s2[q]).0 by {
                        if p < i as int {
                            assert(s2[p] == old(self).entries@[p]);
                        } else {
                            assert(s2[p] == old(self).entries@[p + 1]);
                        }
                        if q < i as int {
                            assert(s2[q] == old(self).entries@[q]);
                        } else {
                            assert(s2[q] == old(self).entries@[q + 1]);
                        }
                    }
                    assert forall|p: int|
                        0 <= p < i as int implies self.index@.contains_key((#[trigger] s2[p]).0)
                        && self.index@[s2[p].0] as int == p by {
                        assert(s2[p] == old(self).entries@[p]);
                        assert(old(self).entries@[p].0 != id);
                    }
                    assert forall|p: int|
                        i as int <= p < s2.len() implies self.index@.contains_key(
                        (#[trigger] s2[p]).0,
                    ) && self.index@[s2[p].0] as int == p + 1 by {
                        assert(s2[p] == old(self).entries@[p + 1]);
                        assert(old(self).entries@[p + 1].0 != id);
                    }
                    assert forall|k: u32| #[trigger]
                        self.index@.contains_key(k) implies exists|p: int|
                        0 <= p < s2.len() && (#[trigger] s2[p]).0 == k by {
                        let p0 = old(self).index@[k] as int;
                        assert(old(self).entries@[p0].0 == k);
                        if p0 < i as int {
                            assert(s2[p0].0 == k);
                        } else {
                            assert(s2[p0 - 1].0 == k);
                        }
                    }
                }
                let mut j = i;
                while j < self.entries.len()
                    invariant
                        self.entries@ == s2,
                        i <= j <= s2.len(),
                        forall|p: int, q: int|
                            0 <= p < q < s2.len() ==> (#[trigger] s2[p]).0 != (#[trigger] s2[q]).0,
                        forall|p: int|
                            0 <= p < j ==> self.index@.contains_key((#[trigger] s2[p]).0)
                                && self.index@[s2[p].0] as int == p,
                        forall|p: int|
                            j <= p < s2.len() ==> self.index@.contains_key((#[trigger] s2[p]).0)
                                && self.index@[s2[p].0] as int == p + 1,
                        forall|k: u32|
                            #[trigger] self.index@.contains_key(k) ==> exists|p: int|
                                0 <= p < s2.len() && (#[trigger] s2[p]).0 == k,
                    decreases s2.len() - j,
                {
                    let k = self.entries[j].0;
                    self.index.insert(k, j);
                    j += 1;
                }
                proof {
                    old(self).entries@.remove_ensures(i as int);
                    assert forall|k: u32| #[trigger]
                        self.index@.contains_key(k) implies (self.index@[k] as int) < self.entries@.len()
                        && self.entries@[self.index@[k] as int].0 == k by {
                        let p = choose|p: int| 0 <= p < s2.len() && (#[trigger] s2[p]).0 == k;
                        assert(self.index@[s2[p].0] as int == p);
                    }
                    assert(!self.index@.contains_key(id)) by {
                        if self.index@.contains_key(id) {
                            let p = choose|p: int| 0 <= p < s2.len() && (#[trigger] s2[p]).0 == id;
                            if p < i as int {
                                assert(old(self).entries@[p].0 == id);
                            } else {
                                assert(old(self).entries@[p + 1].0 == id);
                            }
                        }
                    }
                    assert forall|k: u32| k != id implies self.lookup(k) == old(self).lookup(
                        k,
                    ) by {
                        if old(self).index@.contains_key(k) {
                            let p0 = old(self).index@[k] as int;
                            assert(old(self).entries@[p0].0 == k);
                            if p0 < i as int {
                                assert(s2[p0].0 == k);
                                assert(self.index@[k] as int == p0);
                            } else {
                                assert(s2[p0 - 1].0 == k);
                                assert(self.index@[k] as int == p0 - 1);
                            }
                        } else {
                            if self.index@.contains_key(k) {
                                let p = choose|p: int|
                                    0 <= p < s2.len() && (#[trigger] s2[p]).0 == k;
                                if p < i as int {
                                    assert(old(self).entries@[p].0 == k);
                                } else {
                                    assert(old(self).entries@[p + 1].0 == k);
                                }
                                assert(false);
                            }
                        }
                    }
                    assert(old(self)@[i as int].0 == id && self@ == old(self)@.remove(i as int));
                }
            },
        }
    }
}

} // verus!
