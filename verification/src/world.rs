use vstd::prelude::*;
use std::collections::HashMap;
use std::collections::hash_map::Entry;
use crate::sparse_vec::SparseVec;
use crate::runtime::{SystemCallback, Task};

verus! {

broadcast use vstd::std_specs::hash::group_hash_axioms;

/// A lightweight handle identifying one logical object in a [`World`].
///
/// Entities carry no data of their own; all per-object state lives in the
/// world's component storages, keyed by the entity's identifier. Identifiers
/// are handed out by a strictly increasing counter and are never reused.
#[derive(Clone, Copy, PartialEq, Eq, PartialOrd, Ord, Structural, Debug)]
pub struct Entity {
    id: u32,
}

impl Entity {
    /// The numeric identifier, as seen by specifications.
    pub closed spec fn spec_id(self) -> u32 {
        self.id
    }
}

/// Marker capability for value types that may be attached to entities.
pub trait Component {

}

/// The composition root of the runtime: it owns the allocator for entity
/// identifiers, one sparse storage per component-type key, the resource
/// store, the queue of pending asynchronous jobs, and the event-handler
/// table.
///
/// Per-type dispatch is keyed by a caller-chosen `u64` type key in place of
/// a language-level type identifier: clients reserve one key per component,
/// resource, or event type. `C` is the component payload, `R` the resource
/// payload, `A` the argument payload handed to callbacks (event values and
/// job outputs), `H` the callback type, and `T` the asynchronous task type.
#[verifier::reject_recursive_types(C)]
#[verifier::reject_recursive_types(R)]
#[verifier::reject_recursive_types(A)]
#[verifier::reject_recursive_types(H)]
#[verifier::reject_recursive_types(T)]
pub struct World<C, R, A, H, T> {
    components: HashMap<u64, SparseVec<C>>,
    registered: Vec<u64>,
    resources: HashMap<u64, R>,
    entities: u32,
    pending: Vec<(T, H)>,
    event_handlers: HashMap<u64, Vec<H>>,
    marker: core::marker::PhantomData<A>,
}

impl<C, R, A, H, T> World<C, R, A, H, T> {
    /// How many entities have been spawned so far; also the identifier the
    /// next spawn will return.
    pub closed spec fn entity_count(self) -> u32 {
        self.entities
    }

    /// The pairs stored for component key `key`, in insertion order.
    pub closed spec fn stored(self, key: u64) -> Seq<(u32, C)> {
        if self.components@.contains_key(key) {
            self.components@[key]@
        } else {
            Seq::empty()
        }
    }

    /// The component stored for `key` on the entity with identifier `id`.
    pub closed spec fn component_of(self, key: u64, id: u32) -> Option<C> {
        if self.components@.contains_key(key) {
            self.components@[key].lookup(id)
        } else {
            None
        }
    }

    /// The resource singleton stored for `key`, if any.
    pub closed spec fn resource_of(self, key: u64) -> Option<R> {
        if self.resources@.contains_key(key) {
            Some(self.resources@[key])
        } else {
            None
        }
    }

    /// The handlers registered for event key `key`, in registration order.
    pub closed spec fn handlers_of(self, key: u64) -> Seq<H> {
        if self.event_handlers@.contains_key(key) {
            self.event_handlers@[key]@
        } else {
            Seq::empty()
        }
    }

    /// The queue of pending asynchronous jobs, in queue order.
    pub closed spec fn jobs(self) -> Seq<(T, H)> {
        self.pending@
    }

    /// Every storage is internally consistent, and the list of registered
    /// component keys mirrors the storage table.
    pub closed spec fn wf(self) -> bool {
        &&& forall|k: u64| #[trigger]
            self.components@.contains_key(k) ==> self.components@[k].wf()
        &&& forall|k: u64| #[trigger]
            self.components@.contains_key(k) ==> self.registered@.contains(k)
        &&& forall|k: u64| #[trigger]
            self.registered@.contains(k) ==> self.components@.contains_key(k)
        &&& self.registered@.no_duplicates()
    }

    /// The component stores of `pre` and `post` agree everywhere.
    pub open spec fn components_unchanged(pre: Self, post: Self) -> bool {
        &&& forall|k: u64| (#[trigger] post.stored(k)) == pre.stored(k)
        &&& forall|k: u64, id: u32|
            (#[trigger] post.component_of(k, id)) == pre.component_of(k, id)
    }

    /// The resource stores of `pre` and `post` agree everywhere.
    pub open spec fn resources_unchanged(pre: Self, post: Self) -> bool {
        forall|k: u64| (#[trigger] post.resource_of(k)) == pre.resource_of(k)
    }

    /// The event-handler tables of `pre` and `post` agree everywhere.
    pub open spec fn handlers_unchanged(pre: Self, post: Self) -> bool {
        forall|k: u64| (#[trigger] post.handlers_of(k)) == pre.handlers_of(k)
    }

    /// The pending-job queues of `pre` and `post` agree.
    pub open spec fn jobs_unchanged(pre: Self, post: Self) -> bool {
        post.jobs() == pre.jobs()
    }

    /// What one spawn does: it returns the current counter value as the new
    /// identifier, increments the counter, and touches nothing else.
    pub open spec fn spawn_post(pre: Self, post: Self, id: u32) -> bool {
        &&& post.wf()
        &&& id == pre.entity_count()
        &&& post.entity_count() == pre.entity_count() + 1
        &&& Self::components_unchanged(pre, post)
        &&& Self::resources_unchanged(pre, post)
        &&& Self::handlers_unchanged(pre, post)
        &&& Self::jobs_unchanged(pre, post)
    }

    /// What attaching one component does: the value is stored for
    /// `(key, id)`, overwriting in place any previous value, appending to
    /// the insertion order otherwise; every other slot is untouched.
    pub open spec fn add_component_post(pre: Self, post: Self, key: u64, id: u32, value: C) -> bool {
        &&& post.wf()
        &&& post.entity_count() == pre.entity_count()
        &&& post.component_of(key, id) == Some(value)
        &&& forall|k2: u64, id2: u32|
            k2 != key || id2 != id ==> (#[trigger] post.component_of(k2, id2))
                == pre.component_of(k2, id2)
        &&& forall|k2: u64| k2 != key ==> (#[trigger] post.stored(k2)) == pre.stored(k2)
        &&& pre.component_of(key, id) is None ==> post.stored(key) == pre.stored(key).push(
            (id, value),
        )
        &&& pre.component_of(key, id) is Some ==> {
            &&& post.stored(key).len() == pre.stored(key).len()
            &&& forall|i: int|
                0 <= i < pre.stored(key).len() && (#[trigger] pre.stored(key)[i]).0 != id
                    ==> post.stored(key)[i] == pre.stored(key)[i]
            &&& forall|i: int|
                0 <= i < pre.stored(key).len() && (#[trigger] pre.stored(key)[i]).0 == id
                    ==> post.stored(key)[i] == (id, value)
        }
        &&& Self::resources_unchanged(pre, post)
        &&& Self::handlers_unchanged(pre, post)
        &&& Self::jobs_unchanged(pre, post)
    }

    /// Every identifier occurring in any component storage was handed out
    /// by this world's spawn counter.
    pub open spec fn ids_bounded(self) -> bool {
        forall|k: u64, i: int|
            0 <= i < self.stored(k).len() ==> (#[trigger] self.stored(k)[i]).0
                < self.entity_count()
    }

    /// What inserting one resource does: the singleton for `key` becomes
    /// `value`, replacing any previous one; every other slot is untouched.
    pub open spec fn add_resource_post(pre: Self, post: Self, key: u64, value: R) -> bool {
        &&& post.wf()
        &&& post.entity_count() == pre.entity_count()
        &&& post.resource_of(key) == Some(value)
        &&& forall|k2: u64|
            k2 != key ==> (#[trigger] post.resource_of(k2)) == pre.resource_of(k2)
        &&& Self::components_unchanged(pre, post)
        &&& Self::handlers_unchanged(pre, post)
        &&& Self::jobs_unchanged(pre, post)
    }

    /// What taking one resource does: whatever the store held for `key` is
    /// handed out, and the slot is left empty.
    pub open spec fn take_resource_post(pre: Self, post: Self, key: u64, taken: Option<R>) -> bool {
        &&& post.wf()
        &&& post.entity_count() == pre.entity_count()
        &&& taken == pre.resource_of(key)
        &&& post.resource_of(key) is None
        &&& forall|k2: u64|
            k2 != key ==> (#[trigger] post.resource_of(k2)) == pre.resource_of(k2)
        &&& Self::components_unchanged(pre, post)
        &&& Self::handlers_unchanged(pre, post)
        &&& Self::jobs_unchanged(pre, post)
    }

    /// What one handler registration does: the handler is appended to the
    /// list for its event key; every other list is untouched.
    pub open spec fn add_event_handler_post(pre: Self, post: Self, key: u64, handler: H) -> bool {
        &&& post.wf()
        &&& post.entity_count() == pre.entity_count()
        &&& post.handlers_of(key) == pre.handlers_of(key).push(handler)
        &&& forall|k2: u64|
            k2 != key ==> (#[trigger] post.handlers_of(k2)) == pre.handlers_of(k2)
        &&& Self::components_unchanged(pre, post)
        &&& Self::resources_unchanged(pre, post)
        &&& Self::jobs_unchanged(pre, post)
    }

    /// A component is present exactly when some position of the key's
    /// insertion order carries the entity's identifier, and it is the
    /// value at that position.
    pub proof fn lemma_component_in_stored(self, key: u64, id: u32)
        requires
            self.wf(),
        ensures
            (self.component_of(key, id) is Some) <==> (exists|i: int|
                0 <= i < self.stored(key).len() && (#[trigger] self.stored(key)[i]).0 == id),
            forall|i: int|
                0 <= i < self.stored(key).len() && (#[trigger] self.stored(key)[i]).0 == id
                    ==> self.component_of(key, id) == Some(self.stored(key)[i].1),
    {
        if self.components@.contains_key(key) {
            let s = self.components@[key];
            s.lemma_lookup_positions(id);
            assert(self.stored(key) == s@);
            if exists|i: int| 0 <= i < s@.len() && (#[trigger] s@[i]).0 == id {
                let i = choose|i: int| 0 <= i < s@.len() && (#[trigger] s@[i]).0 == id;
                assert(self.stored(key)[i].0 == id);
            }
            if exists|i: int|
                0 <= i < self.stored(key).len() && (#[trigger] self.stored(key)[i]).0 == id {
                let i = choose|i: int|
                    0 <= i < self.stored(key).len() && (#[trigger] self.stored(key)[i]).0 == id;
                assert(s@[i].0 == id);
            }
        }
    }

    /// No entity occurs twice in one key's insertion order: per key and
    /// entity there is at most one component.
    pub proof fn lemma_stored_distinct(self, key: u64)
        requires
            self.wf(),
        ensures
            forall|i: int, j: int|
                0 <= i < j < self.stored(key).len() ==> (#[trigger] self.stored(key)[i]).0 != (
                #[trigger] self.stored(key)[j]).0,
    {
        if self.components@.contains_key(key) {
            self.components@[key].lemma_distinct_ids();
        }
    }

    pub fn new() -> (w: Self)
        ensures
            w.wf(),
            w.entity_count() == 0,
            forall|k: u64| (#[trigger] w.stored(k)) == Seq::<(u32, C)>::empty(),
            forall|k: u64, id: u32| (#[trigger] w.component_of(k, id)) is None,
            forall|k: u64| (#[trigger] w.resource_of(k)) is None,
            forall|k: u64| (#[trigger] w.handlers_of(k)) == Seq::<H>::empty(),
            w.jobs() == Seq::<(T, H)>::empty(),
            w.ids_bounded(),
    {
        World {
            components: HashMap::new(),
            registered: Vec::new(),
            resources: HashMap::new(),
            entities: 0,
            pending: Vec::new(),
            event_handlers: HashMap::new(),
            marker: core::marker::PhantomData,
        }
    }

    /// Allocates a fresh entity and returns a builder bound to it, through
    /// which components can be chained onto the new entity.
    pub fn spawn(&mut self) -> (b: EntityBuilder)
        requires
            old(self).wf(),
            old(self).entity_count() < u32::MAX,
        ensures
            Self::spawn_post(*old(self), *final(self), b.spec_entity().spec_id()),
    {
        let id = self.entities;
        self.entities = self.entities + 1;
        EntityBuilder { entity: Entity { id } }
    }

    /// Attaches `component` to `entity` under component key `key`, creating
    /// the per-key storage on first use and overwriting any value the
    /// entity already had for that key.
    pub fn add_component(&mut self, key: u64, entity: Entity, component: C)
        requires
            old(self).wf(),
        ensures
            Self::add_component_post(*old(self), *final(self), key, entity.spec_id(), component),
    {
        let mut storage = match self.components.remove(&key) {
            Some(s) => s,
            None => {
                self.registered.push(key);
                proof {
                    assert(self.registered@[old(self).registered@.len() as int] == key);
                    assert forall|k: u64| #[trigger]
                        self.registered@.contains(k) implies k == key || old(
                        self,
                    ).registered@.contains(k) by {
                        let i = choose|i: int|
                            0 <= i < self.registered@.len() && self.registered@[i] == k;
                        if i < old(self).registered@.len() {
                            assert(old(self).registered@[i] == k);
                        }
                    }
                    assert forall|i: int, j: int|
                        0 <= i < self.registered@.len() && 0 <= j < self.registered@.len() && i
                        != j implies self.registered@[i] != self.registered@[j] by {
                        if self.registered@[i] == self.registered@[j] {
                            if i < old(self).registered@.len() && j < old(
                                self,
                            ).registered@.len() {
                            } else if i < old(self).registered@.len() {
                                assert(old(self).registered@.contains(old(self).registered@[i]));
                            } else if j < old(self).registered@.len() {
                                assert(old(self).registered@.contains(old(self).registered@[j]));
                            }
                        }
                    }
                    assert(self.registered@.no_duplicates());
                    assert forall|k: u64| #[trigger]
                        old(self).registered@.contains(k) implies self.registered@.contains(
                        k,
                    ) by {
                        let i = choose|i: int|
                            0 <= i < old(self).registered@.len() && old(self).registered@[i] == k;
                        assert(self.registered@[i] == k);
                    }
                }
                SparseVec::new()
            },
        };
        storage.insert(entity.id, component);
        self.components.insert(key, storage);
        proof {
            assert forall|k: u64| #[trigger]
                self.components@.contains_key(k) implies self.registered@.contains(k) by {
                if k != key {
                    assert(old(self).components@.contains_key(k));
                }
            }
        }
    }

    /// The component stored for `key` on `entity`, if any.
    pub fn component(&self, key: u64, entity: Entity) -> (r: Option<&C>)
        requires
            self.wf(),
        ensures
            match r {
                Some(v) => self.component_of(key, entity.spec_id()) == Some(*v),
                None => self.component_of(key, entity.spec_id()) is None,
            },
    {
        match self.components.get(&key) {
            Some(storage) => storage.get(entity.id),
            None => None,
        }
    }

    /// Mutable access to the component stored for `key` on `entity`, if
    /// any. The storage keeps its slot: only the value behind the returned
    /// reference can change.
    pub fn component_mut(&mut self, key: u64, entity: Entity) -> (r: Option<&mut C>)
        requires
            old(self).wf(),
        ensures
            final(self).wf(),
            final(self).entity_count() == old(self).entity_count(),
            Self::resources_unchanged(*old(self), *final(self)),
            Self::handlers_unchanged(*old(self), *final(self)),
            Self::jobs_unchanged(*old(self), *final(self)),
            match r {
                Some(v) => {
                    &&& old(self).component_of(key, entity.spec_id()) == Some(*v)
                    &&& final(self).component_of(key, entity.spec_id()) == Some(*final(v))
                    &&& forall|k2: u64, id2: u32|
                        k2 != key || id2 != entity.spec_id()
                            ==> (#[trigger] final(self).component_of(k2, id2))
                            == old(self).component_of(k2, id2)
                    &&& forall|k2: u64|
                        k2 != key ==> (#[trigger] final(self).stored(k2)) == old(self).stored(k2)
                    &&& final(self).stored(key).len() == old(self).stored(key).len()
                    &&& forall|i: int|
                        0 <= i < old(self).stored(key).len() && (#[trigger] old(self).stored(
                            key,
                        )[i]).0 != entity.spec_id() ==> final(self).stored(key)[i] == old(
                            self,
                        ).stored(key)[i]
                    &&& forall|i: int|
                        0 <= i < old(self).stored(key).len() && (#[trigger] old(self).stored(
                            key,
                        )[i]).0 == entity.spec_id() ==> final(self).stored(key)[i] == (
                            entity.spec_id(),
                            *final(v),
                        )
                },
                None => {
                    &&& old(self).component_of(key, entity.spec_id()) is None
                    &&& Self::components_unchanged(*old(self), *final(self))
                },
            },
    {
        if !self.components.contains_key(&key) {
            return None;
        }
        match self.components.entry(key) {
            Entry::Occupied(occ) => {
                let storage = occ.into_mut();
                storage.get_mut(entity.id)
            },
            Entry::Vacant(_) => {
                proof {
                    assert(false);
                }
                None
            },
        }
    }

    /// Mutable access to the component at position `i` of `key`'s
    /// insertion order: together with the storage length this walks one
    /// key's components and mutates each in turn. The entity at that
    /// position keeps its slot.
    pub fn component_at_mut(&mut self, key: u64, i: usize) -> (r: &mut C)
        requires
            old(self).wf(),
            i < old(self).stored(key).len(),
        ensures
            final(self).wf(),
            final(self).entity_count() == old(self).entity_count(),
            *r == old(self).stored(key)[i as int].1,
            final(self).stored(key) == old(self).stored(key).update(
                i as int,
                (old(self).stored(key)[i as int].0, *final(r)),
            ),
            final(self).component_of(key, old(self).stored(key)[i as int].0) == Some(*final(r)),
            forall|k2: u64, id2: u32|
                k2 != key || id2 != old(self).stored(key)[i as int].0
                    ==> (#[trigger] final(self).component_of(k2, id2))
                    == old(self).component_of(k2, id2),
            forall|k2: u64| k2 != key ==> (#[trigger] final(self).stored(k2)) == old(self).stored(k2),
            Self::resources_unchanged(*old(self), *final(self)),
            Self::handlers_unchanged(*old(self), *final(self)),
            Self::jobs_unchanged(*old(self), *final(self)),
    {
        match self.components.entry(key) {
            Entry::Occupied(occ) => {
                let storage = occ.into_mut();
                storage.value_at_mut(i)
            },
            Entry::Vacant(_) => {
                proof {
                    assert(false);
                }
                vstd::pervasive::unreached()
            },
        }
    }

    /// All components stored under `key`, paired with their entities, in
    /// insertion order. A key no component was ever attached under yields
    /// the empty sequence.
    pub fn components(&self, key: u64) -> (r: Vec<(Entity, &C)>)
        requires
            self.wf(),
        ensures
            r@.len() == self.stored(key).len(),
            forall|i: int|
                0 <= i < r@.len() ==> (#[trigger] r@[i]).0.spec_id() == self.stored(key)[i].0
                    && *r@[i].1 == self.stored(key)[i].1,
    {
        let mut out: Vec<(Entity, &C)> = Vec::new();
        match self.components.get(&key) {
            None => out,
            Some(storage) => {
                let n = storage.len();
                let mut i: usize = 0;
                while i < n
                    invariant
                        n == storage@.len(),
                        storage@ == self.stored(key),
                        i <= n,
                        out@.len() == i,
                        forall|j: int|
                            0 <= j < i ==> (#[trigger] out@[j]).0.spec_id() == storage@[j].0
                                && *out@[j].1 == storage@[j].1,
                    decreases n - i,
                {
                    let (id, v) = storage.entry_at(i);
                    out.push((Entity { id }, v));
                    i += 1;
                }
                out
            },
        }
    }

    /// What destroying one entity does: its component vanishes from every
    /// storage, closing the gap in each insertion order; everything else,
    /// the entity counter included, is untouched.
    pub open spec fn destroy_post(pre: Self, post: Self, id: u32) -> bool {
        &&& post.wf()
        &&& post.entity_count() == pre.entity_count()
        &&& forall|k: u64| (#[trigger] post.component_of(k, id)) is None
        &&& forall|k: u64, id2: u32|
            id2 != id ==> (#[trigger] post.component_of(k, id2)) == pre.component_of(k, id2)
        &&& forall|k: u64|
            pre.component_of(k, id) is None ==> (#[trigger] post.stored(k)) == pre.stored(k)
        &&& forall|k: u64|
            pre.component_of(k, id) is Some ==> exists|i: int|
                0 <= i < pre.stored(k).len() && (#[trigger] pre.stored(k)[i]).0 == id
                    && post.stored(k) == pre.stored(k).remove(i)
        &&& Self::resources_unchanged(pre, post)
        &&& Self::handlers_unchanged(pre, post)
        &&& Self::jobs_unchanged(pre, post)
    }

    /// Removes every component attached to `entity`, in every storage. The
    /// entity's identifier is not reclaimed; resources, pending jobs, and
    /// event handlers are untouched. Destroying an entity that was never
    /// spawned, or destroying twice, changes nothing.
    #[verifier::rlimit(50)]
    pub fn destroy(&mut self, entity: Entity)
        requires
            old(self).wf(),
        ensures
            Self::destroy_post(*old(self), *final(self), entity.spec_id()),
    {
        let ghost eid = entity.spec_id();
        let mut idx: usize = 0;
        while idx < self.registered.len()
            invariant
                self.wf(),
                eid == entity.spec_id(),
                idx <= self.registered@.len(),
                self.registered == old(self).registered,
                self.entities == old(self).entities,
                self.resources == old(self).resources,
                self.pending == old(self).pending,
                self.event_handlers == old(self).event_handlers,
                forall|k: u64|
                    self.components@.contains_key(k) == old(self).components@.contains_key(k),
                forall|p: int|
                    0 <= p < idx ==> (#[trigger] self.component_of(
                        old(self).registered@[p],
                        eid,
                    )) is None,
                forall|k: u64, id2: u32|
                    id2 != eid ==> (#[trigger] self.component_of(k, id2)) == old(
                        self,
                    ).component_of(k, id2),
                forall|p: int|
                    idx <= p < old(self).registered@.len() ==> (#[trigger] self.stored(
                        old(self).registered@[p],
                    )) == old(self).stored(old(self).registered@[p]),
                forall|p: int|
                    idx <= p < old(self).registered@.len() ==> (#[trigger] self.component_of(
                        old(self).registered@[p],
                        eid,
                    )) == old(self).component_of(old(self).registered@[p], eid),
                forall|k: u64|
                    old(self).component_of(k, eid) is None ==> (#[trigger] self.stored(k)) == old(
                        self,
                    ).stored(k),
                forall|k: u64|
                    old(self).component_of(k, eid) is Some && (#[trigger] self.component_of(
                        k,
                        eid,
                    )) is None ==> exists|i: int|
                        0 <= i < old(self).stored(k).len() && (#[trigger] old(self).stored(k)[i]).0
                            == eid && self.stored(k) == old(self).stored(k).remove(i),
            decreases self.registered@.len() - idx,
        {
            let ghost pre = *self;
            let k = self.registered[idx];
            proof {
                assert(pre.registered@.contains(pre.registered@[idx as int]));
            }
            match self.components.remove(&k) {
                Some(mut s) => {
                    proof {
                        assert(s == pre.components@[k]);
                        assert(s.wf());
                    }
                    s.remove(entity.id);
                    let ghost s2 = s;
                    self.components.insert(k, s);
                    proof {
                        assert(self.components@ == pre.components@.remove(k).insert(k, s2));
                        assert(self.components@[k] == s2);
                        assert(s2.lookup(eid) is None);
                    }
                    proof {
                assert forall|k2: u64, id2: u32| k2 != k implies (#[trigger] self.component_of(
                    k2,
                    id2,
                )) == pre.component_of(k2, id2) by {}
                assert forall|k2: u64| k2 != k implies (#[trigger] self.stored(k2)) == pre.stored(
                    k2,
                ) by {}
                assert(self.component_of(k, eid) is None);
                assert forall|id2: u32| id2 != eid implies (#[trigger] self.component_of(k, id2))
                    == pre.component_of(k, id2) by {}
                assert(pre.component_of(k, eid) is None ==> self.stored(k) == pre.stored(k));
                assert forall|p: int| 0 <= p < idx + 1 implies (#[trigger] self.component_of(
                    old(self).registered@[p],
                    eid,
                )) is None by {
                    if p < idx {
                        if old(self).registered@[p] != k {
                            assert(pre.component_of(old(self).registered@[p], eid) is None);
                        }
                    }
                }
                assert(pre.stored(k) == old(self).stored(k));
                assert(pre.component_of(k, eid) == old(self).component_of(k, eid));
                assert forall|p: int|
                    idx + 1 <= p < old(self).registered@.len() implies (#[trigger] self.stored(
                    old(self).registered@[p],
                )) == old(self).stored(old(self).registered@[p]) && (#[trigger] self.component_of(
                    old(self).registered@[p],
                    eid,
                )) == old(self).component_of(old(self).registered@[p], eid) by {
                    if old(self).registered@[p] == k {
                        assert(pre.registered@[p] == pre.registered@[idx as int]);
                        assert(false);
                    } else {
                        assert(pre.stored(old(self).registered@[p]) == old(self).stored(
                            old(self).registered@[p],
                        ));
                        assert(pre.component_of(old(self).registered@[p], eid) == old(
                            self,
                        ).component_of(old(self).registered@[p], eid));
                    }
                }
                assert forall|k2: u64|
                    old(self).component_of(k2, eid) is None implies (#[trigger] self.stored(k2))
                    == old(self).stored(k2) by {
                    if k2 != k {
                        assert(self.stored(k2) == pre.stored(k2));
                    }
                }
                assert forall|k2: u64|
                    old(self).component_of(k2, eid) is Some && (#[trigger] self.component_of(
                        k2,
                        eid,
                    )) is None implies exists|i: int|
                    0 <= i < old(self).stored(k2).len() && (#[trigger] old(self).stored(k2)[i]).0
                        == eid && self.stored(k2) == old(self).stored(k2).remove(i) by {
                    if k2 == k {
                        if pre.component_of(k, eid) is Some {
                            assert(exists|i: int|
                                0 <= i < pre.stored(k).len() && (#[trigger] pre.stored(k)[i]).0
                                    == eid && s2@ == pre.stored(k).remove(i));
                            let i = choose|i: int|
                                0 <= i < pre.stored(k).len() && (#[trigger] pre.stored(k)[i]).0
                                    == eid && s2@ == pre.stored(k).remove(i);
                            assert(old(self).stored(k)[i].0 == eid);
                            assert(self.stored(k) == old(self).stored(k).remove(i));
                        } else {
                            assert(false);
                        }
                    } else {
                        assert(self.component_of(k2, eid) == pre.component_of(k2, eid));
                        assert(pre.component_of(k2, eid) is None);
                        let i = choose|i: int|
                            0 <= i < old(self).stored(k2).len() && (#[trigger] old(self).stored(
                                k2,
                            )[i]).0 == eid && pre.stored(k2) == old(self).stored(k2).remove(i);
                        assert(old(self).stored(k2)[i].0 == eid && self.stored(k2) == old(
                            self,
                        ).stored(k2).remove(i));
                    }
                }
                    }
                },
                None => {
                    proof {
                        assert(old(self).registered@.contains(old(self).registered@[idx as int]));
                        assert(false);
                    }
                },
            }
            idx += 1;
        }
        proof {
            assert forall|k: u64| (#[trigger] self.component_of(k, eid)) is None by {
                if self.components@.contains_key(k) {
                    assert(self.registered@.contains(k));
                    let p = choose|p: int|
                        0 <= p < self.registered@.len() && self.registered@[p] == k;
                    assert(self.component_of(old(self).registered@[p], eid) is None);
                }
            }
            assert forall|k: u64| old(self).component_of(k, eid) is Some implies exists|i: int|
                0 <= i < old(self).stored(k).len() && (#[trigger] old(self).stored(k)[i]).0 == eid
                    && self.stored(k) == old(self).stored(k).remove(i) by {
                assert(self.component_of(k, eid) is None);
            }
        }
    }

    /// Whether the entity with identifier `id` carries a component under
    /// every key of `keys`: the predicate a query filters by.
    pub open spec fn query_matches(self, keys: Seq<u64>, id: u32) -> bool {
        forall|j: int| 0 <= j < keys.len() ==> (#[trigger] self.component_of(keys[j], id)) is Some
    }

    /// Whether `entity` carries a component under every key of `keys`.
    pub fn entity_matches(&self, keys: &Vec<u64>, entity: Entity) -> (r: bool)
        requires
            self.wf(),
        ensures
            r == self.query_matches(keys@, entity.spec_id()),
    {
        let mut j: usize = 0;
        while j < keys.len()
            invariant
                self.wf(),
                j <= keys@.len(),
                forall|p: int|
                    0 <= p < j ==> (#[trigger] self.component_of(
                        keys@[p],
                        entity.spec_id(),
                    )) is Some,
            decreases keys@.len() - j,
        {
            if !self.has_component(keys[j], entity) {
                return false;
            }
            j += 1;
        }
        true
    }

    /// All entities carrying a component under every key of `keys`, in
    /// ascending identifier order. Every identifier from zero up to, but
    /// excluding, the spawn counter is tested.
    pub fn query(&self, keys: &Vec<u64>) -> (r: Vec<Entity>)
        requires
            self.wf(),
        ensures
            forall|i: int|
                0 <= i < r@.len() ==> (#[trigger] r@[i]).spec_id() < self.entity_count()
                    && self.query_matches(keys@, r@[i].spec_id()),
            forall|id: u32|
                id < self.entity_count() && self.query_matches(keys@, id) ==> exists|i: int|
                    0 <= i < r@.len() && (#[trigger] r@[i]).spec_id() == id,
            forall|i: int, j: int|
                0 <= i < j < r@.len() ==> (#[trigger] r@[i]).spec_id() < (
                #[trigger] r@[j]).spec_id(),
    {
        let mut out: Vec<Entity> = Vec::new();
        let mut id: u32 = 0;
        while id < self.entities
            invariant
                self.wf(),
                id <= self.entities,
                forall|i: int|
                    0 <= i < out@.len() ==> (#[trigger] out@[i]).spec_id() < id
                        && self.query_matches(keys@, out@[i].spec_id()),
                forall|id2: u32|
                    id2 < id && self.query_matches(keys@, id2) ==> exists|i: int|
                        0 <= i < out@.len() && (#[trigger] out@[i]).spec_id() == id2,
                forall|i: int, j: int|
                    0 <= i < j < out@.len() ==> (#[trigger] out@[i]).spec_id() < (
                    #[trigger] out@[j]).spec_id(),
            decreases self.entities - id,
        {
            let entity = Entity { id };
            let ghost out0 = out@;
            if self.entity_matches(keys, entity) {
                out.push(entity);
                proof {
                    assert(out@[out@.len() - 1].spec_id() == id);
                    assert forall|id2: u32|
                        id2 < id + 1 && self.query_matches(keys@, id2) implies exists|i: int|
                        0 <= i < out@.len() && (#[trigger] out@[i]).spec_id() == id2 by {
                        if id2 == id {
                            assert(out@[out@.len() - 1].spec_id() == id2);
                        } else {
                            let i = choose|i: int|
                                0 <= i < out0.len() && (#[trigger] out0[i]).spec_id() == id2;
                            assert(out@[i].spec_id() == id2);
                        }
                    }
                }
            }
            id += 1;
        }
        out
    }

    /// Attaches every component of `bundle` to `entity`, in bundle order,
    /// each through one component attachment; when the bundle names one key
    /// twice, the later value wins.
    pub fn add_bundle(&mut self, entity: Entity, bundle: Vec<(u64, C)>)
        requires
            old(self).wf(),
        ensures
            final(self).wf(),
            final(self).entity_count() == old(self).entity_count(),
            forall|k: u64|
                (#[trigger] final(self).component_of(k, entity.spec_id()))
                    == Self::bundle_outcome(bundle@, k, old(self).component_of(k, entity.spec_id())),
            forall|k: u64, id2: u32|
                id2 != entity.spec_id() ==> (#[trigger] final(self).component_of(k, id2)) == old(
                    self,
                ).component_of(k, id2),
            forall|k: u64|
                (#[trigger] final(self).stored(k)) == Self::bundle_order(
                    bundle@,
                    k,
                    entity.spec_id(),
                    old(self).stored(k),
                ),
            Self::resources_unchanged(*old(self), *final(self)),
            Self::handlers_unchanged(*old(self), *final(self)),
            Self::jobs_unchanged(*old(self), *final(self)),
    {
        let ghost orig = bundle@;
        let ghost eid = entity.spec_id();
        let mut rest = bundle;
        while rest.len() > 0
            invariant
                self.wf(),
                eid == entity.spec_id(),
                self.entity_count() == old(self).entity_count(),
                forall|k: u64|
                    Self::bundle_outcome(rest@, k, (#[trigger] self.component_of(k, eid)))
                        == Self::bundle_outcome(orig, k, old(self).component_of(k, eid)),
                forall|k: u64|
                    Self::bundle_order(rest@, k, eid, (#[trigger] self.stored(k)))
                        == Self::bundle_order(orig, k, eid, old(self).stored(k)),
                forall|k: u64, id2: u32|
                    id2 != eid ==> (#[trigger] self.component_of(k, id2)) == old(
                        self,
                    ).component_of(k, id2),
                Self::resources_unchanged(*old(self), *self),
                Self::handlers_unchanged(*old(self), *self),
                Self::jobs_unchanged(*old(self), *self),
            decreases rest@.len(),
        {
            let ghost pre = *self;
            let ghost rest0 = rest@;
            let (k, value) = rest.remove(0);
            self.add_component(k, entity, value);
            proof {
                assert(rest@ == rest0.drop_first());
                assert forall|k2: u64|
                    Self::bundle_outcome(rest@, k2, (#[trigger] self.component_of(k2, eid)))
                        == Self::bundle_outcome(orig, k2, old(self).component_of(k2, eid)) by {
                    if k2 == k {
                        assert(self.component_of(k2, eid) == Some(value));
                    } else {
                        assert(self.component_of(k2, eid) == pre.component_of(k2, eid));
                    }
                    assert(Self::bundle_outcome(rest0, k2, pre.component_of(k2, eid))
                        == Self::bundle_outcome(
                        rest0.drop_first(),
                        k2,
                        self.component_of(k2, eid),
                    ));
                }
                assert forall|k2: u64|
                    Self::bundle_order(rest@, k2, eid, (#[trigger] self.stored(k2)))
                        == Self::bundle_order(orig, k2, eid, old(self).stored(k2)) by {
                    if k2 == k {
                        pre.lemma_component_in_stored(k, eid);
                        if pre.component_of(k, eid) is None {
                            assert(self.stored(k) == pre.stored(k).push((eid, value)));
                            assert(self.stored(k) == Self::attach_order(
                                pre.stored(k),
                                eid,
                                value,
                            ));
                        } else {
                            assert(self.stored(k) =~= pre.stored(k).map(
                                (|_j: int, p: (u32, C)|
                                    if p.0 == eid {
                                        (eid, value)
                                    } else {
                                        p
                                    }),
                            ));
                            assert(self.stored(k) == Self::attach_order(
                                pre.stored(k),
                                eid,
                                value,
                            ));
                        }
                    } else {
                        assert(self.stored(k2) == pre.stored(k2));
                    }
                    assert(Self::bundle_order(rest0, k2, eid, pre.stored(k2))
                        == Self::bundle_order(rest0.drop_first(), k2, eid, self.stored(k2)));
                }
            }
        }
        proof {
            assert forall|k: u64|
                (#[trigger] self.component_of(k, eid)) == Self::bundle_outcome(
                    orig,
                    k,
                    old(self).component_of(k, eid),
                ) by {
                assert(Self::bundle_outcome(rest@, k, self.component_of(k, eid))
                    == Self::bundle_outcome(orig, k, old(self).component_of(k, eid)));
            }
            assert forall|k: u64|
                (#[trigger] self.stored(k)) == Self::bundle_order(
                    orig,
                    k,
                    eid,
                    old(self).stored(k),
                ) by {
                assert(Self::bundle_order(rest@, k, eid, self.stored(k)) == Self::bundle_order(
                    orig,
                    k,
                    eid,
                    old(self).stored(k),
                ));
            }
        }
    }

    /// The component a bundle leaves under `key` on its entity, given what
    /// was stored there before: the last bundle entry for `key` if there is
    /// one, the prior value otherwise.
    pub open spec fn bundle_outcome(bundle: Seq<(u64, C)>, key: u64, prior: Option<C>) -> Option<C>
        decreases bundle.len(),
    {
        if bundle.len() == 0 {
            prior
        } else {
            Self::bundle_outcome(
                bundle.drop_first(),
                key,
                if bundle[0].0 == key {
                    Some(bundle[0].1)
                } else {
                    prior
                },
            )
        }
    }

    /// The insertion order a key's storage shows after one attachment for
    /// `id`: overwritten in place when some position already carries the
    /// identifier, appended at the tail otherwise.
    pub open spec fn attach_order(s: Seq<(u32, C)>, id: u32, value: C) -> Seq<(u32, C)> {
        if exists|i: int| 0 <= i < s.len() && (#[trigger] s[i]).0 == id {
            s.map(
                (|_j: int, p: (u32, C)|
                    if p.0 == id {
                        (id, value)
                    } else {
                        p
                    }),
            )
        } else {
            s.push((id, value))
        }
    }

    /// The insertion order `key`'s storage shows after a whole bundle is
    /// attached for `id`, one single attachment per bundle entry, in
    /// bundle order.
    pub open spec fn bundle_order(
        bundle: Seq<(u64, C)>,
        key: u64,
        id: u32,
        prior: Seq<(u32, C)>,
    ) -> Seq<(u32, C)>
        decreases bundle.len(),
    {
        if bundle.len() == 0 {
            prior
        } else {
            Self::bundle_order(
                bundle.drop_first(),
                key,
                id,
                if bundle[0].0 == key {
                    Self::attach_order(prior, id, bundle[0].1)
                } else {
                    prior
                },
            )
        }
    }

    /// Spawns a fresh entity and attaches every component of `bundle` to
    /// it, in bundle order.
    pub fn spawn_bundle(&mut self, bundle: Vec<(u64, C)>) -> (e: Entity)
        requires
            old(self).wf(),
            old(self).entity_count() < u32::MAX,
        ensures
            final(self).wf(),
            e.spec_id() == old(self).entity_count(),
            final(self).entity_count() == old(self).entity_count() + 1,
            forall|k: u64|
                (#[trigger] final(self).component_of(k, e.spec_id())) == Self::bundle_outcome(
                    bundle@,
                    k,
                    old(self).component_of(k, e.spec_id()),
                ),
            forall|k: u64, id2: u32|
                id2 != e.spec_id() ==> (#[trigger] final(self).component_of(k, id2)) == old(
                    self,
                ).component_of(k, id2),
            forall|k: u64|
                (#[trigger] final(self).stored(k)) == Self::bundle_order(
                    bundle@,
                    k,
                    e.spec_id(),
                    old(self).stored(k),
                ),
            Self::resources_unchanged(*old(self), *final(self)),
            Self::handlers_unchanged(*old(self), *final(self)),
            Self::jobs_unchanged(*old(self), *final(self)),
    {
        let builder = self.spawn();
        let entity = builder.entity();
        self.add_bundle(entity, bundle);
        entity
    }

    /// Inserts the resource singleton for `key`, replacing any value the
    /// store already held for that key.
    pub fn add_resource(&mut self, key: u64, resource: R)
        requires
            old(self).wf(),
        ensures
            Self::add_resource_post(*old(self), *final(self), key, resource),
    {
        self.resources.insert(key, resource);
    }

    /// The resource singleton stored for `key`, if any.
    pub fn resource(&self, key: u64) -> (r: Option<&R>)
        requires
            self.wf(),
        ensures
            match r {
                Some(v) => self.resource_of(key) == Some(*v),
                None => self.resource_of(key) is None,
            },
    {
        self.resources.get(&key)
    }

    /// Mutable access to the resource singleton stored for `key`, if any.
    pub fn resource_mut(&mut self, key: u64) -> (r: Option<&mut R>)
        requires
            old(self).wf(),
        ensures
            final(self).wf(),
            final(self).entity_count() == old(self).entity_count(),
            Self::components_unchanged(*old(self), *final(self)),
            Self::handlers_unchanged(*old(self), *final(self)),
            Self::jobs_unchanged(*old(self), *final(self)),
            match r {
                Some(v) => {
                    &&& old(self).resource_of(key) == Some(*v)
                    &&& final(self).resource_of(key) == Some(*final(v))
                    &&& forall|k2: u64|
                        k2 != key ==> (#[trigger] final(self).resource_of(k2)) == old(
                            self,
                        ).resource_of(k2)
                },
                None => {
                    &&& old(self).resource_of(key) is None
                    &&& Self::resources_unchanged(*old(self), *final(self))
                },
            },
    {
        if !self.resources.contains_key(&key) {
            return None;
        }
        match self.resources.entry(key) {
            Entry::Occupied(occ) => Some(occ.into_mut()),
            Entry::Vacant(_) => {
                proof {
                    assert(false);
                }
                None
            },
        }
    }

    /// Removes and returns the resource singleton stored for `key`, leaving
    /// no resource registered for that key.
    pub fn take_resource(&mut self, key: u64) -> (r: Option<R>)
        requires
            old(self).wf(),
        ensures
            Self::take_resource_post(*old(self), *final(self), key, r),
    {
        self.resources.remove(&key)
    }

    /// Whether `entity` currently carries a component under `key`.
    pub fn has_component(&self, key: u64, entity: Entity) -> (r: bool)
        requires
            self.wf(),
        ensures
            r == (self.component_of(key, entity.spec_id()) is Some),
    {
        if let Some(storage) = self.components.get(&key) {
            storage.contains(entity.id)
        } else {
            false
        }
    }
}

impl<C, R, A, H, T> Default for World<C, R, A, H, T> {
    /// An empty world, as [`World::new`] builds it.
    fn default() -> (w: Self)
        ensures
            w.wf(),
            w.entity_count() == 0,
            forall|k: u64| (#[trigger] w.stored(k)) == Seq::<(u32, C)>::empty(),
            forall|k: u64, id: u32| (#[trigger] w.component_of(k, id)) is None,
            forall|k: u64| (#[trigger] w.resource_of(k)) is None,
            forall|k: u64| (#[trigger] w.handlers_of(k)) == Seq::<H>::empty(),
            w.jobs() == Seq::<(T, H)>::empty(),
            w.ids_bounded(),
    {
        World::new()
    }
}

/// A single-use cursor over one freshly spawned entity, letting callers
/// chain component attachments before taking the entity handle.
pub struct EntityBuilder {
    entity: Entity,
}

impl EntityBuilder {
    /// The entity this builder is bound to, as seen by specifications.
    pub closed spec fn spec_entity(self) -> Entity {
        self.entity
    }

    /// Attaches one component to the builder's entity and hands the builder
    /// back for chaining.
    pub fn with<C, R, A, H, T>(
        self,
        world: &mut World<C, R, A, H, T>,
        key: u64,
        component: C,
    ) -> (b: Self)
        requires
            old(world).wf(),
        ensures
            b == self,
            World::<C, R, A, H, T>::add_component_post(
                *old(world),
                *final(world),
                key,
                self.spec_entity().spec_id(),
                component,
            ),
    {
        world.add_component(key, self.entity, component);
        self
    }

    /// Finalizes the builder, yielding the entity handle.
    pub fn entity(&self) -> (e: Entity)
        ensures
            e == self.spec_entity(),
    {
        self.entity
    }
}

impl<C, R, A, H, T> World<C, R, A, H, T> {
    /// Appends `handler` to the ordered list of handlers registered for
    /// event key `key`, creating the list on first registration.
    pub fn add_event_handler(&mut self, key: u64, handler: H)
        requires
            old(self).wf(),
        ensures
            Self::add_event_handler_post(*old(self), *final(self), key, handler),
    {
        let mut list = match self.event_handlers.remove(&key) {
            Some(l) => l,
            None => Vec::new(),
        };
        list.push(handler);
        self.event_handlers.insert(key, list);
    }
}

impl<C, R, A, H: SystemCallback<C, R, A, T>, T: Task<A>> World<C, R, A, H, T> {
    /// Invokes `start` at once to obtain a task, then enqueues the task
    /// together with `callback` at the tail of the pending-job queue. The
    /// task itself is not polled until the next update tick.
    pub fn async_job<F: FnOnce() -> T>(&mut self, start: F, callback: H)
        requires
            old(self).wf(),
            start.requires(()),
        ensures
            final(self).wf(),
            final(self).entity_count() == old(self).entity_count(),
            final(self).jobs().len() == old(self).jobs().len() + 1,
            forall|i: int|
                0 <= i < old(self).jobs().len() ==> (#[trigger] final(self).jobs()[i]) == old(
                    self,
                ).jobs()[i],
            final(self).jobs().last().1 == callback,
            start.ensures((), final(self).jobs().last().0),
            Self::components_unchanged(*old(self), *final(self)),
            Self::resources_unchanged(*old(self), *final(self)),
            Self::handlers_unchanged(*old(self), *final(self)),
    {
        let task = start();
        self.pending.push((task, callback));
    }

    /// Settles one polled outcome, as one update tick does for each queue
    /// entry: a completed computation's callback runs at once with mutable
    /// world access and the entry is dropped; a not-ready entry is
    /// re-queued at the tail of the pending-job queue, task and callback
    /// unchanged, to be retried on the next tick.
    pub fn settle_poll(&mut self, task: T, callback: H, polled: Option<A>)
        requires
            old(self).wf(),
        ensures
            final(self).wf(),
            polled is None ==> {
                &&& final(self).jobs() == old(self).jobs().push((task, callback))
                &&& final(self).entity_count() == old(self).entity_count()
                &&& Self::components_unchanged(*old(self), *final(self))
                &&& Self::resources_unchanged(*old(self), *final(self))
                &&& Self::handlers_unchanged(*old(self), *final(self))
            },
    {
        match polled {
            Some(out) => {
                callback.call(self, &out);
            },
            None => {
                self.pending.push((task, callback));
            },
        }
    }

    /// Drains one tick: takes ownership of the whole pending-job queue,
    /// polls each task exactly once in queue order, and settles each
    /// outcome through [`Self::settle_poll`]: the callback of each
    /// completed task runs synchronously with mutable world access and the
    /// entry is dropped; every still-pending entry is re-queued in its
    /// original relative order.
    ///
    /// The contract quantifies over one outcome per entry: when no entry
    /// completes, no callback runs, so the tick is pure library behavior
    /// and the queue keeps its length and its callbacks in order while the
    /// rest of the world is untouched. Once any entry completes, its
    /// callback receives the whole world, and only well-formedness can be
    /// promised; what each single outcome does is pinned by
    /// [`Self::settle_poll`].
    pub fn update(&mut self)
        requires
            old(self).wf(),
        ensures
            final(self).wf(),
            old(self).jobs().len() == 0 ==> {
                &&& final(self).entity_count() == old(self).entity_count()
                &&& final(self).jobs() == old(self).jobs()
                &&& Self::components_unchanged(*old(self), *final(self))
                &&& Self::resources_unchanged(*old(self), *final(self))
                &&& Self::handlers_unchanged(*old(self), *final(self))
            },
            exists|completed: Seq<bool>|
                #![trigger completed.len()]
                {
                    &&& completed.len() == old(self).jobs().len()
                    &&& ((forall|i: int| 0 <= i < completed.len() ==> !(#[trigger] completed[i]))
                        ==> {
                        &&& final(self).jobs().len() == old(self).jobs().len()
                        &&& (forall|i: int|
                            0 <= i < old(self).jobs().len()
                                ==> (#[trigger] final(self).jobs()[i]).1 == old(self).jobs()[i].1)
                        &&& final(self).entity_count() == old(self).entity_count()
                        &&& Self::components_unchanged(*old(self), *final(self))
                        &&& Self::resources_unchanged(*old(self), *final(self))
                        &&& Self::handlers_unchanged(*old(self), *final(self))
                    })
                },
    {
        let mut taken: Vec<(T, H)> = Vec::new();
        core::mem::swap(&mut self.pending, &mut taken);
        let ghost mut completed = Seq::<bool>::empty();
        proof {
            if old(self).jobs().len() == 0 {
                assert(self.jobs() =~= old(self).jobs());
            }
        }
        while taken.len() > 0
            invariant
                self.wf(),
                completed.len() + taken@.len() == old(self).jobs().len(),
                forall|i: int|
                    0 <= i < taken@.len() ==> (#[trigger] taken@[i]).1 == old(self).jobs()[
                        completed.len() + i
                    ].1,
                old(self).jobs().len() == 0 ==> {
                    &&& taken@.len() == 0
                    &&& self.entity_count() == old(self).entity_count()
                    &&& self.jobs() == old(self).jobs()
                    &&& Self::components_unchanged(*old(self), *self)
                    &&& Self::resources_unchanged(*old(self), *self)
                    &&& Self::handlers_unchanged(*old(self), *self)
                },
                (forall|i: int| 0 <= i < completed.len() ==> !(#[trigger] completed[i])) ==> {
                    &&& self.jobs().len() == completed.len()
                    &&& (forall|i: int|
                        0 <= i < completed.len() ==> (#[trigger] self.jobs()[i]).1 == old(
                            self,
                        ).jobs()[i].1)
                    &&& self.entity_count() == old(self).entity_count()
                    &&& Self::components_unchanged(*old(self), *self)
                    &&& Self::resources_unchanged(*old(self), *self)
                    &&& Self::handlers_unchanged(*old(self), *self)
                },
            decreases taken@.len(),
        {
            let ghost pre = *self;
            let ghost taken0 = taken@;
            let ghost done0 = completed;
            let (mut task, callback) = taken.remove(0);
            let polled = task.poll_once();
            let ghost was_ready = polled is Some;
            self.settle_poll(task, callback, polled);
            proof {
                completed = done0.push(was_ready);
                assert(taken@ == taken0.drop_first());
                assert forall|i: int|
                    0 <= i < taken@.len() implies (#[trigger] taken@[i]).1 == old(self).jobs()[
                        completed.len() + i
                    ].1 by {
                    assert(taken0[i + 1].1 == old(self).jobs()[done0.len() + i + 1].1);
                }
                if forall|i: int| 0 <= i < completed.len() ==> !(#[trigger] completed[i]) {
                    assert(!completed[completed.len() - 1]);
                    assert forall|i: int| 0 <= i < done0.len() implies !(#[trigger] done0[i]) by {
                        assert(completed[i] == done0[i]);
                    }
                    assert(pre.jobs().len() == done0.len());
                    assert(self.jobs() == pre.jobs().push((task, callback)));
                    assert(taken0[0].1 == old(self).jobs()[done0.len() as int].1);
                    assert forall|i: int|
                        0 <= i < completed.len() implies (#[trigger] self.jobs()[i]).1 == old(
                            self,
                        ).jobs()[i].1 by {
                        if i < done0.len() {
                            assert(pre.jobs()[i].1 == old(self).jobs()[i].1);
                        }
                    }
                }
            }
        }
        proof {
            let ghost c = completed;
            assert(c.len() == old(self).jobs().len());
            if forall|i: int| 0 <= i < c.len() ==> !(#[trigger] c[i]) {
                assert(self.jobs().len() == old(self).jobs().len());
            }
        }
    }

    /// Publishes one event: the whole handler table is swapped out of the
    /// world before any handler runs, the handlers registered for `key` are
    /// invoked in registration order with mutable world access and a
    /// borrowed reference to the event, and the original table is swapped
    /// back in afterwards.
    ///
    /// The swap is a re-entrancy guard: an event published while a
    /// dispatch is in progress finds the table empty and invokes zero
    /// handlers, and handlers registered during a dispatch are discarded
    /// when the original table is restored. A publish for a key with no
    /// registered handlers leaves the world unchanged.
    pub fn on_event(&mut self, key: u64, event: A)
        requires
            old(self).wf(),
        ensures
            final(self).wf(),
            Self::handlers_unchanged(*old(self), *final(self)),
            old(self).handlers_of(key).len() == 0 ==> {
                &&& final(self).entity_count() == old(self).entity_count()
                &&& Self::components_unchanged(*old(self), *final(self))
                &&& Self::resources_unchanged(*old(self), *final(self))
                &&& Self::jobs_unchanged(*old(self), *final(self))
            },
    {
        let mut table: HashMap<u64, Vec<H>> = HashMap::new();
        core::mem::swap(&mut self.event_handlers, &mut table);
        match table.get(&key) {
            Some(handlers) => {
                let n = handlers.len();
                let mut i: usize = 0;
                while i < n
                    invariant
                        self.wf(),
                        i <= n,
                        n == handlers@.len(),
                        n == old(self).handlers_of(key).len(),
                        old(self).handlers_of(key).len() == 0 ==> {
                            &&& self.entities == old(self).entities
                            &&& self.components == old(self).components
                            &&& self.resources == old(self).resources
                            &&& self.pending == old(self).pending
                        },
                    decreases n - i,
                {
                    let handler = &handlers[i];
                    handler.call(self, &event);
                    i += 1;
                }
            },
            None => {},
        }
        core::mem::swap(&mut self.event_handlers, &mut table);
    }
}

} // verus!
