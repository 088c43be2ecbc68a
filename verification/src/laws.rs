use vstd::prelude::*;
use crate::world::World;

verus! {

/// A freshly spawned entity carries no component under any key, as long as
/// every identifier stored in the world was handed out by its own spawn
/// counter: its identifier equals the old counter value, which no storage
/// can contain yet.
pub proof fn law_fresh_entity_has_no_component<C, R, A, H, T>(
    pre: World<C, R, A, H, T>,
    post: World<C, R, A, H, T>,
    id: u32,
    key: u64,
)
    requires
        pre.wf(),
        pre.ids_bounded(),
        World::spawn_post(pre, post, id),
    ensures
        post.component_of(key, id) is None,
{
    pre.lemma_component_in_stored(key, id);
    if pre.component_of(key, id) is Some {
        let i = choose|i: int|
            0 <= i < pre.stored(key).len() && (#[trigger] pre.stored(key)[i]).0 == id;
        assert(pre.stored(key)[i].0 < pre.entity_count());
    }
    assert(post.component_of(key, id) == pre.component_of(key, id));
}

/// Attaching a component makes the presence check true at once: right
/// after the attachment, the entity carries a component under that key.
pub proof fn law_component_present_after_add<C, R, A, H, T>(
    pre: World<C, R, A, H, T>,
    post: World<C, R, A, H, T>,
    key: u64,
    id: u32,
    value: C,
)
    requires
        World::add_component_post(pre, post, key, id, value),
    ensures
        post.component_of(key, id) is Some,
{
}

/// Round trip: after attaching a component, looking the same key and
/// entity up yields exactly the attached value.
pub proof fn law_component_round_trip<C, R, A, H, T>(
    pre: World<C, R, A, H, T>,
    post: World<C, R, A, H, T>,
    key: u64,
    id: u32,
    value: C,
)
    requires
        World::add_component_post(pre, post, key, id, value),
    ensures
        post.component_of(key, id) == Some(value),
{
}

/// Overwrite: attaching twice under one key leaves exactly one component
/// for the entity in that key's storage, and it is the second value.
pub proof fn law_component_overwrite<C, R, A, H, T>(
    w0: World<C, R, A, H, T>,
    w1: World<C, R, A, H, T>,
    w2: World<C, R, A, H, T>,
    key: u64,
    id: u32,
    v1: C,
    v2: C,
)
    requires
        World::add_component_post(w0, w1, key, id, v1),
        World::add_component_post(w1, w2, key, id, v2),
    ensures
        w2.component_of(key, id) == Some(v2),
        exists|i: int|
            0 <= i < w2.stored(key).len() && (#[trigger] w2.stored(key)[i]).0 == id && w2.stored(
                key,
            )[i].1 == v2,
        forall|i: int, j: int|
            0 <= i < j < w2.stored(key).len() ==> (#[trigger] w2.stored(key)[i]).0 != (
            #[trigger] w2.stored(key)[j]).0,
{
    w2.lemma_component_in_stored(key, id);
    w2.lemma_stored_distinct(key);
    let i = choose|i: int|
        0 <= i < w2.stored(key).len() && (#[trigger] w2.stored(key)[i]).0 == id;
    assert(w2.component_of(key, id) == Some(w2.stored(key)[i].1));
}

/// Spawning keeps every stored identifier below the counter: the storages
/// are untouched while the counter grows.
pub proof fn law_ids_bounded_after_spawn<C, R, A, H, T>(
    pre: World<C, R, A, H, T>,
    post: World<C, R, A, H, T>,
    id: u32,
)
    requires
        pre.ids_bounded(),
        World::spawn_post(pre, post, id),
    ensures
        post.ids_bounded(),
{
    assert forall|k: u64, i: int| 0 <= i < post.stored(k).len() implies (#[trigger] post.stored(
        k,
    )[i]).0 < post.entity_count() by {
        assert(post.stored(k) == pre.stored(k));
    }
}

/// Attaching a component to an entity this world spawned keeps every
/// stored identifier below the counter.
pub proof fn law_ids_bounded_after_add<C, R, A, H, T>(
    pre: World<C, R, A, H, T>,
    post: World<C, R, A, H, T>,
    key: u64,
    id: u32,
    value: C,
)
    requires
        pre.ids_bounded(),
        id < pre.entity_count(),
        World::add_component_post(pre, post, key, id, value),
    ensures
        post.ids_bounded(),
{
    assert forall|k: u64, i: int| 0 <= i < post.stored(k).len() implies (#[trigger] post.stored(
        k,
    )[i]).0 < post.entity_count() by {
        if k != key {
            assert(post.stored(k) == pre.stored(k));
        } else {
            if pre.component_of(key, id) is None {
                assert(post.stored(key) == pre.stored(key).push((id, value)));
                if i < pre.stored(key).len() {
                    assert(pre.stored(key)[i].0 < pre.entity_count());
                }
            } else {
                if pre.stored(key)[i].0 == id {
                    assert(post.stored(key)[i] == (id, value));
                } else {
                    assert(post.stored(key)[i] == pre.stored(key)[i]);
                }
            }
        }
    }
}

/// Replace then take: inserting a resource twice under one key keeps only
/// the second value; taking it yields that value and leaves the slot
/// empty.
pub proof fn law_resource_replace_take<C, R, A, H, T>(
    w0: World<C, R, A, H, T>,
    w1: World<C, R, A, H, T>,
    w2: World<C, R, A, H, T>,
    w3: World<C, R, A, H, T>,
    key: u64,
    v1: R,
    v2: R,
    taken: Option<R>,
)
    requires
        World::add_resource_post(w0, w1, key, v1),
        World::add_resource_post(w1, w2, key, v2),
        World::take_resource_post(w2, w3, key, taken),
    ensures
        w2.resource_of(key) == Some(v2),
        taken == Some(v2),
        w3.resource_of(key) is None,
{
}

/// Registration order is kept: after registering two handlers for one
/// event key, they stand in the handler list in that order, and dispatch
/// walks that list from the front.
pub proof fn law_handler_registration_order<C, R, A, H, T>(
    w0: World<C, R, A, H, T>,
    w1: World<C, R, A, H, T>,
    w2: World<C, R, A, H, T>,
    key: u64,
    h1: H,
    h2: H,
)
    requires
        World::add_event_handler_post(w0, w1, key, h1),
        World::add_event_handler_post(w1, w2, key, h2),
    ensures
        w2.handlers_of(key).len() == w0.handlers_of(key).len() + 2,
        w2.handlers_of(key)[w0.handlers_of(key).len() as int] == h1,
        w2.handlers_of(key)[w0.handlers_of(key).len() as int + 1] == h2,
        forall|i: int|
            0 <= i < w0.handlers_of(key).len() ==> (#[trigger] w2.handlers_of(key)[i])
                == w0.handlers_of(key)[i],
{
}

/// Destruction clears the entity completely: afterwards it carries no
/// component under any key, while every other entity is untouched.
pub proof fn law_destroy_clears_components<C, R, A, H, T>(
    pre: World<C, R, A, H, T>,
    post: World<C, R, A, H, T>,
    id: u32,
    key: u64,
    other: u32,
)
    requires
        World::destroy_post(pre, post, id),
        other != id,
    ensures
        post.component_of(key, id) is None,
        post.component_of(key, other) == pre.component_of(key, other),
{
}

/// Destroying keeps every stored identifier below the counter: storages
/// only shrink, and the counter is not touched.
pub proof fn law_ids_bounded_after_destroy<C, R, A, H, T>(
    pre: World<C, R, A, H, T>,
    post: World<C, R, A, H, T>,
    id: u32,
)
    requires
        pre.ids_bounded(),
        World::destroy_post(pre, post, id),
    ensures
        post.ids_bounded(),
{
    assert forall|k: u64, i: int| 0 <= i < post.stored(k).len() implies (#[trigger] post.stored(
        k,
    )[i]).0 < post.entity_count() by {
        if pre.component_of(k, id) is None {
            assert(post.stored(k) == pre.stored(k));
            assert(pre.stored(k)[i].0 < pre.entity_count());
        } else {
            let j = choose|j: int|
                0 <= j < pre.stored(k).len() && (#[trigger] pre.stored(k)[j]).0 == id
                    && post.stored(k) == pre.stored(k).remove(j);
            pre.stored(k).remove_ensures(j);
            if i < j {
                assert(post.stored(k)[i] == pre.stored(k)[i]);
                assert(pre.stored(k)[i].0 < pre.entity_count());
            } else {
                assert(post.stored(k)[i] == pre.stored(k)[i + 1]);
                assert(pre.stored(k)[i + 1].0 < pre.entity_count());
            }
        }
    }
}

} // verus!
