//! An entity-component runtime: a data-management substrate that lets
//! independent pieces of per-object state ("components") be attached to
//! lightweight handles ("entities"), looked up by a caller-chosen type key,
//! iterated in bulk, and composed with process-wide singletons ("resources"),
//! deferred asynchronous jobs, and a keyed event bus.

mod laws;
mod runtime;
mod shader;
mod sparse_vec;
mod world;

pub use laws::{law_component_overwrite, law_destroy_clears_components, law_ids_bounded_after_destroy, law_component_present_after_add, law_component_round_trip, law_fresh_entity_has_no_component, law_handler_registration_order, law_ids_bounded_after_add, law_ids_bounded_after_spawn, law_resource_replace_take};
pub use runtime::{SystemCallback, SystemCallbackWrapper, Task};
pub use shader::{le_word, Shader, ShaderBinding, ShaderBindingType};
pub use sparse_vec::SparseVec;
pub use world::{Component, Entity, EntityBuilder, World};
