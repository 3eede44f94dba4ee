//! A typed generational arena allocator.
//!
//! One [`Arena`] stores many entities in contiguous per-group slot arrays and
//! hands out lightweight [`Address`] handles instead of references. Each slot
//! carries a generation counter that is bumped whenever the slot is freed, so
//! a handle to a freed slot is detectably stale (`get` returns `None`) rather
//! than a dangling reference.
//!
//! Entities are grouped by a caller-chosen `u64` type key; groups are
//! independent of each other, so freeing entities under one key never
//! disturbs the slots, generations or free lists of another key.
//!
//! Handles are reference counted inside their slot: [`Address::copy`]
//! increments the shared count, [`Address::release`] decrements it and frees
//! the slot when the last copy is released, and [`Address::remove`]
//! force-frees the slot at once, leaving every outstanding copy stale.

mod address;
mod arena;
mod laws;
mod model;

pub use address::Address;
pub use arena::{Arena, DEFAULT_CAPACITY};
pub use model::{
    ArenaView, GroupView, Op, SlotView, apply, copy_n, release_n, spec_allocate, spec_copy,
    spec_free, spec_release, spec_remove, spec_set_entity, spec_teardown,
};
pub use laws::{
    lemma_force_free_supersedes_sharing, lemma_free_then_allocate_reuses,
    lemma_generation_monotonic, lemma_heterogeneous_isolation, lemma_reference_count_symmetry,
    lemma_stale_detection, lemma_wf_preserved, released,
};
