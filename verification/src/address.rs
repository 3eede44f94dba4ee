use vstd::prelude::*;

use crate::arena::Arena;
use crate::model::{spec_copy, spec_free, spec_release, spec_remove, spec_set_entity};

verus! {

/// A handle to one entity stored in an [`Arena`].
///
/// An `Address` is a plain value: the key of the entity's group, the index of
/// its slot inside that group, and the generation the slot had when the
/// handle was issued. The handle is dereferenceable exactly while the slot
/// still carries that generation; once the slot is freed the generation is
/// bumped and the handle turns permanently stale.
///
/// Copies of one logical handle share a live-reference count stored in the
/// slot itself. The arena owning the entity is passed explicitly to every
/// operation, so a handle can never outlive or dangle behind its storage.
#[derive(Clone, Debug, PartialEq, Eq, Structural)]
pub struct Address {
    /// Key of the type group the entity lives in.
    pub type_key: u64,
    /// Index of the entity's slot inside its group.
    pub index: usize,
    /// Generation the slot must still carry for this handle to be valid.
    pub generation: usize,
}

impl Address {
    /// Read the entity this handle points to. `None` means the slot has been
    /// freed since the handle was issued.
    pub fn get<'a, T>(&self, arena: &'a Arena<T>) -> (r: Option<&'a T>)
        requires
            arena@.wf(),
            arena@.has_group(self.type_key),
            self.index < arena@.group(self.type_key).slots.len(),
        ensures
            arena@.valid(*self) ==> r is Some && *r.unwrap() == arena@.entity_of(*self),
            !arena@.valid(*self) ==> r is None,
    {
        arena.get(self)
    }

    /// Borrow the entity this handle points to mutably. `None` means the slot
    /// has been freed since the handle was issued.
    pub fn get_mut<'a, T>(&self, arena: &'a mut Arena<T>) -> (r: Option<&'a mut T>)
        requires
            old(arena)@.wf(),
            old(arena)@.has_group(self.type_key),
            self.index < old(arena)@.group(self.type_key).slots.len(),
        ensures
            final(arena)@.wf(),
            old(arena)@.valid(*self) ==> r is Some && *r.unwrap() == old(arena)@.entity_of(*self)
                && final(arena)@ =~~= spec_set_entity(old(arena)@, *self, *final(r.unwrap())),
            !old(arena)@.valid(*self) ==> r is None && final(arena)@ == old(arena)@,
    {
        arena.get_mut(self)
    }

    /// Copy this handle: the new handle points at the same slot and shares
    /// the live-reference count, which is incremented while the handle is
    /// still valid.
    pub fn copy<T>(&self, arena: &mut Arena<T>) -> (r: Address)
        requires
            old(arena)@.wf(),
            old(arena)@.has_group(self.type_key),
            old(arena)@.torn(self.type_key) || self.index < old(arena)@.group(
                self.type_key,
            ).slots.len(),
        ensures
            r == *self,
            final(arena)@ == spec_copy(old(arena)@, *self),
            final(arena)@.wf(),
    {
        arena.bump_refs(self);
        Address { type_key: self.type_key, index: self.index, generation: self.generation }
    }

    /// Give up this copy of the handle: the shared live-reference count is
    /// decremented, and when the last copy is released the slot is freed
    /// (its generation is bumped and its index returns to the free stack).
    pub fn release<T>(self, arena: &mut Arena<T>)
        requires
            old(arena)@.wf(),
            old(arena)@.has_group(self.type_key),
            old(arena)@.torn(self.type_key) || self.index < old(arena)@.group(
                self.type_key,
            ).slots.len(),
            self.generation < usize::MAX,
        ensures
            final(arena)@ == spec_release(old(arena)@, self),
            final(arena)@.wf(),
    {
        arena.release_ref(&self);
    }

    /// Force-free the entity regardless of how many copies of the handle are
    /// still outstanding. The shared count is set to a sentinel and the slot
    /// is freed at once, so every outstanding copy becomes permanently stale
    /// and later releases of those copies change nothing.
    pub fn remove<T>(&self, arena: &mut Arena<T>)
        requires
            old(arena)@.wf(),
            old(arena)@.has_group(self.type_key),
            old(arena)@.torn(self.type_key) || self.index < old(arena)@.group(
                self.type_key,
            ).slots.len(),
            self.generation < usize::MAX,
        ensures
            final(arena)@ == spec_remove(old(arena)@, *self),
            final(arena)@.wf(),
    {
        arena.force_free(self);
    }
}

} // verus!
