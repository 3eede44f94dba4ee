use vstd::prelude::*;

use crate::address::Address;
use crate::laws::lemma_wf_preserved;
use crate::model::{
    lemma_group_index_of, spec_allocate, spec_copy, spec_free, spec_release, spec_remove,
    spec_set_entity, spec_teardown, ArenaView, GroupView, Op, SlotView,
};

verus! {

/// Capacity hint used by [`Arena::default`]: every type group created by a
/// default arena starts with room for this many slots.
pub const DEFAULT_CAPACITY: usize = 16;

/// One storage cell: the generation counter, the live-reference count shared
/// by all copies of the handle issued for the current tenant, and the entity.
struct Slot<T> {
    generation: usize,
    refs: i64,
    entity: T,
}

/// The slot array for one type key, together with the stack of freed indexes
/// that are available for reuse.
struct TypeGroup<T> {
    type_key: u64,
    slots: Vec<Slot<T>>,
    free_indexes: Vec<usize>,
}

/// The allocator: a registry of type groups keyed by a caller-chosen type
/// key, the capacity hint new groups are created with, and the record of
/// keys whose groups have been torn down.
///
/// All entity storage is owned here; handles ([`Address`]) carry only a key,
/// an index and an expected generation, and every handle operation takes the
/// arena as an explicit argument.
pub struct Arena<T> {
    groups: Vec<TypeGroup<T>>,
    capacity: usize,
    torn_down: Vec<u64>,
}

impl<T> View for Slot<T> {
    type V = SlotView<T>;

    closed spec fn view(&self) -> SlotView<T> {
        SlotView { generation: self.generation, refs: self.refs, entity: self.entity }
    }
}

impl<T> View for TypeGroup<T> {
    type V = GroupView<T>;

    closed spec fn view(&self) -> GroupView<T> {
        GroupView {
            type_key: self.type_key,
            slots: Seq::new(self.slots@.len(), |i: int| self.slots@[i]@),
            free: self.free_indexes@,
        }
    }
}

impl<T> View for Arena<T> {
    type V = ArenaView<T>;

    closed spec fn view(&self) -> ArenaView<T> {
        ArenaView {
            groups: Seq::new(self.groups@.len(), |i: int| self.groups@[i]@),
            torn_down: self.torn_down@.to_set(),
            capacity: self.capacity,
        }
    }
}

impl<T> Arena<T> {
    /// Create an empty arena. `capacity` is only a pre-sizing hint: every
    /// type group created later reserves room for that many slots up front.
    pub fn new(capacity: usize) -> (a: Arena<T>)
        ensures
            a@.wf(),
            a@.groups == Seq::<GroupView<T>>::empty(),
            a@.torn_down == Set::<u64>::empty(),
            a@.capacity == capacity,
    {
        let a = Arena { groups: Vec::new(), capacity, torn_down: Vec::new() };
        proof {
            assert(a@.groups =~= Seq::<GroupView<T>>::empty());
            assert(a@.torn_down =~= Set::<u64>::empty());
        }
        a
    }

    /// Whether the group registered under `key` has been torn down.
    fn torn_contains(&self, key: u64) -> (b: bool)
        ensures
            b == self@.torn(key),
    {
        let n = self.torn_down.len();
        let mut i: usize = 0;
        while i < n
            invariant
                i <= n,
                n == self.torn_down@.len(),
                forall|j: int| 0 <= j < i ==> self.torn_down@[j] != key,
            decreases n - i,
        {
            if self.torn_down[i] == key {
                proof {
                    assert(self@.torn_down.contains(key));
                }
                return true;
            }
            i += 1;
        }
        proof {
            assert(!self.torn_down@.contains(key));
            assert(!self@.torn_down.contains(key));
        }
        false
    }

    /// Position of the group registered under `key`, if any.
    fn find_group_index(&self, key: u64) -> (r: Option<usize>)
        requires
            self@.wf(),
        ensures
            match r {
                Some(i) => self@.has_group(key) && i < self@.groups.len() && self@.group_index(key)
                    == i && self@.groups[i as int].type_key == key,
                None => !self@.has_group(key),
            },
    {
        let n = self.groups.len();
        let mut i: usize = 0;
        while i < n
            invariant
                i <= n,
                n == self@.groups.len(),
                self@.wf(),
                forall|j: int| 0 <= j < i ==> (#[trigger] self@.groups[j]).type_key != key,
            decreases n - i,
        {
            if self.groups[i].type_key == key {
                proof {
                    assert(self@.groups[i as int].type_key == key);
                    lemma_group_index_of(self@, key, i as int);
                }
                return Some(i);
            }
            proof {
                assert(self@.groups[i as int].type_key != key);
            }
            i += 1;
        }
        proof {
            assert forall|j: int| 0 <= j < self@.groups.len() implies (
            #[trigger] self@.groups[j]).type_key != key by {}
        }
        None
    }

    /// Read the entity behind handle `h`: returns it exactly when the slot
    /// still carries the generation the handle expects, and `None` once the
    /// slot has been freed (and possibly reused) since the handle was issued.
    pub fn get<'a>(&'a self, h: &Address) -> (r: Option<&'a T>)
        requires
            self@.wf(),
            self@.has_group(h.type_key),
            h.index < self@.group(h.type_key).slots.len(),
        ensures
            self@.valid(*h) ==> r is Some && *r.unwrap() == self@.entity_of(*h),
            !self@.valid(*h) ==> r is None,
    {
        let gi = self.find_group_index(h.type_key).unwrap();
        let slot = &self.groups[gi].slots[h.index];
        proof {
            assert(slot@ == self@.group(h.type_key).slots[h.index as int]);
        }
        if slot.generation == h.generation {
            Some(&slot.entity)
        } else {
            None
        }
    }

    /// Borrow the entity behind handle `h` mutably, under the same validity
    /// check as [`Arena::get`]. Through the returned reference only that
    /// slot's entity can change; generations, reference counts, free stacks
    /// and all other groups stay exactly as they were.
    pub fn get_mut<'a>(&'a mut self, h: &Address) -> (r: Option<&'a mut T>)
        requires
            old(self)@.wf(),
            old(self)@.has_group(h.type_key),
            h.index < old(self)@.group(h.type_key).slots.len(),
        ensures
            old(self)@.valid(*h) ==> r is Some && *r.unwrap() == old(self)@.entity_of(*h)
                && final(self)@ =~~= spec_set_entity(old(self)@, *h, *final(r.unwrap()))
                && final(self)@.wf(),
            !old(self)@.valid(*h) ==> r is None && final(self)@ == old(self)@
                && final(self)@.wf(),
    {
        let gi = self.find_group_index(h.type_key).unwrap();
        if self.groups[gi].slots[h.index].generation == h.generation {
            proof {
                assert forall|e2: T| #[trigger] spec_set_entity(self@, *h, e2).wf() by {
                    lemma_wf_preserved(self@, Op::SetEntity { h: *h, value: e2 });
                }
                lemma_group_index_of(self@, h.type_key, gi as int);
            }
            let e = &mut self.groups[gi].slots[h.index].entity;
            Some(e)
        } else {
            None
        }
    }

    /// Allocate `value` under `type_key` and return a fresh handle with a
    /// live-reference count of one. The first use of a key registers a new
    /// group; a freed index is reused (keeping the slot's already-bumped
    /// generation) when one is available, and otherwise a new slot with
    /// generation zero is appended. Allocation always succeeds.
    pub fn allocate(&mut self, type_key: u64, value: T) -> (h: Address)
        requires
            old(self)@.wf(),
        ensures
            final(self)@ == spec_allocate(old(self)@, type_key, value).0,
            h == spec_allocate(old(self)@, type_key, value).1,
            final(self)@.wf(),
            h.type_key == type_key,
            final(self)@.valid(h),
            final(self)@.entity_of(h) == value,
            final(self)@.refs_of(h) == 1,
    {
        let ghost v0 = self@;
        let gi: usize;
        match self.find_group_index(type_key) {
            Some(i) => {
                gi = i;
            },
            None => {
                gi = self.groups.len();
                let group = TypeGroup {
                    type_key,
                    slots: Vec::with_capacity(self.capacity),
                    free_indexes: Vec::new(),
                };
                self.groups.push(group);
            },
        }
        let group = &mut self.groups[gi];
        let h: Address;
        match group.free_indexes.pop() {
            Some(idx) => {
                proof {
                    assert(v0.group(type_key).free.last() == idx);
                    assert(idx < v0.group(type_key).slots.len());
                }
                let gen = group.slots[idx].generation;
                group.slots[idx] = Slot { generation: gen, refs: 1, entity: value };
                h = Address { type_key, index: idx, generation: gen };
            },
            None => {
                let idx = group.slots.len();
                group.slots.push(Slot { generation: 0, refs: 1, entity: value });
                h = Address { type_key, index: idx, generation: 0 };
            },
        }
        proof {
            let v1 = self@;
            let vs = spec_allocate(v0, type_key, value).0;
            assert forall|i: int| 0 <= i < v1.groups.len() implies v1.groups[i] =~~= vs.groups[i]
            by {
                if i != gi {
                    assert(v1.groups[i] =~~= vs.groups[i]);
                } else {
                    assert(v1.groups[i].slots =~~= vs.groups[i].slots);
                    assert(v1.groups[i] =~~= vs.groups[i]);
                }
            }
            assert(v1 =~~= vs);
            assert(h == spec_allocate(v0, type_key, value).1);
            lemma_wf_preserved(v0, Op::Allocate { key: type_key, value });
            assert(v1.wf());
            assert(v1.groups[gi as int].type_key == type_key);
            lemma_group_index_of(v1, type_key, gi as int);
            assert(v1.groups[gi as int].slots[h.index as int] == SlotView {
                generation: h.generation,
                refs: 1i64,
                entity: value,
            });
            assert(v1.valid(h));
        }
        h
    }

    /// Free the slot behind handle `h`: its index returns to the free stack
    /// and its generation is bumped by one, so every handle expecting the
    /// old generation becomes stale. A no-op when the group has been torn
    /// down, and when the slot's generation no longer matches the handle
    /// (already freed), so freeing is idempotent.
    pub fn free(&mut self, h: &Address)
        requires
            old(self)@.wf(),
            old(self)@.has_group(h.type_key),
            old(self)@.torn(h.type_key) || h.index < old(self)@.group(h.type_key).slots.len(),
            h.generation < usize::MAX,
        ensures
            final(self)@ == spec_free(old(self)@, *h),
            final(self)@.wf(),
    {
        let ghost v0 = self@;
        proof {
            lemma_wf_preserved(v0, Op::Free { h: *h });
        }
        if self.torn_contains(h.type_key) {
            return ;
        }
        let gi = self.find_group_index(h.type_key).unwrap();
        let group = &mut self.groups[gi];
        let gen = group.slots[h.index].generation;
        if gen == h.generation {
            group.free_indexes.push(h.index);
            let slot = &mut group.slots[h.index];
            slot.generation = gen + 1;
        }
        proof {
            let v1 = self@;
            let vs = spec_free(v0, *h);
            assert forall|i: int| 0 <= i < v1.groups.len() implies v1.groups[i] =~~= vs.groups[i]
            by {
                if i == gi && v0.valid(*h) {
                    assert(v1.groups[i].slots =~~= vs.groups[i].slots);
                }
                assert(v1.groups[i] =~~= vs.groups[i]);
            }
            assert(v1 =~~= vs);
        }
    }

    /// Tear the group under `type_key` down: its storage is emptied and the
    /// key is recorded, permanently, as torn down, so that later frees
    /// through surviving handles are safe no-ops instead of reaching into
    /// destroyed storage. Tearing down a key with no group changes nothing.
    pub fn teardown_group(&mut self, type_key: u64)
        requires
            old(self)@.wf(),
        ensures
            final(self)@ == spec_teardown(old(self)@, type_key),
            final(self)@.wf(),
    {
        let ghost v0 = self@;
        proof {
            lemma_wf_preserved(v0, Op::Teardown { key: type_key });
        }
        match self.find_group_index(type_key) {
            None => {},
            Some(gi) => {
                let group = &mut self.groups[gi];
                group.slots.clear();
                group.free_indexes.clear();
                self.torn_down.push(type_key);
                proof {
                    let v1 = self@;
                    let vs = spec_teardown(v0, type_key);
                    let t0 = old(self).torn_down@;
                    let t1 = self.torn_down@;
                    assert(t1 == t0.push(type_key));
                    assert forall|k2: u64| t1.to_set().contains(k2) == t0.to_set().insert(
                        type_key,
                    ).contains(k2) by {
                        if t1.contains(k2) {
                            let i = choose|i: int| 0 <= i < t1.len() && t1[i] == k2;
                            if i < t0.len() {
                                assert(t0[i] == k2);
                                assert(t0.contains(k2));
                            } else {
                                assert(k2 == type_key);
                            }
                        }
                        if t0.contains(k2) {
                            let i = choose|i: int| 0 <= i < t0.len() && t0[i] == k2;
                            assert(t1[i] == k2);
                            assert(t1.contains(k2));
                        }
                        if k2 == type_key {
                            assert(t1[t0.len() as int] == type_key);
                            assert(t1.contains(k2));
                        }
                    }
                    assert(v1.torn_down =~= vs.torn_down);
                    assert forall|i: int| 0 <= i < v1.groups.len() implies v1.groups[i]
                        =~~= vs.groups[i] by {
                        if i == gi {
                            assert(v1.groups[i].slots =~~= vs.groups[i].slots);
                        }
                        assert(v1.groups[i] =~~= vs.groups[i]);
                    }
                    assert(v1 =~~= vs);
                }
            },
        }
    }

    /// Increment the live-reference count behind `h` while the handle is
    /// valid and its group is not torn down; a no-op on stale handles.
    pub(crate) fn bump_refs(&mut self, h: &Address)
        requires
            old(self)@.wf(),
            old(self)@.has_group(h.type_key),
            old(self)@.torn(h.type_key) || h.index < old(self)@.group(h.type_key).slots.len(),
        ensures
            final(self)@ == spec_copy(old(self)@, *h),
            final(self)@.wf(),
    {
        let ghost v0 = self@;
        proof {
            lemma_wf_preserved(v0, Op::Copy { h: *h });
        }
        if self.torn_contains(h.type_key) {
            return ;
        }
        let gi = self.find_group_index(h.type_key).unwrap();
        let group = &mut self.groups[gi];
        let slot = &mut group.slots[h.index];
        if slot.generation == h.generation && slot.refs >= 1 && slot.refs < i64::MAX {
            slot.refs = slot.refs + 1;
        }
        proof {
            let v1 = self@;
            let vs = spec_copy(v0, *h);
            assert forall|i: int| 0 <= i < v1.groups.len() implies v1.groups[i] =~~= vs.groups[i]
            by {
                if i == gi {
                    assert(v1.groups[i].slots =~~= vs.groups[i].slots);
                }
                assert(v1.groups[i] =~~= vs.groups[i]);
            }
            assert(v1 =~~= vs);
        }
    }

    /// Decrement the live-reference count behind `h` while the handle is
    /// valid; the release that brings the count to zero frees the slot.
    pub(crate) fn release_ref(&mut self, h: &Address)
        requires
            old(self)@.wf(),
            old(self)@.has_group(h.type_key),
            old(self)@.torn(h.type_key) || h.index < old(self)@.group(h.type_key).slots.len(),
            h.generation < usize::MAX,
        ensures
            final(self)@ == spec_release(old(self)@, *h),
            final(self)@.wf(),
    {
        let ghost v0 = self@;
        proof {
            lemma_wf_preserved(v0, Op::Release { h: *h });
        }
        if self.torn_contains(h.type_key) {
            return ;
        }
        let gi = self.find_group_index(h.type_key).unwrap();
        let group = &mut self.groups[gi];
        let gen = group.slots[h.index].generation;
        let refs = group.slots[h.index].refs;
        if gen == h.generation && refs >= 1 {
            if refs == 1 {
                group.free_indexes.push(h.index);
                let slot = &mut group.slots[h.index];
                slot.refs = 0;
                slot.generation = gen + 1;
            } else {
                let slot = &mut group.slots[h.index];
                slot.refs = refs - 1;
            }
        }
        proof {
            let v1 = self@;
            let vs = spec_release(v0, *h);
            assert forall|i: int| 0 <= i < v1.groups.len() implies v1.groups[i] =~~= vs.groups[i]
            by {
                if i == gi {
                    assert(v1.groups[i].slots =~~= vs.groups[i].slots);
                }
                assert(v1.groups[i] =~~= vs.groups[i]);
            }
            assert(v1 =~~= vs);
        }
    }

    /// Force-free the slot behind `h` while the handle is valid: the count
    /// is set to the sentinel `-1` and the slot is freed at once, whatever
    /// the count was; a no-op on stale handles and torn-down groups.
    pub(crate) fn force_free(&mut self, h: &Address)
        requires
            old(self)@.wf(),
            old(self)@.has_group(h.type_key),
            old(self)@.torn(h.type_key) || h.index < old(self)@.group(h.type_key).slots.len(),
            h.generation < usize::MAX,
        ensures
            final(self)@ == spec_remove(old(self)@, *h),
            final(self)@.wf(),
    {
        let ghost v0 = self@;
        proof {
            lemma_wf_preserved(v0, Op::Remove { h: *h });
        }
        if self.torn_contains(h.type_key) {
            return ;
        }
        let gi = self.find_group_index(h.type_key).unwrap();
        let group = &mut self.groups[gi];
        let gen = group.slots[h.index].generation;
        if gen == h.generation {
            group.free_indexes.push(h.index);
            let slot = &mut group.slots[h.index];
            slot.refs = -1;
            slot.generation = gen + 1;
        }
        proof {
            let v1 = self@;
            let vs = spec_remove(v0, *h);
            assert forall|i: int| 0 <= i < v1.groups.len() implies v1.groups[i] =~~= vs.groups[i]
            by {
                if i == gi {
                    assert(v1.groups[i].slots =~~= vs.groups[i].slots);
                }
                assert(v1.groups[i] =~~= vs.groups[i]);
            }
            assert(v1 =~~= vs);
        }
    }
}

impl<T> Default for Arena<T> {
    /// An arena whose type groups are pre-sized to [`DEFAULT_CAPACITY`].
    fn default() -> (a: Arena<T>)
        ensures
            a@.wf(),
            a@.groups == Seq::<GroupView<T>>::empty(),
            a@.torn_down == Set::<u64>::empty(),
            a@.capacity == DEFAULT_CAPACITY,
    {
        Arena::new(DEFAULT_CAPACITY)
    }
}

} // verus!
