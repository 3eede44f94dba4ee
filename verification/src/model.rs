use vstd::prelude::*;

use crate::address::Address;

verus! {

/// Mathematical view of one storage cell: the generation the slot currently
/// carries, the live-reference count shared by all copies of the handle that
/// was issued for the slot's current tenant, and the entity itself.
#[verifier::ext_equal]
pub ghost struct SlotView<T> {
    pub generation: usize,
    pub refs: i64,
    pub entity: T,
}

/// Mathematical view of one type group: the slot sequence and the stack of
/// freed indexes available for reuse, tagged with the group's type key.
#[verifier::ext_equal]
pub ghost struct GroupView<T> {
    pub type_key: u64,
    pub slots: Seq<SlotView<T>>,
    pub free: Seq<usize>,
}

/// Mathematical view of the whole arena: the registry of groups, the set of
/// keys whose groups have been torn down, and the capacity hint used when a
/// new group is created.
#[verifier::ext_equal]
pub ghost struct ArenaView<T> {
    pub groups: Seq<GroupView<T>>,
    pub torn_down: Set<u64>,
    pub capacity: usize,
}

impl<T> ArenaView<T> {
    /// There is a group registered under `key`.
    pub open spec fn has_group(self, key: u64) -> bool {
        exists|i: int| 0 <= i < self.groups.len() && self.groups[i].type_key == key
    }

    /// Position of the group registered under `key` in the registry.
    pub open spec fn group_index(self, key: u64) -> int {
        choose|i: int| 0 <= i < self.groups.len() && self.groups[i].type_key == key
    }

    /// The group registered under `key`.
    pub open spec fn group(self, key: u64) -> GroupView<T>
        recommends
            self.has_group(key),
    {
        self.groups[self.group_index(key)]
    }

    /// The group registered under `key` has been torn down.
    pub open spec fn torn(self, key: u64) -> bool {
        self.torn_down.contains(key)
    }

    /// No two groups share a type key, so each key names one group.
    pub open spec fn keys_unique(self) -> bool {
        forall|i: int, j: int|
            0 <= i < self.groups.len() && 0 <= j < self.groups.len() && i != j
                ==> (#[trigger] self.groups[i]).type_key != (#[trigger] self.groups[j]).type_key
    }

    /// Every index on a free stack points into its group's slot sequence.
    pub open spec fn free_indexes_in_range(self) -> bool {
        forall|i: int, k: int|
            0 <= i < self.groups.len() && 0 <= k < (#[trigger] self.groups[i]).free.len()
                ==> #[trigger] self.groups[i].free[k] < self.groups[i].slots.len()
    }

    /// Well-formedness of the arena state.
    pub open spec fn wf(self) -> bool {
        self.keys_unique() && self.free_indexes_in_range()
    }

    /// The handle is valid: its slot exists and still carries the generation
    /// the handle expects. `get` succeeds exactly on valid handles.
    pub open spec fn valid(self, h: Address) -> bool {
        &&& self.has_group(h.type_key)
        &&& h.index < self.group(h.type_key).slots.len()
        &&& self.group(h.type_key).slots[h.index as int].generation == h.generation
    }

    /// The entity stored in the slot the handle points to.
    pub open spec fn entity_of(self, h: Address) -> T
        recommends
            self.valid(h),
    {
        self.group(h.type_key).slots[h.index as int].entity
    }

    /// The live-reference count stored in the slot the handle points to.
    pub open spec fn refs_of(self, h: Address) -> i64
        recommends
            self.has_group(h.type_key),
            h.index < self.group(h.type_key).slots.len(),
    {
        self.group(h.type_key).slots[h.index as int].refs
    }

    /// This arena with the group under `key` replaced by `g`.
    pub open spec fn with_group(self, key: u64, g: GroupView<T>) -> ArenaView<T>
        recommends
            self.has_group(key),
    {
        ArenaView { groups: self.groups.update(self.group_index(key), g), ..self }
    }

    /// This arena with the slot `h` points to replaced by `s`.
    pub open spec fn with_slot(self, h: Address, s: SlotView<T>) -> ArenaView<T>
        recommends
            self.has_group(h.type_key),
            h.index < self.group(h.type_key).slots.len(),
    {
        let g = self.group(h.type_key);
        self.with_group(
            h.type_key,
            GroupView { slots: g.slots.update(h.index as int, s), ..g },
        )
    }
}

/// Effect of allocating `value` under `key`: the first use of a key registers
/// a fresh group; a group with a non-empty free stack reuses its top index,
/// keeping that slot's (already bumped) generation; otherwise a new slot with
/// generation zero is appended. The new slot's reference count is one, and
/// the returned handle carries the slot's generation.
pub open spec fn spec_allocate<T>(v: ArenaView<T>, key: u64, value: T) -> (ArenaView<T>, Address) {
    if !v.has_group(key) {
        let g = GroupView {
            type_key: key,
            slots: seq![SlotView { generation: 0, refs: 1, entity: value }],
            free: Seq::empty(),
        };
        (
            ArenaView { groups: v.groups.push(g), ..v },
            Address { type_key: key, index: 0, generation: 0 },
        )
    } else {
        let g = v.group(key);
        if g.free.len() > 0 {
            let idx = g.free.last();
            let gen = g.slots[idx as int].generation;
            let g2 = GroupView {
                slots: g.slots.update(
                    idx as int,
                    SlotView { generation: gen, refs: 1, entity: value },
                ),
                free: g.free.drop_last(),
                ..g
            };
            (v.with_group(key, g2), Address { type_key: key, index: idx, generation: gen })
        } else {
            let g2 = GroupView {
                slots: g.slots.push(SlotView { generation: 0, refs: 1, entity: value }),
                ..g
            };
            (
                v.with_group(key, g2),
                Address { type_key: key, index: g.slots.len() as usize, generation: 0 },
            )
        }
    }
}

/// Effect of freeing through handle `h`: a no-op if the group has been torn
/// down or the handle is stale; otherwise the index goes onto the free stack
/// and the slot's generation is bumped by one, which makes every handle
/// expecting the old generation stale.
pub open spec fn spec_free<T>(v: ArenaView<T>, h: Address) -> ArenaView<T> {
    if v.torn(h.type_key) {
        v
    } else if v.valid(h) {
        let g = v.group(h.type_key);
        let s = g.slots[h.index as int];
        let g2 = GroupView {
            slots: g.slots.update(
                h.index as int,
                SlotView { generation: (s.generation + 1) as usize, ..s },
            ),
            free: g.free.push(h.index),
            ..g
        };
        v.with_group(h.type_key, g2)
    } else {
        v
    }
}

/// Effect of copying handle `h`: while the handle is valid (and its group is
/// not torn down) the slot's live-reference count grows by one; on a stale
/// handle the arena is untouched. The count saturates at `i64::MAX`, which no
/// execution can reach by single increments.
pub open spec fn spec_copy<T>(v: ArenaView<T>, h: Address) -> ArenaView<T> {
    if !v.torn(h.type_key) && v.valid(h) && 1 <= v.refs_of(h) < i64::MAX {
        let s = v.group(h.type_key).slots[h.index as int];
        v.with_slot(h, SlotView { refs: (s.refs + 1) as i64, ..s })
    } else {
        v
    }
}

/// Effect of releasing one copy of handle `h`: while the handle is valid the
/// shared count is decremented, and the release that brings it to zero frees
/// the slot (index pushed, generation bumped). Releases of stale copies, and
/// of copies whose slot was already force-freed, change nothing.
pub open spec fn spec_release<T>(v: ArenaView<T>, h: Address) -> ArenaView<T> {
    if !v.torn(h.type_key) && v.valid(h) && v.refs_of(h) >= 1 {
        let s = v.group(h.type_key).slots[h.index as int];
        if s.refs == 1 {
            let s2 = SlotView { generation: (s.generation + 1) as usize, refs: 0, ..s };
            let g = v.group(h.type_key);
            let g2 = GroupView {
                slots: g.slots.update(h.index as int, s2),
                free: g.free.push(h.index),
                ..g
            };
            v.with_group(h.type_key, g2)
        } else {
            v.with_slot(h, SlotView { refs: (s.refs - 1) as i64, ..s })
        }
    } else {
        v
    }
}

/// Effect of force-freeing through handle `h`: while the handle is valid the
/// shared count is set to the out-of-band sentinel `-1` and the slot is freed
/// at once, regardless of how many copies are outstanding; all of them become
/// permanently stale. On a stale handle, or after teardown, nothing changes.
pub open spec fn spec_remove<T>(v: ArenaView<T>, h: Address) -> ArenaView<T> {
    if !v.torn(h.type_key) && v.valid(h) {
        let s = v.group(h.type_key).slots[h.index as int];
        let s2 = SlotView { generation: (s.generation + 1) as usize, refs: -1i64, ..s };
        let g = v.group(h.type_key);
        let g2 = GroupView {
            slots: g.slots.update(h.index as int, s2),
            free: g.free.push(h.index),
            ..g
        };
        v.with_group(h.type_key, g2)
    } else {
        v
    }
}

/// Effect of replacing the entity behind a valid handle, as a mutable borrow
/// through `get_mut` does: only the entity changes; generation, count, free
/// stacks and every other group stay as they were.
pub open spec fn spec_set_entity<T>(v: ArenaView<T>, h: Address, value: T) -> ArenaView<T> {
    let s = v.group(h.type_key).slots[h.index as int];
    v.with_slot(h, SlotView { entity: value, ..s })
}

/// Effect of tearing a group down: its storage is emptied and its key is
/// recorded, permanently, in the torn-down set, so that any later free
/// through a surviving handle is a safe no-op. Tearing down a key that has
/// no group changes nothing.
pub open spec fn spec_teardown<T>(v: ArenaView<T>, key: u64) -> ArenaView<T> {
    if v.has_group(key) {
        let g = v.group(key);
        let v2 = v.with_group(key, GroupView { slots: Seq::empty(), free: Seq::empty(), ..g });
        ArenaView { torn_down: v2.torn_down.insert(key), ..v2 }
    } else {
        v
    }
}

/// One public operation on the arena, as data, so that laws can quantify
/// over every operation at once.
pub ghost enum Op<T> {
    Allocate { key: u64, value: T },
    Free { h: Address },
    Copy { h: Address },
    Release { h: Address },
    Remove { h: Address },
    SetEntity { h: Address, value: T },
    Teardown { key: u64 },
}

impl<T> Op<T> {
    /// The type key the operation acts under.
    pub open spec fn key(self) -> u64 {
        match self {
            Op::Allocate { key, .. } => key,
            Op::Free { h } => h.type_key,
            Op::Copy { h } => h.type_key,
            Op::Release { h } => h.type_key,
            Op::Remove { h } => h.type_key,
            Op::SetEntity { h, .. } => h.type_key,
            Op::Teardown { key } => key,
        }
    }

    /// The operation is applied by the exec interface only in states where
    /// its handle points into an existing slot (or its group is torn down),
    /// mirroring the functions' preconditions.
    pub open spec fn in_contract(self, v: ArenaView<T>) -> bool {
        match self {
            Op::Allocate { .. } => true,
            Op::Free { h } => v.has_group(h.type_key) && (v.torn(h.type_key) || h.index < v.group(
                h.type_key,
            ).slots.len()) && h.generation < usize::MAX,
            Op::Copy { h } => v.has_group(h.type_key) && (v.torn(h.type_key) || h.index < v.group(
                h.type_key,
            ).slots.len()),
            Op::Release { h } => v.has_group(h.type_key) && (v.torn(h.type_key) || h.index
                < v.group(h.type_key).slots.len()) && h.generation < usize::MAX,
            Op::Remove { h } => v.has_group(h.type_key) && (v.torn(h.type_key) || h.index
                < v.group(h.type_key).slots.len()) && h.generation < usize::MAX,
            Op::SetEntity { h, .. } => v.valid(h),
            Op::Teardown { .. } => true,
        }
    }
}

/// The arena state after one operation.
pub open spec fn apply<T>(v: ArenaView<T>, op: Op<T>) -> ArenaView<T> {
    match op {
        Op::Allocate { key, value } => spec_allocate(v, key, value).0,
        Op::Free { h } => spec_free(v, h),
        Op::Copy { h } => spec_copy(v, h),
        Op::Release { h } => spec_release(v, h),
        Op::Remove { h } => spec_remove(v, h),
        Op::SetEntity { h, value } => spec_set_entity(v, h, value),
        Op::Teardown { key } => spec_teardown(v, key),
    }
}

/// A key that names a group names it at one position of the registry.
pub proof fn lemma_group_index_of<T>(v: ArenaView<T>, key: u64, i: int)
    requires
        v.keys_unique(),
        0 <= i < v.groups.len(),
        v.groups[i].type_key == key,
    ensures
        v.has_group(key),
        v.group_index(key) == i,
        v.group(key) == v.groups[i],
{
    assert(v.has_group(key));
    let j = v.group_index(key);
    assert(0 <= j < v.groups.len() && v.groups[j].type_key == key);
    if i != j {
        assert(v.groups[i].type_key != v.groups[j].type_key);
    }
}

/// Replacing one group under its own key touches nothing else: every other
/// key still names the same group, at the same position.
pub proof fn lemma_with_group<T>(v: ArenaView<T>, key: u64, g2: GroupView<T>)
    requires
        v.keys_unique(),
        v.has_group(key),
        g2.type_key == key,
    ensures
        v.with_group(key, g2).keys_unique(),
        v.with_group(key, g2).groups.len() == v.groups.len(),
        v.with_group(key, g2).group_index(key) == v.group_index(key),
        v.with_group(key, g2).group(key) == g2,
        v.with_group(key, g2).torn_down == v.torn_down,
        v.with_group(key, g2).capacity == v.capacity,
        forall|k2: u64| #[trigger] v.with_group(key, g2).has_group(k2) == v.has_group(k2),
        forall|k2: u64|
            k2 != key && v.has_group(k2) ==> #[trigger] v.with_group(key, g2).group(k2) == v.group(
                k2,
            ) && v.with_group(key, g2).group_index(k2) == v.group_index(k2),
{
    let gi = v.group_index(key);
    assert(0 <= gi < v.groups.len() && v.groups[gi].type_key == key);
    let v2 = v.with_group(key, g2);
    assert(v2.groups =~= v.groups.update(gi, g2));
    assert forall|i: int, j: int|
        0 <= i < v2.groups.len() && 0 <= j < v2.groups.len() && i != j implies (
    #[trigger] v2.groups[i]).type_key != (#[trigger] v2.groups[j]).type_key by {
        assert(v2.groups[i].type_key == v.groups[i].type_key);
        assert(v2.groups[j].type_key == v.groups[j].type_key);
    }
    lemma_group_index_of(v2, key, gi);
    assert forall|k2: u64| #[trigger] v2.has_group(k2) == v.has_group(k2) by {
        if v.has_group(k2) {
            let i = v.group_index(k2);
            assert(0 <= i < v.groups.len() && v.groups[i].type_key == k2);
            assert(v2.groups[i].type_key == k2);
            assert(v2.has_group(k2));
        }
        if v2.has_group(k2) {
            let i = v2.group_index(k2);
            assert(0 <= i < v2.groups.len() && v2.groups[i].type_key == k2);
            assert(v.groups[i].type_key == k2);
            assert(v.has_group(k2));
        }
    }
    assert forall|k2: u64| k2 != key && v.has_group(k2) implies #[trigger] v2.group(k2) == v.group(
        k2,
    ) && v2.group_index(k2) == v.group_index(k2) by {
        let i = v.group_index(k2);
        assert(0 <= i < v.groups.len() && v.groups[i].type_key == k2);
        assert(i != gi);
        assert(v2.groups[i].type_key == k2);
        lemma_group_index_of(v2, k2, i);
    }
}

/// Registering a fresh group under a key the registry does not yet hold
/// keeps the registry well-keyed and leaves every other group in place.
pub proof fn lemma_push_group<T>(v: ArenaView<T>, g: GroupView<T>)
    requires
        v.keys_unique(),
        !v.has_group(g.type_key),
    ensures
        (ArenaView { groups: v.groups.push(g), ..v }).keys_unique(),
        (ArenaView { groups: v.groups.push(g), ..v }).has_group(g.type_key),
        (ArenaView { groups: v.groups.push(g), ..v }).group_index(g.type_key) == v.groups.len(),
        (ArenaView { groups: v.groups.push(g), ..v }).group(g.type_key) == g,
        forall|k2: u64|
            k2 != g.type_key ==> #[trigger] (ArenaView {
                groups: v.groups.push(g),
                ..v
            }).has_group(k2) == v.has_group(k2),
        forall|k2: u64|
            k2 != g.type_key && v.has_group(k2) ==> #[trigger] (ArenaView {
                groups: v.groups.push(g),
                ..v
            }).group(k2) == v.group(k2),
{
    let v2 = ArenaView { groups: v.groups.push(g), ..v };
    let n = v.groups.len() as int;
    assert forall|i: int, j: int|
        0 <= i < v2.groups.len() && 0 <= j < v2.groups.len() && i != j implies (
    #[trigger] v2.groups[i]).type_key != (#[trigger] v2.groups[j]).type_key by {
        if i < n && j < n {
            assert(v2.groups[i] == v.groups[i]);
            assert(v2.groups[j] == v.groups[j]);
        } else if i == n && j < n {
            assert(v2.groups[j] == v.groups[j]);
            if v.groups[j].type_key == g.type_key {
                assert(v.has_group(g.type_key));
            }
        } else {
            assert(v2.groups[i] == v.groups[i]);
            if v.groups[i].type_key == g.type_key {
                assert(v.has_group(g.type_key));
            }
        }
    }
    assert(v2.groups[n] == g);
    lemma_group_index_of(v2, g.type_key, n);
    assert forall|k2: u64| k2 != g.type_key implies #[trigger] v2.has_group(k2) == v.has_group(
        k2,
    ) by {
        if v.has_group(k2) {
            let i = v.group_index(k2);
            assert(v2.groups[i].type_key == k2);
            assert(v2.has_group(k2));
        }
        if v2.has_group(k2) {
            let i = v2.group_index(k2);
            assert(0 <= i < v2.groups.len() && v2.groups[i].type_key == k2);
            assert(i != n);
            assert(v.groups[i].type_key == k2);
            assert(v.has_group(k2));
        }
    }
    assert forall|k2: u64| k2 != g.type_key && v.has_group(k2) implies #[trigger] v2.group(k2)
        == v.group(k2) by {
        let i = v.group_index(k2);
        assert(0 <= i < v.groups.len() && v.groups[i].type_key == k2);
        assert(v2.groups[i].type_key == k2);
        lemma_group_index_of(v2, k2, i);
    }
}

/// The arena state after `n` copies of handle `h`.
pub open spec fn copy_n<T>(v: ArenaView<T>, h: Address, n: nat) -> ArenaView<T>
    decreases n,
{
    if n == 0 {
        v
    } else {
        spec_copy(copy_n(v, h, (n - 1) as nat), h)
    }
}

/// The arena state after `n` releases of copies of handle `h`.
pub open spec fn release_n<T>(v: ArenaView<T>, h: Address, n: nat) -> ArenaView<T>
    decreases n,
{
    if n == 0 {
        v
    } else {
        spec_release(release_n(v, h, (n - 1) as nat), h)
    }
}

} // verus!
