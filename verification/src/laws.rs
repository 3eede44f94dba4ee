use vstd::prelude::*;

use crate::address::Address;
use crate::model::{
    apply, copy_n, lemma_group_index_of, lemma_push_group, lemma_with_group, release_n,
    spec_allocate, spec_copy, spec_free, spec_release, spec_remove, ArenaView, GroupView, Op,
    SlotView,
};

verus! {

/// The arena state after the slot behind `h` has been freed once: the index
/// sits on the free stack, the generation is one higher than `h` expects,
/// and the reference count is zero.
pub open spec fn released<T>(v: ArenaView<T>, h: Address) -> ArenaView<T> {
    let g = v.group(h.type_key);
    let s = g.slots[h.index as int];
    v.with_group(
        h.type_key,
        GroupView {
            slots: g.slots.update(
                h.index as int,
                SlotView { generation: (s.generation + 1) as usize, refs: 0i64, ..s },
            ),
            free: g.free.push(h.index),
            ..g
        },
    )
}

/// Replacing a group under its own key preserves well-formedness, provided
/// the replacement's free stack stays inside its slot sequence.
proof fn lemma_wf_with_group<T>(v: ArenaView<T>, key: u64, g2: GroupView<T>)
    requires
        v.wf(),
        v.has_group(key),
        g2.type_key == key,
        forall|k: int| 0 <= k < g2.free.len() ==> #[trigger] g2.free[k] < g2.slots.len(),
    ensures
        v.with_group(key, g2).wf(),
        v.with_group(key, g2).groups.len() == v.groups.len(),
{
    lemma_with_group(v, key, g2);
    let v2 = v.with_group(key, g2);
    let gi = v.group_index(key);
    assert forall|i: int, k: int|
        0 <= i < v2.groups.len() && 0 <= k < (#[trigger] v2.groups[i]).free.len() implies
    #[trigger] v2.groups[i].free[k] < v2.groups[i].slots.len() by {
        if i == gi {
            assert(v2.groups[i] == g2);
        } else {
            assert(v2.groups[i] == v.groups[i]);
        }
    }
}

/// Every operation keeps the arena well-formed: keys stay unique and every
/// free stack keeps pointing inside its group's slot sequence. This is the
/// structural invariant all other laws rest on.
pub proof fn lemma_wf_preserved<T>(v: ArenaView<T>, op: Op<T>)
    requires
        v.wf(),
        op.in_contract(v),
    ensures
        apply(v, op).wf(),
{
    match op {
        Op::Allocate { key, value } => {
            if !v.has_group(key) {
                let g = GroupView {
                    type_key: key,
                    slots: seq![SlotView { generation: 0, refs: 1, entity: value }],
                    free: Seq::empty(),
                };
                lemma_push_group(v, g);
                let v2 = apply(v, op);
                assert(v2.groups =~= v.groups.push(g));
                assert forall|i: int, k: int|
                    0 <= i < v2.groups.len() && 0 <= k < (#[trigger] v2.groups[i]).free.len()
                    implies #[trigger] v2.groups[i].free[k] < v2.groups[i].slots.len() by {
                    if i < v.groups.len() {
                        assert(v2.groups[i] == v.groups[i]);
                    } else {
                        assert(v2.groups[i] == g);
                    }
                }
            } else {
                let g = v.group(key);
                if g.free.len() > 0 {
                    let idx = g.free.last();
                    let gen = g.slots[idx as int].generation;
                    let g2 = GroupView {
                        slots: g.slots.update(
                            idx as int,
                            SlotView { generation: gen, refs: 1, entity: value },
                        ),
                        free: g.free.drop_last(),
                        ..g
                    };
                    assert(v.group_index(key) == v.group_index(key));
                    lemma_group_index_of(v, key, v.group_index(key));
                    assert forall|k: int| 0 <= k < g2.free.len() implies #[trigger] g2.free[k]
                        < g2.slots.len() by {
                        assert(g2.free[k] == g.free[k]);
                    }
                    lemma_wf_with_group(v, key, g2);
                } else {
                    let g2 = GroupView {
                        slots: g.slots.push(SlotView { generation: 0, refs: 1, entity: value }),
                        ..g
                    };
                    lemma_group_index_of(v, key, v.group_index(key));
                    lemma_wf_with_group(v, key, g2);
                }
            }
        },
        Op::Free { h } => {
            lemma_free_like_wf(v, h);
        },
        Op::Copy { h } => {
            if !v.torn(h.type_key) && v.valid(h) && 1 <= v.refs_of(h) < i64::MAX {
                let s = v.group(h.type_key).slots[h.index as int];
                lemma_group_index_of(v, h.type_key, v.group_index(h.type_key));
                lemma_set_slot_wf(v, h, SlotView { refs: (s.refs + 1) as i64, ..s });
            }
        },
        Op::Release { h } => {
            if !v.torn(h.type_key) && v.valid(h) && v.refs_of(h) >= 1 {
                let s = v.group(h.type_key).slots[h.index as int];
                if s.refs == 1 {
                    lemma_free_push_wf(
                        v,
                        h,
                        SlotView { generation: (s.generation + 1) as usize, refs: 0, ..s },
                    );
                } else {
                    lemma_group_index_of(v, h.type_key, v.group_index(h.type_key));
                    lemma_set_slot_wf(v, h, SlotView { refs: (s.refs - 1) as i64, ..s });
                }
            }
        },
        Op::Remove { h } => {
            if !v.torn(h.type_key) && v.valid(h) {
                let s = v.group(h.type_key).slots[h.index as int];
                lemma_free_push_wf(
                    v,
                    h,
                    SlotView { generation: (s.generation + 1) as usize, refs: -1i64, ..s },
                );
            }
        },
        Op::SetEntity { h, value } => {
            let s = v.group(h.type_key).slots[h.index as int];
            lemma_group_index_of(v, h.type_key, v.group_index(h.type_key));
            lemma_set_slot_wf(v, h, SlotView { entity: value, ..s });
        },
        Op::Teardown { key } => {
            if v.has_group(key) {
                let g = v.group(key);
                let g2 = GroupView { slots: Seq::empty(), free: Seq::empty(), ..g };
                lemma_group_index_of(v, key, v.group_index(key));
                lemma_wf_with_group(v, key, g2);
                let v2 = v.with_group(key, g2);
                let v3 = apply(v, op);
                assert(v3.groups == v2.groups);
            }
        },
    }
}

/// Freeing through a handle keeps the arena well-formed.
proof fn lemma_free_like_wf<T>(v: ArenaView<T>, h: Address)
    requires
        v.wf(),
        v.has_group(h.type_key),
        v.torn(h.type_key) || h.index < v.group(h.type_key).slots.len(),
    ensures
        crate::model::spec_free(v, h).wf(),
{
    if !v.torn(h.type_key) && v.valid(h) {
        let g = v.group(h.type_key);
        let s = g.slots[h.index as int];
        lemma_free_push_wf(v, h, SlotView { generation: (s.generation + 1) as usize, ..s });
    }
}

/// Updating a slot in place (same index, same slot count) and pushing that
/// index onto the free stack keeps the arena well-formed.
proof fn lemma_free_push_wf<T>(v: ArenaView<T>, h: Address, s2: SlotView<T>)
    requires
        v.wf(),
        v.valid(h),
    ensures
        ({
            let g = v.group(h.type_key);
            let g2 = GroupView {
                slots: g.slots.update(h.index as int, s2),
                free: g.free.push(h.index),
                ..g
            };
            v.with_group(h.type_key, g2).wf()
        }),
{
    let g = v.group(h.type_key);
    let g2 = GroupView {
        slots: g.slots.update(h.index as int, s2),
        free: g.free.push(h.index),
        ..g
    };
    lemma_group_index_of(v, h.type_key, v.group_index(h.type_key));
    assert forall|k: int| 0 <= k < g2.free.len() implies #[trigger] g2.free[k]
        < g2.slots.len() by {
        if k < g.free.len() {
            assert(g2.free[k] == g.free[k]);
        } else {
            assert(g2.free[k] == h.index);
        }
    }
    lemma_wf_with_group(v, h.type_key, g2);
}

/// Replacing the slot a valid handle points to, without touching the free
/// stack, keeps the arena well-formed.
proof fn lemma_set_slot_wf<T>(v: ArenaView<T>, h: Address, s2: SlotView<T>)
    requires
        v.wf(),
        v.valid(h),
    ensures
        v.with_slot(h, s2).wf(),
{
    let g = v.group(h.type_key);
    let g2 = GroupView { slots: g.slots.update(h.index as int, s2), ..g };
    assert forall|k: int| 0 <= k < g2.free.len() implies #[trigger] g2.free[k]
        < g2.slots.len() by {
        assert(g2.free[k] == g.free[k]);
    }
    lemma_wf_with_group(v, h.type_key, g2);
}

/// What replacing one slot does to the whole arena: everything but that one
/// slot is untouched.
proof fn lemma_with_slot_facts<T>(v: ArenaView<T>, h: Address, s2: SlotView<T>)
    requires
        v.wf(),
        v.has_group(h.type_key),
        h.index < v.group(h.type_key).slots.len(),
    ensures
        v.with_slot(h, s2).wf(),
        v.with_slot(h, s2).has_group(h.type_key),
        v.with_slot(h, s2).group_index(h.type_key) == v.group_index(h.type_key),
        v.with_slot(h, s2).group(h.type_key).slots == v.group(h.type_key).slots.update(
            h.index as int,
            s2,
        ),
        v.with_slot(h, s2).group(h.type_key).slots[h.index as int] == s2,
        v.with_slot(h, s2).group(h.type_key).slots.len() == v.group(h.type_key).slots.len(),
        v.with_slot(h, s2).group(h.type_key).free == v.group(h.type_key).free,
        v.with_slot(h, s2).group(h.type_key).type_key == v.group(h.type_key).type_key,
        v.with_slot(h, s2).torn_down == v.torn_down,
        v.with_slot(h, s2).capacity == v.capacity,
        forall|k2: u64| #[trigger] v.with_slot(h, s2).has_group(k2) == v.has_group(k2),
        forall|k2: u64|
            k2 != h.type_key && v.has_group(k2) ==> #[trigger] v.with_slot(h, s2).group(k2)
                == v.group(k2),
{
    let g = v.group(h.type_key);
    let g2 = GroupView { slots: g.slots.update(h.index as int, s2), ..g };
    lemma_group_index_of(v, h.type_key, v.group_index(h.type_key));
    assert forall|k: int| 0 <= k < g2.free.len() implies #[trigger] g2.free[k]
        < g2.slots.len() by {
        assert(g2.free[k] == g.free[k]);
    }
    lemma_wf_with_group(v, h.type_key, g2);
    lemma_with_group(v, h.type_key, g2);
}

/// Replacing the slot a handle points to with its own current value changes
/// nothing.
proof fn lemma_with_slot_identity<T>(v: ArenaView<T>, h: Address)
    requires
        v.wf(),
        v.has_group(h.type_key),
        h.index < v.group(h.type_key).slots.len(),
    ensures
        v.with_slot(h, v.group(h.type_key).slots[h.index as int]) == v,
{
    let s = v.group(h.type_key).slots[h.index as int];
    let g = v.group(h.type_key);
    lemma_group_index_of(v, h.type_key, v.group_index(h.type_key));
    assert(g.slots.update(h.index as int, s) =~= g.slots);
    assert(GroupView { slots: g.slots.update(h.index as int, s), ..g } == g);
    assert(v.groups.update(v.group_index(h.type_key), g) =~= v.groups);
    assert(v.with_slot(h, s) =~~= v);
}

/// Two slot replacements at the same handle collapse to the last one.
proof fn lemma_with_slot_collapse<T>(v: ArenaView<T>, h: Address, s1: SlotView<T>, s2: SlotView<T>)
    requires
        v.wf(),
        v.has_group(h.type_key),
        h.index < v.group(h.type_key).slots.len(),
    ensures
        v.with_slot(h, s1).with_slot(h, s2) == v.with_slot(h, s2),
{
    lemma_with_slot_facts(v, h, s1);
    let v1 = v.with_slot(h, s1);
    lemma_with_slot_facts(v1, h, s2);
    lemma_with_slot_facts(v, h, s2);
    let va = v1.with_slot(h, s2);
    let vb = v.with_slot(h, s2);
    let gi = v.group_index(h.type_key);
    assert forall|i: int| 0 <= i < va.groups.len() implies va.groups[i] =~~= vb.groups[i] by {
        if i == gi {
            assert(va.groups[i].slots =~= vb.groups[i].slots);
        } else {
            assert(va.groups[i] == v.groups[i]);
            assert(vb.groups[i] == v.groups[i]);
        }
    }
    assert(va =~~= vb);
}

/// What freeing a slot (bumping its generation, pushing its index) does to
/// the whole arena, for any replacement slot `s2` that carries the bumped
/// generation: the handle is stale afterwards and nothing else moved.
proof fn lemma_freed_shape_facts<T>(v: ArenaView<T>, h: Address, s2: SlotView<T>)
    requires
        v.wf(),
        v.valid(h),
        h.generation < usize::MAX,
        s2.generation == h.generation + 1,
    ensures
        ({
            let g = v.group(h.type_key);
            let g2 = GroupView {
                slots: g.slots.update(h.index as int, s2),
                free: g.free.push(h.index),
                ..g
            };
            let vr = v.with_group(h.type_key, g2);
            &&& vr.wf()
            &&& vr.has_group(h.type_key)
            &&& vr.group_index(h.type_key) == v.group_index(h.type_key)
            &&& vr.group(h.type_key) == g2
            &&& vr.group(h.type_key).slots[h.index as int] == s2
            &&& vr.group(h.type_key).slots.len() == g.slots.len()
            &&& vr.group(h.type_key).free == g.free.push(h.index)
            &&& !vr.valid(h)
            &&& vr.torn_down == v.torn_down
            &&& (forall|k2: u64| #[trigger] vr.has_group(k2) == v.has_group(k2))
            &&& (forall|k2: u64|
                k2 != h.type_key && v.has_group(k2) ==> #[trigger] vr.group(k2) == v.group(k2))
        }),
{
    let g = v.group(h.type_key);
    let g2 = GroupView {
        slots: g.slots.update(h.index as int, s2),
        free: g.free.push(h.index),
        ..g
    };
    lemma_group_index_of(v, h.type_key, v.group_index(h.type_key));
    lemma_free_push_wf(v, h, s2);
    lemma_with_group(v, h.type_key, g2);
}

/// Applying `spec_release` to a state it does not change, `n` times, still
/// changes nothing.
proof fn lemma_release_n_noop<T>(v: ArenaView<T>, h: Address, n: nat)
    requires
        spec_release(v, h) == v,
    ensures
        release_n(v, h, n) == v,
    decreases n,
{
    if n > 0 {
        lemma_release_n_noop(v, h, (n - 1) as nat);
    }
}

/// Copying a valid handle `n` times leaves everything unchanged except the
/// slot's reference count, which grows by `n`.
proof fn lemma_copy_n_state<T>(v: ArenaView<T>, h: Address, n: nat)
    requires
        v.wf(),
        !v.torn(h.type_key),
        v.valid(h),
        1 <= v.refs_of(h),
        v.refs_of(h) + n <= i64::MAX,
    ensures
        copy_n(v, h, n) == v.with_slot(
            h,
            SlotView {
                refs: (v.refs_of(h) + n) as i64,
                ..v.group(h.type_key).slots[h.index as int]
            },
        ),
    decreases n,
{
    let s = v.group(h.type_key).slots[h.index as int];
    if n == 0 {
        assert(SlotView { refs: (v.refs_of(h) + 0) as i64, ..s } == s);
        lemma_with_slot_identity(v, h);
    } else {
        lemma_copy_n_state(v, h, (n - 1) as nat);
        let sp = SlotView { refs: (v.refs_of(h) + n - 1) as i64, ..s };
        let vp = copy_n(v, h, (n - 1) as nat);
        lemma_with_slot_facts(v, h, sp);
        assert(vp == v.with_slot(h, sp));
        assert(vp.valid(h));
        assert(vp.refs_of(h) == v.refs_of(h) + n - 1);
        assert(!vp.torn(h.type_key));
        let s2 = SlotView { refs: (vp.refs_of(h) + 1) as i64, ..sp };
        assert(spec_copy(vp, h) == vp.with_slot(h, s2));
        lemma_with_slot_collapse(v, h, sp, s2);
        assert(s2 == SlotView { refs: (v.refs_of(h) + n) as i64, ..s });
    }
}

/// Releasing a valid handle `n` times decrements the count while `n` stays
/// below it; the release that reaches zero frees the slot, and every release
/// after that changes nothing.
proof fn lemma_release_n_state<T>(v: ArenaView<T>, h: Address, n: nat)
    requires
        v.wf(),
        !v.torn(h.type_key),
        v.valid(h),
        1 <= v.refs_of(h),
        h.generation < usize::MAX,
    ensures
        n < v.refs_of(h) ==> release_n(v, h, n) == v.with_slot(
            h,
            SlotView {
                refs: (v.refs_of(h) - n) as i64,
                ..v.group(h.type_key).slots[h.index as int]
            },
        ),
        n >= v.refs_of(h) ==> release_n(v, h, n) == released(v, h),
    decreases n,
{
    let s = v.group(h.type_key).slots[h.index as int];
    let r = v.refs_of(h);
    if n == 0 {
        assert(SlotView { refs: (r - 0) as i64, ..s } == s);
        lemma_with_slot_identity(v, h);
    } else {
        lemma_release_n_state(v, h, (n - 1) as nat);
        let vp = release_n(v, h, (n - 1) as nat);
        if n - 1 < r {
            let sp = SlotView { refs: (r - (n - 1)) as i64, ..s };
            lemma_with_slot_facts(v, h, sp);
            assert(vp == v.with_slot(h, sp));
            assert(vp.valid(h));
            assert(vp.refs_of(h) == r - (n - 1));
            assert(!vp.torn(h.type_key));
            if sp.refs == 1 {
                assert(n >= r);
                let gp = vp.group(h.type_key);
                let s2 = SlotView { generation: (sp.generation + 1) as usize, refs: 0i64, ..sp };
                let g2 = GroupView {
                    slots: gp.slots.update(h.index as int, s2),
                    free: gp.free.push(h.index),
                    ..gp
                };
                assert(spec_release(vp, h) == vp.with_group(h.type_key, g2));
                lemma_freed_shape_facts(vp, h, s2);
                lemma_freed_shape_facts(
                    v,
                    h,
                    SlotView { generation: (s.generation + 1) as usize, refs: 0i64, ..s },
                );
                let va = vp.with_group(h.type_key, g2);
                let vb = released(v, h);
                let gi = v.group_index(h.type_key);
                assert forall|i: int| 0 <= i < va.groups.len() implies va.groups[i]
                    =~~= vb.groups[i] by {
                    if i == gi {
                        assert(va.groups[i].slots =~= vb.groups[i].slots);
                    } else {
                        assert(va.groups[i] == v.groups[i]);
                        assert(vb.groups[i] == v.groups[i]);
                    }
                }
                assert(va =~~= vb);
            } else {
                assert(n < r);
                let s2 = SlotView { refs: (sp.refs - 1) as i64, ..sp };
                assert(spec_release(vp, h) == vp.with_slot(h, s2));
                lemma_with_slot_collapse(v, h, sp, s2);
                assert(s2 == SlotView { refs: (r - n) as i64, ..s });
            }
        } else {
            lemma_freed_shape_facts(
                v,
                h,
                SlotView { generation: (s.generation + 1) as usize, refs: 0i64, ..s },
            );
            assert(vp == released(v, h));
            assert(!vp.valid(h));
            assert(spec_release(vp, h) == vp);
        }
    }
}

/// LAW (heterogeneous isolation): an operation under one type key never
/// affects another key's group: its existence, slots, generations, free
/// stack and torn-down status all stay exactly as they were.
pub proof fn lemma_heterogeneous_isolation<T>(v: ArenaView<T>, op: Op<T>, k2: u64)
    requires
        v.wf(),
        op.in_contract(v),
        k2 != op.key(),
    ensures
        apply(v, op).has_group(k2) == v.has_group(k2),
        v.has_group(k2) ==> apply(v, op).group(k2) == v.group(k2),
        apply(v, op).torn(k2) == v.torn(k2),
{
    let v2 = apply(v, op);
    match op {
        Op::Allocate { key, value } => {
            if !v.has_group(key) {
                let g = GroupView {
                    type_key: key,
                    slots: seq![SlotView { generation: 0, refs: 1, entity: value }],
                    free: Seq::empty(),
                };
                lemma_push_group(v, g);
            } else {
                let g = v.group(key);
                lemma_group_index_of(v, key, v.group_index(key));
                if g.free.len() > 0 {
                    let idx = g.free.last();
                    let gen = g.slots[idx as int].generation;
                    let g2 = GroupView {
                        slots: g.slots.update(
                            idx as int,
                            SlotView { generation: gen, refs: 1, entity: value },
                        ),
                        free: g.free.drop_last(),
                        ..g
                    };
                    lemma_with_group(v, key, g2);
                } else {
                    let g2 = GroupView {
                        slots: g.slots.push(SlotView { generation: 0, refs: 1, entity: value }),
                        ..g
                    };
                    lemma_with_group(v, key, g2);
                }
            }
        },
        Op::Free { h } => {
            if !v.torn(h.type_key) && v.valid(h) {
                let s = v.group(h.type_key).slots[h.index as int];
                lemma_freed_shape_facts(
                    v,
                    h,
                    SlotView { generation: (s.generation + 1) as usize, ..s },
                );
            }
        },
        Op::Copy { h } => {
            if !v.torn(h.type_key) && v.valid(h) && 1 <= v.refs_of(h) < i64::MAX {
                let s = v.group(h.type_key).slots[h.index as int];
                lemma_with_slot_facts(v, h, SlotView { refs: (s.refs + 1) as i64, ..s });
            }
        },
        Op::Release { h } => {
            if !v.torn(h.type_key) && v.valid(h) && v.refs_of(h) >= 1 {
                let s = v.group(h.type_key).slots[h.index as int];
                if s.refs == 1 {
                    lemma_freed_shape_facts(
                        v,
                        h,
                        SlotView { generation: (s.generation + 1) as usize, refs: 0i64, ..s },
                    );
                } else {
                    lemma_with_slot_facts(v, h, SlotView { refs: (s.refs - 1) as i64, ..s });
                }
            }
        },
        Op::Remove { h } => {
            if !v.torn(h.type_key) && v.valid(h) {
                let s = v.group(h.type_key).slots[h.index as int];
                lemma_freed_shape_facts(
                    v,
                    h,
                    SlotView { generation: (s.generation + 1) as usize, refs: -1i64, ..s },
                );
            }
        },
        Op::SetEntity { h, value } => {
            let s = v.group(h.type_key).slots[h.index as int];
            lemma_with_slot_facts(v, h, SlotView { entity: value, ..s });
        },
        Op::Teardown { key } => {
            if v.has_group(key) {
                let g = v.group(key);
                let g2 = GroupView { slots: Seq::empty(), free: Seq::empty(), ..g };
                lemma_group_index_of(v, key, v.group_index(key));
                lemma_with_group(v, key, g2);
                let vm = v.with_group(key, g2);
                assert(v2.groups == vm.groups);
                if v.has_group(k2) {
                    let i = v.group_index(k2);
                    assert(vm.groups[i].type_key == k2);
                    assert(v2.groups[i].type_key == k2);
                    lemma_group_index_of(v2, k2, i);
                    assert(v2.group(k2) == vm.group(k2));
                }
                if v2.has_group(k2) {
                    let i = v2.group_index(k2);
                    assert(0 <= i < v2.groups.len() && v2.groups[i].type_key == k2);
                    assert(vm.groups[i].type_key == k2);
                    assert(vm.has_group(k2));
                }
            }
        },
    }
}

/// LAW (generation monotonicity): no operation ever decreases the generation
/// of a slot that survives it. Freeing bumps the freed slot's generation by
/// exactly one, and reusing an index hands out the already-bumped generation,
/// so the generations a given index is assigned over the arena's lifetime
/// strictly increase.
pub proof fn lemma_generation_monotonic<T>(v: ArenaView<T>, op: Op<T>, key: u64, i: int)
    requires
        v.wf(),
        op.in_contract(v),
        v.has_group(key),
        0 <= i < v.group(key).slots.len(),
    ensures
        apply(v, op).has_group(key),
        i < apply(v, op).group(key).slots.len() ==> apply(v, op).group(key).slots[i].generation
            >= v.group(key).slots[i].generation,
{
    if key != op.key() {
        lemma_heterogeneous_isolation(v, op, key);
    } else {
        let v2 = apply(v, op);
        match op {
            Op::Allocate { key: k, value } => {
                let g = v.group(k);
                lemma_group_index_of(v, k, v.group_index(k));
                if g.free.len() > 0 {
                    let idx = g.free.last();
                    let gen = g.slots[idx as int].generation;
                    let g2 = GroupView {
                        slots: g.slots.update(
                            idx as int,
                            SlotView { generation: gen, refs: 1, entity: value },
                        ),
                        free: g.free.drop_last(),
                        ..g
                    };
                    lemma_with_group(v, k, g2);
                } else {
                    let g2 = GroupView {
                        slots: g.slots.push(SlotView { generation: 0, refs: 1, entity: value }),
                        ..g
                    };
                    lemma_with_group(v, k, g2);
                }
            },
            Op::Free { h } => {
                if !v.torn(h.type_key) && v.valid(h) {
                    let s = v.group(h.type_key).slots[h.index as int];
                    lemma_freed_shape_facts(
                        v,
                        h,
                        SlotView { generation: (s.generation + 1) as usize, ..s },
                    );
                }
            },
            Op::Copy { h } => {
                if !v.torn(h.type_key) && v.valid(h) && 1 <= v.refs_of(h) < i64::MAX {
                    let s = v.group(h.type_key).slots[h.index as int];
                    lemma_with_slot_facts(v, h, SlotView { refs: (s.refs + 1) as i64, ..s });
                }
            },
            Op::Release { h } => {
                if !v.torn(h.type_key) && v.valid(h) && v.refs_of(h) >= 1 {
                    let s = v.group(h.type_key).slots[h.index as int];
                    if s.refs == 1 {
                        lemma_freed_shape_facts(
                            v,
                            h,
                            SlotView { generation: (s.generation + 1) as usize, refs: 0i64, ..s },
                        );
                    } else {
                        lemma_with_slot_facts(v, h, SlotView { refs: (s.refs - 1) as i64, ..s });
                    }
                }
            },
            Op::Remove { h } => {
                if !v.torn(h.type_key) && v.valid(h) {
                    let s = v.group(h.type_key).slots[h.index as int];
                    lemma_freed_shape_facts(
                        v,
                        h,
                        SlotView { generation: (s.generation + 1) as usize, refs: -1i64, ..s },
                    );
                }
            },
            Op::SetEntity { h, value } => {
                let s = v.group(h.type_key).slots[h.index as int];
                lemma_with_slot_facts(v, h, SlotView { entity: value, ..s });
            },
            Op::Teardown { key: k } => {
                let g = v.group(k);
                let g2 = GroupView { slots: Seq::empty(), free: Seq::empty(), ..g };
                lemma_group_index_of(v, k, v.group_index(k));
                lemma_with_group(v, k, g2);
                let vm = v.with_group(k, g2);
                assert(v2.groups == vm.groups);
                let gi = v.group_index(k);
                assert(v2.groups[gi].type_key == k);
                lemma_group_index_of(v2, k, gi);
                assert(v2.group(k).slots.len() == 0);
            },
        }
    }
}

/// LAW (stale detection): once a handle's slot has been freed (the slot's
/// generation is above the generation the handle expects), the handle is
/// invalid, and no operation can ever make it valid again. Together with the
/// contracts of `get` and `get_mut`, which return `None` exactly on invalid
/// handles, a freed handle can never again reach an entity.
pub proof fn lemma_stale_detection<T>(v: ArenaView<T>, op: Op<T>, h: Address)
    requires
        v.wf(),
        op.in_contract(v),
        v.has_group(h.type_key),
        h.index < v.group(h.type_key).slots.len(),
        v.group(h.type_key).slots[h.index as int].generation > h.generation,
    ensures
        !v.valid(h),
        apply(v, op).has_group(h.type_key),
        h.index < apply(v, op).group(h.type_key).slots.len() ==> apply(v, op).group(
            h.type_key,
        ).slots[h.index as int].generation > h.generation,
        !apply(v, op).valid(h),
{
    lemma_generation_monotonic(v, op, h.type_key, h.index as int);
}

/// LAW (reuse correctness): freeing a valid handle and then allocating under
/// the same key reuses the freed index, hands out a generation exactly one
/// above the freed handle's, and `get` on the new handle reaches exactly the
/// new value while the old handle stays stale.
pub proof fn lemma_free_then_allocate_reuses<T>(v: ArenaView<T>, h: Address, value: T)
    requires
        v.wf(),
        !v.torn(h.type_key),
        v.valid(h),
        h.generation < usize::MAX,
    ensures
        !spec_free(v, h).valid(h),
        spec_allocate(spec_free(v, h), h.type_key, value).1 == (Address {
            type_key: h.type_key,
            index: h.index,
            generation: (h.generation + 1) as usize,
        }),
        spec_allocate(spec_free(v, h), h.type_key, value).0.valid(
            spec_allocate(spec_free(v, h), h.type_key, value).1,
        ),
        spec_allocate(spec_free(v, h), h.type_key, value).0.entity_of(
            spec_allocate(spec_free(v, h), h.type_key, value).1,
        ) == value,
        !spec_allocate(spec_free(v, h), h.type_key, value).0.valid(h),
{
    let s = v.group(h.type_key).slots[h.index as int];
    lemma_freed_shape_facts(v, h, SlotView { generation: (s.generation + 1) as usize, ..s });
    let v1 = spec_free(v, h);
    let g1 = v1.group(h.type_key);
    assert(g1.free.last() == h.index);
    assert(g1.slots[h.index as int].generation == h.generation + 1);
    let g2 = GroupView {
        slots: g1.slots.update(
            h.index as int,
            SlotView {
                generation: (h.generation + 1) as usize,
                refs: 1,
                entity: value,
            },
        ),
        free: g1.free.drop_last(),
        ..g1
    };
    lemma_group_index_of(v1, h.type_key, v1.group_index(h.type_key));
    lemma_with_group(v1, h.type_key, g2);
    let v2 = spec_allocate(v1, h.type_key, value).0;
    assert(v2 == v1.with_group(h.type_key, g2));
    assert(v2.group(h.type_key).slots[h.index as int].generation == h.generation + 1);
}

/// LAW (reference-count symmetry): a freshly allocated handle copied `n`
/// times and then released `n + 1` times ends, whatever the interleaving of
/// those identical releases, in the state where the slot was freed exactly
/// once: the generation is exactly one higher, and any further releases of
/// leftover copies change nothing at all.
pub proof fn lemma_reference_count_symmetry<T>(v: ArenaView<T>, h: Address, n: nat)
    requires
        v.wf(),
        !v.torn(h.type_key),
        v.valid(h),
        v.refs_of(h) == 1,
        n + 1 <= i64::MAX,
        h.generation < usize::MAX,
    ensures
        copy_n(v, h, n).valid(h),
        copy_n(v, h, n).refs_of(h) == n + 1,
        release_n(copy_n(v, h, n), h, n + 1) == released(v, h),
        released(v, h).group(h.type_key).slots[h.index as int].generation == h.generation + 1,
        !released(v, h).valid(h),
        forall|m: nat| m >= n + 1 ==> release_n(copy_n(v, h, n), h, m) == released(v, h),
{
    let s = v.group(h.type_key).slots[h.index as int];
    lemma_copy_n_state(v, h, n);
    let sc = SlotView { refs: (1 + n) as i64, ..s };
    lemma_with_slot_facts(v, h, sc);
    let vc = copy_n(v, h, n);
    assert(vc == v.with_slot(h, sc));
    assert(vc.valid(h));
    assert(vc.refs_of(h) == n + 1);
    assert(!vc.torn(h.type_key));
    lemma_freed_shape_facts(v, h, SlotView { generation: (s.generation + 1) as usize, refs: 0i64, ..s });
    assert forall|m: nat| m >= n + 1 implies release_n(vc, h, m) == released(v, h) by {
        lemma_release_n_state(vc, h, m);
        lemma_released_collapse(v, h, sc);
    }
    assert(release_n(vc, h, n + 1) == released(v, h));
}

/// Freeing after a pure reference-count change lands in the same state as
/// freeing directly: the count is overwritten by the free either way.
proof fn lemma_released_collapse<T>(v: ArenaView<T>, h: Address, s1: SlotView<T>)
    requires
        v.wf(),
        v.valid(h),
        h.generation < usize::MAX,
        s1.generation == v.group(h.type_key).slots[h.index as int].generation,
        s1.entity == v.group(h.type_key).slots[h.index as int].entity,
    ensures
        released(v.with_slot(h, s1), h) == released(v, h),
{
    let s = v.group(h.type_key).slots[h.index as int];
    lemma_with_slot_facts(v, h, s1);
    let v1 = v.with_slot(h, s1);
    lemma_freed_shape_facts(v1, h, SlotView { generation: (s1.generation + 1) as usize, refs: 0i64, ..s1 });
    lemma_freed_shape_facts(v, h, SlotView { generation: (s.generation + 1) as usize, refs: 0i64, ..s });
    let va = released(v1, h);
    let vb = released(v, h);
    let gi = v.group_index(h.type_key);
    assert forall|i: int| 0 <= i < va.groups.len() implies va.groups[i] =~~= vb.groups[i] by {
        if i == gi {
            assert(va.groups[i].slots =~= vb.groups[i].slots);
        } else {
            assert(va.groups[i] == v.groups[i]);
            assert(vb.groups[i] == v.groups[i]);
        }
    }
    assert(va =~~= vb);
}

/// LAW (force-free supersedes sharing): force-freeing a valid handle while
/// any number of copies remain outstanding frees the slot exactly once: the
/// generation is bumped exactly one, the count holds the sentinel, every
/// copy (all carrying the same expected generation) is immediately stale,
/// and any number of later releases or removes of those copies change
/// nothing.
pub proof fn lemma_force_free_supersedes_sharing<T>(v: ArenaView<T>, h: Address)
    requires
        v.wf(),
        !v.torn(h.type_key),
        v.valid(h),
        h.generation < usize::MAX,
    ensures
        !spec_remove(v, h).valid(h),
        spec_remove(v, h).group(h.type_key).slots[h.index as int].generation == h.generation + 1,
        spec_remove(v, h).refs_of(h) == -1,
        spec_release(spec_remove(v, h), h) == spec_remove(v, h),
        spec_remove(spec_remove(v, h), h) == spec_remove(v, h),
        forall|m: nat| #[trigger] release_n(spec_remove(v, h), h, m) == spec_remove(v, h),
{
    let s = v.group(h.type_key).slots[h.index as int];
    lemma_freed_shape_facts(
        v,
        h,
        SlotView { generation: (s.generation + 1) as usize, refs: -1i64, ..s },
    );
    let vr = spec_remove(v, h);
    assert(!vr.valid(h));
    assert(spec_release(vr, h) == vr);
    assert forall|m: nat| #[trigger] release_n(vr, h, m) == vr by {
        lemma_release_n_noop(vr, h, m);
    }
}

} // verus!
