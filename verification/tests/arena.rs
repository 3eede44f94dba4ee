use arena_allocator::{Address, Arena};

const KEY_X: u64 = 1;
const KEY_Y: u64 = 2;

#[derive(Debug, PartialEq, Clone)]
enum Entity {
    X { name: String },
    Y { v: i64 },
}

fn x(name: &str) -> Entity {
    Entity::X { name: name.to_string() }
}

fn y(v: i64) -> Entity {
    Entity::Y { v }
}

#[test]
fn first_allocation_is_index_zero_generation_zero() {
    let mut arena: Arena<Entity> = Arena::new(8);
    let h1 = arena.allocate(KEY_X, x("a"));
    assert_eq!(h1.type_key, KEY_X);
    assert_eq!(h1.index, 0);
    assert_eq!(h1.generation, 0);
    assert_eq!(h1.get(&arena), Some(&x("a")));
    assert_eq!(arena.get(&h1), Some(&x("a")));
}

#[test]
fn drop_only_copy_frees_and_allocation_reuses_with_bumped_generation() {
    let mut arena: Arena<Entity> = Arena::new(8);
    let h1 = arena.allocate(KEY_X, x("a"));
    h1.release(&mut arena);
    let h2 = arena.allocate(KEY_X, x("b"));
    assert_eq!(h2.index, 0);
    assert_eq!(h2.generation, 1);
    // A handle reconstructed with the old (index, generation) pair is stale.
    let h_old = Address { type_key: KEY_X, index: 0, generation: 0 };
    assert_eq!(h_old.get(&arena), None);
    assert_eq!(h2.get(&arena), Some(&x("b")));
}

#[test]
fn copy_keeps_entity_alive_until_last_release() {
    let mut arena: Arena<Entity> = Arena::new(8);
    let h1 = arena.allocate(KEY_Y, y(1));
    let h2 = h1.copy(&mut arena);
    h1.release(&mut arena);
    // Count was two, is now one: the entity is still reachable.
    assert_eq!(h2.get(&arena), Some(&y(1)));
    let probe = h2.clone();
    h2.release(&mut arena);
    // The slot is freed now: the generation moved past the handles'.
    assert_eq!(probe.get(&arena), None);
    // The next allocation reuses index 0 with generation exactly one higher.
    let h3 = arena.allocate(KEY_Y, y(2));
    assert_eq!(h3.index, 0);
    assert_eq!(h3.generation, 1);
}

#[test]
fn remove_makes_all_copies_stale_and_later_releases_change_nothing() {
    let mut arena: Arena<Entity> = Arena::new(8);
    let h1 = arena.allocate(KEY_Y, y(1));
    let h2 = h1.copy(&mut arena);
    h1.remove(&mut arena);
    assert_eq!(h1.get(&arena), None);
    assert_eq!(h2.get(&arena), None);
    h2.release(&mut arena);
    h1.release(&mut arena);
    // The generation advanced exactly once: reuse hands out generation 1.
    let h3 = arena.allocate(KEY_Y, y(2));
    assert_eq!(h3.index, 0);
    assert_eq!(h3.generation, 1);
    assert_eq!(h3.get(&arena), Some(&y(2)));
}

#[test]
fn reference_count_symmetry_frees_exactly_once() {
    let mut arena: Arena<Entity> = Arena::new(8);
    let h = arena.allocate(KEY_X, x("shared"));
    let c1 = h.copy(&mut arena);
    let c2 = h.copy(&mut arena);
    let c3 = h.copy(&mut arena);
    // Four copies exist; release three of them in scrambled order.
    c2.release(&mut arena);
    h.release(&mut arena);
    c1.release(&mut arena);
    assert_eq!(c3.get(&arena), Some(&x("shared")));
    let probe = c3.clone();
    c3.release(&mut arena);
    assert_eq!(probe.get(&arena), None);
    // Freed exactly once: the reused slot carries generation exactly 1.
    let h2 = arena.allocate(KEY_X, x("next"));
    assert_eq!(h2.index, 0);
    assert_eq!(h2.generation, 1);
}

#[test]
fn generations_assigned_to_an_index_strictly_increase() {
    let mut arena: Arena<Entity> = Arena::new(4);
    let mut last: usize = 0;
    let h0 = arena.allocate(KEY_X, x("g0"));
    assert_eq!((h0.index, h0.generation), (0, 0));
    arena.free(&h0);
    for expected in 1..6usize {
        let h = arena.allocate(KEY_X, x("again"));
        assert_eq!(h.index, 0);
        assert_eq!(h.generation, expected);
        assert!(h.generation > last || expected == 1);
        last = h.generation;
        arena.free(&h);
    }
}

#[test]
fn stale_handles_fail_get_and_get_mut() {
    let mut arena: Arena<Entity> = Arena::new(8);
    let h = arena.allocate(KEY_X, x("doomed"));
    arena.free(&h);
    assert_eq!(arena.get(&h), None);
    assert!(arena.get_mut(&h).is_none());
    assert_eq!(h.get(&arena), None);
    assert!(h.get_mut(&mut arena).is_none());
}

#[test]
fn free_is_idempotent() {
    let mut arena: Arena<Entity> = Arena::new(8);
    let h = arena.allocate(KEY_X, x("once"));
    arena.free(&h);
    arena.free(&h);
    // Only one free-stack entry exists: the second allocation appends.
    let h1 = arena.allocate(KEY_X, x("reuse"));
    assert_eq!((h1.index, h1.generation), (0, 1));
    let h2 = arena.allocate(KEY_X, x("fresh"));
    assert_eq!((h2.index, h2.generation), (1, 0));
}

#[test]
fn heterogeneous_groups_are_isolated() {
    let mut arena: Arena<Entity> = Arena::new(8);
    let hx = arena.allocate(KEY_X, x("a"));
    let hy1 = arena.allocate(KEY_Y, y(10));
    let hy2 = arena.allocate(KEY_Y, y(20));
    arena.free(&hx);
    // Every Y handle stays valid.
    assert_eq!(hy1.get(&arena), Some(&y(10)));
    assert_eq!(hy2.get(&arena), Some(&y(20)));
    // Y's free stack is untouched: a new Y appends instead of reusing.
    let hy3 = arena.allocate(KEY_Y, y(30));
    assert_eq!((hy3.index, hy3.generation), (2, 0));
    // X's freed slot is the one that gets reused.
    let hx2 = arena.allocate(KEY_X, x("b"));
    assert_eq!((hx2.index, hx2.generation), (0, 1));
}

#[test]
fn get_mut_changes_only_that_entity() {
    let mut arena: Arena<Entity> = Arena::new(8);
    let h1 = arena.allocate(KEY_Y, y(1));
    let h2 = arena.allocate(KEY_Y, y(2));
    if let Some(e) = arena.get_mut(&h1) {
        *e = y(100);
    } else {
        panic!("handle should be valid");
    }
    assert_eq!(arena.get(&h1), Some(&y(100)));
    assert_eq!(arena.get(&h2), Some(&y(2)));
    assert_eq!(h1.generation, 0);
    // Mutation does not free or bump anything: the handle stays valid.
    assert_eq!(h1.get(&arena), Some(&y(100)));
}

#[test]
fn torn_down_group_makes_free_a_safe_no_op() {
    let mut arena: Arena<Entity> = Arena::new(8);
    let h = arena.allocate(KEY_X, x("old"));
    arena.teardown_group(KEY_X);
    // Freeing into the torn-down group changes nothing and does not crash.
    arena.free(&h);
    h.release(&mut arena);
    // Allocating under the key again starts a fresh slot sequence.
    let h2 = arena.allocate(KEY_X, x("new"));
    assert_eq!((h2.index, h2.generation), (0, 0));
    assert_eq!(h2.get(&arena), Some(&x("new")));
    // The key stays torn down, so frees under it remain no-ops: the next
    // allocation appends instead of reusing.
    arena.free(&h2);
    assert_eq!(h2.get(&arena), Some(&x("new")));
    let h3 = arena.allocate(KEY_X, x("newer"));
    assert_eq!((h3.index, h3.generation), (1, 0));
}

#[test]
fn default_arena_allocates() {
    let mut arena: Arena<i32> = Arena::default();
    let h = arena.allocate(7, 42);
    assert_eq!(arena.get(&h), Some(&42));
    assert_eq!((h.index, h.generation), (0, 0));
}

#[test]
fn copying_a_stale_handle_leaves_the_new_tenant_alone() {
    let mut arena: Arena<Entity> = Arena::new(8);
    let h1 = arena.allocate(KEY_X, x("first"));
    h1.remove(&mut arena);
    let h2 = arena.allocate(KEY_X, x("second"));
    // h1 is stale; copying it must not disturb the slot's new tenant.
    let h1b = h1.copy(&mut arena);
    assert_eq!(h1b.get(&arena), None);
    assert_eq!(h2.get(&arena), Some(&x("second")));
    // The new tenant's count is still one: a single release frees it.
    let probe = h2.clone();
    h2.release(&mut arena);
    assert_eq!(probe.get(&arena), None);
}
