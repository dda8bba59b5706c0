//! Deletion, cascading, cycles and deferred mode.

use ecs_core::entity::make_pair;
use ecs_core::flecs::{CHILD_OF, ON_DELETE_TARGET, POLICY_PANIC};
use ecs_core::world::{EcsError, World};

#[test]
fn child_of_cascades_deletion() {
    let mut world = World::new();
    let alice = world.entity_named("alice");
    let bob = world.entity_named("bob");
    let cecil = world.entity_named("cecil");
    let david = world.entity_named("david");
    world.add_id(bob, make_pair(CHILD_OF, alice)).unwrap();
    world.add_id(cecil, make_pair(CHILD_OF, alice)).unwrap();
    world.add_id(david, make_pair(CHILD_OF, cecil)).unwrap();

    assert_eq!(world.lookup("alice.cecil.david").unwrap(), david);

    world.delete(alice).unwrap();
    assert!(!world.is_alive(alice));
    assert!(!world.is_alive(bob));
    assert!(!world.is_alive(cecil));
    assert!(!world.is_alive(david));
}

#[test]
fn acyclic_relationship_rejects_cycles() {
    let mut world = World::new();
    let a = world.entity();
    let b = world.entity();
    let c = world.entity();
    world.add_id(b, make_pair(CHILD_OF, a)).unwrap();
    world.add_id(c, make_pair(CHILD_OF, b)).unwrap();
    let denied = world.add_id(a, make_pair(CHILD_OF, c));
    assert!(matches!(denied, Err(EcsError::CycleDetected)));
    let self_loop = world.add_id(a, make_pair(CHILD_OF, a));
    assert!(matches!(self_loop, Err(EcsError::CycleDetected)));
    // The rejected edges changed nothing.
    assert!(world.has_id(c, make_pair(CHILD_OF, b)));
    assert!(!world.has_id(a, make_pair(CHILD_OF, c)));
}

#[test]
fn exclusive_relationship_replaces_target() {
    let mut world = World::new();
    let p1 = world.entity_named("p1");
    let p2 = world.entity_named("p2");
    let child = world.entity_named("child");
    world.add_id(child, make_pair(CHILD_OF, p1)).unwrap();
    world.add_id(child, make_pair(CHILD_OF, p2)).unwrap();
    assert!(!world.has_id(child, make_pair(CHILD_OF, p1)));
    assert!(world.has_id(child, make_pair(CHILD_OF, p2)));
    assert_eq!(world.path(child), "p2.child");
}

#[test]
fn panic_policy_blocks_deletion() {
    let mut world = World::new();
    let guard = world.tag("Guards").unwrap();
    world
        .add_id(guard, make_pair(ON_DELETE_TARGET, POLICY_PANIC))
        .unwrap();
    let fortress = world.entity_named("fortress");
    let keeper = world.entity_named("keeper");
    world.add_id(keeper, make_pair(guard, fortress)).unwrap();

    let denied = world.delete(fortress);
    assert!(matches!(denied, Err(EcsError::ProtectedTarget)));
    assert!(world.is_alive(fortress));
    assert!(world.is_alive(keeper));
}

#[test]
fn default_policy_strips_pairs_to_deleted_targets() {
    let mut world = World::new();
    let likes = world.tag("Likes").unwrap();
    let alice = world.entity_named("alice");
    let bob = world.entity_named("bob");
    world.add_id(bob, make_pair(likes, alice)).unwrap();

    world.delete(alice).unwrap();
    assert!(world.is_alive(bob));
    assert!(!world.has_id(bob, make_pair(likes, alice)));
}

#[test]
fn traverse_up_walks_ancestors() {
    let mut world = World::new();
    let a = world.entity_named("a");
    let b = world.entity_named("b");
    let c = world.entity_named("c");
    world.add_id(b, make_pair(CHILD_OF, a)).unwrap();
    world.add_id(c, make_pair(CHILD_OF, b)).unwrap();
    assert_eq!(world.traverse_up(c, CHILD_OF), vec![b, a]);
    assert_eq!(world.traverse_up(a, CHILD_OF), Vec::<u64>::new());
}

#[test]
fn deferred_mutations_apply_on_flush() {
    let mut world = World::new();
    let data = world.component("Data", 8, 8, false).unwrap();
    let e = world.entity();

    world.defer_begin();
    world.set_id(e, data, vec![42u64]).unwrap();
    assert!(world.get_id(e, data).is_none());
    world.defer_end().unwrap();
    assert_eq!(world.get_id(e, data).unwrap(), vec![42u64]);

    world.defer_begin();
    world.remove_id(e, data).unwrap();
    world.defer_suspend();
    let tag = world.tag("Immediate").unwrap();
    world.add_id(e, tag).unwrap();
    assert!(world.has_id(e, tag));
    world.defer_resume();
    assert!(world.get_id(e, data).is_some());
    world.defer_end().unwrap();
    assert!(world.get_id(e, data).is_none());
}

#[test]
fn clear_strips_every_id() {
    let mut world = World::new();
    let data = world.component("Data", 8, 8, false).unwrap();
    let tag = world.tag("Marker").unwrap();
    let e = world.entity();
    world.set_id(e, data, vec![7u64]).unwrap();
    world.add_id(e, tag).unwrap();

    world.clear(e).unwrap();
    assert!(world.is_alive(e));
    assert!(!world.has_id(e, data));
    assert!(!world.has_id(e, tag));
}

#[test]
fn clear_runs_destructor_hooks() {
    let mut world = World::new();
    let dropper = world.component("Dropper", 8, 8, true).unwrap();
    let tag = world.tag("Marker").unwrap();
    let e = world.entity();
    world.set_id(e, dropper, vec![189u64]).unwrap();
    world.add_id(e, tag).unwrap();

    let before = world.drop_log.len();
    world.clear(e).unwrap();
    assert!(world.is_alive(e));
    // Exactly one hook ran: for the data component, on its stored value;
    // the tag contributed no record.
    assert_eq!(world.drop_log.len(), before + 1);
    let rec = world.drop_log.last().unwrap();
    assert_eq!(rec.comp, dropper);
    assert_eq!(rec.value, vec![189u64]);
}
