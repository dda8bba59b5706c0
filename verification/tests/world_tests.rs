//! Entities, names, components, pairs and destructor hooks.

use ecs_core::entity::make_pair;
use ecs_core::flecs::{CHILD_OF, SYMMETRIC};
use ecs_core::fixtures::{Bar, Baz, Foo, Qwak};
use ecs_core::world::World;

#[test]
fn basic_test() {
    let mut world = World::new();

    let foo_bar = world.component("FooBar", 16, 8, false).unwrap();
    let likes = world.tag("Likes").unwrap();
    world.add_id(likes, SYMMETRIC).unwrap();

    let alice = world.entity_named("alice");
    world
        .set_id(alice, foo_bar, vec![17u64, (-8.5f64).to_bits()])
        .unwrap();
    let bob = world.entity_named("bob");
    world
        .set_id(bob, foo_bar, vec![8u64, (9.2f64).to_bits()])
        .unwrap();
    world.add_id(bob, make_pair(likes, alice)).unwrap();

    let alice2 = world.lookup("alice").unwrap();
    let bob2 = world.lookup("bob").unwrap();
    assert_eq!(alice2, alice);
    assert_eq!(bob2, bob);
    let cecil = world.lookup("cecil");
    assert!(cecil.is_none(), "cecil should not exist");

    let foo_bar2 = world.lookup_symbol("FooBar").unwrap();
    let info = world.component_info(foo_bar2).unwrap();
    assert_eq!(info.0, 16);
    assert_eq!(info.1, 8);
    let likes2 = world.lookup_symbol("Likes").unwrap();
    assert!(world.component_info(likes2).is_none(), "likes is a tag");

    let alice_bar = world.get_id(alice, foo_bar).unwrap();
    assert_eq!(alice_bar, vec![17u64, (-8.5f64).to_bits()]);
    let bob_bar = world.get_id(bob, foo_bar).unwrap();
    assert_eq!(bob_bar, vec![8u64, (9.2f64).to_bits()]);

    assert!(world.has_id(alice, make_pair(likes, bob)));
    assert!(world.has_id(bob, make_pair(likes, alice)));
}

#[test]
fn child_test() {
    let mut world = World::new();

    let alice = world.entity_named("alice");
    let bob = world.entity_named("bob");
    let cecil = world.entity_named("cecil");
    let david = world.entity_named("david");
    world.add_id(bob, make_pair(CHILD_OF, alice)).unwrap();
    world.add_id(cecil, make_pair(CHILD_OF, alice)).unwrap();
    world.add_id(david, make_pair(CHILD_OF, cecil)).unwrap();

    assert_eq!(world.lookup("alice").unwrap(), alice);
    assert_eq!(world.lookup("alice.bob").unwrap(), bob);
    assert_eq!(world.lookup("alice.cecil").unwrap(), cecil);
    assert_eq!(world.lookup("alice.cecil.david").unwrap(), david);
    assert_eq!(world.lookup_path_from(alice, "bob").unwrap(), bob);
    assert_eq!(world.lookup_path_from(alice, "cecil").unwrap(), cecil);
    assert_eq!(world.lookup_path_from(alice, "cecil.david").unwrap(), david);

    assert_eq!(world.path(alice), "alice");
    assert_eq!(world.path(bob), "alice.bob");
    assert_eq!(world.path(cecil), "alice.cecil");
    assert_eq!(world.path(david), "alice.cecil.david");
}

#[test]
fn drop_test() {
    let mut world = World::new();
    let dropper = world.component("Dropper", 8, 8, true).unwrap();

    let alice = world.entity_named("alice");
    world.set_id(alice, dropper, vec![189u64]).unwrap();

    let alice2 = world.lookup("alice").unwrap();
    world.remove_id(alice2, dropper).unwrap();

    let drop_count = world.drop_log.len();
    let mut dropped: u64 = 0;
    for rec in &world.drop_log {
        dropped ^= rec.value[0];
    }
    assert_eq!(drop_count, 1);
    assert_eq!(dropped, 189);
}

#[test]
fn singleton_test() {
    let mut world = World::new();
    let foo = world.component("Foo", 8, 8, false).unwrap();
    let bar = world.component("Bar", 8, 8, false).unwrap();
    let baz = world.component("Baz", 8, 8, false).unwrap();
    let qwak = world.component("Qwak", 8, 8, false).unwrap();

    let v_foo = Foo { foo_one: 1 };
    let v_bar = Bar { bar_one: 10 };
    let v_baz = Baz { baz_one: 100 };
    let v_qwak = Qwak { qwak_one: 1000 };
    world.singleton_set(foo, vec![v_foo.foo_one]).unwrap();
    world.singleton_set(bar, vec![v_bar.bar_one]).unwrap();
    world.singleton_set(baz, vec![v_baz.baz_one]).unwrap();
    world.singleton_set(qwak, vec![v_qwak.qwak_one]).unwrap();

    assert_eq!(world.singleton_get(foo).unwrap(), vec![1u64]);
    assert_eq!(world.singleton_get(bar).unwrap(), vec![10u64]);
    assert_eq!(world.singleton_get(baz).unwrap(), vec![100u64]);
    assert_eq!(world.singleton_get(qwak).unwrap(), vec![1000u64]);

    assert!(world.singleton_exists(foo));
    assert!(world.singleton_exists(bar));
    assert!(world.singleton_exists(baz));
    assert!(world.singleton_exists(qwak));

    world.singleton_remove(foo).unwrap();
    world.singleton_remove(bar).unwrap();
    world.singleton_remove(baz).unwrap();
    world.singleton_remove(qwak).unwrap();

    assert!(!world.singleton_exists(foo));
    assert!(!world.singleton_exists(bar));
    assert!(!world.singleton_exists(baz));
    assert!(!world.singleton_exists(qwak));
}

#[test]
fn generations_detect_stale_ids() {
    let mut world = World::new();
    let e = world.entity();
    assert!(world.is_alive(e));
    world.delete(e).unwrap();
    assert!(!world.is_alive(e));
    let e2 = world.entity();
    assert_eq!(e2 & 0xFFFF_FFFF, e & 0xFFFF_FFFF);
    assert_ne!(e2 >> 32, e >> 32);
    assert!(!world.is_alive(e));
    assert!(world.is_alive(e2));
}

#[test]
fn pair_round_trip() {
    let rel: u64 = 77;
    let target: u64 = 123456;
    let p = make_pair(rel, target);
    assert!(ecs_core::entity::is_pair(p));
    assert_eq!(ecs_core::entity::pair_first(p), rel);
    assert_eq!(ecs_core::entity::pair_second(p), target);
    assert!(!ecs_core::entity::is_pair(rel));
}

#[test]
fn registration_is_idempotent_by_symbol() {
    let mut world = World::new();
    let a = world.component("Position", 16, 8, false).unwrap();
    let b = world.component("Position", 16, 8, false).unwrap();
    assert_eq!(a, b);
    let conflict = world.component("Position", 8, 8, false);
    assert!(matches!(
        conflict,
        Err(ecs_core::world::EcsError::RegistrationConflict)
    ));
}

#[test]
fn set_rejects_wrong_width_and_tags() {
    let mut world = World::new();
    let pos = world.component("Position", 16, 8, false).unwrap();
    let tag = world.tag("Marker").unwrap();
    let e = world.entity();
    assert!(matches!(
        world.set_id(e, pos, vec![1u64]),
        Err(ecs_core::world::EcsError::SizeMismatch)
    ));
    assert!(matches!(
        world.set_id(e, tag, vec![]),
        Err(ecs_core::world::EcsError::SizeMismatch)
    ));
    assert!(world.set_id(e, pos, vec![1u64, 2u64]).is_ok());
}

#[test]
fn enable_disable_is_soft() {
    let mut world = World::new();
    let tagged = world.tag("Marker").unwrap();
    let e = world.entity();
    world.add_id(e, tagged).unwrap();
    world.disable(e);
    assert!(world.is_alive(e));
    assert!(world.has_id(e, tagged));
    world.enable(e);
    assert!(world.has_id(e, tagged));
    world.enable_comp(e, tagged, false);
    assert!(!world.is_enabled_comp(e, tagged));
    world.enable_comp(e, tagged, true);
    assert!(world.is_enabled_comp(e, tagged));
}

#[test]
fn pair_values_store_data() {
    let mut world = World::new();
    let eats = world.component("Eats", 8, 8, false).unwrap();
    let apples = world.entity_named("apples");
    let bob = world.entity_named("bob");
    world
        .set_first(bob, eats, apples, vec![3u64])
        .unwrap();
    assert_eq!(world.get_first(bob, eats, apples).unwrap(), vec![3u64]);
    assert!(world.has_id(bob, make_pair(eats, apples)));
}

#[test]
fn add_remove_returns_to_original_table() {
    let mut world = World::new();
    let a = world.component("A", 8, 8, false).unwrap();
    let b = world.component("B", 8, 8, false).unwrap();
    let c = world.tag("C").unwrap();
    let e = world.entity();
    world.set_id(e, a, vec![1u64]).unwrap();
    world.set_id(e, b, vec![2u64]).unwrap();

    let idx = (e & 0xFFFF_FFFF) as usize;
    let before = world.recs[idx].table;
    world.add_id(e, c).unwrap();
    assert_ne!(world.recs[idx].table, before);
    world.remove_id(e, c).unwrap();
    assert_eq!(world.recs[idx].table, before);
    assert_eq!(world.get_id(e, a).unwrap(), vec![1u64]);
    assert_eq!(world.get_id(e, b).unwrap(), vec![2u64]);
}
