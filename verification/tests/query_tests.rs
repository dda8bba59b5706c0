//! Query compilation, matching and iteration.

use ecs_core::fixtures::{TestData, TestMultiplier, TestSingleton, TestTag, TestTriple};
use ecs_core::world::World;

#[test]
fn query_test() {
    let mut world = World::new();
    let singleton = world.component("Singleton", 8, 8, false).unwrap();
    let data = world.component("Data", 8, 8, false).unwrap();
    let tag = world.component("Tag", 0, 0, false).unwrap();
    let triple = world.component("Triple", 0, 0, false).unwrap();
    let multiplier = world.component("Multiplier", 8, 8, false).unwrap();

    let initial = TestSingleton { data: 1 };
    world.singleton_set(singleton, initial.to_words()).unwrap();

    let e1 = world.entity_named("e1");
    let e2 = world.entity_named("e2");
    let e3 = world.entity_named("e3");
    let e4 = world.entity_named("e4");
    let e5 = world.entity_named("e5");

    let d1 = TestData { data: 2 };
    let d2 = TestData { data: 3 };
    let d3 = TestData { data: 5 };
    let d4 = TestData { data: 7 };
    let d5 = TestData { data: 11 };
    world.set_id(e1, data, d1.to_words()).unwrap();
    world.set_id(e2, data, d2.to_words()).unwrap();
    world.set_id(e3, data, d3.to_words()).unwrap();
    world.set_id(e4, data, d4.to_words()).unwrap();
    world.set_id(e5, data, d5.to_words()).unwrap();

    world.add_id(e1, tag).unwrap();
    world.add_id(e3, tag).unwrap();
    world.add_id(e5, tag).unwrap();

    let _tag_marker = TestTag;
    let _branch_marker = TestTriple;
    world.add_id(e2, triple).unwrap();
    world.add_id(e3, triple).unwrap();
    let m4 = TestMultiplier { mult: 6 };
    let m5 = TestMultiplier { mult: 9 };
    world.set_id(e4, multiplier, m4.to_words()).unwrap();
    world.set_id(e5, multiplier, m5.to_words()).unwrap();

    // Simple all query.
    let simple_query = world
        .query_expr("[in] Data, [out] Singleton($)")
        .build(&world)
        .unwrap();
    let mut query_iter = simple_query.iter();
    while query_iter.advance(&world) {
        for ent in 0..query_iter.count() {
            let d = query_iter.field(&world, 0, ent).unwrap()[0];
            let s = world.singleton_get(singleton).unwrap()[0];
            world.singleton_set(singleton, vec![s * d]).unwrap();
        }
    }
    assert_eq!(
        world.singleton_get(singleton).unwrap()[0],
        2 * 3 * 5 * 7 * 11
    );
    drop(simple_query);

    // Simple filtered query.
    world.singleton_set(singleton, vec![1u64]).unwrap();
    let filtered_query = world
        .query_expr("[in] Data, [out] Singleton($), Tag")
        .build(&world)
        .unwrap();
    let mut query_iter = filtered_query.iter();
    while query_iter.advance(&world) {
        for ent in 0..query_iter.count() {
            let d = query_iter.field(&world, 0, ent).unwrap()[0];
            let s = world.singleton_get(singleton).unwrap()[0];
            world.singleton_set(singleton, vec![s * d]).unwrap();
        }
    }
    assert_eq!(world.singleton_get(singleton).unwrap()[0], 2 * 5 * 11);
    drop(filtered_query);

    // Simple negative filtered query.
    world.singleton_set(singleton, vec![1u64]).unwrap();
    let filtered_query = world
        .query_expr("[in] Data, [out] Singleton($), [none] !Tag")
        .build(&world)
        .unwrap();
    let mut query_iter = filtered_query.iter();
    while query_iter.advance(&world) {
        for ent in 0..query_iter.count() {
            let d = query_iter.field(&world, 0, ent).unwrap()[0];
            let s = world.singleton_get(singleton).unwrap()[0];
            world.singleton_set(singleton, vec![s * d]).unwrap();
        }
    }
    assert_eq!(world.singleton_get(singleton).unwrap()[0], 7 * 3);

    // Optional term query.
    world.singleton_set(singleton, vec![1u64]).unwrap();
    let filtered_query = world
        .query_expr("[in] Data, [out] Singleton($), [none] ?Tag")
        .build(&world)
        .unwrap();
    let mut query_iter = filtered_query.iter();
    while query_iter.advance(&world) {
        let double_down = query_iter.has(2);
        for ent in 0..query_iter.count() {
            let d = query_iter.field(&world, 0, ent).unwrap()[0];
            let s = world.singleton_get(singleton).unwrap()[0];
            let mut next = s * d;
            if double_down {
                next *= 17;
            }
            world.singleton_set(singleton, vec![next]).unwrap();
        }
    }
    assert_eq!(
        world.singleton_get(singleton).unwrap()[0],
        2 * 3 * 5 * 7 * 11 * 17 * 17 * 17
    );
    drop(filtered_query);

    // Or-group query.
    let or_query = world
        .query_expr("[in] Data, [out] Singleton($), [in] Triple || [in] Multiplier")
        .build(&world)
        .unwrap();
    let mut or_iter = or_query.iter();
    while or_iter.advance(&world) {
        for ent in 0..or_iter.count() {
            let d = or_iter.field(&world, 0, ent).unwrap()[0];
            let s = world.singleton_get(singleton).unwrap()[0];
            if or_iter.check_id(triple, 2) {
                world.singleton_set(singleton, vec![s * d * 3]).unwrap();
            } else if or_iter.check_id(multiplier, 2) {
                let m = or_iter.field(&world, 2, ent).unwrap()[0];
                world.singleton_set(singleton, vec![s * d * m]).unwrap();
            } else {
                panic!("this should not happen");
            }
        }
    }
}

#[test]
fn position_velocity_update() {
    let mut world = World::new();
    let position = world.component("Position", 16, 8, false).unwrap();
    let velocity = world.component("Velocity", 16, 8, false).unwrap();

    let a = world.entity_named("a");
    world.set_id(a, position, vec![10u64, 20u64]).unwrap();
    world.set_id(a, velocity, vec![1u64, 2u64]).unwrap();
    let b = world.entity_named("b");
    world.set_id(b, position, vec![5u64, 5u64]).unwrap();

    let q = world
        .query_expr("[in] Velocity, [inout] Position")
        .build(&world)
        .unwrap();
    let mut it = q.iter();
    let mut visited = Vec::new();
    while it.advance(&world) {
        for row in 0..it.count() {
            let e = it.entity(&world, row).unwrap();
            visited.push(e);
            let vel = it.field(&world, 0, row).unwrap();
            let pos = it.field(&world, 1, row).unwrap();
            world
                .set_id(e, position, vec![pos[0] + vel[0], pos[1] + vel[1]])
                .unwrap();
        }
    }
    assert_eq!(visited, vec![a]);
    assert_eq!(world.get_id(a, position).unwrap(), vec![11u64, 22u64]);
    assert_eq!(world.get_id(b, position).unwrap(), vec![5u64, 5u64]);
}

#[test]
fn or_group_visits_each_entity_once() {
    let mut world = World::new();
    let comp_a = world.component("A", 8, 8, false).unwrap();
    let comp_b = world.component("B", 8, 8, false).unwrap();

    let mut with_a = Vec::new();
    let mut with_b = Vec::new();
    for i in 0..5u64 {
        let e = world.entity();
        if i < 3 {
            world.set_id(e, comp_a, vec![i]).unwrap();
            with_a.push(e);
        } else {
            world.set_id(e, comp_b, vec![i]).unwrap();
            with_b.push(e);
        }
    }

    let q = world
        .query_expr("[in] A || [in] B")
        .build(&world)
        .unwrap();
    let mut it = q.iter();
    let mut seen = Vec::new();
    while it.advance(&world) {
        for row in 0..it.count() {
            let e = it.entity(&world, row).unwrap();
            if it.check_id(comp_a, 0) {
                assert!(with_a.contains(&e));
            } else if it.check_id(comp_b, 0) {
                assert!(with_b.contains(&e));
            } else {
                panic!("no branch matched");
            }
            assert!(!seen.contains(&e), "entity visited twice");
            seen.push(e);
        }
    }
    assert_eq!(seen.len(), 5);
}

#[test]
fn removed_component_leaves_iteration() {
    let mut world = World::new();
    let data = world.component("Data", 8, 8, false).unwrap();
    let e1 = world.entity();
    let e2 = world.entity();
    world.set_id(e1, data, vec![1u64]).unwrap();
    world.set_id(e2, data, vec![2u64]).unwrap();

    let q = world.query_expr("[in] Data").build(&world).unwrap();
    let mut it = q.iter();
    let mut count = 0;
    while it.advance(&world) {
        count += it.count();
    }
    assert_eq!(count, 2);

    world.remove_id(e1, data).unwrap();
    let mut it = q.iter();
    let mut seen = Vec::new();
    while it.advance(&world) {
        for row in 0..it.count() {
            seen.push(it.entity(&world, row).unwrap());
        }
    }
    assert_eq!(seen, vec![e2]);
}

#[test]
fn query_build_errors() {
    let mut world = World::new();
    let _data = world.component("Data", 8, 8, false).unwrap();
    let bad = world.query_expr("[in] Data,,").build(&world);
    assert!(matches!(bad, Err(ecs_core::world::EcsError::ParseFailure)));
    let unknown = world.query_expr("[in] Nowhere").build(&world);
    assert!(matches!(
        unknown,
        Err(ecs_core::world::EcsError::UnknownName)
    ));
}

#[test]
fn wildcard_matches_any_present_id() {
    let mut world = World::new();
    let data = world.component("Data", 8, 8, false).unwrap();
    let e = world.entity();
    world.set_id(e, data, vec![4u64]).unwrap();
    assert!(world.has_id(e, ecs_core::flecs::WILDCARD));

    let q = world.query_expr("*").build(&world).unwrap();
    let mut it = q.iter();
    let mut seen = Vec::new();
    while it.advance(&world) {
        for row in 0..it.count() {
            seen.push(it.entity(&world, row).unwrap());
        }
    }
    assert!(seen.contains(&e));
}

#[test]
fn wildcard_term_reports_concrete_id() {
    let mut world = World::new();
    let data = world.component("Data", 8, 8, false).unwrap();
    let e = world.entity();
    world.set_id(e, data, vec![4u64]).unwrap();

    let q = world.query_expr("[in] *").build(&world).unwrap();
    let mut it = q.iter();
    let mut found = false;
    while it.advance(&world) {
        for row in 0..it.count() {
            if it.entity(&world, row) == Some(e) {
                // The wildcard resolved to the id actually present, so the
                // matched column can be read back through the term.
                assert!(it.check_id(data, 0));
                assert_eq!(it.field(&world, 0, row).unwrap(), vec![4u64]);
                found = true;
            }
        }
    }
    assert!(found);
}

#[test]
fn order_by_sorts_rows_by_leading_value() {
    let mut world = World::new();
    let key = world.component("Key", 8, 8, false).unwrap();
    let e1 = world.entity();
    let e2 = world.entity();
    let e3 = world.entity();
    world.set_id(e1, key, vec![30u64]).unwrap();
    world.set_id(e2, key, vec![10u64]).unwrap();
    world.set_id(e3, key, vec![20u64]).unwrap();

    let q = world
        .query_expr("[in] Key")
        .order_by(key)
        .build(&world)
        .unwrap();
    let mut it = q.iter();
    let mut keys = Vec::new();
    while it.advance(&world) {
        for row in 0..it.count() {
            keys.push(it.field(&world, 0, row).unwrap()[0]);
        }
    }
    assert_eq!(keys, vec![10, 20, 30]);
}
