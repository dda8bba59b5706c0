//! Systems and the scheduler.

use ecs_core::flecs::{ON_LOAD, ON_STORE, SYSTEM};
use ecs_core::world::World;

#[test]
fn system_test() {
    let mut world = World::new();
    let comp_a = world.component("A", 8, 8, false).unwrap();
    let comp_b = world.component("B", 8, 8, false).unwrap();
    let comp_s = world.component("S", 16, 8, false).unwrap();

    world.singleton_set(comp_s, vec![0u64, 0u64]).unwrap();

    let a = world.entity_named("a");
    let b = world.entity_named("b");
    let c = world.entity_named("c");
    let d = world.entity_named("d");
    let e = world.entity_named("e");
    let f = world.entity_named("f");
    world.set_id(a, comp_a, vec![1u64]).unwrap();
    world.set_id(b, comp_b, vec![3u64]).unwrap();
    world.set_id(c, comp_a, vec![7u64]).unwrap();
    world.set_id(d, comp_b, vec![5u64]).unwrap();
    world.set_id(e, comp_a, vec![9u64]).unwrap();
    world.set_id(f, comp_b, vec![8u64]).unwrap();

    let sys = world
        .system_expr("S($), A || B")
        .build_named(&mut world, "test_system")
        .unwrap();

    let system = world.lookup("test_system").unwrap();
    assert_eq!(system, sys);
    assert!(world.has_id(system, SYSTEM));

    // Drive the system's query for each scheduled run.
    let q = world
        .query_expr("S($), A || B")
        .build(&world)
        .unwrap();
    let due = world.progress();
    for run in due {
        assert_eq!(run, sys);
        let mut it = q.iter();
        while it.advance(&world) {
            for row in 0..it.count() {
                let en = it.entity(&world, row).unwrap();
                let s = world.singleton_get(comp_s).unwrap();
                if it.check_id(comp_a, 1) {
                    let v = world.get_id(en, comp_a).unwrap()[0];
                    world.singleton_set(comp_s, vec![s[0] + v, s[1]]).unwrap();
                } else if it.check_id(comp_b, 1) {
                    let v = world.get_id(en, comp_b).unwrap()[0];
                    world.singleton_set(comp_s, vec![s[0], s[1] + v]).unwrap();
                } else {
                    panic!("should not happen");
                }
            }
        }
    }

    assert_eq!(world.singleton_get(comp_s).unwrap()[0], 1 + 7 + 9);
    assert_eq!(world.singleton_get(comp_s).unwrap()[1], 3 + 5 + 8);
}

#[test]
fn rate_two_runs_twice_in_four_frames() {
    let mut world = World::new();
    let sys = world.system().rate(2).build(&mut world).unwrap();

    let mut runs = 0;
    for _ in 0..4 {
        let due = world.progress();
        runs += due.iter().filter(|e| **e == sys).count();
    }
    assert_eq!(runs, 2);
}

#[test]
fn interval_throttles_by_accumulated_time() {
    let mut world = World::new();
    let sys = world.system().interval(10).build(&mut world).unwrap();

    let due1 = world.progress_delta(4);
    assert!(!due1.contains(&sys));
    let due2 = world.progress_delta(4);
    assert!(!due2.contains(&sys));
    let due3 = world.progress_delta(4);
    assert!(due3.contains(&sys));
    // A run consumes one interval's worth, so the system throttles again.
    let due4 = world.progress_delta(4);
    assert!(!due4.contains(&sys));
    let due5 = world.progress_delta(4);
    assert!(due5.contains(&sys));
}

#[test]
fn phases_run_in_order() {
    let mut world = World::new();
    let store_sys = world.system().kind(ON_STORE).build(&mut world).unwrap();
    let load_sys = world.system().kind(ON_LOAD).build(&mut world).unwrap();
    let update_sys = world.system().build(&mut world).unwrap();

    let due = world.progress();
    assert_eq!(due, vec![load_sys, update_sys, store_sys]);
}
