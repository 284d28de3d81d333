//! Resolver behaviour: the epsilon-decay avoidance search, gravity against
//! a floor, and the jump state machine's launch, flight and landing.

use platformer_core::chunk::ActiveChunksRect;
use platformer_core::chunk::ChunkSystem;
use platformer_core::math::Rect;
use platformer_core::physics::{BodyType, NextPhysicsStep, PhysicsComponent, PhysicsSystem};
use platformer_core::rect::RectComponent;
use platformer_core::world::World;
use platformer_core::PHYSICS_EPSILON;

fn world_with_camera(cam: Rect) -> (World, ChunkSystem, ActiveChunksRect) {
    (World::new(), ChunkSystem::new((20, 5)), ActiveChunksRect::new(cam))
}

fn add_box(world: &mut World, r: Rect, body: Option<BodyType>) -> usize {
    let e = world.create_entity();
    world.insert_rect(e, RectComponent::new(r));
    if let Some(b) = body {
        world.insert_physics(e, PhysicsComponent::new(b));
    }
    e
}

fn dynamic_no_gravity() -> BodyType {
    BodyType::Dynamic { apply_gravity: false, jump_data: None }
}

fn dynamic_with_gravity() -> BodyType {
    BodyType::Dynamic { apply_gravity: true, jump_data: None }
}

/// Two 100 x 100 world-unit boxes with a 10-unit gap: a requested 20-unit
/// move decays by epsilon steps (0.2 world units, 2 library units) and
/// lands on the largest offset short of contact, 9.8 world units; the
/// boxes do not overlap afterwards. Library units are tenths.
#[test]
fn blocked_move_lands_one_epsilon_short() {
    let (mut world, mut sys, mut cam) = world_with_camera(Rect::new(0, 0, 90000, 20000));
    let a = add_box(&mut world, Rect::new(0, 0, 1000, 1000), Some(dynamic_no_gravity()));
    let _b = add_box(&mut world, Rect::new(1100, 0, 1000, 1000), None);
    sys.run(&mut world, &mut cam);
    assert!(world.is_active(a));

    world.add_physics_step(a, NextPhysicsStep::Move(200, 0));
    let physics = PhysicsSystem::new((0, 0));
    physics.run(&mut world);

    let ra = world.rect_of(a).get_rect();
    assert_eq!(PHYSICS_EPSILON, 2);
    assert_eq!(ra.x, 98);
    // touching counts as overlap, and 1098 + 2 would touch 1100
    assert!(ra.x + ra.w < 1100);
}

/// A box already in (touching) contact cannot move toward the obstacle at
/// all: the whole request decays to nothing.
#[test]
fn move_into_contact_is_dropped() {
    let (mut world, mut sys, mut cam) = world_with_camera(Rect::new(0, 0, 90000, 20000));
    let a = add_box(&mut world, Rect::new(0, 0, 1000, 1000), Some(dynamic_no_gravity()));
    let _b = add_box(&mut world, Rect::new(900, 0, 1000, 1000), None);
    sys.run(&mut world, &mut cam);

    world.add_physics_step(a, NextPhysicsStep::Move(200, 0));
    let physics = PhysicsSystem::new((0, 0));
    physics.run(&mut world);
    assert_eq!(world.rect_of(a).get_rect().x, 0);
}

/// Axes are probed independently: with the path to the right blocked, the
/// vertical part of a diagonal request still goes through.
#[test]
fn diagonal_move_resolves_axes_independently() {
    let (mut world, mut sys, mut cam) = world_with_camera(Rect::new(0, 0, 90000, 20000));
    let a = add_box(&mut world, Rect::new(0, 0, 1000, 1000), Some(dynamic_no_gravity()));
    let _b = add_box(&mut world, Rect::new(1010, 0, 1000, 3000), None);
    sys.run(&mut world, &mut cam);

    world.add_physics_step(a, NextPhysicsStep::Move(100, 500));
    let physics = PhysicsSystem::new((0, 0));
    physics.run(&mut world);
    let ra = world.rect_of(a).get_rect();
    // horizontally the decay stops one epsilon short of contact at 1010,
    // while the vertical part of the same request goes through in full
    assert_eq!(ra.x, 8);
    assert_eq!(ra.y, 500);
}

/// A body resting on a floor neither falls through nor sinks: gravity's
/// move is blocked and dropped every tick.
#[test]
fn gravity_rests_on_floor() {
    let (mut world, mut sys, mut cam) = world_with_camera(Rect::new(0, 0, 90000, 20000));
    let a = add_box(&mut world, Rect::new(0, 0, 1000, 1000), Some(dynamic_with_gravity()));
    let _floor = add_box(&mut world, Rect::new(-5000, 1000, 20000, 500), None);
    sys.run(&mut world, &mut cam);

    let physics = PhysicsSystem::new((0, 98));
    for _ in 0..5 {
        physics.run(&mut world);
    }
    assert_eq!(world.rect_of(a).get_rect().y, 0);
}

/// A free-falling body accumulates one gravity step per tick.
#[test]
fn gravity_free_fall() {
    let (mut world, mut sys, mut cam) = world_with_camera(Rect::new(0, 0, 90000, 20000));
    let a = add_box(&mut world, Rect::new(0, 0, 1000, 1000), Some(dynamic_with_gravity()));
    sys.run(&mut world, &mut cam);

    let physics = PhysicsSystem::new((0, 98));
    physics.run(&mut world);
    assert_eq!(world.rect_of(a).get_rect().y, 98);
    physics.run(&mut world);
    assert_eq!(world.rect_of(a).get_rect().y, 196);
}

/// A launched jump ascends one gravity step per tick, reaches its target
/// height after a finite number of ticks, and clears its state; gravity
/// then takes over again.
#[test]
fn jump_terminates_at_target() {
    let (mut world, mut sys, mut cam) = world_with_camera(Rect::new(-90000, -90000, 400000, 400000));
    let a = add_box(&mut world, Rect::new(0, 0, 1000, 1000), Some(dynamic_no_gravity()));
    sys.run(&mut world, &mut cam);

    let physics = PhysicsSystem::new((0, 100));
    world.add_physics_step(a, NextPhysicsStep::Jump(500));
    physics.run(&mut world);
    // the jump launched this tick; no move yet beyond the queued steps
    match world.physics_body_of(a).unwrap() {
        BodyType::Dynamic { jump_data, .. } => {
            let j = jump_data.expect("jump in flight");
            assert_eq!(j.target_height, -500);
        },
        BodyType::Static => panic!("body should be dynamic"),
    }

    let mut ys = Vec::new();
    for _ in 0..6 {
        physics.run(&mut world);
        ys.push(world.rect_of(a).get_rect().y);
    }
    assert_eq!(ys, vec![-100, -200, -300, -400, -500, -500]);
    match world.physics_body_of(a).unwrap() {
        BodyType::Dynamic { jump_data, .. } => assert!(jump_data.is_none()),
        BodyType::Static => panic!("body should be dynamic"),
    }
}

/// A jump requested while the headroom probe is blocked is rejected
/// outright: no state change, no motion.
#[test]
fn jump_blocked_overhead_is_rejected() {
    let (mut world, mut sys, mut cam) = world_with_camera(Rect::new(-90000, -90000, 400000, 400000));
    let a = add_box(&mut world, Rect::new(0, 2000, 1000, 1000), Some(dynamic_no_gravity()));
    // ceiling two units overhead: moving up by one epsilon would touch it
    let _ceiling = add_box(&mut world, Rect::new(0, 998, 1000, 1000), None);
    sys.run(&mut world, &mut cam);

    let physics = PhysicsSystem::new((0, 100));
    world.add_physics_step(a, NextPhysicsStep::Jump(500));
    physics.run(&mut world);
    match world.physics_body_of(a).unwrap() {
        BodyType::Dynamic { jump_data, .. } => assert!(jump_data.is_none()),
        BodyType::Static => panic!("body should be dynamic"),
    }
    assert_eq!(world.rect_of(a).get_rect().y, 2000);
}

/// A jump request while a jump is already in flight is a no-op.
#[test]
fn jump_while_jumping_is_ignored() {
    let (mut world, mut sys, mut cam) = world_with_camera(Rect::new(-90000, -90000, 400000, 400000));
    let a = add_box(&mut world, Rect::new(0, 0, 1000, 1000), Some(dynamic_no_gravity()));
    sys.run(&mut world, &mut cam);

    let physics = PhysicsSystem::new((0, 100));
    world.add_physics_step(a, NextPhysicsStep::Jump(500));
    physics.run(&mut world);
    world.add_physics_step(a, NextPhysicsStep::Jump(90000));
    physics.run(&mut world);
    match world.physics_body_of(a).unwrap() {
        BodyType::Dynamic { jump_data, .. } => {
            assert_eq!(jump_data.unwrap().target_height, -500);
        },
        BodyType::Static => panic!("body should be dynamic"),
    }
}

/// Inactive entities are not simulated at all.
#[test]
fn inactive_bodies_do_not_move() {
    let (mut world, mut sys, mut cam) = world_with_camera(Rect::new(50000, 0, 1000, 1000));
    let a = add_box(&mut world, Rect::new(0, 0, 1000, 1000), Some(dynamic_with_gravity()));
    sys.run(&mut world, &mut cam);
    assert!(!world.is_active(a));

    let physics = PhysicsSystem::new((0, 98));
    physics.run(&mut world);
    assert_eq!(world.rect_of(a).get_rect().y, 0);
}

/// Static bodies keep their queue untouched and never move.
#[test]
fn static_bodies_ignore_their_queue() {
    let (mut world, mut sys, mut cam) = world_with_camera(Rect::new(0, 0, 90000, 20000));
    let a = add_box(&mut world, Rect::new(0, 0, 1000, 1000), Some(BodyType::Static));
    sys.run(&mut world, &mut cam);

    world.add_physics_step(a, NextPhysicsStep::Move(200, 0));
    let physics = PhysicsSystem::new((0, 98));
    physics.run(&mut world);
    assert_eq!(world.rect_of(a).get_rect().x, 0);
    assert_eq!(world.rect_of(a).get_rect().y, 0);
}
