//! Dispatcher behaviour: every action kind, redirection by entity id,
//! nested lists, and the clearing of pending lists after a tick.

use platformer_core::actions::{ActionComponent, Actions, ActionSystem};
use platformer_core::math::Rect;
use platformer_core::physics::{BodyType, NextPhysicsStep, PhysicsComponent};
use platformer_core::rect::RectComponent;
use platformer_core::world::World;

fn boxed_entity(world: &mut World, r: Rect) -> usize {
    let e = world.create_entity();
    world.insert_rect(e, RectComponent::new(r));
    e
}

#[test]
fn move_action_shifts_the_box_and_logs_the_change() {
    let mut world = World::new();
    let e = boxed_entity(&mut world, Rect::new(100, 200, 50, 50));
    world.insert_actions(e, ActionComponent::new(vec![Actions::Move(30, -40)]));
    ActionSystem::run(&mut world);
    let r = world.rect_of(e).get_rect();
    assert_eq!((r.x, r.y), (130, 160));
    assert_eq!(world.modified, vec![e]);
    // the pending list is cleared, not re-run
    ActionSystem::run(&mut world);
    assert_eq!(world.rect_of(e).get_rect().x, 130);
    assert!(world.actions[e].as_ref().unwrap().actions_remaining.is_empty());
}

#[test]
fn physics_actions_enqueue_steps() {
    let mut world = World::new();
    let e = boxed_entity(&mut world, Rect::new(0, 0, 10, 10));
    world.insert_physics(
        e,
        PhysicsComponent::new(BodyType::Dynamic { apply_gravity: false, jump_data: None }),
    );
    world.insert_actions(
        e,
        ActionComponent::new(vec![Actions::PhysicsMove(5, 6), Actions::PhysicsJump(70)]),
    );
    ActionSystem::run(&mut world);
    let pc = world.physics[e].as_ref().unwrap();
    let steps: Vec<NextPhysicsStep> = pc.next_physics_step.iter().cloned().collect();
    assert_eq!(steps, vec![NextPhysicsStep::Move(5, 6), NextPhysicsStep::Jump(70)]);
}

#[test]
fn physics_action_without_component_is_ignored() {
    let mut world = World::new();
    let e = boxed_entity(&mut world, Rect::new(0, 0, 10, 10));
    world.insert_actions(e, ActionComponent::new(vec![Actions::PhysicsMove(5, 6)]));
    ActionSystem::run(&mut world);
    assert!(world.physics[e].is_none());
    assert!(world.is_alive(e));
}

#[test]
fn delete_action_kills_the_entity() {
    let mut world = World::new();
    let e = boxed_entity(&mut world, Rect::new(0, 0, 10, 10));
    world.insert_actions(e, ActionComponent::new(vec![Actions::DeleteEntity]));
    ActionSystem::run(&mut world);
    assert!(!world.is_alive(e));
    assert!(world.rects[e].is_none());
    assert_eq!(world.removed, vec![e]);
}

#[test]
fn entity_action_redirects_to_live_target() {
    let mut world = World::new();
    let trigger = boxed_entity(&mut world, Rect::new(0, 0, 10, 10));
    let door = boxed_entity(&mut world, Rect::new(500, 0, 10, 10));
    world.insert_actions(
        trigger,
        ActionComponent::new(vec![Actions::EntityAction(
            Some(door),
            Box::new(Actions::Move(0, -100)),
        )]),
    );
    ActionSystem::run(&mut world);
    assert_eq!(world.rect_of(door).get_rect().y, -100);
    assert_eq!(world.rect_of(trigger).get_rect().y, 0);
}

#[test]
fn entity_action_to_dead_or_missing_target_is_ignored() {
    let mut world = World::new();
    let trigger = boxed_entity(&mut world, Rect::new(0, 0, 10, 10));
    let victim = boxed_entity(&mut world, Rect::new(500, 0, 10, 10));
    world.delete_entity(victim);
    world.insert_actions(
        trigger,
        ActionComponent::new(vec![
            Actions::EntityAction(Some(victim), Box::new(Actions::Move(0, -100))),
            Actions::EntityAction(None, Box::new(Actions::Move(0, -100))),
        ]),
    );
    ActionSystem::run(&mut world);
    assert!(world.is_alive(trigger));
    assert_eq!(world.rect_of(trigger).get_rect().y, 0);
}

#[test]
fn multiple_actions_run_in_order_and_empty_does_nothing() {
    let mut world = World::new();
    let e = boxed_entity(&mut world, Rect::new(0, 0, 10, 10));
    world.insert_actions(
        e,
        ActionComponent::new(vec![Actions::MultipleActions(vec![
            Actions::Empty,
            Actions::Move(10, 0),
            Actions::MultipleActions(vec![Actions::Move(0, 20), Actions::Empty]),
        ])]),
    );
    ActionSystem::run(&mut world);
    let r = world.rect_of(e).get_rect();
    assert_eq!((r.x, r.y), (10, 20));
}

#[test]
fn actions_after_self_deletion_are_ignored() {
    let mut world = World::new();
    let e = boxed_entity(&mut world, Rect::new(0, 0, 10, 10));
    world.insert_actions(
        e,
        ActionComponent::new(vec![Actions::DeleteEntity, Actions::Move(10, 0)]),
    );
    ActionSystem::run(&mut world);
    assert!(!world.is_alive(e));
    assert!(world.rects[e].is_none());
}
