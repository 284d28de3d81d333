//! Abstract commands queued on entities and drained once per tick: direct
//! box moves, physics steps, jumps, deletion, redirection to another entity,
//! and nested lists of sub-actions.

use vstd::prelude::*;
use crate::math::Rect;
use crate::physics::{spec_clamp_dx, spec_clamp_dy, NextPhysicsStep, PhysicsSystem, PhysicsView};
use crate::rect::RectComponent;
use crate::world::{World, WorldView};

verus! {

/// One abstract command. `EntityAction` redirects a nested action to another
/// entity by stable id; `MultipleActions` runs a list of sub-actions in
/// order. The interpreter recurses on the action tree, so its depth bounds
/// the work done.
#[derive(Debug)]
pub enum Actions {
    Empty,
    Move(i64, i64),
    PhysicsMove(i64, i64),
    PhysicsJump(u32),
    DeleteEntity,
    EntityAction(Option<usize>, Box<Actions>),
    MultipleActions(Vec<Actions>),
}

/// The per-entity queue of actions still to dispatch this tick.
#[derive(Debug)]
pub struct ActionComponent {
    pub actions_remaining: Vec<Actions>,
}

impl View for ActionComponent {
    type V = Seq<Actions>;

    open spec fn view(&self) -> Seq<Actions> {
        self.actions_remaining@
    }
}

impl ActionComponent {
    pub fn new(actions_remaining: Vec<Actions>) -> (ac: ActionComponent)
        ensures
            ac@ == actions_remaining@,
    {
        ActionComponent { actions_remaining }
    }
}

/// Drains every entity's pending actions and applies them to the boxes and
/// physics queues.
pub struct ActionSystem;

/// The effect of dispatching one action for `e`: a direct box move (clamped
/// to the coordinate range, recorded in the modified stream), an enqueued
/// physics step or jump, deletion, redirection to another live entity by
/// id, or a list of sub-actions in order. Requests aimed at a missing
/// component or a dead entity are silently ignored.
pub open spec fn spec_perform_action(w: WorldView, e: usize, a: Actions) -> WorldView
    decreases a,
{
    match a {
        Actions::Empty => w,
        Actions::Move(dx, dy) => {
            if e < w.n() && w.rects[e as int] is Some {
                let r = w.rects[e as int]->0.rect;
                let r2 = r.spec_shift(spec_clamp_dx(r, dx as int), spec_clamp_dy(r, dy as int));
                WorldView {
                    rects: w.rects.update(e as int, Some(RectComponent { rect: r2 })),
                    modified: w.modified.push(e),
                    ..w
                }
            } else {
                w
            }
        },
        Actions::PhysicsMove(dx, dy) => {
            if e < w.n() && w.physics[e as int] is Some {
                let pv = w.physics[e as int]->0;
                WorldView {
                    physics: w.physics.update(
                        e as int,
                        Some(PhysicsView {
                            steps: pv.steps.push(NextPhysicsStep::Move(dx, dy)),
                            ..pv
                        }),
                    ),
                    ..w
                }
            } else {
                w
            }
        },
        Actions::PhysicsJump(h) => {
            if e < w.n() && w.physics[e as int] is Some {
                let pv = w.physics[e as int]->0;
                WorldView {
                    physics: w.physics.update(
                        e as int,
                        Some(PhysicsView {
                            steps: pv.steps.push(NextPhysicsStep::Jump(h)),
                            ..pv
                        }),
                    ),
                    ..w
                }
            } else {
                w
            }
        },
        Actions::DeleteEntity => {
            if w.live(e as int) {
                WorldView {
                    alive: w.alive.update(e as int, false),
                    rects: w.rects.update(e as int, None),
                    physics: w.physics.update(e as int, None),
                    actions: w.actions.update(e as int, None),
                    chunks: w.chunks.update(e as int, None),
                    active: w.active.update(e as int, false),
                    removed: if w.rects[e as int] is Some {
                        w.removed.push(e)
                    } else {
                        w.removed
                    },
                    ..w
                }
            } else {
                w
            }
        },
        Actions::EntityAction(target, sub) => {
            match target {
                Some(id) => {
                    if w.live(id as int) {
                        spec_perform_action(w, id, *sub)
                    } else {
                        w
                    }
                },
                None => w,
            }
        },
        Actions::MultipleActions(list) => spec_perform_list(w, e, list@),
    }
}

/// Dispatching a list of actions in order.
pub open spec fn spec_perform_list(w: WorldView, e: usize, items: Seq<Actions>) -> WorldView
    decreases items,
{
    if items.len() == 0 {
        w
    } else {
        spec_perform_list(spec_perform_action(w, e, items[0]), e, items.drop_first())
    }
}

/// One entity's turn in the dispatcher: its pending list is taken, each
/// action applied in order, and (if the entity survived) an empty list is
/// put back, so actions are never re-processed across ticks.
pub open spec fn spec_dispatch_entity(w: WorldView, e: usize) -> WorldView {
    if w.live(e as int) && w.actions[e as int] is Some {
        let list = w.actions[e as int]->0;
        let w1 = spec_perform_list(
            WorldView { actions: w.actions.update(e as int, None), ..w },
            e,
            list,
        );
        if w1.live(e as int) {
            WorldView { actions: w1.actions.update(e as int, Some(Seq::empty())), ..w1 }
        } else {
            w1
        }
    } else {
        w
    }
}

/// The whole dispatcher pass, entity by entity in id order.
pub open spec fn spec_actions_fold(w: WorldView, k: nat) -> WorldView
    decreases k,
{
    if k == 0 {
        w
    } else {
        spec_dispatch_entity(spec_actions_fold(w, (k - 1) as nat), (k - 1) as usize)
    }
}

impl ActionSystem {
    /// Applies one action for entity `e`.
    fn perform_action(world: &mut World, e: usize, action: &Actions)
        requires
            old(world)@.wf(),
            e < old(world)@.n(),
        ensures
            final(world)@ == spec_perform_action(old(world)@, e, *action),
            final(world)@.wf(),
            final(world)@.n() == old(world)@.n(),
        decreases *action,
    {
        match action {
            Actions::Empty => {},
            Actions::Move(dx, dy) => {
                if world.has_rect(e) {
                    let rc = world.rect_of(e);
                    let r = rc.rect;
                    let cdx = PhysicsSystem::clamp_dx(&r, *dx);
                    let cdy = PhysicsSystem::clamp_dy(&r, *dy);
                    let mut r2 = r;
                    r2.move_by(cdx, cdy);
                    world.set_rect(e, r2);
                }
            },
            Actions::PhysicsMove(dx, dy) => {
                world.add_physics_step(e, NextPhysicsStep::Move(*dx, *dy));
            },
            Actions::PhysicsJump(h) => {
                world.add_physics_step(e, NextPhysicsStep::Jump(*h));
            },
            Actions::DeleteEntity => {
                world.delete_entity(e);
            },
            Actions::EntityAction(target, sub) => {
                match target {
                    Some(id) => {
                        if world.is_alive(*id) {
                            Self::perform_action(world, *id, sub);
                        }
                    },
                    None => {},
                }
            },
            Actions::MultipleActions(list) => {
                let ghost w_in = world@;
                proof {
                    assert(list@.skip(0) =~= list@);
                }
                let mut i: usize = 0;
                while i < list.len()
                    invariant
                        world@.wf(),
                        world@.n() == w_in.n(),
                        e < w_in.n(),
                        0 <= i <= list@.len(),
                        *action is MultipleActions,
                        (*action)->MultipleActions_0 == *list,
                        spec_perform_list(w_in, e, list@) == spec_perform_list(
                            world@,
                            e,
                            list@.skip(i as int),
                        ),
                    decreases list@.len() - i,
                {
                    proof {
                        assert(decreases_to!(*action => (*action)->MultipleActions_0@[i as int]));
                        assert(decreases_to!(*action => list@[i as int]));
                    }
                    Self::perform_action(world, e, &list[i]);
                    i += 1;
                    proof {
                        assert(list@.skip(i - 1).drop_first() =~= list@.skip(i as int));
                        assert(list@.skip(i - 1)[0] == list@[i - 1]);
                    }
                }
                proof {
                    assert(list@.skip(list@.len() as int).len() == 0);
                }
            },
        }
    }

    /// Drains every live entity's pending actions in id order, applying
    /// each one, and leaves surviving entities with an empty list.
    pub fn run(world: &mut World)
        requires
            old(world)@.wf(),
        ensures
            final(world)@ == spec_actions_fold(old(world)@, old(world)@.n() as nat),
            final(world)@.wf(),
    {
        let ghost w0 = world@;
        let n = world.len();
        let mut e: usize = 0;
        while e < n
            invariant
                world@.wf(),
                0 <= e <= n,
                n == w0.n(),
                world@.n() == w0.n(),
                world@ == spec_actions_fold(w0, e as nat),
            decreases n - e,
        {
            if world.is_alive(e) && world.actions_is_some(e) {
                let ac = world.take_actions(e);
                let list = ac.actions_remaining;
                let ghost w_in = world@;
                proof {
                    assert(list@.skip(0) =~= list@);
                }
                let mut i: usize = 0;
                while i < list.len()
                    invariant
                        world@.wf(),
                        world@.n() == w_in.n(),
                        e < w_in.n(),
                        0 <= i <= list@.len(),
                        spec_perform_list(w_in, e, list@) == spec_perform_list(
                            world@,
                            e,
                            list@.skip(i as int),
                        ),
                    decreases list@.len() - i,
                {
                    Self::perform_action(world, e, &list[i]);
                    i += 1;
                    proof {
                        assert(list@.skip(i - 1).drop_first() =~= list@.skip(i as int));
                        assert(list@.skip(i - 1)[0] == list@[i - 1]);
                    }
                }
                proof {
                    assert(list@.skip(list@.len() as int).len() == 0);
                }
                if world.is_alive(e) {
                    world.put_actions(e, ActionComponent { actions_remaining: Vec::new() });
                }
                proof {
                    assert(world@ =~~= spec_actions_fold(w0, (e + 1) as nat));
                }
            } else {
                proof {
                    assert(world@ =~~= spec_actions_fold(w0, (e + 1) as nat));
                }
            }
            e += 1;
        }
    }
}

} // verus!
