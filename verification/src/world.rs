//! The entity registry: component storages keyed by entity id, liveness, and
//! the three change streams (inserted / modified / removed) that box
//! mutations append to and that the spatial index drains once per tick
//! through its cursors.

use vstd::prelude::*;
use crate::actions::{ActionComponent, Actions};
use crate::chunk::ChunkComponent;
use crate::math::Rect;
use crate::physics::{NextPhysicsStep, PhysicsComponent, PhysicsView};
use crate::rect::RectComponent;

verus! {

/// Mathematical image of the registry.
#[verifier::ext_equal]
pub ghost struct WorldView {
    pub alive: Seq<bool>,
    pub rects: Seq<Option<RectComponent>>,
    pub physics: Seq<Option<PhysicsView>>,
    pub actions: Seq<Option<Seq<Actions>>>,
    pub chunks: Seq<Option<Seq<(usize, usize)>>>,
    pub active: Seq<bool>,
    pub inserted: Seq<usize>,
    pub modified: Seq<usize>,
    pub removed: Seq<usize>,
}

impl WorldView {
    /// Number of entity slots ever allocated (dead ones included).
    pub open spec fn n(self) -> int {
        self.alive.len() as int
    }

    pub open spec fn sized_ok(self) -> bool {
        &&& self.rects.len() == self.alive.len()
        &&& self.physics.len() == self.alive.len()
        &&& self.actions.len() == self.alive.len()
        &&& self.chunks.len() == self.alive.len()
        &&& self.active.len() == self.alive.len()
    }

    pub open spec fn live(self, e: int) -> bool {
        0 <= e < self.n() && self.alive[e]
    }

    /// Registry invariant: storages line up; an Active-tagged entity always
    /// has a box (physics relies on it); every stored box is well formed;
    /// every change event names an allocated slot.
    pub open spec fn wf(self) -> bool {
        &&& self.sized_ok()
        &&& forall|e: int| 0 <= e < self.n() && #[trigger] self.active[e] ==> self.rects[e] is Some
        &&& forall|e: int|
            0 <= e < self.n() && #[trigger] self.rects[e] is Some ==> self.rects[e]->0.rect.wf()
        &&& forall|i: int| 0 <= i < self.inserted.len() ==> #[trigger] self.inserted[i] < self.n()
        &&& forall|i: int| 0 <= i < self.modified.len() ==> #[trigger] self.modified[i] < self.n()
        &&& forall|i: int| 0 <= i < self.removed.len() ==> #[trigger] self.removed[i] < self.n()
    }
}

pub open spec fn view_opt_physics(p: Option<PhysicsComponent>) -> Option<PhysicsView> {
    match p {
        Some(pc) => Some(pc@),
        None => None,
    }
}

pub open spec fn view_opt_actions(a: Option<ActionComponent>) -> Option<Seq<Actions>> {
    match a {
        Some(ac) => Some(ac@),
        None => None,
    }
}

pub open spec fn view_opt_chunks(c: Option<ChunkComponent>) -> Option<Seq<(usize, usize)>> {
    match c {
        Some(cc) => Some(cc@),
        None => None,
    }
}

/// Component storages for every entity, plus the change streams of the box
/// storage. Entity ids are indices; slots are never reused, deletion only
/// clears them.
pub struct World {
    pub alive: Vec<bool>,
    pub rects: Vec<Option<RectComponent>>,
    pub physics: Vec<Option<PhysicsComponent>>,
    pub actions: Vec<Option<ActionComponent>>,
    pub chunks: Vec<Option<ChunkComponent>>,
    pub active: Vec<bool>,
    pub inserted: Vec<usize>,
    pub modified: Vec<usize>,
    pub removed: Vec<usize>,
}

impl View for World {
    type V = WorldView;

    open spec fn view(&self) -> WorldView {
        WorldView {
            alive: self.alive@,
            rects: self.rects@,
            physics: self.physics@.map_values(|p: Option<PhysicsComponent>| view_opt_physics(p)),
            actions: self.actions@.map_values(|a: Option<ActionComponent>| view_opt_actions(a)),
            chunks: self.chunks@.map_values(|c: Option<ChunkComponent>| view_opt_chunks(c)),
            active: self.active@,
            inserted: self.inserted@,
            modified: self.modified@,
            removed: self.removed@,
        }
    }
}

impl World {
    pub fn new() -> (w: World)
        ensures
            w@.n() == 0,
            w@.wf(),
            w@.inserted == Seq::<usize>::empty(),
            w@.modified == Seq::<usize>::empty(),
            w@.removed == Seq::<usize>::empty(),
    {
        World {
            alive: Vec::new(),
            rects: Vec::new(),
            physics: Vec::new(),
            actions: Vec::new(),
            chunks: Vec::new(),
            active: Vec::new(),
            inserted: Vec::new(),
            modified: Vec::new(),
            removed: Vec::new(),
        }
    }

    pub fn len(&self) -> (n: usize)
        ensures
            n == self@.n(),
    {
        self.alive.len()
    }

    /// Allocates a fresh live entity with no components; its id is returned.
    pub fn create_entity(&mut self) -> (e: usize)
        ensures
            e == old(self)@.n(),
            final(self)@ == (WorldView {
                alive: old(self)@.alive.push(true),
                rects: old(self)@.rects.push(None),
                physics: old(self)@.physics.push(None),
                actions: old(self)@.actions.push(None),
                chunks: old(self)@.chunks.push(None),
                active: old(self)@.active.push(false),
                ..old(self)@
            }),
    {
        let e = self.alive.len();
        self.alive.push(true);
        self.rects.push(None);
        self.physics.push(None);
        self.actions.push(None);
        self.chunks.push(None);
        self.active.push(false);
        proof {
            assert(self@.physics =~= old(self)@.physics.push(None));
            assert(self@.actions =~= old(self)@.actions.push(None));
            assert(self@.chunks =~= old(self)@.chunks.push(None));
        }
        e
    }

    pub fn is_alive(&self, e: usize) -> (r: bool)
        ensures
            r == self@.live(e as int),
    {
        e < self.alive.len() && self.alive[e]
    }

    pub fn is_active(&self, e: usize) -> (r: bool)
        requires
            self@.sized_ok(),
        ensures
            r == (e < self@.n() && self@.active[e as int]),
    {
        e < self.active.len() && self.active[e]
    }

    pub fn has_rect(&self, e: usize) -> (r: bool)
        requires
            self@.sized_ok(),
        ensures
            r == (e < self@.n() && self@.rects[e as int] is Some),
    {
        e < self.rects.len() && self.rects[e].is_some()
    }

    pub fn rect_of(&self, e: usize) -> (rc: RectComponent)
        requires
            self@.sized_ok(),
            e < self@.n(),
            self@.rects[e as int] is Some,
        ensures
            rc == self@.rects[e as int]->0,
    {
        match &self.rects[e] {
            Some(rc) => *rc,
            None => vstd::pervasive::unreached(),
        }
    }

    /// Gives the entity a box and records the insertion for the index.
    pub fn insert_rect(&mut self, e: usize, rc: RectComponent)
        requires
            old(self)@.sized_ok(),
            old(self)@.live(e as int),
            rc.rect.wf(),
        ensures
            final(self)@ == (WorldView {
                rects: old(self)@.rects.update(e as int, Some(rc)),
                inserted: old(self)@.inserted.push(e),
                ..old(self)@
            }),
    {
        self.rects[e] = Some(rc);
        self.inserted.push(e);
    }

    /// Overwrites the entity's box and records the modification for the
    /// index.
    pub fn set_rect(&mut self, e: usize, r: Rect)
        requires
            old(self)@.sized_ok(),
            e < old(self)@.n(),
            old(self)@.rects[e as int] is Some,
            r.wf(),
        ensures
            final(self)@ == (WorldView {
                rects: old(self)@.rects.update(e as int, Some(RectComponent { rect: r })),
                modified: old(self)@.modified.push(e),
                ..old(self)@
            }),
    {
        self.rects[e] = Some(RectComponent { rect: r });
        self.modified.push(e);
    }

    /// Removes the entity's box, clears its Active tag, and records the
    /// removal; removing a box that is not there is a no-op.
    pub fn remove_rect(&mut self, e: usize)
        requires
            old(self)@.sized_ok(),
            e < old(self)@.n(),
        ensures
            old(self)@.rects[e as int] is Some ==> final(self)@ == (WorldView {
                rects: old(self)@.rects.update(e as int, None),
                active: old(self)@.active.update(e as int, false),
                removed: old(self)@.removed.push(e),
                ..old(self)@
            }),
            old(self)@.rects[e as int] is None ==> final(self)@ == old(self)@,
    {
        if self.rects[e].is_some() {
            self.rects[e] = None;
            self.active[e] = false;
            self.removed.push(e);
        }
    }

    pub fn insert_physics(&mut self, e: usize, pc: PhysicsComponent)
        requires
            old(self)@.sized_ok(),
            old(self)@.live(e as int),
        ensures
            final(self)@ == (WorldView {
                physics: old(self)@.physics.update(e as int, Some(pc@)),
                ..old(self)@
            }),
    {
        self.physics[e] = Some(pc);
        proof {
            assert(self@.physics =~= old(self)@.physics.update(e as int, Some(pc@)));
        }
    }

    pub fn insert_actions(&mut self, e: usize, ac: ActionComponent)
        requires
            old(self)@.sized_ok(),
            old(self)@.live(e as int),
        ensures
            final(self)@ == (WorldView {
                actions: old(self)@.actions.update(e as int, Some(ac@)),
                ..old(self)@
            }),
    {
        self.actions[e] = Some(ac);
        proof {
            assert(self@.actions =~= old(self)@.actions.update(e as int, Some(ac@)));
        }
    }

    /// The body kind of the entity's physics component, if it has one.
    pub fn physics_body_of(&self, e: usize) -> (b: Option<crate::physics::BodyType>)
        requires
            self@.sized_ok(),
            e < self@.n(),
        ensures
            b is Some <==> self@.physics[e as int] is Some,
            self@.physics[e as int] is Some ==> b->0 == self@.physics[e as int]->0.body,
    {
        match &self.physics[e] {
            Some(pc) => Some(pc.body_type),
            None => None,
        }
    }

    /// Appends a step to the entity's physics queue; an entity without a
    /// physics component ignores the request.
    pub fn add_physics_step(&mut self, e: usize, step: NextPhysicsStep)
        requires
            old(self)@.sized_ok(),
            e < old(self)@.n(),
        ensures
            old(self)@.physics[e as int] matches Some(pv) ==> final(self)@ == (WorldView {
                physics: old(self)@.physics.update(e as int, Some(PhysicsView {
                    steps: pv.steps.push(step),
                    ..pv
                })),
                ..old(self)@
            }),
            old(self)@.physics[e as int] is None ==> final(self)@ == old(self)@,
    {
        match &mut self.physics[e] {
            Some(pc) => {
                pc.add_step(step);
                proof {
                    assert(self@.physics =~= old(self)@.physics.update(
                        e as int,
                        Some(PhysicsView {
                            steps: old(self)@.physics[e as int]->0.steps.push(step),
                            ..old(self)@.physics[e as int]->0
                        }),
                    ));
                }
            },
            None => {
                proof {
                    assert(self@.physics =~= old(self)@.physics);
                }
            },
        }
    }

    pub fn physics_is_some(&self, e: usize) -> (r: bool)
        requires
            self@.sized_ok(),
            e < self@.n(),
        ensures
            r == (self@.physics[e as int] is Some),
    {
        self.physics[e].is_some()
    }

    /// Takes the entity's physics component out of the registry.
    pub fn take_physics(&mut self, e: usize) -> (pc: PhysicsComponent)
        requires
            old(self)@.sized_ok(),
            e < old(self)@.n(),
            old(self)@.physics[e as int] is Some,
        ensures
            pc@ == old(self)@.physics[e as int]->0,
            final(self)@ == (WorldView {
                physics: old(self)@.physics.update(e as int, None),
                ..old(self)@
            }),
    {
        let pc = match self.physics[e].take() {
            Some(pc) => pc,
            None => vstd::pervasive::unreached(),
        };
        proof {
            assert(self@.physics =~= old(self)@.physics.update(e as int, None));
        }
        pc
    }

    /// Puts a physics component back on the entity.
    pub fn put_physics(&mut self, e: usize, pc: PhysicsComponent)
        requires
            old(self)@.sized_ok(),
            e < old(self)@.n(),
        ensures
            final(self)@ == (WorldView {
                physics: old(self)@.physics.update(e as int, Some(pc@)),
                ..old(self)@
            }),
    {
        self.physics[e] = Some(pc);
        proof {
            assert(self@.physics =~= old(self)@.physics.update(e as int, Some(pc@)));
        }
    }

    /// Takes the entity's cell-membership record out of the registry.
    pub fn take_chunk_record(&mut self, e: usize) -> (c: Option<ChunkComponent>)
        requires
            old(self)@.sized_ok(),
            e < old(self)@.n(),
        ensures
            c matches Some(cc) ==> old(self)@.chunks[e as int] == Some(cc@),
            c is None ==> old(self)@.chunks[e as int] is None,
            final(self)@ == (WorldView {
                chunks: old(self)@.chunks.update(e as int, None),
                ..old(self)@
            }),
    {
        let c = self.chunks[e].take();
        proof {
            assert(self@.chunks =~= old(self)@.chunks.update(e as int, None));
        }
        c
    }

    pub fn actions_is_some(&self, e: usize) -> (r: bool)
        requires
            self@.sized_ok(),
            e < self@.n(),
        ensures
            r == (self@.actions[e as int] is Some),
    {
        self.actions[e].is_some()
    }

    /// Takes the entity's pending-action component out of the registry.
    pub fn take_actions(&mut self, e: usize) -> (ac: ActionComponent)
        requires
            old(self)@.sized_ok(),
            e < old(self)@.n(),
            old(self)@.actions[e as int] is Some,
        ensures
            ac@ == old(self)@.actions[e as int]->0,
            final(self)@ == (WorldView {
                actions: old(self)@.actions.update(e as int, None),
                ..old(self)@
            }),
    {
        let ac = match self.actions[e].take() {
            Some(ac) => ac,
            None => vstd::pervasive::unreached(),
        };
        proof {
            assert(self@.actions =~= old(self)@.actions.update(e as int, None));
        }
        ac
    }

    /// Puts a pending-action component back on the entity.
    pub fn put_actions(&mut self, e: usize, ac: ActionComponent)
        requires
            old(self)@.sized_ok(),
            e < old(self)@.n(),
        ensures
            final(self)@ == (WorldView {
                actions: old(self)@.actions.update(e as int, Some(ac@)),
                ..old(self)@
            }),
    {
        self.actions[e] = Some(ac);
        proof {
            assert(self@.actions =~= old(self)@.actions.update(e as int, Some(ac@)));
        }
    }

    /// Kills the entity and clears all of its components; the index learns of
    /// the lost box through the removed stream. Deleting a dead or unknown
    /// entity is a no-op.
    pub fn delete_entity(&mut self, e: usize)
        requires
            old(self)@.sized_ok(),
        ensures
            !old(self)@.live(e as int) ==> final(self)@ == old(self)@,
            old(self)@.live(e as int) ==> final(self)@ == (WorldView {
                alive: old(self)@.alive.update(e as int, false),
                rects: old(self)@.rects.update(e as int, None),
                physics: old(self)@.physics.update(e as int, None),
                actions: old(self)@.actions.update(e as int, None),
                chunks: old(self)@.chunks.update(e as int, None),
                active: old(self)@.active.update(e as int, false),
                removed: if old(self)@.rects[e as int] is Some {
                    old(self)@.removed.push(e)
                } else {
                    old(self)@.removed
                },
                ..old(self)@
            }),
    {
        if e < self.alive.len() && self.alive[e] {
            self.alive[e] = false;
            let had_rect = self.rects[e].is_some();
            self.rects[e] = None;
            self.physics[e] = None;
            self.actions[e] = None;
            self.chunks[e] = None;
            self.active[e] = false;
            if had_rect {
                self.removed.push(e);
            }
            proof {
                assert(self@.physics =~= old(self)@.physics.update(e as int, None));
                assert(self@.actions =~= old(self)@.actions.update(e as int, None));
                assert(self@.chunks =~= old(self)@.chunks.update(e as int, None));
            }
        }
    }
}

} // verus!
