//! The physics resolver: per-entity bodies with a queue of pending linear
//! steps, a jump state machine, and the recursive AABB collision-avoidance
//! routine that applies each step against the other active bodies.

use vstd::prelude::*;
use vstd::math::abs;
use std::collections::VecDeque;
use crate::math::Rect;
use crate::rect::RectComponent;
use crate::world::{World, WorldView};
use crate::{COORD_LIMIT, PHYSICS_EPSILON};

verus! {

/// Transient state of a jump in flight: the absolute world `y` the body must
/// reach (`y` grows downward, so the target lies above the launch point).
#[derive(Clone, Copy, Debug, PartialEq, Eq, Structural)]
pub struct JumpData {
    pub target_height: i64,
}

impl JumpData {
    pub fn new(target_height: i64) -> (j: JumpData)
        ensures
            j.target_height == target_height,
    {
        JumpData { target_height }
    }
}

/// Whether a body is an immovable obstacle or a moving one, and for moving
/// bodies whether gravity applies and whether a jump is in flight.
#[derive(Clone, Copy, Debug)]
pub enum BodyType {
    Static,
    Dynamic { apply_gravity: bool, jump_data: Option<JumpData> },
}

/// One pending linear step: a translation, or a request to launch a jump of
/// the given height.
#[derive(Clone, Copy, Debug, PartialEq, Eq, Structural)]
pub enum NextPhysicsStep {
    Move(i64, i64),
    Jump(u32),
}

/// Per-entity physics state: the body kind plus the queue of steps still to
/// be applied, drained in FIFO order once per tick.
#[derive(Clone, Debug)]
pub struct PhysicsComponent {
    pub body_type: BodyType,
    pub next_physics_step: VecDeque<NextPhysicsStep>,
}

/// Mathematical image of a `PhysicsComponent`.
#[verifier::ext_equal]
pub ghost struct PhysicsView {
    pub body: BodyType,
    pub steps: Seq<NextPhysicsStep>,
}

impl View for PhysicsComponent {
    type V = PhysicsView;

    open spec fn view(&self) -> PhysicsView {
        PhysicsView { body: self.body_type, steps: self.next_physics_step@ }
    }
}

impl PhysicsComponent {
    pub fn new(body_type: BodyType) -> (pc: PhysicsComponent)
        ensures
            pc@.body == body_type,
            pc@.steps == Seq::<NextPhysicsStep>::empty(),
    {
        PhysicsComponent { body_type, next_physics_step: VecDeque::new() }
    }

    pub fn add_step(&mut self, step: NextPhysicsStep)
        ensures
            final(self)@.body == old(self)@.body,
            final(self)@.steps == old(self)@.steps.push(step),
    {
        self.next_physics_step.push_back(step);
    }
}

impl Default for PhysicsComponent {
    fn default() -> (pc: PhysicsComponent)
        ensures
            pc@.body is Static,
            pc@.steps == Seq::<NextPhysicsStep>::empty(),
    {
        PhysicsComponent { body_type: BodyType::Static, next_physics_step: VecDeque::new() }
    }
}

/// Does `r` shifted by `(dx, dy)` overlap any of the obstacles?
pub open spec fn spec_hits(r: Rect, obs: Seq<Rect>, dx: int, dy: int) -> bool {
    exists|i: int| 0 <= i < obs.len() && r.spec_shift(dx, dy).spec_overlaps(#[trigger] obs[i])
}

/// One epsilon step of a delta back toward zero.
pub open spec fn spec_step_back(d: int) -> int {
    if d > 0 {
        d - PHYSICS_EPSILON
    } else {
        d + PHYSICS_EPSILON
    }
}

/// Where the collision-avoidance search leaves a rectangle asked to move by
/// `(dx, dy)` among `obs`: each axis is probed independently against the
/// original position; a blocked axis is retried with its delta one epsilon
/// closer to zero, and dropped once the magnitude is within one epsilon.
pub open spec fn spec_move_rec(r: Rect, obs: Seq<Rect>, dx: int, dy: int) -> Rect
    decreases abs(dx) + abs(dy),
{
    let rx = if !spec_hits(r, obs, dx, 0) {
        r.spec_shift(dx, 0)
    } else if abs(dx) > PHYSICS_EPSILON {
        spec_move_rec(r, obs, spec_step_back(dx), 0)
    } else {
        r
    };
    if !spec_hits(r, obs, 0, dy) {
        rx.spec_shift(0, dy)
    } else if abs(dy) > PHYSICS_EPSILON {
        spec_move_rec(rx, obs, 0, spec_step_back(dy))
    } else {
        rx
    }
}

/// The avoidance search never leaves the envelope of the requested move:
/// the size is untouched and each coordinate stays between its start and its
/// fully-moved value.
pub proof fn lemma_move_rec_bounds(r: Rect, obs: Seq<Rect>, dx: int, dy: int)
    requires
        i64::MIN <= r.x + dx <= i64::MAX,
        i64::MIN <= r.y + dy <= i64::MAX,
    ensures
        spec_move_rec(r, obs, dx, dy).w == r.w,
        spec_move_rec(r, obs, dx, dy).h == r.h,
        dx >= 0 ==> r.x <= spec_move_rec(r, obs, dx, dy).x <= r.x + dx,
        dx <= 0 ==> r.x + dx <= spec_move_rec(r, obs, dx, dy).x <= r.x,
        dy >= 0 ==> r.y <= spec_move_rec(r, obs, dx, dy).y <= r.y + dy,
        dy <= 0 ==> r.y + dy <= spec_move_rec(r, obs, dx, dy).y <= r.y,
    decreases abs(dx) + abs(dy),
{
    if spec_hits(r, obs, dx, 0) && abs(dx) > PHYSICS_EPSILON {
        lemma_move_rec_bounds(r, obs, spec_step_back(dx), 0);
    }
    let rx = if !spec_hits(r, obs, dx, 0) {
        r.spec_shift(dx, 0)
    } else if abs(dx) > PHYSICS_EPSILON {
        spec_move_rec(r, obs, spec_step_back(dx), 0)
    } else {
        r
    };
    if spec_hits(r, obs, 0, dy) && abs(dy) > PHYSICS_EPSILON {
        lemma_move_rec_bounds(rx, obs, 0, spec_step_back(dy));
    }
}

/// The largest part of `dx` that keeps the rectangle's horizontal edges
/// within the coordinate range.
pub open spec fn spec_clamp_dx(r: Rect, dx: int) -> int {
    let lo = -COORD_LIMIT - r.x;
    let hi = COORD_LIMIT - r.w - r.x;
    if dx < lo {
        lo
    } else if dx > hi {
        hi
    } else {
        dx
    }
}

/// The largest part of `dy` that keeps the rectangle's vertical edges
/// within the coordinate range.
pub open spec fn spec_clamp_dy(r: Rect, dy: int) -> int {
    let lo = -COORD_LIMIT - r.y;
    let hi = COORD_LIMIT - r.h - r.y;
    if dy < lo {
        lo
    } else if dy > hi {
        hi
    } else {
        dy
    }
}

/// The boxes of the live Active entities other than `ent` among the first
/// `k` entity ids, in id order: the obstacle list a moving body resolves
/// against.
pub open spec fn spec_obstacles(wv: WorldView, ent: usize, k: nat) -> Seq<Rect>
    decreases k,
{
    if k == 0 {
        Seq::empty()
    } else {
        let prev = spec_obstacles(wv, ent, (k - 1) as nat);
        let i = (k - 1) as int;
        if i != ent && wv.live(i) && wv.active[i] && wv.rects[i] is Some {
            prev.push(wv.rects[i]->0.rect)
        } else {
            prev
        }
    }
}

/// The obstacle list only depends on liveness, Active tags and boxes.
pub proof fn lemma_obstacles_same(w1: WorldView, w2: WorldView, ent: usize, k: nat)
    requires
        w1.alive == w2.alive,
        w1.active == w2.active,
        w1.rects == w2.rects,
    ensures
        spec_obstacles(w1, ent, k) == spec_obstacles(w2, ent, k),
    decreases k,
{
    if k > 0 {
        lemma_obstacles_same(w1, w2, ent, (k - 1) as nat);
    }
}

/// The start-of-tick state machine of one dynamic body, before its queue is
/// drained: a jump in flight enqueues the upward counter-move and ends once
/// the target height is within one gravity step; otherwise gravity (if it
/// applies) enqueues one downward move.
pub open spec fn spec_pre_steps(pv: PhysicsView, r: Rect, g: (i64, i64)) -> PhysicsView {
    match pv.body {
        BodyType::Static => pv,
        BodyType::Dynamic { apply_gravity, jump_data } => match jump_data {
            Some(j) => PhysicsView {
                body: BodyType::Dynamic {
                    apply_gravity,
                    jump_data: if j.target_height >= r.y - g.1 {
                        None
                    } else {
                        Some(j)
                    },
                },
                steps: pv.steps.push(NextPhysicsStep::Move(0, (0 - g.1) as i64)),
            },
            None => PhysicsView {
                body: pv.body,
                steps: if apply_gravity {
                    pv.steps.push(NextPhysicsStep::Move(g.0, g.1))
                } else {
                    pv.steps
                },
            },
        },
    }
}

/// Draining the pending steps in FIFO order: each `Move` is clamped to the
/// coordinate range and resolved with the avoidance search against the
/// fixed obstacle list; a `Jump` launches only when no jump is in flight
/// and moving up by one epsilon is clear, fixing the target height at the
/// body's current position.
pub open spec fn spec_drain(
    jd: Option<JumpData>,
    r: Rect,
    steps: Seq<NextPhysicsStep>,
    obs: Seq<Rect>,
    g: (i64, i64),
) -> (Option<JumpData>, Rect)
    decreases steps.len(),
{
    if steps.len() == 0 {
        (jd, r)
    } else {
        match steps[0] {
            NextPhysicsStep::Move(dx, dy) => {
                let cdx = spec_clamp_dx(r, dx as int);
                let cdy = spec_clamp_dy(r, dy as int);
                let r2 = spec_move_rec(r, obs, cdx, cdy);
                spec_drain(jd, r2, steps.drop_first(), obs, g)
            },
            NextPhysicsStep::Jump(h) => {
                let jd2 = if jd is None && !spec_hits(r, obs, 0, -PHYSICS_EPSILON as int) {
                    Some(JumpData { target_height: (r.y - h) as i64 })
                } else {
                    jd
                };
                spec_drain(jd2, r, steps.drop_first(), obs, g)
            },
        }
    }
}

/// One tick of one entity: only live, Active, dynamic bodies change; the
/// pre-step machine runs, then a non-empty queue is drained against the
/// other Active boxes and the entity's box mutation is recorded in the
/// modified stream.
pub open spec fn spec_step_entity(w: WorldView, g: (i64, i64), e: usize) -> WorldView {
    if !(w.live(e as int) && w.active[e as int] && w.physics[e as int] is Some) {
        w
    } else {
        let pv = w.physics[e as int]->0;
        match pv.body {
            BodyType::Static => w,
            BodyType::Dynamic { apply_gravity, jump_data } => {
                let r0 = w.rects[e as int]->0.rect;
                let pv1 = spec_pre_steps(pv, r0, g);
                if pv1.steps.len() == 0 {
                    WorldView { physics: w.physics.update(e as int, Some(pv1)), ..w }
                } else {
                    let jd1 = match pv1.body {
                        BodyType::Dynamic { apply_gravity: _, jump_data: jd } => jd,
                        BodyType::Static => None,
                    };
                    let obs = spec_obstacles(w, e, w.n() as nat);
                    let dr = spec_drain(jd1, r0, pv1.steps, obs, g);
                    WorldView {
                        physics: w.physics.update(
                            e as int,
                            Some(PhysicsView {
                                body: BodyType::Dynamic { apply_gravity, jump_data: dr.0 },
                                steps: Seq::empty(),
                            }),
                        ),
                        rects: w.rects.update(e as int, Some(RectComponent { rect: dr.1 })),
                        modified: w.modified.push(e),
                        ..w
                    }
                }
            },
        }
    }
}

/// The whole resolver pass: entities ticked one after the other in id
/// order, each against the boxes as its predecessors left them.
pub open spec fn spec_physics_fold(w: WorldView, g: (i64, i64), k: nat) -> WorldView
    decreases k,
{
    if k == 0 {
        w
    } else {
        spec_step_entity(spec_physics_fold(w, g, (k - 1) as nat), g, (k - 1) as usize)
    }
}

/// The x-delta the avoidance search commits for a pure-x move request:
/// the full delta if its probe is clear, otherwise the probe is retried one
/// epsilon closer to zero until it clears or the magnitude is within one
/// epsilon, in which case the move is dropped.
pub open spec fn spec_resolve_dx(r: Rect, obs: Seq<Rect>, dx: int) -> int
    decreases abs(dx),
{
    if !spec_hits(r, obs, dx, 0) {
        dx
    } else if abs(dx) > PHYSICS_EPSILON {
        spec_resolve_dx(r, obs, spec_step_back(dx))
    } else {
        0
    }
}

/// A pure-x move request resolves to exactly the committed x-delta of
/// `spec_resolve_dx`; nothing else about the rectangle changes.
pub proof fn lemma_move_rec_axis(r: Rect, obs: Seq<Rect>, dx: int)
    requires
        i64::MIN <= r.x + dx <= i64::MAX,
    ensures
        spec_move_rec(r, obs, dx, 0) == (Rect {
            x: (r.x + spec_resolve_dx(r, obs, dx)) as i64,
            ..r
        }),
    decreases abs(dx),
{
    assert(r.spec_shift(0, 0) == r);
    if !spec_hits(r, obs, dx, 0) {
    } else if abs(dx) > PHYSICS_EPSILON {
        lemma_move_rec_axis(r, obs, spec_step_back(dx));
        let rx = spec_move_rec(r, obs, spec_step_back(dx), 0);
        assert(rx.spec_shift(0, 0) == rx);
    } else {
    }
}

/// Soundness and shape of the committed x-delta: it never exceeds the
/// request, it is an epsilon-multiple short of it (or dropped to zero), a
/// non-zero outcome probes clear, every larger epsilon-multiple offset
/// probes blocked, and a rectangle that starts clear of the obstacles ends
/// clear of them.
pub proof fn lemma_resolve_dx_props(r: Rect, obs: Seq<Rect>, dx: int)
    ensures
        ({
            let d = spec_resolve_dx(r, obs, dx);
            &&& dx >= 0 ==> 0 <= d <= dx
            &&& dx <= 0 ==> dx <= d <= 0
            &&& !spec_hits(r, obs, dx, 0) ==> d == dx
            &&& spec_hits(r, obs, dx, 0) && dx != 0 ==> abs(d) < abs(dx)
            &&& d != 0 ==> !spec_hits(r, obs, d, 0)
            &&& !spec_hits(r, obs, 0, 0) ==> !spec_hits(r, obs, d, 0)
            &&& (dx - d) % (PHYSICS_EPSILON as int) == 0 || d == 0
            &&& forall|d2: int|
                ((dx > 0 && d < d2 <= dx) || (dx < 0 && dx <= d2 < d)) && (dx - d2) % (
                PHYSICS_EPSILON as int) == 0 ==> spec_hits(r, obs, d2, 0)
        }),
    decreases abs(dx),
{
    let d = spec_resolve_dx(r, obs, dx);
    let eps = PHYSICS_EPSILON as int;
    if !spec_hits(r, obs, dx, 0) {
        assert((dx - d) % eps == 0);
    } else if abs(dx) > PHYSICS_EPSILON {
        let dx2 = spec_step_back(dx);
        lemma_resolve_dx_props(r, obs, dx2);
        assert forall|d2: int|
            ((dx > 0 && d < d2 <= dx) || (dx < 0 && dx <= d2 < d)) && (dx - d2) % eps == 0
                implies spec_hits(r, obs, d2, 0) by {
            if d2 == dx {
            } else {
                vstd::arithmetic::div_mod::lemma_fundamental_div_mod(dx - d2, eps);
                vstd::arithmetic::div_mod::lemma_mod_bound(dx - d2, eps);
                if dx > 0 {
                    assert(dx - d2 >= eps);
                } else {
                    assert(d2 - dx >= eps);
                    assert((dx2 - d2) % eps == 0) by {
                        assert(dx2 - d2 == (dx - d2) + eps);
                        vstd::arithmetic::div_mod::lemma_mod_adds(dx - d2, eps, eps);
                        vstd::arithmetic::div_mod::lemma_mod_self_0(eps);
                    }
                }
                if dx > 0 {
                    assert((dx2 - d2) % eps == 0) by {
                        assert(dx2 - d2 == (dx - d2) - eps);
                        vstd::arithmetic::div_mod::lemma_mod_sub_multiples_vanish(dx - d2, eps);
                    }
                }
            }
        }
        if d == 0 {
        } else {
            assert((dx - d) % eps == 0) by {
                assert((dx2 - d) % eps == 0);
                if dx > 0 {
                    assert(dx - d == (dx2 - d) + eps);
                    vstd::arithmetic::div_mod::lemma_mod_adds(dx2 - d, eps, eps);
                    vstd::arithmetic::div_mod::lemma_mod_self_0(eps);
                } else {
                    assert(dx - d == (dx2 - d) - eps);
                    vstd::arithmetic::div_mod::lemma_mod_sub_multiples_vanish(dx2 - d, eps);
                }
            }
        }
    } else {
        assert(d == 0);
        assert forall|d2: int|
            ((dx > 0 && d < d2 <= dx) || (dx < 0 && dx <= d2 < d)) && (dx - d2) % eps == 0
                implies spec_hits(r, obs, d2, 0) by {
            if d2 != dx {
                vstd::arithmetic::div_mod::lemma_fundamental_div_mod(dx - d2, eps);
                vstd::arithmetic::div_mod::lemma_mod_bound(dx - d2, eps);
            }
        }
    }
}

/// No tunneling on a single-axis move: a rectangle that starts clear of
/// every obstacle ends clear of every obstacle, wherever the epsilon-decay
/// search leaves it.
pub proof fn lemma_axis_move_no_tunneling(r: Rect, obs: Seq<Rect>, dx: int)
    requires
        i64::MIN <= r.x + dx <= i64::MAX,
        !spec_hits(r, obs, 0, 0),
    ensures
        !spec_hits(spec_move_rec(r, obs, dx, 0), obs, 0, 0),
{
    let d = spec_resolve_dx(r, obs, dx);
    lemma_move_rec_axis(r, obs, dx);
    lemma_resolve_dx_props(r, obs, dx);
    let res = spec_move_rec(r, obs, dx, 0);
    assert(res.spec_shift(0, 0) == res);
    assert(res == r.spec_shift(d, 0));
    assert(!spec_hits(r, obs, d, 0));
}

/// One tick of a dynamic body in free flight (no obstacles, empty queue):
/// what the jump state and the box become.
pub open spec fn spec_flight_tick(ag: bool, jd: Option<JumpData>, r: Rect, g: (i64, i64)) -> (
    Option<JumpData>,
    Rect,
) {
    let pv1 = spec_pre_steps(
        PhysicsView { body: BodyType::Dynamic { apply_gravity: ag, jump_data: jd }, steps: Seq::empty() },
        r,
        g,
    );
    let jd1 = match pv1.body {
        BodyType::Dynamic { apply_gravity: _, jump_data: j } => j,
        BodyType::Static => None,
    };
    spec_drain(jd1, r, pv1.steps, Seq::empty(), g)
}

/// Free flight iterated for `n` ticks.
pub open spec fn spec_flight(ag: bool, jd: Option<JumpData>, r: Rect, g: (i64, i64), n: nat) -> (
    Option<JumpData>,
    Rect,
)
    decreases n,
{
    if n == 0 {
        (jd, r)
    } else {
        let prev = spec_flight(ag, jd, r, g, (n - 1) as nat);
        spec_flight_tick(ag, prev.0, prev.1, g)
    }
}

/// A launched jump under downward gravity and no obstacles ends: after a
/// finite number of ticks — at most the remaining height divided by the
/// gravity step, rounded up — the jump state is cleared and the body sits
/// within one gravity step above its target.
pub proof fn lemma_jump_terminates(ag: bool, j: JumpData, r: Rect, g: (i64, i64))
    requires
        r.wf(),
        0 < g.1 <= COORD_LIMIT,
        j.target_height < r.y,
        -COORD_LIMIT <= j.target_height - g.1,
    ensures
        exists|n: nat|
            1 <= n <= (r.y - j.target_height - 1) / (g.1 as int) + 1 && (#[trigger] spec_flight(
                ag,
                Some(j),
                r,
                g,
                n,
            )).0 is None && j.target_height - g.1 < spec_flight(ag, Some(j), r, g, n).1.y
                <= j.target_height && (forall|m: nat|
                m < n ==> (#[trigger] spec_flight(ag, Some(j), r, g, m)).0 == Some(j))
                && spec_flight(ag, Some(j), r, g, n).1.w == r.w && spec_flight(
                ag,
                Some(j),
                r,
                g,
                n,
            ).1.x == r.x,
    decreases r.y - j.target_height,
{
    let gy = g.1 as int;
    let t1 = spec_flight_tick(ag, Some(j), r, g);
    let r1 = t1.1;
    assert(spec_flight(ag, Some(j), r, g, 1) == t1) by {
        assert(spec_flight(ag, Some(j), r, g, 0) == (Some(j), r));
    }
    let pv0 = PhysicsView {
        body: BodyType::Dynamic { apply_gravity: ag, jump_data: Some(j) },
        steps: Seq::empty(),
    };
    let pv1 = spec_pre_steps(pv0, r, g);
    let jd1 = match pv1.body {
        BodyType::Dynamic { apply_gravity: _, jump_data: j2 } => j2,
        BodyType::Static => None,
    };
    assert(t1 == spec_drain(jd1, r, pv1.steps, Seq::<Rect>::empty(), g));
    assert(pv1.steps.len() == 1);
    assert(pv1.steps[0] == NextPhysicsStep::Move(0i64, (0 - g.1) as i64));
    assert(pv1.steps.drop_first() =~= Seq::<NextPhysicsStep>::empty());
    let cdy = spec_clamp_dy(r, ((0 - g.1) as i64) as int);
    assert(cdy == -gy);
    assert(spec_clamp_dx(r, 0) == 0);
    let r2 = spec_move_rec(r, Seq::<Rect>::empty(), 0, cdy);
    assert(!spec_hits(r, Seq::<Rect>::empty(), 0, 0));
    assert(!spec_hits(r, Seq::<Rect>::empty(), 0, cdy));
    assert(r2 == r.spec_shift(0, 0).spec_shift(0, cdy));
    assert(spec_drain(jd1, r, pv1.steps, Seq::<Rect>::empty(), g) == spec_drain(
        jd1,
        r2,
        pv1.steps.drop_first(),
        Seq::<Rect>::empty(),
        g,
    ));
    assert(t1 == (jd1, r2));
    assert(r1.y == r.y - gy && r1.w == r.w && r1.h == r.h && r1.x == r.x);
    let dist = r.y - j.target_height;
    if j.target_height >= r.y - gy {
        // the jump ends this very tick
        assert(t1.0 is None);
        assert(spec_flight(ag, Some(j), r, g, 1).0 is None);
        assert((dist - 1) / gy >= 0) by {
            vstd::arithmetic::div_mod::lemma_div_pos_is_pos(dist - 1, gy);
        }
        assert forall|m: nat| m < 1 implies (#[trigger] spec_flight(ag, Some(j), r, g, m)).0
            == Some(j) by {}
    } else {
        assert(t1.0 == Some(j));
        lemma_jump_terminates(ag, j, r1, g);
        let n2 = choose|n2: nat|
            1 <= n2 <= (r1.y - j.target_height - 1) / (g.1 as int) + 1 && (#[trigger] spec_flight(
                ag,
                Some(j),
                r1,
                g,
                n2,
            )).0 is None && j.target_height - g.1 < spec_flight(ag, Some(j), r1, g, n2).1.y
                <= j.target_height && (forall|m: nat|
                m < n2 ==> (#[trigger] spec_flight(ag, Some(j), r1, g, m)).0 == Some(j))
                && spec_flight(ag, Some(j), r1, g, n2).1.w == r1.w && spec_flight(
                ag,
                Some(j),
                r1,
                g,
                n2,
            ).1.x == r1.x;
        assert(n2 + 1 <= (dist - 1) / gy + 1) by {
            vstd::arithmetic::div_mod::lemma_div_plus_one(dist - gy - 1, gy);
        }
        lemma_flight_shift(ag, j, r, r1, g, n2);
        assert(spec_flight(ag, Some(j), r, g, (n2 + 1) as nat) == spec_flight(
            ag,
            Some(j),
            r1,
            g,
            n2,
        ));
        assert forall|m: nat| m < n2 + 1 implies (#[trigger] spec_flight(ag, Some(j), r, g, m)).0
            == Some(j) by {
            if m > 0 {
                lemma_flight_shift(ag, j, r, r1, g, (m - 1) as nat);
                assert(spec_flight(ag, Some(j), r1, g, (m - 1) as nat).0 == Some(j));
            }
        }
    }
}

/// Iterating free flight from the start equals one tick followed by
/// iteration from the post-tick state.
proof fn lemma_flight_shift(ag: bool, j: JumpData, r: Rect, r1: Rect, g: (i64, i64), n: nat)
    requires
        spec_flight_tick(ag, Some(j), r, g) == (Some(j), r1),
    ensures
        spec_flight(ag, Some(j), r, g, (n + 1) as nat) == spec_flight(ag, Some(j), r1, g, n),
    decreases n,
{
    if n == 0 {
        assert(spec_flight(ag, Some(j), r, g, 1) == spec_flight_tick(ag, Some(j), r, g)) by {
            assert(spec_flight(ag, Some(j), r, g, 0) == (Some(j), r));
        }
    } else {
        lemma_flight_shift(ag, j, r, r1, g, (n - 1) as nat);
    }
}

/// Bridge from the resolver pass to the free-flight model: in a registry
/// holding a single live, Active, dynamic body with an empty queue, one
/// whole pass advances the jump state and the box exactly by one
/// `spec_flight_tick`. Iterating the pass therefore iterates the model
/// `lemma_jump_terminates` speaks about.
pub proof fn lemma_single_body_pass_is_flight_tick(
    w: WorldView,
    g: (i64, i64),
    ag: bool,
    jd: Option<JumpData>,
    r: Rect,
)
    requires
        w.sized_ok(),
        w.n() == 1,
        w.live(0),
        w.active[0],
        w.physics[0] == Some(
            PhysicsView {
                body: BodyType::Dynamic { apply_gravity: ag, jump_data: jd },
                steps: Seq::<NextPhysicsStep>::empty(),
            },
        ),
        w.rects[0] == Some(RectComponent { rect: r }),
    ensures
        ({
            let ft = spec_flight_tick(ag, jd, r, g);
            spec_physics_fold(w, g, 1) == (WorldView {
                physics: w.physics.update(
                    0,
                    Some(
                        PhysicsView {
                            body: BodyType::Dynamic { apply_gravity: ag, jump_data: ft.0 },
                            steps: Seq::<NextPhysicsStep>::empty(),
                        },
                    ),
                ),
                rects: w.rects.update(0, Some(RectComponent { rect: ft.1 })),
                modified: if jd is Some || ag {
                    w.modified.push(0)
                } else {
                    w.modified
                },
                ..w
            })
        }),
{
    let pv = w.physics[0]->0;
    let pv1 = spec_pre_steps(pv, r, g);
    let jd1 = match pv1.body {
        BodyType::Dynamic { apply_gravity: _, jump_data: j2 } => j2,
        BodyType::Static => None,
    };
    let ft = spec_flight_tick(ag, jd, r, g);
    assert(ft == spec_drain(jd1, r, pv1.steps, Seq::<Rect>::empty(), g));
    assert(spec_physics_fold(w, g, 1) == spec_step_entity(w, g, 0)) by {
        assert(spec_physics_fold(w, g, 0) == w);
    }
    assert(spec_obstacles(w, 0, 0) =~= Seq::<Rect>::empty());
    assert(spec_obstacles(w, 0, 1) =~= Seq::<Rect>::empty());
    if jd is Some || ag {
        assert(pv1.steps.len() == 1);
        let dr = spec_drain(jd1, r, pv1.steps, spec_obstacles(w, 0, 1), g);
        assert(dr == ft);
        assert(spec_step_entity(w, g, 0) =~~= (WorldView {
            physics: w.physics.update(
                0,
                Some(
                    PhysicsView {
                        body: BodyType::Dynamic { apply_gravity: ag, jump_data: ft.0 },
                        steps: Seq::<NextPhysicsStep>::empty(),
                    },
                ),
            ),
            rects: w.rects.update(0, Some(RectComponent { rect: ft.1 })),
            modified: w.modified.push(0),
            ..w
        }));
    } else {
        assert(pv1 == pv);
        assert(ft == (jd, r)) by {
            assert(pv1.steps.len() == 0);
        }
        assert(w.physics.update(0, Some(pv1)) =~= w.physics);
        assert(w.rects.update(0, Some(RectComponent { rect: r })) =~= w.rects);
        assert(spec_step_entity(w, g, 0) =~~= (WorldView {
            physics: w.physics.update(
                0,
                Some(
                    PhysicsView {
                        body: BodyType::Dynamic { apply_gravity: ag, jump_data: ft.0 },
                        steps: Seq::<NextPhysicsStep>::empty(),
                    },
                ),
            ),
            rects: w.rects.update(0, Some(RectComponent { rect: ft.1 })),
            modified: w.modified,
            ..w
        }));
    }
}

/// Resolves pending steps of active dynamic bodies against the other active
/// bodies, under the scene's gravity.
pub struct PhysicsSystem {
    pub gravity: (i64, i64),
}

impl PhysicsSystem {
    /// Probes whether moving `mv_rect` by `mv_x` alone, and by `mv_y` alone,
    /// stays clear of every obstacle; the two probes are independent and both
    /// start from the unmoved rectangle.
    pub fn check_move_aabb(mv_rect: &Rect, other_rects: &Vec<Rect>, mv_x: i64, mv_y: i64) -> (can: (
        bool,
        bool,
    ))
        requires
            i64::MIN <= mv_rect.x + mv_x,
            mv_rect.x + mv_x + mv_rect.w <= i64::MAX,
            i64::MIN <= mv_rect.y + mv_y,
            mv_rect.y + mv_y + mv_rect.h <= i64::MAX,
            0 <= mv_rect.w,
            0 <= mv_rect.h,
            i64::MIN <= mv_rect.x + mv_rect.w <= i64::MAX,
            i64::MIN <= mv_rect.y + mv_rect.h <= i64::MAX,
            forall|i: int| 0 <= i < other_rects@.len() ==> (#[trigger] other_rects@[i]).wf(),
        ensures
            can.0 == !spec_hits(*mv_rect, other_rects@, mv_x as int, 0),
            can.1 == !spec_hits(*mv_rect, other_rects@, 0, mv_y as int),
    {
        let probe_x = Rect { x: mv_rect.x + mv_x, y: mv_rect.y, w: mv_rect.w, h: mv_rect.h };
        let probe_y = Rect { x: mv_rect.x, y: mv_rect.y + mv_y, w: mv_rect.w, h: mv_rect.h };
        let mut can_move_x = true;
        let mut can_move_y = true;
        let mut i: usize = 0;
        while i < other_rects.len()
            invariant
                0 <= i <= other_rects@.len(),
                probe_x == mv_rect.spec_shift(mv_x as int, 0),
                probe_y == mv_rect.spec_shift(0, mv_y as int),
                i64::MIN <= probe_x.x + probe_x.w <= i64::MAX,
                i64::MIN <= probe_x.y + probe_x.h <= i64::MAX,
                i64::MIN <= probe_y.x + probe_y.w <= i64::MAX,
                i64::MIN <= probe_y.y + probe_y.h <= i64::MAX,
                forall|j: int| 0 <= j < other_rects@.len() ==> (#[trigger] other_rects@[j]).wf(),
                can_move_x == !(exists|j: int|
                    0 <= j < i && probe_x.spec_overlaps(#[trigger] other_rects@[j])),
                can_move_y == !(exists|j: int|
                    0 <= j < i && probe_y.spec_overlaps(#[trigger] other_rects@[j])),
            decreases other_rects@.len() - i,
        {
            let other = &other_rects[i];
            if probe_x.overlaps(other) {
                can_move_x = false;
            }
            if probe_y.overlaps(other) {
                can_move_y = false;
            }
            i += 1;
        }
        (can_move_x, can_move_y)
    }

    /// Applies a `(mv_x, mv_y)` move to `mv_rect` with the epsilon-decay
    /// avoidance search; the result is exactly `spec_move_rec`.
    pub fn move_rec(mv_rect: &mut Rect, other_rects: &Vec<Rect>, mv_x: i64, mv_y: i64)
        requires
            old(mv_rect).wf(),
            -COORD_LIMIT <= old(mv_rect).x + mv_x,
            old(mv_rect).x + mv_x + old(mv_rect).w <= COORD_LIMIT,
            -COORD_LIMIT <= old(mv_rect).y + mv_y,
            old(mv_rect).y + mv_y + old(mv_rect).h <= COORD_LIMIT,
            forall|i: int| 0 <= i < other_rects@.len() ==> (#[trigger] other_rects@[i]).wf(),
        ensures
            *final(mv_rect) == spec_move_rec(*old(mv_rect), other_rects@, mv_x as int, mv_y as int),
        decreases abs(mv_x as int) + abs(mv_y as int),
    {
        let ghost r0 = *mv_rect;
        let (can_move_x, can_move_y) = Self::check_move_aabb(mv_rect, other_rects, mv_x, mv_y);

        if can_move_x {
            mv_rect.move_by(mv_x, 0);
        } else if mv_x > PHYSICS_EPSILON {
            Self::move_rec(mv_rect, other_rects, mv_x - PHYSICS_EPSILON, 0);
        } else if mv_x < -PHYSICS_EPSILON {
            Self::move_rec(mv_rect, other_rects, mv_x + PHYSICS_EPSILON, 0);
        }

        proof {
            assert(r0.spec_shift(0, 0) == r0);
            assert(*mv_rect == spec_move_rec(r0, other_rects@, mv_x as int, 0));
            lemma_move_rec_bounds(r0, other_rects@, mv_x as int, 0);
        }

        if can_move_y {
            mv_rect.move_by(0, mv_y);
        } else if mv_y > PHYSICS_EPSILON {
            Self::move_rec(mv_rect, other_rects, 0, mv_y - PHYSICS_EPSILON);
        } else if mv_y < -PHYSICS_EPSILON {
            Self::move_rec(mv_rect, other_rects, 0, mv_y + PHYSICS_EPSILON);
        }
    }
}

impl PhysicsSystem {
    pub fn new(gravity: (i64, i64)) -> (sys: PhysicsSystem)
        ensures
            sys.gravity == gravity,
    {
        PhysicsSystem { gravity }
    }

    pub(crate) fn clamp_dx(r: &Rect, dx: i64) -> (c: i64)
        requires
            r.wf(),
        ensures
            c == spec_clamp_dx(*r, dx as int),
            -COORD_LIMIT <= r.x + c,
            r.x + c + r.w <= COORD_LIMIT,
    {
        let lo = -COORD_LIMIT - r.x;
        let hi = COORD_LIMIT - r.w - r.x;
        if dx < lo {
            lo
        } else if dx > hi {
            hi
        } else {
            dx
        }
    }

    pub(crate) fn clamp_dy(r: &Rect, dy: i64) -> (c: i64)
        requires
            r.wf(),
        ensures
            c == spec_clamp_dy(*r, dy as int),
            -COORD_LIMIT <= r.y + c,
            r.y + c + r.h <= COORD_LIMIT,
    {
        let lo = -COORD_LIMIT - r.y;
        let hi = COORD_LIMIT - r.h - r.y;
        if dy < lo {
            lo
        } else if dy > hi {
            hi
        } else {
            dy
        }
    }

    /// The boxes of every other live Active entity, in id order.
    fn collect_obstacles(world: &World, ent: usize) -> (v: Vec<Rect>)
        requires
            world@.wf(),
        ensures
            v@ == spec_obstacles(world@, ent, world@.n() as nat),
            forall|i: int| 0 <= i < v@.len() ==> (#[trigger] v@[i]).wf(),
    {
        let n = world.len();
        let mut v: Vec<Rect> = Vec::new();
        let mut i: usize = 0;
        while i < n
            invariant
                world@.wf(),
                n == world@.n(),
                0 <= i <= n,
                v@ == spec_obstacles(world@, ent, i as nat),
                forall|j: int| 0 <= j < v@.len() ==> (#[trigger] v@[j]).wf(),
            decreases n - i,
        {
            if i != ent && world.is_alive(i) && world.is_active(i) && world.has_rect(i) {
                let rc = world.rect_of(i);
                v.push(rc.rect);
            }
            i += 1;
        }
        v
    }

    /// Ticks one entity: the jump/gravity state machine, then the queued
    /// steps against the other Active boxes.
    fn tick_entity(&self, world: &mut World, e: usize)
        requires
            old(world)@.wf(),
            e < old(world)@.n(),
            -COORD_LIMIT <= self.gravity.0 <= COORD_LIMIT,
            -COORD_LIMIT <= self.gravity.1 <= COORD_LIMIT,
        ensures
            final(world)@ == spec_step_entity(old(world)@, self.gravity, e),
            final(world)@.wf(),
    {
        let ghost w0 = world@;
        if !(world.is_alive(e) && world.is_active(e)) {
            return ;
        }
        if !world.physics_is_some(e) {
            return ;
        }
        let mut pc = world.take_physics(e);
        match pc.body_type {
            BodyType::Static => {
                world.put_physics(e, pc);
                proof {
                    assert(world@.physics =~= w0.physics);
                    assert(world@ =~~= spec_step_entity(w0, self.gravity, e));
                }
            },
            BodyType::Dynamic { apply_gravity, jump_data } => {
                let rc = world.rect_of(e);
                let mut rect = rc.rect;
                let ghost pv0 = PhysicsView { body: pc.body_type, steps: pc.next_physics_step@ };
                let mut jd = jump_data;
                let gy = self.gravity.1;
                match jd {
                    Some(j) => {
                        pc.next_physics_step.push_back(NextPhysicsStep::Move(0, -gy));
                        if j.target_height >= rect.y - gy {
                            jd = None;
                        }
                    },
                    None => {
                        if apply_gravity {
                            pc.next_physics_step.push_back(
                                NextPhysicsStep::Move(self.gravity.0, self.gravity.1),
                            );
                        }
                    },
                }
                let ghost pv1 = spec_pre_steps(pv0, rect, self.gravity);
                proof {
                    assert(pc.next_physics_step@ == pv1.steps);
                    assert(pv1.body == (BodyType::Dynamic { apply_gravity, jump_data: jd }));
                }
                if pc.next_physics_step.len() > 0 {
                    let obstacles = Self::collect_obstacles(world, e);
                    proof {
                        lemma_obstacles_same(world@, w0, e, w0.n() as nat);
                    }
                    let ghost jd1 = jd;
                    let ghost r1 = rect;
                    let ghost all = pc.next_physics_step@;
                    loop
                        invariant
                            rect.wf(),
                            forall|i: int|
                                0 <= i < obstacles@.len() ==> (#[trigger] obstacles@[i]).wf(),
                            -COORD_LIMIT <= self.gravity.0 <= COORD_LIMIT,
                            -COORD_LIMIT <= self.gravity.1 <= COORD_LIMIT,
                            spec_drain(jd1, r1, all, obstacles@, self.gravity) == spec_drain(
                                jd,
                                rect,
                                pc.next_physics_step@,
                                obstacles@,
                                self.gravity,
                            ),
                        ensures
                            pc.next_physics_step@.len() == 0,
                            spec_drain(jd1, r1, all, obstacles@, self.gravity) == (jd, rect),
                            rect.wf(),
                        decreases pc.next_physics_step@.len(),
                    {
                        let step = match pc.next_physics_step.pop_front() {
                            Some(st) => st,
                            None => {
                                break ;
                            },
                        };
                        match step {
                            NextPhysicsStep::Move(dx, dy) => {
                                let ghost rpre = rect;
                                let cdx = Self::clamp_dx(&rect, dx);
                                let cdy = Self::clamp_dy(&rect, dy);
                                PhysicsSystem::move_rec(&mut rect, &obstacles, cdx, cdy);
                                proof {
                                    lemma_move_rec_bounds(rpre, obstacles@, cdx as int, cdy as int);
                                }
                            },
                            NextPhysicsStep::Jump(h) => {
                                if jd.is_none() {
                                    let can = PhysicsSystem::check_move_aabb(
                                        &rect,
                                        &obstacles,
                                        0,
                                        -PHYSICS_EPSILON,
                                    );
                                    if can.1 {
                                        jd = Some(JumpData::new(rect.y - (h as i64)));
                                    }
                                }
                            },
                        }
                    }
                    world.set_rect(e, rect);
                    pc.body_type = BodyType::Dynamic { apply_gravity, jump_data: jd };
                    proof {
                        assert(pc.next_physics_step@ =~= Seq::<NextPhysicsStep>::empty());
                    }
                    world.put_physics(e, pc);
                    proof {
                        assert(world@ =~~= spec_step_entity(w0, self.gravity, e));
                    }
                } else {
                    pc.body_type = BodyType::Dynamic { apply_gravity, jump_data: jd };
                    world.put_physics(e, pc);
                    proof {
                        assert(world@ =~~= spec_step_entity(w0, self.gravity, e));
                    }
                }
            },
        }
    }

    /// One resolver pass over the whole registry: every live Active dynamic
    /// body is ticked in id order against the boxes as its predecessors
    /// left them.
    pub fn run(&self, world: &mut World)
        requires
            old(world)@.wf(),
            -COORD_LIMIT <= self.gravity.0 <= COORD_LIMIT,
            -COORD_LIMIT <= self.gravity.1 <= COORD_LIMIT,
        ensures
            final(world)@ == spec_physics_fold(old(world)@, self.gravity, old(world)@.n() as nat),
            final(world)@.wf(),
    {
        let ghost w0 = world@;
        let n = world.len();
        let mut e: usize = 0;
        while e < n
            invariant
                world@.wf(),
                0 <= e <= n,
                n == w0.n(),
                world@.n() == w0.n(),
                -COORD_LIMIT <= self.gravity.0 <= COORD_LIMIT,
                -COORD_LIMIT <= self.gravity.1 <= COORD_LIMIT,
                world@ == spec_physics_fold(w0, self.gravity, e as nat),
            decreases n - e,
        {
            self.tick_entity(world, e);
            e += 1;
        }
    }
}

} // verus!
