//! Spatial-index behaviour: cell lookup, incremental registration through
//! the change streams, the active-region recomputation, and the one-tick
//! lag between a box mutation and the index seeing it.

use platformer_core::chunk::{ActiveChunksRect, ChunkSystem};
use platformer_core::math::Rect;
use platformer_core::rect::RectComponent;
use platformer_core::world::World;
use platformer_core::CHUNK_SIZE;

fn setup(w: usize, h: usize) -> (World, ChunkSystem, ActiveChunksRect) {
    let world = World::new();
    let sys = ChunkSystem::new((w, h));
    // camera region far away so nothing becomes Active by accident
    let cam = ActiveChunksRect::new(Rect::new(-400_000, -400_000, 100, 100));
    (world, sys, cam)
}

/// Grid of 20 x 5 cells; a box of 100 by 100 display units at the origin
/// sits in cell (0,0) only; moved to x = 450 it spans the boundary at 500
/// and sits in (0,0) and (1,0). One display unit is ten library units.
#[test]
fn overlapping_chunks_concrete() {
    let (mut world, mut sys, mut cam) = setup(20, 5);
    assert_eq!(CHUNK_SIZE, 5000);

    let e = world.create_entity();
    world.insert_rect(e, RectComponent::new(Rect::new(0, 0, 1000, 1000)));
    sys.run(&mut world, &mut cam);

    let chunks = world.chunks[e].as_ref().unwrap().chunks.clone();
    assert_eq!(chunks, vec![(0, 0)]);
    assert_eq!(sys.cell_entities((0, 0)), vec![e]);
    assert_eq!(sys.cell_entities((1, 0)), Vec::<usize>::new());

    // move the box across the cell boundary; the index only sees it on the
    // next pass over the modified stream
    world.set_rect(e, Rect::new(4500, 0, 1000, 1000));
    assert_eq!(sys.cell_entities((1, 0)), Vec::<usize>::new());

    sys.run(&mut world, &mut cam);
    let chunks = world.chunks[e].as_ref().unwrap().chunks.clone();
    assert_eq!(chunks, vec![(0, 0), (1, 0)]);
    assert_eq!(sys.cell_entities((0, 0)), vec![e]);
    assert_eq!(sys.cell_entities((1, 0)), vec![e]);
}

#[test]
fn overlap_query_direct() {
    let (_, sys, _) = setup(20, 5);
    let v = sys.get_chunks_overlap_rect(&Rect::new(0, 0, 1000, 1000));
    assert_eq!(v, vec![(0, 0)]);
    let v = sys.get_chunks_overlap_rect(&Rect::new(4500, 0, 1000, 1000));
    assert_eq!(v, vec![(0, 0), (1, 0)]);
    // touching the boundary from the right: both neighbouring columns
    let v = sys.get_chunks_overlap_rect(&Rect::new(5000, 0, 100, 100));
    assert_eq!(v, vec![(0, 0), (1, 0)]);
    // fully outside the grid
    let v = sys.get_chunks_overlap_rect(&Rect::new(-5000, 0, 1000, 1000));
    assert_eq!(v, Vec::<(usize, usize)>::new());
    // spanning several cells in both directions
    let v = sys.get_chunks_overlap_rect(&Rect::new(4900, 4900, 5100, 5100));
    assert_eq!(v, vec![(0, 0), (1, 0), (2, 0), (0, 1), (1, 1), (2, 1), (0, 2), (1, 2), (2, 2)]);
}

#[test]
fn insert_then_remove_restores_cells() {
    let (mut world, mut sys, mut cam) = setup(4, 4);
    let a = world.create_entity();
    world.insert_rect(a, RectComponent::new(Rect::new(100, 100, 300, 300)));
    sys.run(&mut world, &mut cam);
    assert_eq!(sys.cell_entities((0, 0)), vec![a]);

    let b = world.create_entity();
    world.insert_rect(b, RectComponent::new(Rect::new(200, 200, 100, 100)));
    sys.run(&mut world, &mut cam);
    assert_eq!(sys.cell_entities((0, 0)), vec![a, b]);

    world.remove_rect(b);
    sys.run(&mut world, &mut cam);
    assert_eq!(sys.cell_entities((0, 0)), vec![a]);
    assert!(world.chunks[b].is_none());

    // removing again is a harmless no-op
    world.remove_rect(b);
    sys.run(&mut world, &mut cam);
    assert_eq!(sys.cell_entities((0, 0)), vec![a]);
}

#[test]
fn recompute_active_marks_overlapping_and_purges_dead() {
    let (mut world, mut sys, _) = setup(4, 4);
    let mut cam = ActiveChunksRect::new(Rect::new(0, 0, 4000, 4000));

    let near = world.create_entity();
    world.insert_rect(near, RectComponent::new(Rect::new(100, 100, 100, 100)));
    let far = world.create_entity();
    world.insert_rect(far, RectComponent::new(Rect::new(15000, 15000, 100, 100)));
    let doomed = world.create_entity();
    world.insert_rect(doomed, RectComponent::new(Rect::new(200, 200, 100, 100)));

    sys.run(&mut world, &mut cam);
    assert!(world.is_active(near));
    assert!(!world.is_active(far));
    assert!(world.is_active(doomed));

    // kill one entity behind the index's back: its bucket entry lingers
    // until the next recomputation touches that cell
    world.alive[doomed] = false;
    world.active[doomed] = false;
    assert_eq!(sys.cell_entities((0, 0)), vec![near, doomed]);

    cam.move_to(10, 0);
    sys.run(&mut world, &mut cam);
    assert!(world.is_active(near));
    assert!(!world.is_active(doomed));
    assert_eq!(sys.cell_entities((0, 0)), vec![near]);
}

#[test]
fn camera_dirty_flag_is_edge_triggered() {
    let mut cam = ActiveChunksRect::new(Rect::new(0, 0, 100, 100));
    assert!(cam.update_dirty());
    assert!(!cam.update_dirty());
    cam.move_to(0, 0); // same position: no change
    assert!(!cam.update_dirty());
    cam.move_to(5, 0);
    assert!(cam.update_dirty());
    cam.move_by(0, 0); // zero shift: no change
    assert!(!cam.update_dirty());
    cam.move_by(3, 4);
    assert!(cam.update_dirty());
    cam.resize_to(200, 200); // resizing alone does not raise the flag
    assert!(!cam.update_dirty());
}

#[test]
fn grid_geometry() {
    let (_, sys, _) = setup(3, 2);
    let bounds = *sys.get_bounds_chunks();
    assert_eq!(bounds, Rect::new(0, 0, 3 * CHUNK_SIZE, 2 * CHUNK_SIZE));
    let r = sys.get_chunk_rect((2, 1));
    assert_eq!(r, Rect::new(2 * CHUNK_SIZE, CHUNK_SIZE, CHUNK_SIZE, CHUNK_SIZE));
    let rects = sys.get_chunks_rects();
    assert_eq!(rects.len(), 6);
    assert!(rects.contains(&r));
    // column by column: cell (cx, cy) at position cx * rows + cy
    let cell = |cx: i64, cy: i64| Rect::new(cx * CHUNK_SIZE, cy * CHUNK_SIZE, CHUNK_SIZE, CHUNK_SIZE);
    assert_eq!(
        rects,
        vec![cell(0, 0), cell(0, 1), cell(1, 0), cell(1, 1), cell(2, 0), cell(2, 1)]
    );
}

#[test]
fn insert_marks_active_on_overlap() {
    let (mut world, mut sys, _) = setup(4, 4);
    let mut cam = ActiveChunksRect::new(Rect::new(0, 0, 1000, 1000));
    // consume the initial dirty flag first
    sys.run(&mut world, &mut cam);

    let e = world.create_entity();
    world.insert_rect(e, RectComponent::new(Rect::new(500, 500, 100, 100)));
    let f = world.create_entity();
    world.insert_rect(f, RectComponent::new(Rect::new(2000, 2000, 100, 100)));
    sys.run(&mut world, &mut cam);
    assert!(world.is_active(e));
    assert!(!world.is_active(f));
}

/// Change events are consumed exactly once: extra passes with no new
/// events leave the buckets alone instead of re-registering entities.
#[test]
fn events_are_consumed_exactly_once() {
    let (mut world, mut sys, mut cam) = setup(4, 4);
    let e = world.create_entity();
    world.insert_rect(e, RectComponent::new(Rect::new(100, 100, 100, 100)));
    sys.run(&mut world, &mut cam);
    sys.run(&mut world, &mut cam);
    sys.run(&mut world, &mut cam);
    assert_eq!(sys.cell_entities((0, 0)), vec![e]);
    assert_eq!(world.inserted, vec![e]);
}

/// The active region can follow a camera given as plain corner and size.
#[test]
fn update_camera_moves_the_region() {
    let mut cam = ActiveChunksRect::new(Rect::new(0, 0, 100, 100));
    assert!(cam.update_dirty());
    cam.update_camera((50, 60), (1920, 1080));
    assert_eq!(*cam.get_rect(), Rect::new(50, 60, 1920, 1080));
    assert!(cam.update_dirty());
    cam.update_camera((50, 60), (1920, 1080));
    assert!(!cam.update_dirty());
}
