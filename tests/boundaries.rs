use std::collections::HashSet;

use hexadroid::handle::TileHandle;
use hexadroid::hex::{Hex, Point, TilePos};
use hexadroid::world::{TileState, TileType, TileWorld, RECOMPUTE_INTERVAL_MS};

fn pos(q: i32, r: i32) -> TilePos {
    TilePos(Hex::new(q, r))
}

fn wall() -> TileType {
    TileType { wall: true, immediate_collider: false }
}

fn spawn_all(world: &mut TileWorld, cells: &[(i32, i32)]) -> Vec<TileHandle> {
    cells.iter().map(|&(q, r)| world.spawn_tile(pos(q, r), wall())).collect()
}

fn block3() -> Vec<(i32, i32)> {
    let mut cells = Vec::new();
    for q in 0..3 {
        for r in 0..3 {
            cells.push((q, r));
        }
    }
    cells
}

fn point_set(points: &[Point]) -> HashSet<(i64, i64)> {
    points.iter().map(|p| (p.x, p.y)).collect()
}

fn expected_collider(world: &TileWorld, p: TilePos) -> [bool; 6] {
    let occ = world.neighbors_occupied(p);
    [!occ[0], !occ[1], !occ[2], !occ[3], !occ[4], !occ[5]]
}

#[test]
fn single_tile_gives_one_hexagon_loop() {
    let mut world = TileWorld::new();
    let h = world.spawn_tile(pos(0, 0), wall());
    world.recompute();
    let loops = world.boundary_loops();
    assert_eq!(loops.len(), 1);
    assert_eq!(loops[0].points.len(), 6);
    assert_eq!(loops[0].owners, vec![h]);
    let corners: HashSet<(i64, i64)> =
        [(1, 1), (1, -1), (0, -2), (-1, -1), (-1, 1), (0, 2)].into_iter().collect();
    assert_eq!(point_set(&loops[0].points), corners);
    assert_eq!(world.collider(h), Some([true; 6]));
}

#[test]
fn filling_gap_merges_two_loops() {
    let mut world = TileWorld::new();
    let hs = spawn_all(&mut world, &[(0, 0), (2, 0)]);
    world.recompute();
    assert_eq!(world.boundary_loops().len(), 2);
    let mid = world.spawn_tile(pos(1, 0), wall());
    world.recompute();
    let loops = world.boundary_loops();
    assert_eq!(loops.len(), 1);
    assert_eq!(loops[0].points.len(), 14);
    let owners: HashSet<TileHandle> = loops[0].owners.iter().copied().collect();
    let expected: HashSet<TileHandle> = [hs[0], hs[1], mid].into_iter().collect();
    assert_eq!(owners, expected);
}

#[test]
fn block_of_nine_has_one_outer_loop() {
    let mut world = TileWorld::new();
    let hs = spawn_all(&mut world, &block3());
    world.recompute();
    let loops = world.boundary_loops();
    assert_eq!(loops.len(), 1);
    assert_eq!(loops[0].points.len(), 22);
    let owners: HashSet<TileHandle> = loops[0].owners.iter().copied().collect();
    let centre = world.get(pos(1, 1)).unwrap();
    assert!(!owners.contains(&centre));
    assert_eq!(owners.len(), 8);
    assert_eq!(world.collider(centre), Some([false; 6]));
    for h in hs {
        let p = world.tile_pos(h).unwrap();
        assert_eq!(world.collider(h), Some(expected_collider(&world, p)));
    }
}

#[test]
fn interior_hole_gives_outer_and_inner_loop() {
    let mut world = TileWorld::new();
    spawn_all(&mut world, &block3());
    world.recompute();
    let outer_before = point_set(&world.boundary_loops()[0].points);
    let centre = world.get(pos(1, 1)).unwrap();
    assert!(world.request_despawn(centre));
    world.reap();
    assert!(!world.contains(pos(1, 1)));
    world.recompute();
    let loops = world.boundary_loops();
    assert_eq!(loops.len(), 2);
    let mut sizes: Vec<usize> = loops.iter().map(|l| l.points.len()).collect();
    sizes.sort();
    assert_eq!(sizes, vec![6, 22]);
    let outer = loops.iter().find(|l| l.points.len() == 22).unwrap();
    assert_eq!(point_set(&outer.points), outer_before);
    let inner = loops.iter().find(|l| l.points.len() == 6).unwrap();
    let hole: HashSet<(i64, i64)> =
        [(4, 4), (4, 2), (3, 1), (2, 2), (2, 4), (3, 5)].into_iter().collect();
    assert_eq!(point_set(&inner.points), hole);
    assert_eq!(inner.owners.len(), 6);
}

#[test]
fn second_pass_changes_nothing() {
    let mut world = TileWorld::new();
    spawn_all(&mut world, &[(0, 0), (1, 0), (3, 3), (0, 1)]);
    world.recompute();
    assert!(world.is_clean());
    let first: Vec<(Vec<Point>, Vec<TileHandle>)> =
        world.boundary_loops().iter().map(|l| (l.points.clone(), l.owners.clone())).collect();
    world.recompute();
    let second: Vec<(Vec<Point>, Vec<TileHandle>)> =
        world.boundary_loops().iter().map(|l| (l.points.clone(), l.owners.clone())).collect();
    assert_eq!(first, second);
}

#[test]
fn colliders_hold_exactly_the_free_sides() {
    let mut world = TileWorld::new();
    let hs = spawn_all(&mut world, &[(0, 0), (1, 0), (0, 1), (2, -1), (5, 5)]);
    world.recompute();
    let removed = hs[1];
    assert!(world.request_despawn(removed));
    world.reap();
    world.spawn_tile(pos(-1, 0), wall());
    world.recompute();
    for (q, r) in [(0, 0), (0, 1), (2, -1), (5, 5), (-1, 0)] {
        let h = world.get(pos(q, r)).unwrap();
        assert_eq!(world.collider(h), Some(expected_collider(&world, pos(q, r))));
    }
    assert_eq!(world.collider(removed), None);
    let lone = world.get(pos(0, 0)).unwrap();
    assert_eq!(world.collider(lone), Some([true, true, true, false, true, false]));
}

#[test]
fn every_boundary_tile_belongs_to_a_loop() {
    let mut world = TileWorld::new();
    let hs = spawn_all(&mut world, &[(0, 0), (1, 0), (2, 0), (4, 0), (4, 1)]);
    world.recompute();
    let owners: HashSet<TileHandle> =
        world.boundary_loops().iter().flat_map(|l| l.owners.iter().copied()).collect();
    for h in hs {
        assert!(owners.contains(&h));
    }
    assert_eq!(world.boundary_loops().len(), 2);
}

#[test]
fn ring_tiles_lie_on_outer_and_inner_loop() {
    let mut world = TileWorld::new();
    let ring = [(1, 0), (1, -1), (0, -1), (-1, 0), (-1, 1), (0, 1)];
    spawn_all(&mut world, &ring);
    world.recompute();
    let loops = world.boundary_loops();
    assert_eq!(loops.len(), 2);
    assert_eq!(loops.iter().map(|l| l.owners.len()).sum::<usize>(), 12);
}

#[test]
fn stale_handle_resolves_to_nothing() {
    let mut world = TileWorld::new();
    let h = world.spawn_tile(pos(0, 0), wall());
    assert!(world.request_despawn(h));
    assert!(!world.request_despawn(h));
    assert_eq!(world.slot_of(h).unwrap().state, TileState::PendingRemoval);
    world.reap();
    assert_eq!(world.tile_pos(h), None);
    let h2 = world.spawn_tile(pos(3, 0), wall());
    assert_eq!(h2.index, h.index);
    assert_ne!(h2.generation, h.generation);
    assert_eq!(world.tile_pos(h2), Some(pos(3, 0)));
    assert_eq!(world.tile_pos(h), None);
    assert!(!world.request_despawn(h));
}

#[test]
fn removing_last_tile_leaves_no_loop() {
    let mut world = TileWorld::new();
    let h = world.spawn_tile(pos(2, 2), wall());
    world.recompute();
    assert_eq!(world.boundary_loops().len(), 1);
    world.request_despawn(h);
    world.reap();
    assert!(!world.is_clean());
    world.recompute();
    assert_eq!(world.boundary_loops().len(), 0);
    assert!(world.is_clean());
}

#[test]
fn immediate_collider_is_full_until_pass() {
    let mut world = TileWorld::new();
    let a = world.spawn_tile(pos(0, 0), wall());
    let b = world.spawn_tile(pos(1, 0), TileType { wall: true, immediate_collider: true });
    assert_eq!(world.collider(a), None);
    assert_eq!(world.collider(b), Some([true; 6]));
    world.recompute();
    assert_eq!(world.collider(b), Some([true, true, true, false, true, true]));
    assert_eq!(world.collider(a), Some([false, true, true, true, true, true]));
}

#[test]
fn throttle_waits_for_interval() {
    let mut world = TileWorld::new();
    world.spawn_tile(pos(0, 0), wall());
    assert!(world.update(16));
    assert_eq!(world.boundary_loops().len(), 1);
    world.spawn_tile(pos(4, 4), wall());
    assert!(!world.update(60));
    assert!(!world.update(39));
    assert_eq!(world.boundary_loops().len(), 1);
    assert!(!world.update(1));
    assert!(world.update(16));
    assert_eq!(world.boundary_loops().len(), 2);
    assert!(!world.update(RECOMPUTE_INTERVAL_MS));
    assert!(!world.update(16));
}

#[test]
fn occupying_spawn_replaces_index_entry() {
    let mut world = TileWorld::new();
    let a = world.spawn_tile(pos(0, 0), wall());
    let b = world.spawn_tile(pos(0, 0), wall());
    assert_eq!(world.get(pos(0, 0)), Some(b));
    assert_eq!(world.tile_pos(a), Some(pos(0, 0)));
    world.recompute();
    assert_eq!(world.collider(b), Some([true; 6]));
}

#[test]
fn pass_reports_no_broken_walks_on_the_grid() {
    let mut world = TileWorld::new();
    spawn_all(&mut world, &block3());
    world.recompute();
    assert_eq!(world.broken_walk_count(), 0);
    assert_eq!(world.ambiguous_pairing_count(), 0);
}

#[test]
fn untouched_loop_survives_a_pass() {
    let mut world = TileWorld::new();
    spawn_all(&mut world, &[(0, 0), (5, 5)]);
    world.recompute();
    let far = world.boundary_loops().iter().find(|l| l.points.iter().any(|p| p.x > 10)).unwrap();
    let far_points = far.points.clone();
    world.spawn_tile(pos(1, 0), wall());
    world.recompute();
    assert_eq!(world.boundary_loops().len(), 2);
    assert_eq!(world.boundary_loops()[0].points, far_points);
}

#[test]
fn reaped_tile_slot_is_removed() {
    let mut world = TileWorld::new();
    let h = world.spawn_tile(pos(0, 0), wall());
    world.request_despawn(h);
    world.reap();
    assert!(world.slot_of(h).is_none());
}
