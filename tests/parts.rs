use std::collections::HashSet;

use hexadroid::dedup::DedupEdges;
use hexadroid::handle::TileHandle;
use hexadroid::hex::{Hex, Point, TilePos};
use hexadroid::index::TileCache;
use hexadroid::level::border_positions;
use hexadroid::tracer::{ambiguous_edges, edge_pairs, trace_loops, TraceEnd};

fn pos(q: i32, r: i32) -> TilePos {
    TilePos(Hex::new(q, r))
}

fn pt(x: i64, y: i64) -> Point {
    Point { x, y }
}

#[test]
fn close_points_share_an_index() {
    let mut d = DedupEdges::with_threshold(2);
    let a = d.get_or_insert_point(pt(0, 0));
    let b = d.get_or_insert_point(pt(1, 1));
    let c = d.get_or_insert_point(pt(3, 0));
    assert_eq!(a, 0);
    assert_eq!(b, 0);
    assert_eq!(c, 1);
    assert_eq!(d.points.len(), 2);
    assert_eq!(d.get_point_by_index(1), pt(3, 0));
}

#[test]
fn default_tolerance_is_one_step() {
    let mut d = DedupEdges::new();
    assert_eq!(d.get_or_insert_point(pt(10, 10)), 0);
    assert_eq!(d.get_or_insert_point(pt(11, 10)), 0);
    assert_eq!(d.get_or_insert_point(pt(11, 11)), 1);
    assert_eq!(d.get_or_insert_point(pt(10, 9)), 0);
}

#[test]
fn first_matching_point_wins() {
    let mut d = DedupEdges::with_threshold(3);
    d.get_or_insert_point(pt(0, 0));
    d.get_or_insert_point(pt(5, 0));
    assert_eq!(d.get_or_insert_point(pt(3, 0)), 0);
    assert_eq!(d.get_or_insert_point(pt(4, 0)), 1);
}

#[test]
fn far_coordinates_do_not_overflow() {
    let mut d = DedupEdges::new();
    assert_eq!(d.get_or_insert_point(pt(i64::MAX, i64::MIN)), 0);
    assert_eq!(d.get_or_insert_point(pt(i64::MIN, i64::MAX)), 1);
    assert_eq!(d.get_or_insert_point(pt(i64::MAX, i64::MIN)), 0);
}

#[test]
fn add_edge_registers_both_endpoints() {
    let mut d = DedupEdges::new();
    let owner = TileHandle::new(3, 1);
    d.add_edge(pt(0, 0), pt(4, 0), owner);
    d.add_edge(pt(4, 0), pt(0, 0), owner);
    assert_eq!(d.points.len(), 2);
    assert_eq!(d.edges, vec![(0, 1, owner), (1, 0, owner)]);
    assert_eq!(d.get_edge_p0(1), pt(4, 0));
}

#[test]
fn pairs_take_the_last_candidate() {
    let h = TileHandle::new(0, 0);
    let edges = vec![(0, 1, h), (1, 2, h), (1, 0, h), (2, 3, h)];
    assert_eq!(edge_pairs(&edges), vec![Some(2), Some(3), Some(0), None]);
}

#[test]
fn traces_split_into_closed_and_broken() {
    let h = TileHandle::new(0, 0);
    let edges = vec![(0, 1, h), (1, 2, h), (2, 0, h), (3, 4, h), (5, 6, h)];
    let traces = trace_loops(&edges);
    assert_eq!(traces.len(), 3);
    assert_eq!(traces[0].edges, vec![0, 1, 2]);
    assert_eq!(traces[0].end, TraceEnd::Closed);
    assert_eq!(traces[1].edges, vec![3]);
    assert_eq!(traces[1].end, TraceEnd::Unclosed);
    assert_eq!(traces[2].end, TraceEnd::Unclosed);
}

#[test]
fn trace_stops_at_taken_edge() {
    let h = TileHandle::new(0, 0);
    let edges = vec![(0, 1, h), (1, 2, h), (2, 1, h)];
    let traces = trace_loops(&edges);
    assert_eq!(traces.len(), 1);
    assert_eq!(traces[0].edges, vec![0, 1, 2]);
    assert_eq!(traces[0].end, TraceEnd::Revisited);
}

#[test]
fn empty_edge_set_gives_no_trace() {
    let traces = trace_loops(&Vec::new());
    assert!(traces.is_empty());
}

#[test]
fn neighbors_follow_fixed_order() {
    let n = pos(2, -1).get_neighbors();
    let got: Vec<(i32, i32)> = n.iter().map(|p| (p.0.q(), p.0.r())).collect();
    assert_eq!(got, vec![(3, -1), (3, -2), (2, -2), (1, -1), (1, 0), (2, 0)]);
}

#[test]
fn hex_arithmetic_and_corners() {
    let a = Hex::new(2, -5);
    let b = Hex::new(-1, 3);
    assert_eq!(a.add(b), Hex::new(1, -2));
    assert_eq!(a.sub(b), Hex::new(3, -8));
    assert_eq!(a.s(), 3);
    assert_eq!(a.center(), pt(-1, -15));
    assert_eq!(a.corner(0), pt(0, -14));
    assert_eq!(a.corner(2), pt(-1, -17));
    assert_eq!(TilePos::zero(), pos(0, 0));
}

#[test]
fn tile_cache_insert_remove_and_dirty() {
    let mut c = TileCache::new();
    let a = TileHandle::new(0, 0);
    let b = TileHandle::new(1, 0);
    assert_eq!(c.insert(pos(0, 0), a), None);
    assert_eq!(c.insert(pos(0, 0), b), Some(a));
    assert!(c.contains(pos(0, 0)));
    assert_eq!(c.get(pos(0, 0)), Some(b));
    assert_eq!(c.get(pos(0, 1)), None);
    assert_eq!(c.neighbors_occupied(pos(0, -1)), [false, false, false, false, false, true]);
    assert_eq!(c.remove(pos(0, 0)), Some(b));
    assert_eq!(c.remove(pos(0, 0)), None);
    assert!(c.is_dirty_empty());
    c.mark_dirty(a);
    c.mark_dirty(b);
    c.mark_dirty(a);
    let drained = c.drain_dirty();
    assert_eq!(drained, vec![a, b]);
    assert!(c.is_dirty_empty());
}

#[test]
fn extreme_positions_are_distinct_keys() {
    let mut c = TileCache::new();
    let a = TileHandle::new(0, 0);
    let b = TileHandle::new(1, 0);
    c.insert(pos(i32::MIN, i32::MAX), a);
    c.insert(pos(i32::MAX, i32::MIN), b);
    assert_eq!(c.get(pos(i32::MIN, i32::MAX)), Some(a));
    assert_eq!(c.get(pos(i32::MAX, i32::MIN)), Some(b));
    assert_eq!(c.get(pos(-1, -1)), None);
}

#[test]
fn border_ring_of_radius_five() {
    let ring = border_positions(5);
    assert_eq!(ring.len(), 40);
    let set: HashSet<(i32, i32)> = ring.iter().map(|p| (p.0.q(), p.0.r())).collect();
    assert_eq!(set.len(), 40);
    assert!(set.contains(&(5, 0)));
    assert!(set.contains(&(-5, -5)));
    assert!(!set.contains(&(4, 4)));
    assert_eq!(ring[0], pos(-5, -5));
    assert_eq!(border_positions(0), vec![pos(0, 0)]);
}

#[test]
fn ambiguous_edges_lists_points_with_two_successors() {
    let h = TileHandle::new(0, 0);
    let edges = vec![(0, 1, h), (1, 2, h), (1, 0, h), (2, 3, h)];
    assert_eq!(ambiguous_edges(&edges), vec![0]);
    let clean = vec![(0, 1, h), (1, 0, h)];
    assert!(ambiguous_edges(&clean).is_empty());
}
