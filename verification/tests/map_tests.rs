use drone_sim::environment::{Environment, Obstacle, MAP_HEIGHT, MAP_WIDTH};
use drone_sim::geometry::{integer_sqrt, Rect, Vec2, UNIT};
use drone_sim::quadtree::{CellState, MapDiff, QuadNode, Quadtree};

fn px(v: i64) -> i64 {
    v * UNIT
}

fn small_map() -> Quadtree {
    Quadtree::new(Rect::new(0, 0, px(16), px(16)), 2)
}

fn at(tree: &Quadtree, x: i64, y: i64) -> CellState {
    tree.query_point(Vec2::new(px(x), px(y))).unwrap()
}

fn empty() -> Environment {
    Environment { obstacles: Vec::new() }
}

#[test]
fn square_roots_are_rounded_down() {
    for (n, r) in [(0u128, 0u64), (1, 1), (3, 1), (4, 2), (24, 4), (25, 5)] {
        assert_eq!(integer_sqrt(n), r);
    }
    assert_eq!(integer_sqrt(u128::MAX), u64::MAX);
    assert_eq!(Vec2::new(px(3), 0).distance(Vec2::new(0, px(4))), px(5));
    assert_eq!(Vec2::new(1, 1).distance(Vec2::new(0, 0)), 1);
    assert_eq!(Vec2::new(1, 2).distance_squared(Vec2::new(0, 0)), 5);
}

#[test]
fn touching_rectangles_overlap() {
    let a = Rect::new(0, 0, 10, 10);
    assert!(a.overlaps(&Rect::new(10, 10, 5, 5)));
    assert!(!a.overlaps(&Rect::new(11, 0, 5, 5)));
    assert!(a.contains(Vec2::new(10, 0)));
    assert!(!a.contains(Vec2::new(-1, 0)));
    assert_eq!(a.center(), Vec2::new(5, 5));
    assert_eq!(a.quarter(3), Rect::new(5, 5, 5, 5));
}

#[test]
fn maps_of_known_seeds() {
    for (seed, n, first) in [
        (12345, 999, Rect::new(23202202695816, 27123552122635, 232274138400, 228962858200)),
        (0, 1003, Rect::new(34856527687126, 28381429547650, 417529209400, 454035517200)),
        (100001, 1001, Rect::new(13883230372697, 14374119351960, 1066610664800, 855374514200)),
    ] {
        let env = Environment::new(seed);
        assert_eq!(env.obstacles.len(), n);
        assert_eq!(env.obstacles[0].rect, Rect::new(px(-100), px(-100), px(10200), px(100)));
        assert_eq!(env.obstacles[1].rect, Rect::new(px(-100), px(10000), px(10200), px(100)));
        assert_eq!(env.obstacles[2].rect, Rect::new(px(-100), px(-100), px(100), px(10200)));
        assert_eq!(env.obstacles[3].rect, Rect::new(px(10000), px(-100), px(100), px(10200)));
        assert_eq!(env.obstacles[4].rect, first);
    }
}

#[test]
fn no_obstacle_overlaps_the_spawn_area() {
    let spawn = Rect::new(MAP_WIDTH / 2 - px(200), MAP_HEIGHT / 2 - px(200), px(400), px(400));
    for seed in 0..20 {
        let env = Environment::new(seed);
        assert!(!env.overlaps_obstacle(&spawn));
        for o in &env.obstacles[4..] {
            assert!(o.rect.x >= 0 && o.rect.x + o.rect.w <= MAP_WIDTH);
            assert!(o.rect.y >= 0 && o.rect.y + o.rect.h <= MAP_HEIGHT);
            assert!(o.rect.w >= px(50) && o.rect.w <= px(250));
        }
    }
}

#[test]
fn new_map_is_unseen() {
    let tree = small_map();
    let s = at(&tree, 1, 1);
    assert_eq!(s, CellState { explored: false, obstacle: false, last_seen: 0 });
    assert_eq!(s, CellState::default());
    assert!(tree.query_point(Vec2::new(px(17), 0)).is_none());
    assert!(tree.query_point(Vec2::new(px(16), px(16))).is_some());
    assert_eq!(tree.explored_area(), 0);
}

#[test]
fn scan_marks_the_cells_whose_middle_is_in_reach() {
    let mut tree = small_map();
    // The middles of the cells are at 2, 6, 10 and 14 in both directions.
    tree.insert_scan(Vec2::new(px(6), px(6)), px(4), &empty(), 7);
    for (x, y, seen) in [
        (6, 6, true),
        (2, 6, true),
        (10, 6, true),
        (6, 2, true),
        (6, 10, true),
        (2, 2, false),
        (10, 10, false),
        (14, 6, false),
    ] {
        let s = at(&tree, x, y);
        assert_eq!(s.explored, seen, "{} {}", x, y);
        assert_eq!(s.last_seen, if seen { 7 } else { 0 });
        assert!(!s.obstacle);
    }
    assert_eq!(tree.explored_area(), 5 * (px(4) as i128) * (px(4) as i128));
}

#[test]
fn scan_sees_obstacles_in_cells_that_they_touch() {
    let mut tree = small_map();
    let env = Environment { obstacles: vec![Obstacle { rect: Rect::new(px(5), px(5), px(1), px(1)) }] };
    tree.insert_scan(Vec2::new(px(8), px(8)), px(100), &env, 3);
    assert!(at(&tree, 6, 6).obstacle);
    assert!(!at(&tree, 2, 2).obstacle);
    let env = Environment { obstacles: vec![Obstacle { rect: Rect::new(px(4), px(5), px(1), px(1)) }] };
    tree.insert_scan(Vec2::new(px(8), px(8)), px(100), &env, 4);
    assert!(at(&tree, 2, 6).obstacle);
}

#[test]
fn uniform_divisions_are_joined() {
    let mut tree = small_map();
    tree.insert_scan(Vec2::new(px(8), px(8)), px(100), &empty(), 9);
    assert!(matches!(tree.root, QuadNode::Leaf(s) if s.explored && s.last_seen == 9));
    tree.insert_scan(Vec2::new(px(2), px(2)), px(1), &empty(), 10);
    assert!(matches!(tree.root, QuadNode::Internal(_)));
}

#[test]
fn diff_lists_what_was_seen_since() {
    let mut tree = small_map();
    tree.insert_scan(Vec2::new(px(2), px(2)), px(1), &empty(), 5);
    tree.insert_scan(Vec2::new(px(14), px(14)), px(1), &empty(), 8);
    let all = tree.diff_since(0);
    assert_eq!(all.timestamp, 0);
    assert_eq!(all.updates.len(), 2);
    let late = tree.diff_since(8);
    assert_eq!(late.updates.len(), 1);
    assert_eq!(late.updates[0].0, (px(12), px(12), px(4), px(4)));
    assert_eq!(late.updates[0].1, CellState { explored: true, obstacle: false, last_seen: 8 });
    assert!(tree.diff_since(9).updates.is_empty());
}

#[test]
fn diff_reaches_a_peer_and_merging_twice_changes_nothing() {
    let mut tree = small_map();
    tree.insert_scan(Vec2::new(px(6), px(6)), px(1), &empty(), 5);
    let mut peer = small_map();
    peer.insert_scan(Vec2::new(px(14), px(2)), px(1), &empty(), 2);
    peer.merge(tree.diff_since(0));
    assert_eq!(at(&peer, 6, 6).last_seen, 5);
    assert_eq!(at(&peer, 14, 2).last_seen, 2);
    // An update leaves the cells alone that only share an edge or a corner with it.
    assert!(!at(&peer, 2, 2).explored);
    assert!(!at(&peer, 6, 2).explored);
    assert!(!at(&peer, 14, 14).explored);
    let area = peer.explored_area();
    assert_eq!(area, 2 * (px(4) as i128) * (px(4) as i128));
    peer.merge(tree.diff_since(0));
    assert_eq!(peer.explored_area(), area);
    assert_eq!(at(&peer, 6, 6).last_seen, 5);
}

#[test]
fn a_fresh_map_takes_over_the_whole_diff() {
    let mut tree = Quadtree::new(Rect::new(0, 0, px(16), px(16)), 1);
    tree.insert_scan(Vec2::new(px(4), px(4)), px(1), &empty(), 5);
    let mut peer = Quadtree::new(Rect::new(0, 0, px(16), px(16)), 1);
    peer.merge(tree.diff_since(0));
    assert_eq!(peer.diff_since(0).updates, tree.diff_since(0).updates);
    assert_eq!(peer.diff_since(0).updates.len(), 1);

    let env = Environment { obstacles: vec![Obstacle { rect: Rect::new(px(5), px(5), px(2), px(4)) }] };
    let mut tree = Quadtree::new(Rect::new(0, 0, px(100), px(70)), 5);
    for k in 0..6 {
        tree.insert_scan(Vec2::new(px(10 + 15 * k), px(60 - 9 * k)), px(12), &env, 2 + k as u64);
    }
    let mut peer = Quadtree::new(Rect::new(0, 0, px(100), px(70)), 5);
    peer.merge(tree.diff_since(0));
    assert_eq!(peer.diff_since(0).updates, tree.diff_since(0).updates);
    assert_eq!(peer.explored_area(), tree.explored_area());
}

#[test]
fn maps_without_an_extent_are_taken_over_too() {
    for (w, h, depth) in [(0, 0, 0), (0, 0, 3), (0, 64, 2), (64, 0, 2), (0, 64, 0), (64, 64, 0)] {
        let bounds = Rect::new(px(1), px(2), px(w), px(h));
        let mut tree = Quadtree::new(bounds, depth);
        let middle = Vec2::new(px(1), px(2));
        tree.insert_scan(middle, px(20), &empty(), 5);
        let mut peer = Quadtree::new(bounds, depth);
        peer.merge(tree.diff_since(0));
        assert_eq!(peer.diff_since(0).updates, tree.diff_since(0).updates);
        assert_eq!(peer.query_point(middle), tree.query_point(middle));
        if w == 0 || h == 0 {
            assert_eq!(peer.query_point(middle).unwrap().explored, w + h == 0 || depth > 0);
        }
    }
    let mut tree = Quadtree::new(Rect::new(0, 0, 0, 0), 0);
    tree.insert_scan(Vec2::new(0, 0), px(1), &empty(), 9);
    assert_eq!(tree.diff_since(0).updates.len(), 1);
    let mut peer = Quadtree::new(Rect::new(0, 0, 0, 0), 0);
    peer.merge(tree.diff_since(0));
    assert_eq!(peer.query_point(Vec2::new(0, 0)).unwrap().last_seen, 9);
}

#[test]
fn regions_without_an_extent_reach_what_they_touch() {
    let a = Rect::new(0, 0, 10, 10);
    let point = Rect::new(10, 10, 0, 0);
    assert!(a.intersects(&point) && point.intersects(&a) && point.intersects(&point));
    assert!(!a.intersects(&Rect::new(11, 10, 0, 0)));
    // Only in the direction without an extent do edges count.
    assert!(a.intersects(&Rect::new(10, 5, 0, 5)));
    assert!(!a.intersects(&Rect::new(10, 10, 0, 5)));
}

#[test]
fn nodes_are_copied_whole() {
    let mut tree = small_map();
    tree.insert_scan(Vec2::new(px(2), px(2)), px(1), &empty(), 5);
    let copy = Quadtree { root: tree.root.clone(), bounds: tree.bounds, max_depth: tree.max_depth };
    assert_eq!(copy.diff_since(0).updates, tree.diff_since(0).updates);
    assert_eq!(at(&copy, 2, 2), at(&tree, 2, 2));
}

#[test]
fn obstacles_may_be_reversed() {
    let env = Environment { obstacles: vec![Obstacle { rect: Rect::new(px(6), 0, px(-4), px(16)) }] };
    let mut tree = small_map();
    tree.insert_scan(Vec2::new(px(8), px(8)), px(100), &env, 3);
    // Such a rectangle overlaps what holds both of its edges.
    assert!(!at(&tree, 2, 2).obstacle && !at(&tree, 6, 2).obstacle);
    assert!(env.overlaps_obstacle(&Rect::new(px(2), 0, px(4), px(4))));
}

#[test]
fn updates_reach_the_cells_that_they_overlap() {
    let mut tree = small_map();
    let seen = CellState { explored: true, obstacle: false, last_seen: 3 };
    tree.merge(MapDiff { timestamp: 0, updates: vec![((px(3), px(1), px(2), px(1)), seen)] });
    assert_eq!(at(&tree, 2, 2), seen);
    assert_eq!(at(&tree, 6, 2), seen);
    assert!(!at(&tree, 2, 6).explored && !at(&tree, 10, 2).explored);
    let a = Rect::new(0, 0, 10, 10);
    assert!(a.intersects(&Rect::new(9, 9, 5, 5)));
    assert!(!a.intersects(&Rect::new(10, 0, 5, 5)));
    assert!(!a.intersects(&Rect::new(10, 10, 5, 5)));
}

#[test]
fn merge_takes_the_later_of_two_updates_of_a_region() {
    let mut tree = small_map();
    let region = (px(8), px(8), px(8), px(8));
    let first = CellState { explored: true, obstacle: true, last_seen: 3 };
    let second = CellState { explored: true, obstacle: false, last_seen: 1 };
    tree.merge(MapDiff { timestamp: 0, updates: vec![(region, first), (region, second)] });
    assert_eq!(at(&tree, 10, 10), second);
    assert_eq!(at(&tree, 14, 14), second);
    assert!(!at(&tree, 2, 2).explored);
    tree.merge(MapDiff { timestamp: 0, updates: Vec::new() });
    assert_eq!(at(&tree, 10, 10), second);
}

#[test]
fn view_shows_explored_regions_that_overlap_the_camera() {
    let mut tree = small_map();
    let env = Environment { obstacles: vec![Obstacle { rect: Rect::new(px(14), px(14), px(1), px(1)) }] };
    tree.insert_scan(Vec2::new(px(2), px(2)), px(1), &env, 5);
    tree.insert_scan(Vec2::new(px(14), px(14)), px(1), &env, 5);
    let all = tree.visible_regions(Rect::new(0, 0, px(16), px(16)));
    assert_eq!(
        all,
        vec![
            (Rect::new(0, 0, px(4), px(4)), false),
            (Rect::new(px(12), px(12), px(4), px(4)), true),
        ]
    );
    let some = tree.visible_regions(Rect::new(px(1), px(1), px(1), px(1)));
    assert_eq!(some, vec![(Rect::new(0, 0, px(4), px(4)), false)]);
    assert!(tree.visible_regions(Rect::new(px(20), 0, px(1), px(1))).is_empty());
}
