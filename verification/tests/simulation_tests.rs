use drone_sim::environment::Environment;
use drone_sim::geometry::{Vec2, UNIT};
use drone_sim::quadtree::{CellState, MapDiff};
use drone_sim::simulation::{
    exploration_complete, headless_step, new_master_map, progress_due, HeadlessAction,
    RenderEvent, RenderState, MAP_AREA,
};
use drone_sim::view::{link_between, Link, Presses, ViewState, World};

fn px(v: i64) -> i64 {
    v * UNIT
}

fn state(id: u32, x: i64) -> RenderState {
    RenderState { id, position: Vec2::new(px(x), 0), heading: 0, path: None, frontiers: vec![] }
}

fn strip(height: i64) -> Vec<u8> {
    // It covers a row of cells that it only reaches into.
    let region = (px(1), px(1), px(9998), px(height) - px(2));
    let seen = CellState { explored: true, obstacle: false, last_seen: 1 };
    MapDiff { timestamp: 0, updates: vec![(region, seen)] }.to_bytes().unwrap()
}

#[test]
fn the_simulation_ends_when_enough_is_explored() {
    let mut map = new_master_map();
    assert_eq!(headless_step(&mut map, &RenderEvent::StateUpdate(state(1, 0))), HeadlessAction::Wait);
    assert_eq!(headless_step(&mut map, &RenderEvent::MapUpdate(vec![1, 2])), HeadlessAction::Wait);
    assert_eq!(map.explored_area(), 0);
    // 484 of 512 rows of cells are less than 95 percent, 487 are more.
    assert_eq!(headless_step(&mut map, &RenderEvent::MapUpdate(strip(9450))), HeadlessAction::Wait);
    assert!(!exploration_complete(&map));
    assert_eq!(map.explored_area() * 512, MAP_AREA * 484);
    assert_eq!(headless_step(&mut map, &RenderEvent::MapUpdate(strip(9510))), HeadlessAction::Finish);
    assert!(exploration_complete(&map));
    assert_eq!(map.explored_area() * 512, MAP_AREA * 487);
}

#[test]
fn progress_is_due_every_ten_seconds() {
    assert!(progress_due(0));
    assert!(!progress_due(9));
    assert!(progress_due(20));
}

#[test]
fn keys_change_the_view() {
    let none = Presses { map: false, zoom: false, path: false, heatmap: false, camera: false };
    let mut v = ViewState::new();
    let start = v;
    assert!(!v.is_map_open && !v.is_zoomed_out && v.is_path_visible && !v.is_heatmap_visible);
    assert_eq!(v.camera_target_id, 1);
    v.press(none);
    assert_eq!(v, start);
    v.press(Presses { map: true, ..none });
    assert!(v.is_map_open);
    v.press(Presses { zoom: true, path: true, heatmap: true, ..none });
    assert!(v.is_zoomed_out && !v.is_path_visible && v.is_heatmap_visible);
    v.press(Presses { map: true, zoom: true, path: true, heatmap: true, ..none });
    assert_eq!(v, start);
    for id in [2, 3, 1] {
        v.press(Presses { camera: true, ..none });
        assert_eq!(v.camera_target_id, id);
    }
}

#[test]
fn the_camera_follows_a_drone_that_is_known() {
    let mut w = World::new();
    let mut v = ViewState::new();
    let center = Vec2::new(px(5000), px(5000));
    assert_eq!(w.camera_position(&v), center);
    w.apply(RenderEvent::StateUpdate(state(1, 7)));
    w.apply(RenderEvent::StateUpdate(state(2, 9)));
    w.apply(RenderEvent::StateUpdate(state(1, 8)));
    assert_eq!(w.drone_states.len(), 2);
    assert_eq!(w.camera_position(&v), Vec2::new(px(8), 0));
    v.camera_target_id = 3;
    assert_eq!(w.camera_position(&v), center);
    v.camera_target_id = 2;
    assert_eq!(w.camera_position(&v), Vec2::new(px(9), 0));
    v.is_zoomed_out = true;
    assert_eq!(w.camera_position(&v), center);
}

#[test]
fn the_window_merges_what_drones_report() {
    let mut w = World::new();
    let mut map = new_master_map();
    map.insert_scan(Vec2::new(px(5000), px(5000)), px(300), &Environment::new(7), 4);
    w.apply(RenderEvent::MapUpdate(map.diff_since(0).to_bytes().unwrap()));
    w.apply(RenderEvent::MapUpdate(vec![0; 3]));
    assert_eq!(w.master_map.explored_area(), map.explored_area());
    assert_eq!(w.master_map.query_point(Vec2::new(px(5000), px(5000))).unwrap().last_seen, 4);
    assert!(w.drone_states.is_empty());
}

#[test]
fn reports_are_copied_whole() {
    let mut s = state(3, 8);
    s.heading = 5;
    s.path = Some(vec![Vec2::new(1, 2)]);
    s.frontiers = vec![Vec2::new(3, 4), Vec2::new(5, 6)];
    let c = s.clone();
    assert_eq!((c.id, c.position, c.heading), (s.id, s.position, s.heading));
    assert_eq!((c.path, c.frontiers), (s.path, s.frontiers));
}

#[test]
fn links_depend_on_the_distance() {
    let a = Vec2::new(0, 0);
    for (d, link) in [
        (0, Link::Good),
        (px(800), Link::Good),
        (px(800) + 1, Link::Weak),
        (px(2000), Link::Weak),
        (px(2000) + 1, Link::Broken),
    ] {
        assert_eq!(link_between(a, Vec2::new(0, d)), link);
        assert_eq!(link_between(Vec2::new(0, d), a), link);
    }
}
