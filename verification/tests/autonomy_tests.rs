use drone_sim::autonomy::{
    pick_nearest_frontier, update_autonomy, AutonomyEvent, AutonomyState, SwarmContext,
    IDLE_COOLDOWN, REPATH_INTERVAL,
};
use drone_sim::environment::Environment;
use drone_sim::geometry::{Vec2, UNIT};
use drone_sim::grid::{find_frontiers, grid_center, GRID_CELLS};
use drone_sim::pathing::{
    calculate_path, cell_of, heuristic, is_target, successors, world_path, COST_EXCESS,
};
use drone_sim::simulation::new_master_map;

const UNKNOWN: u8 = 0;
const EXPLORED: u8 = 1;
const OBSTACLE: u8 = 2;

fn px(v: i64) -> i64 {
    v * UNIT
}

fn point(x: i64, y: i64) -> Vec2 {
    Vec2::new(px(x), px(y))
}

fn cell(x: usize, y: usize) -> usize {
    y * 400 + x
}

fn middle(x: i32, y: i32) -> Vec2 {
    grid_center(x, y)
}

fn grid_of(fill: u8) -> Vec<u8> {
    vec![fill; GRID_CELLS]
}

#[test]
fn cells_and_their_middles() {
    assert_eq!(middle(0, 0), Vec2::new(px(25) / 2, px(25) / 2));
    assert_eq!(middle(399, 1), Vec2::new(px(9975) + px(25) / 2, px(25) + px(25) / 2));
    assert_eq!(cell_of(middle(7, 9)), (7, 9));
    assert_eq!(cell_of(point(25, 24)), (1, 0));
    assert_eq!(cell_of(point(-1, 100000)), (0, 399));
}

#[test]
fn frontiers_are_explored_cells_next_to_unknown_ones() {
    let mut grid = grid_of(UNKNOWN);
    for y in 10..13 {
        for x in 10..13 {
            grid[cell(x, y)] = EXPLORED;
        }
    }
    let mut frontiers = vec![(point(1, 1), 1)];
    find_frontiers(&grid, &vec![0; GRID_CELLS], 5000, &mut frontiers);
    let mut want = Vec::new();
    for y in 10..13 {
        for x in 10..13 {
            if !(x == 11 && y == 11) {
                want.push((middle(x, y), 1_000_000));
            }
        }
    }
    assert_eq!(frontiers, want);
}

#[test]
fn stale_cells_are_frontiers_where_nothing_is_unknown() {
    let grid = grid_of(EXPLORED);
    let mut seen = vec![1000u64; GRID_CELLS];
    seen[cell(5, 5)] = 100;
    seen[cell(3, 7)] = 50;
    seen[cell(4, 7)] = 100;
    seen[cell(9, 9)] = 400;
    let mut frontiers = Vec::new();
    find_frontiers(&grid, &seen, 1000, &mut frontiers);
    assert_eq!(
        frontiers,
        vec![(middle(3, 7), 950), (middle(5, 5), 900), (middle(4, 7), 900)]
    );
    // All cells are stale now: the hundred stalest are kept, the first of equals first.
    find_frontiers(&grid, &seen, 2000, &mut frontiers);
    assert_eq!(frontiers.len(), 100);
    assert_eq!(frontiers[0], (middle(3, 7), 1950));
    assert_eq!(frontiers[3], (middle(9, 9), 1600));
    assert_eq!(frontiers[4], (middle(0, 0), 1000));
    assert_eq!(frontiers[99], (middle(95, 0), 1000));
    find_frontiers(&grid, &seen, 600, &mut frontiers);
    assert!(frontiers.is_empty());
}

#[test]
fn unknown_frontiers_push_stale_ones_aside() {
    let mut grid = grid_of(EXPLORED);
    grid[cell(399, 399)] = UNKNOWN;
    let mut frontiers = Vec::new();
    find_frontiers(&grid, &vec![0; GRID_CELLS], 700, &mut frontiers);
    assert_eq!(
        frontiers,
        vec![
            (middle(398, 398), 1_000_000),
            (middle(399, 398), 1_000_000),
            (middle(398, 399), 1_000_000),
        ]
    );
    // Even where the stale ones are worth as much.
    let edge = frontiers.clone();
    find_frontiers(&grid, &vec![0; GRID_CELLS], 1_000_000, &mut frontiers);
    assert_eq!(frontiers, edge);
}

#[test]
fn nothing_is_left_on_a_fresh_map_without_unknown_cells() {
    let mut frontiers = Vec::new();
    find_frontiers(&grid_of(OBSTACLE), &vec![0; GRID_CELLS], 9999, &mut frontiers);
    assert!(frontiers.is_empty());
    find_frontiers(&grid_of(UNKNOWN), &vec![0; GRID_CELLS], 9999, &mut frontiers);
    assert!(frontiers.is_empty());
}

#[test]
fn steps_cost_ten_or_fourteen() {
    let grid = grid_of(EXPLORED);
    assert_eq!(
        successors(&grid, (0, 0), (5, 5)),
        vec![
            ((4, 4), 14),
            ((4, 5), 10),
            ((4, 6), 14),
            ((5, 4), 10),
            ((5, 6), 10),
            ((6, 4), 14),
            ((6, 5), 10),
            ((6, 6), 14),
        ]
    );
    assert_eq!(successors(&grid, (9, 9), (0, 0)), vec![((0, 1), 10), ((1, 0), 10), ((1, 1), 14)]);
}

#[test]
fn obstacles_make_steps_costly_and_bar_diagonals() {
    let mut grid = grid_of(EXPLORED);
    grid[cell(6, 5)] = OBSTACLE;
    // Beside the obstacle 1000, at a corner of it or two cells off 200, else nothing.
    assert_eq!(
        successors(&grid, (0, 0), (5, 5)),
        vec![
            ((4, 4), 14),
            ((4, 5), 10 + 200),
            ((4, 6), 14),
            ((5, 4), 10 + 200),
            ((5, 6), 10 + 200),
        ]
    );
    assert_eq!(successors(&grid, (6, 5), (5, 5))[5], ((6, 5), 10));
    let worst = {
        let mut g = grid_of(OBSTACLE);
        g[cell(5, 5)] = EXPLORED;
        successors(&g, (0, 0), (5, 4))
    };
    assert_eq!(worst, vec![((5, 5), 10 + 4 * 1000 + 8 * 200)]);
}

#[test]
fn estimates_count_columns_and_rows() {
    assert_eq!(heuristic((3, 4), (5, 1)), 50);
    assert_eq!(heuristic((0, 0), (399, 399)), 7980);
    assert!(is_target((1, 2), (1, 2)));
    assert!(!is_target((1, 2), (2, 1)));
}

#[test]
fn paths_leave_out_the_start() {
    let grid = grid_of(EXPLORED);
    let path = calculate_path(middle(5, 5), middle(8, 5), &grid).unwrap();
    assert_eq!(path, vec![middle(6, 5), middle(7, 5), middle(8, 5)]);
    assert_eq!(calculate_path(middle(5, 5), middle(5, 5), &grid), Some(vec![]));
    assert_eq!(world_path(&vec![]), vec![]);
    assert_eq!(world_path(&vec![(1, 1), (2, 2)]), vec![middle(2, 2)]);
}

#[test]
fn paths_go_around_obstacles_through_explored_cells() {
    let mut grid = grid_of(UNKNOWN);
    for y in 0..5 {
        for x in 0..9 {
            grid[cell(x, y)] = EXPLORED;
        }
    }
    for y in 0..4 {
        grid[cell(4, y)] = OBSTACLE;
    }
    let path = calculate_path(middle(2, 0), middle(6, 0), &grid).unwrap();
    assert_eq!(*path.last().unwrap(), middle(6, 0));
    let mut prev = (2, 0);
    for p in &path {
        let c = cell_of(*p);
        assert_eq!(middle(c.0, c.1), *p);
        assert_eq!(grid[cell(c.0 as usize, c.1 as usize)], EXPLORED);
        assert!((c.0 - prev.0).abs() <= 1 && (c.1 - prev.1).abs() <= 1 && c != prev);
        if c.0 != prev.0 && c.1 != prev.1 {
            assert_ne!(grid[cell(c.0 as usize, prev.1 as usize)], OBSTACLE);
            assert_ne!(grid[cell(prev.0 as usize, c.1 as usize)], OBSTACLE);
        }
        prev = c;
    }
    assert!(path.contains(&middle(4, 4)));
}

#[test]
fn a_detour_is_cheaper_than_the_side_of_an_obstacle() {
    let mut grid = grid_of(UNKNOWN);
    for i in [400, 401, 402, 403, 404, 2] {
        grid[i] = EXPLORED;
    }
    grid[802] = OBSTACLE;
    assert_eq!(
        calculate_path(middle(0, 1), middle(4, 1), &grid),
        Some(vec![middle(1, 1), middle(2, 0), middle(3, 1), middle(4, 1)])
    );
}

#[test]
fn no_route_is_much_cheaper_than_the_path() {
    let mut grid = grid_of(EXPLORED);
    for k in 0..60 {
        grid[cell(20 + k, 30)] = OBSTACLE;
    }
    let (start, target) = ((50, 10), (50, 50));
    let path = calculate_path(middle(start.0, start.1), middle(target.0, target.1), &grid).unwrap();
    let mut cost = 0;
    let mut at = start;
    for p in &path {
        let next = cell_of(*p);
        cost += successors(&grid, target, at).iter().find(|s| s.0 == next).unwrap().1;
        at = next;
    }
    assert_eq!(at, target);
    // The cheapest cost by relaxing steps until nothing changes any more.
    let mut best = vec![i32::MAX; GRID_CELLS];
    best[cell(50, 10)] = 0;
    let mut queue = vec![start];
    while let Some(c) = queue.pop() {
        let so_far = best[cell(c.0 as usize, c.1 as usize)];
        for ((x, y), step) in successors(&grid, target, c) {
            let known = &mut best[cell(x as usize, y as usize)];
            if so_far + step < *known && x < 120 && y < 80 {
                *known = so_far + step;
                queue.insert(0, (x, y));
            }
        }
    }
    let cheapest = best[cell(50, 50)];
    assert!(cheapest <= cost && cost <= cheapest + COST_EXCESS);
}

#[test]
fn no_path_leads_through_the_unknown() {
    let mut grid = grid_of(UNKNOWN);
    grid[cell(1, 1)] = EXPLORED;
    grid[cell(3, 1)] = EXPLORED;
    assert_eq!(calculate_path(middle(1, 1), middle(3, 1), &grid), None);
    // The target itself may be unknown.
    assert_eq!(calculate_path(middle(1, 1), middle(2, 1), &grid), Some(vec![middle(2, 1)]));
}

#[test]
fn the_nearest_frontier_is_picked() {
    let alone = SwarmContext { peer_positions: &[], peer_paths: &[] };
    let frontiers = vec![(point(100, 0), 1000), (point(0, 50), 1000), (point(50, 0), 1000)];
    assert!(alone.is_valid());
    assert_eq!(
        pick_nearest_frontier(point(0, 0), &frontiers, &vec![], &alone),
        Some(point(0, 50))
    );
    // A higher value makes up for the square of the distance.
    for (value, want) in [(8500, point(0, 50)), (8501, point(100, 0))] {
        let frontiers = vec![(point(0, 50), 1000), (point(100, 0), value)];
        assert_eq!(
            pick_nearest_frontier(point(0, 0), &frontiers, &vec![], &alone),
            Some(want)
        );
    }
    assert_eq!(pick_nearest_frontier(point(0, 0), &vec![], &vec![], &alone), None);
}

#[test]
fn banned_frontiers_are_skipped() {
    let alone = SwarmContext { peer_positions: &[], peer_paths: &[] };
    let frontiers = vec![(point(0, 50), 1000), (point(100, 0), 1000)];
    let close = Vec2::new(0, px(51) - 1);
    let far = Vec2::new(0, px(51));
    assert_eq!(
        pick_nearest_frontier(point(0, 0), &frontiers, &vec![close], &alone),
        Some(point(100, 0))
    );
    assert_eq!(
        pick_nearest_frontier(point(0, 0), &frontiers, &vec![far], &alone),
        Some(point(0, 50))
    );
    let both = vec![point(0, 50), point(100, 0)];
    assert_eq!(pick_nearest_frontier(point(0, 0), &frontiers, &both, &alone), None);
}

#[test]
fn peers_and_their_waypoints_repel() {
    let frontiers = vec![(point(0, 240), 0), (point(0, -241), 0)];
    let pick = |peers: &[Vec2], paths: &[Option<Vec<Vec2>>]| {
        let swarm = SwarmContext { peer_positions: peers, peer_paths: paths };
        assert!(swarm.is_valid());
        pick_nearest_frontier(point(0, 0), &frontiers, &vec![], &swarm).unwrap()
    };
    let (near, far) = (point(0, 240), point(0, -241));
    assert_eq!(pick(&[], &[]), near);
    // The squares of the distances differ by 481. A peer takes off twice what it is
    // nearer than 500.
    assert_eq!(pick(&[point(0, 500)], &[]), near);
    assert_eq!(pick(&[point(0, 499)], &[]), far);
    assert_eq!(pick(&[point(0, 740)], &[]), near);
    // A waypoint takes off one and a half times what it is nearer than 300.
    assert_eq!(pick(&[], &[None, Some(vec![near])]), near);
    assert_eq!(pick(&[], &[Some(vec![near, point(0, 520)])]), near);
    assert_eq!(pick(&[], &[Some(vec![near]), Some(vec![point(0, 519)])]), far);
    // Next to the squares of long distances the peers weigh little.
    let frontiers = vec![(point(100, 0), 1000), (point(-110, 0), 1000)];
    let swarm = SwarmContext { peer_positions: &[point(550, 0)], peer_paths: &[] };
    assert_eq!(
        pick_nearest_frontier(point(0, 0), &frontiers, &vec![], &swarm),
        Some(point(100, 0))
    );
    let far = Vec2::new(i64::MAX, 0);
    assert!(!SwarmContext { peer_positions: &[far], peer_paths: &[] }.is_valid());
    assert!(!SwarmContext { peer_positions: &[], peer_paths: &[Some(vec![far])] }.is_valid());
}

#[test]
fn a_new_state_is_idle() {
    let s = AutonomyState::new();
    assert!(s.path.is_none() && s.target_frontier.is_none() && s.all_frontiers.is_empty());
    assert_eq!((s.recalculate_cooldown, s.repath_timer), (0, 0));
    assert!(s.banned_frontiers.is_empty());
    assert_eq!(s.grid, vec![0; 160_000]);
    assert_eq!(s.last_seen_grid, vec![0; 160_000]);
}

#[test]
fn a_drone_plans_follows_and_plans_again() {
    let alone = SwarmContext { peer_positions: &[], peer_paths: &[] };
    let mut map = new_master_map();
    let position = point(5000, 5000);
    map.insert_scan(position, px(300), &Environment { obstacles: Vec::new() }, 1);
    let mut s = AutonomyState::new();
    let event = s.update(position, &map, UNIT / 60, 2, &alone);
    let target = match event {
        AutonomyEvent::Targeted(t) => t,
        e => panic!("{:?}", e),
    };
    assert_eq!(s.target_frontier, Some(target));
    assert!(s.all_frontiers.contains(&target));
    assert_eq!(s.repath_timer, REPATH_INTERVAL);
    assert_eq!(*s.path.as_ref().unwrap().last().unwrap(), target);
    let d = target.distance(position);
    assert!(d > px(250) && d < px(300));
    assert_eq!(s.update(position, &map, UNIT / 8, 3, &alone), AutonomyEvent::Following);
    assert_eq!(s.repath_timer, UNIT / 8);
    assert_eq!(s.update(position, &map, UNIT / 8, 4, &alone), AutonomyEvent::Targeted(target));
    s.ban_current_target();
    assert!(s.target_frontier.is_none() && s.path.is_none());
    assert_eq!(s.banned_frontiers, vec![target]);
    match update_autonomy(&mut s, position, &map, UNIT / 60, 5, &alone) {
        AutonomyEvent::Targeted(t) => assert_ne!(t, target),
        e => panic!("{:?}", e),
    }
}

#[test]
fn unreachable_frontiers_are_banned() {
    let alone = SwarmContext { peer_positions: &[], peer_paths: &[] };
    let mut map = new_master_map();
    map.insert_scan(point(5000, 5000), px(60), &Environment { obstacles: Vec::new() }, 1);
    let mut s = AutonomyState::new();
    let away = point(1000, 1000);
    let first = match s.update(away, &map, UNIT / 60, 2, &alone) {
        AutonomyEvent::Unreachable(t) => t,
        e => panic!("{:?}", e),
    };
    assert!(s.path.is_none());
    assert_eq!(s.target_frontier, Some(first));
    assert_eq!(s.banned_frontiers, vec![first]);
    let n = s.all_frontiers.len();
    for k in 1..n {
        match s.update(away, &map, UNIT / 60, 2, &alone) {
            AutonomyEvent::Unreachable(t) => assert!(!s.banned_frontiers[..k].contains(&t)),
            e => panic!("{:?}", e),
        }
    }
    assert_eq!(s.update(away, &map, UNIT / 60, 2, &alone), AutonomyEvent::AllBanned(n));
    assert_eq!(s.recalculate_cooldown, IDLE_COOLDOWN);
    assert_eq!(s.update(away, &map, UNIT, 2, &alone), AutonomyEvent::CoolingDown);
    assert_eq!(s.recalculate_cooldown, 0);
    assert_eq!(s.update(away, &map, UNIT, 2, &alone), AutonomyEvent::AllBanned(n));
}

#[test]
fn exploration_is_complete_where_nothing_is_known() {
    let alone = SwarmContext { peer_positions: &[], peer_paths: &[] };
    let mut s = AutonomyState::default();
    let map = new_master_map();
    assert_eq!(s.update(point(1, 1), &map, UNIT, 2, &alone), AutonomyEvent::Complete);
    assert!(s.path.is_none() && s.target_frontier.is_none());
}
