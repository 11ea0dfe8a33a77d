//! Where a drone goes next.
use crate::geometry::{
    law_distance_is_a_root, law_only_one_distance, square, Vec2, COORD_LIMIT, UNIT,
};
use crate::grid::{
    cell_center, cell_x, cell_y, find_frontiers, frontiers_of, grid_center, lemma_cell_position,
    lemma_few_frontiers, CELL_EXPLORED, CELL_OBSTACLE, CELL_UNKNOWN, GRID_CELLS,
};
use crate::pathing::{
    calculate_path, is_cheapest_but_for_estimates, is_nearly_cheapest, is_route, nearest_cell,
    path_between, path_view, reachable, waypoints,
};
use crate::quadtree::{CellState, Quadtree};
use vstd::prelude::*;

verus! {

/// How long a drone follows a path before it plans anew: a quarter of a second.
pub const REPATH_INTERVAL: i64 = 0x4000_0000;

/// How long a drone waits when it finds nothing to do: a second.
pub const IDLE_COOLDOWN: i64 = 0x1_0000_0000;

/// Within this distance of a frontier, 500 pixels, a peer makes it less attractive.
pub const PEER_REACH: i64 = 0x1f4_0000_0000;

/// Within this distance of a frontier, 300 pixels, a waypoint of a peer makes it
/// less attractive.
pub const WAYPOINT_REACH: i64 = 0x12c_0000_0000;

/// What a drone knows of its peers.
pub struct SwarmContext<'a> {
    pub peer_positions: &'a [Vec2],
    pub peer_paths: &'a [Option<Vec<Vec2>>],
}

/// What a drone intends to do.
pub struct AutonomyState {
    /// The drone's current planned waypoint path.
    pub path: Option<Vec<Vec2>>,
    /// The frontier cell this drone is currently targeting.
    pub target_frontier: Option<Vec2>,
    /// All detected frontier cells (for rendering).
    pub all_frontiers: Vec<Vec2>,
    /// Internal cooldown to prevent thrashing on recalculation.
    pub recalculate_cooldown: i64,
    /// Frontiers that have been proven unreachable and should be skipped.
    pub banned_frontiers: Vec<Vec2>,
    /// Countdown timer for forced periodic repathing.
    pub repath_timer: i64,
    /// Pre-allocated grid for pathfinding and frontier detection.
    pub grid: Vec<u8>,
    /// Pre-allocated grid for staleness calculation.
    pub last_seen_grid: Vec<u64>,
}

/// What became of an update.
#[derive(Clone, Copy, Debug, PartialEq, Eq, Structural)]
pub enum AutonomyEvent {
    /// The drone waits.
    CoolingDown,
    /// The drone keeps to its path.
    Following,
    /// The drone has a new path to a frontier.
    Targeted(Vec2),
    /// No path leads to the frontier, which is banned.
    Unreachable(Vec2),
    /// Nothing is left to explore.
    Complete,
    /// All of this many frontiers are banned.
    AllBanned(usize),
}

/// Every point of the sequence is one that the arithmetic can hold.
pub open spec fn all_in_range(points: Seq<Vec2>) -> bool {
    forall|k: int| 0 <= k < points.len() ==> (#[trigger] points[k]).in_range()
}

/// How many waypoints the paths have together.
pub open spec fn waypoint_count(paths: Seq<Option<Vec<Vec2>>>) -> int
    decreases paths.len(),
{
    if paths.len() == 0 {
        0
    } else {
        waypoint_count(paths.drop_last()) + match paths.last() {
            Some(path) => path@.len() as int,
            None => 0,
        }
    }
}

impl<'a> SwarmContext<'a> {
    /// All coordinates are ones that the arithmetic can hold, and the waypoints are
    /// no more than memory can hold.
    pub open spec fn wf(self) -> bool {
        &&& all_in_range(self.peer_positions@)
        &&& forall|k: int|
            0 <= k < self.peer_paths@.len() ==> (#[trigger] self.peer_paths@[k] matches Some(path)
                ==> all_in_range(path@))
        &&& waypoint_count(self.peer_paths@) <= u64::MAX
    }
}

/// Checks whether all points are ones that the arithmetic can hold.
fn points_in_range(points: &[Vec2]) -> (res: bool)
    ensures
        res == all_in_range(points@),
{
    let mut i: usize = 0;
    while i < points.len()
        invariant
            0 <= i <= points@.len(),
            forall|k: int| 0 <= k < i ==> (#[trigger] points@[k]).in_range(),
        decreases points@.len() - i,
    {
        let p: Vec2 = points[i];
        if p.x < -COORD_LIMIT || p.x > COORD_LIMIT || p.y < -COORD_LIMIT || p.y > COORD_LIMIT {
            assert(!points@[i as int].in_range());
            return false;
        }
        i = i + 1;
    }
    true
}

impl<'a> SwarmContext<'a> {
    /// Checks what `update` asks of the context.
    pub fn is_valid(&self) -> (res: bool)
        ensures
            res == self.wf(),
    {
        if !points_in_range(self.peer_positions) {
            return false;
        }
        let mut count: u64 = 0;
        let mut i: usize = 0;
        assert(self.peer_paths@.take(0) =~= Seq::empty());
        while i < self.peer_paths.len()
            invariant
                all_in_range(self.peer_positions@),
                0 <= i <= self.peer_paths@.len(),
                count == waypoint_count(self.peer_paths@.take(i as int)),
                forall|k: int|
                    0 <= k < i ==> (#[trigger] self.peer_paths@[k] matches Some(path)
                        ==> all_in_range(path@)),
            decreases self.peer_paths@.len() - i,
        {
            proof {
                assert(self.peer_paths@.take(i + 1).drop_last() =~= self.peer_paths@.take(
                    i as int,
                ));
                lemma_count_grows(self.peer_paths@, i + 1);
            }
            if let Some(path) = &self.peer_paths[i] {
                if !points_in_range(path.as_slice()) {
                    assert(!all_in_range(path@));
                    assert(self.peer_paths@[i as int] == Some(*path));
                    return false;
                }
                let n: u64 = path.len() as u64;
                if n > u64::MAX - count {
                    return false;
                }
                count = count + n;
            }
            i = i + 1;
        }
        assert(self.peer_paths@.take(i as int) =~= self.peer_paths@);
        true
    }
}

/// What points close to a frontier take off its value: for each that is nearer than
/// `reach`, `factor` times what it lies within.
pub open spec fn crowding(f: Vec2, points: Seq<Vec2>, reach: int, factor: int) -> int
    decreases points.len(),
{
    if points.len() == 0 {
        0
    } else {
        let d = points.last().distance_to(f);
        crowding(f, points.drop_last(), reach, factor) + if d < reach {
            (reach - d) * factor
        } else {
            0
        }
    }
}

/// What the paths of the peers take off the value of a frontier.
pub open spec fn path_crowding(f: Vec2, paths: Seq<Option<Vec<Vec2>>>) -> int
    decreases paths.len(),
{
    if paths.len() == 0 {
        0
    } else {
        path_crowding(f, paths.drop_last()) + match paths.last() {
            Some(path) => crowding(f, path@, WAYPOINT_REACH as int, 3),
            None => 0,
        }
    }
}

/// Twice the penalty that the peers put on a frontier, in units: two for every unit by
/// which it lies within the reach of a peer, and one and a half for every unit by
/// which it lies within the reach of a waypoint of a peer.
pub open spec fn doubled_penalty(f: Vec2, swarm: SwarmContext) -> int {
    crowding(f, swarm.peer_positions@, PEER_REACH as int, 4) + path_crowding(f, swarm.peer_paths@)
}

/// Twice the score of a frontier, in square units: the square of its distance in
/// pixels and the penalty in pixels. The lower, the better.
pub open spec fn doubled_score(position: Vec2, f: Vec2, swarm: SwarmContext) -> int {
    2 * position.distance_squared_to(f) + 0x1_0000_0000 * doubled_penalty(f, swarm)
}

/// Twice what heading for a frontier is worth to a drone, in square units: its value
/// in pixels less its score.
pub open spec fn doubled_utility(position: Vec2, f: (Vec2, u64), swarm: SwarmContext) -> int {
    2 * (f.1 * 0x1_0000_0000_0000_0000) - doubled_score(position, f.0, swarm)
}

/// Some banned frontier lies less than a pixel away.
pub open spec fn is_banned(banned: Seq<Vec2>, f: Vec2) -> bool {
    exists|k: int|
        0 <= k < banned.len() && (#[trigger] banned[k]).distance_squared_to(f) < square(UNIT as int)
}

/// Frontier `i` is the first of the most useful ones that are not banned.
pub open spec fn is_best(
    position: Vec2,
    frontiers: Seq<(Vec2, u64)>,
    banned: Seq<Vec2>,
    swarm: SwarmContext,
    i: int,
) -> bool {
    &&& 0 <= i < frontiers.len()
    &&& !is_banned(banned, frontiers[i].0)
    &&& forall|j: int|
        0 <= j < frontiers.len() && !is_banned(banned, (#[trigger] frontiers[j]).0)
            ==> doubled_utility(position, frontiers[j], swarm) <= doubled_utility(
            position,
            frontiers[i],
            swarm,
        )
    &&& forall|j: int|
        0 <= j < i && !is_banned(banned, (#[trigger] frontiers[j]).0) ==> doubled_utility(
            position,
            frontiers[j],
            swarm,
        ) < doubled_utility(position, frontiers[i], swarm)
}

/// The frontier to head for.
pub open spec fn best_frontier(
    position: Vec2,
    frontiers: Seq<(Vec2, u64)>,
    banned: Seq<Vec2>,
    swarm: SwarmContext,
) -> Option<Vec2> {
    if exists|i: int| is_best(position, frontiers, banned, swarm, i) {
        Some(frontiers[choose|i: int| is_best(position, frontiers, banned, swarm, i)].0)
    } else {
        None
    }
}

proof fn lemma_best_is(
    position: Vec2,
    frontiers: Seq<(Vec2, u64)>,
    banned: Seq<Vec2>,
    swarm: SwarmContext,
    i: int,
)
    requires
        is_best(position, frontiers, banned, swarm, i),
    ensures
        best_frontier(position, frontiers, banned, swarm) == Some(frontiers[i].0),
{
    let c = choose|i: int| is_best(position, frontiers, banned, swarm, i);
    assert(is_best(position, frontiers, banned, swarm, c));
    assert(!is_banned(banned, frontiers[c].0));
    assert(!is_banned(banned, frontiers[i].0));
}

/// Adds up what points close to a frontier take off its value.
fn crowding_cost(f: Vec2, points: &[Vec2], reach: i64, factor: i64) -> (cost: i128)
    requires
        f.in_range(),
        all_in_range(points@),
        0 <= reach <= PEER_REACH,
        0 <= factor <= 4,
    ensures
        cost == crowding(f, points@, reach as int, factor as int),
        0 <= cost <= points@.len() * 8_589_934_592_000,
{
    let mut cost: i128 = 0;
    let mut i: usize = 0;
    assert(points@.take(0) =~= Seq::empty());
    assert(points.len() == points@.len());
    while i < points.len()
        invariant
            f.in_range(),
            all_in_range(points@),
            0 <= reach <= PEER_REACH,
            0 <= factor <= 4,
            0 <= i <= points@.len(),
            points@.len() <= u64::MAX,
            cost == crowding(f, points@.take(i as int), reach as int, factor as int),
            0 <= cost <= i * 8_589_934_592_000,
        decreases points@.len() - i,
    {
        let d: i64 = points[i].distance(f);
        assert(points@.take(i + 1).drop_last() =~= points@.take(i as int));
        if d < reach {
            assert(0 <= (reach - d) * factor <= 8_589_934_592_000) by (nonlinear_arith)
                requires
                    0 <= d < reach <= 2_147_483_648_000,
                    0 <= factor <= 4,
            ;
            cost = cost + (reach - d) as i128 * factor as i128;
        }
        i = i + 1;
    }
    assert(points@.take(points@.len() as int) =~= points@);
    cost
}

/// Adds up what the paths of the peers take off the value of a frontier.
fn path_cost(f: Vec2, paths: &[Option<Vec<Vec2>>]) -> (cost: i128)
    requires
        f.in_range(),
        forall|k: int|
            0 <= k < paths@.len() ==> (#[trigger] paths@[k] matches Some(path) ==> all_in_range(
                path@,
            )),
        waypoint_count(paths@) <= u64::MAX,
    ensures
        cost == path_crowding(f, paths@),
        0 <= cost <= u64::MAX * 8_589_934_592_000,
{
    let mut cost: i128 = 0;
    let mut i: usize = 0;
    assert(paths@.take(0) =~= Seq::empty());
    while i < paths.len()
        invariant
            f.in_range(),
            forall|k: int|
                0 <= k < paths@.len() ==> (#[trigger] paths@[k] matches Some(path) ==> all_in_range(
                    path@,
                )),
            0 <= i <= paths@.len(),
            waypoint_count(paths@) <= u64::MAX,
            cost == path_crowding(f, paths@.take(i as int)),
            0 <= cost <= waypoint_count(paths@.take(i as int)) * 8_589_934_592_000,
        decreases paths@.len() - i,
    {
        assert(paths@.take(i + 1).drop_last() =~= paths@.take(i as int));
        proof {
            lemma_count_grows(paths@, i + 1);
        }
        if let Some(path) = &paths[i] {
            let added: i128 = crowding_cost(f, path.as_slice(), WAYPOINT_REACH, 3);
            cost = cost + added;
        }
        i = i + 1;
    }
    assert(paths@.take(paths@.len() as int) =~= paths@);
    cost
}

proof fn lemma_count_grows(paths: Seq<Option<Vec<Vec2>>>, i: int)
    requires
        0 <= i <= paths.len(),
    ensures
        0 <= waypoint_count(paths.take(i)) <= waypoint_count(paths),
    decreases paths.len(),
{
    if i == paths.len() {
        assert(paths.take(i) =~= paths);
        if i > 0 {
            lemma_count_grows(paths.drop_last(), i - 1);
            assert(paths.drop_last().take(i - 1) =~= paths.drop_last());
        }
    } else {
        lemma_count_grows(paths.drop_last(), i);
        assert(paths.drop_last().take(i) =~= paths.take(i));
    }
}

/// Checks whether some banned frontier lies less than a pixel away.
fn banned_near(banned: &Vec<Vec2>, f: Vec2) -> (res: bool)
    requires
        f.in_range(),
        all_in_range(banned@),
    ensures
        res == is_banned(banned@, f),
{
    let mut i: usize = 0;
    while i < banned.len()
        invariant
            f.in_range(),
            all_in_range(banned@),
            0 <= i <= banned@.len(),
            forall|k: int|
                0 <= k < i ==> (#[trigger] banned@[k]).distance_squared_to(f) >= square(UNIT as int),
        decreases banned@.len() - i,
    {
        if banned[i].distance_squared(f) < 0x1_0000_0000_0000_0000 {
            return true;
        }
        i = i + 1;
    }
    false
}

/// Twice what heading for a frontier is worth, in whole and square units: the first
/// number counts `UNIT` square units each, and the second, which is smaller than
/// `UNIT`, is to be taken off.
fn utility(position: Vec2, f: (Vec2, u64), swarm: &SwarmContext) -> (u: (i128, i128))
    requires
        position.in_range(),
        f.0.in_range(),
        swarm.wf(),
    ensures
        u.0 * 0x1_0000_0000 - u.1 == doubled_utility(position, f, *swarm),
        0 <= u.1 < 0x1_0000_0000,
{
    let distance_cost: i128 = 2 * position.distance_squared(f.0);
    assert(swarm.peer_positions@.len() <= u64::MAX) by {
        assert(swarm.peer_positions.len() == swarm.peer_positions@.len());
    }
    let peer_cost: i128 = crowding_cost(f.0, swarm.peer_positions, PEER_REACH, 4);
    let planned_cost: i128 = path_cost(f.0, swarm.peer_paths);
    let worth: i128 = f.1 as i128 * 0x1_0000_0000;
    let whole: i128 = distance_cost / 0x1_0000_0000;
    let rest: i128 = distance_cost % 0x1_0000_0000;
    (2 * worth - whole - peer_cost - planned_cost, rest)
}

/// Picks the most useful frontier, the first of several, that is not banned.
pub fn pick_nearest_frontier(
    position: Vec2,
    frontiers: &Vec<(Vec2, u64)>,
    banned: &Vec<Vec2>,
    swarm: &SwarmContext,
) -> (res: Option<Vec2>)
    requires
        position.in_range(),
        swarm.wf(),
        all_in_range(banned@),
        forall|k: int| 0 <= k < frontiers@.len() ==> (#[trigger] frontiers@[k]).0.in_range(),
    ensures
        res == best_frontier(position, frontiers@, banned@, *swarm),
        res is None <==> forall|k: int|
            0 <= k < frontiers@.len() ==> is_banned(banned@, (#[trigger] frontiers@[k]).0),
        res is Some ==> exists|i: int| #[trigger]
            is_best(position, frontiers@, banned@, *swarm, i) && res == Some(frontiers@[i].0),
        res matches Some(f) ==> f.in_range(),
{
    let mut best: Option<usize> = None;
    let mut max_utility: (i128, i128) = (0, 0);
    let mut i: usize = 0;
    while i < frontiers.len()
        invariant
            position.in_range(),
            swarm.wf(),
            all_in_range(banned@),
            forall|k: int| 0 <= k < frontiers@.len() ==> (#[trigger] frontiers@[k]).0.in_range(),
            0 <= i <= frontiers@.len(),
            best is None ==> forall|k: int|
                0 <= k < i ==> is_banned(banned@, (#[trigger] frontiers@[k]).0),
            best matches Some(b) ==> is_best(
                position,
                frontiers@.take(i as int),
                banned@,
                *swarm,
                b as int,
            ) && max_utility.0 * 0x1_0000_0000 - max_utility.1 == doubled_utility(
                position,
                frontiers@[b as int],
                *swarm,
            ),
            0 <= max_utility.1 < 0x1_0000_0000,
        decreases frontiers@.len() - i,
    {
        let f: (Vec2, u64) = frontiers[i];
        let ghost seen = frontiers@.take(i as int);
        let ghost next = frontiers@.take(i + 1);
        assert(next =~= seen.push(f));
        if !banned_near(banned, f.0) {
            let u: (i128, i128) = utility(position, f, swarm);
            let better = match best {
                None => true,
                Some(_) => u.0 > max_utility.0 || (u.0 == max_utility.0 && u.1 < max_utility.1),
            };
            if better {
                best = Some(i);
                max_utility = u;
            }
        }
        proof {
            assert forall|k: int| 0 <= k < i implies next[k] == seen[k] by {}
        }
        i = i + 1;
    }
    assert(frontiers@.take(frontiers@.len() as int) =~= frontiers@);
    match best {
        Some(b) => {
            proof {
                lemma_best_is(position, frontiers@, banned@, *swarm, b as int);
                assert(frontiers@[b as int].0.in_range());
            }
            Some(frontiers[b].0)
        },
        None => None,
    }
}

/// How the grid shows what the map knows of a cell.
pub open spec fn cell_code(known: Option<CellState>) -> u8 {
    match known {
        Some(s) => if s.obstacle {
            CELL_OBSTACLE
        } else if s.explored {
            CELL_EXPLORED
        } else {
            CELL_UNKNOWN
        },
        None => CELL_UNKNOWN,
    }
}

/// When a cell was seen, 0 where the map does not know it.
pub open spec fn seen_tick(known: Option<CellState>) -> u64 {
    match known {
        Some(s) => s.last_seen,
        None => 0,
    }
}

/// What the map knows of the middle of grid cell `i`.
pub open spec fn known_of_cell(map: Quadtree, i: int) -> Option<CellState> {
    map.known(cell_center(cell_x(i), cell_y(i)))
}

/// The rasterized map.
pub open spec fn raster(map: Quadtree) -> Seq<u8> {
    Seq::new(GRID_CELLS as nat, |i: int| cell_code(known_of_cell(map, i)))
}

/// When the cells of the rasterized map were seen.
pub open spec fn raster_seen(map: Quadtree) -> Seq<u64> {
    Seq::new(GRID_CELLS as nat, |i: int| seen_tick(known_of_cell(map, i)))
}

/// Rasterizes a map.
fn rasterize(map: &Quadtree, grid: &mut Vec<u8>, last_seen_grid: &mut Vec<u64>)
    requires
        map.wf(),
        old(grid)@.len() == GRID_CELLS,
        old(last_seen_grid)@.len() == GRID_CELLS,
    ensures
        final(grid)@ == raster(*map),
        final(last_seen_grid)@ == raster_seen(*map),
{
    let mut i: usize = 0;
    while i < GRID_CELLS
        invariant
            map.wf(),
            0 <= i <= GRID_CELLS,
            grid@.len() == GRID_CELLS,
            last_seen_grid@.len() == GRID_CELLS,
            forall|k: int| 0 <= k < i ==> #[trigger] grid@[k] == cell_code(known_of_cell(*map, k)),
            forall|k: int|
                0 <= k < i ==> #[trigger] last_seen_grid@[k] == seen_tick(known_of_cell(*map, k)),
        decreases GRID_CELLS - i,
    {
        proof {
            lemma_cell_position(i as int);
        }
        let center: Vec2 = grid_center((i % 400) as i32, (i / 400) as i32);
        let (code, seen): (u8, u64) = match map.query_point(center) {
            Some(s) => {
                let code: u8 = if s.obstacle {
                    CELL_OBSTACLE
                } else if s.explored {
                    CELL_EXPLORED
                } else {
                    CELL_UNKNOWN
                };
                (code, s.last_seen)
            },
            None => (CELL_UNKNOWN, 0),
        };
        grid.set(i, code);
        last_seen_grid.set(i, seen);
        i = i + 1;
    }
    assert(grid@ =~= raster(*map));
    assert(last_seen_grid@ =~= raster_seen(*map));
}

/// What a drone intends to do, as a value.
#[verifier::ext_equal]
pub struct AutonomyView {
    pub path: Option<Seq<Vec2>>,
    pub target_frontier: Option<Vec2>,
    pub all_frontiers: Seq<Vec2>,
    pub recalculate_cooldown: i64,
    pub banned_frontiers: Seq<Vec2>,
    pub repath_timer: i64,
    pub grid: Seq<u8>,
    pub last_seen_grid: Seq<u64>,
}

impl View for AutonomyState {
    type V = AutonomyView;

    open spec fn view(&self) -> AutonomyView {
        AutonomyView {
            path: path_view(self.path),
            target_frontier: self.target_frontier,
            all_frontiers: self.all_frontiers@,
            recalculate_cooldown: self.recalculate_cooldown,
            banned_frontiers: self.banned_frontiers@,
            repath_timer: self.repath_timer,
            grid: self.grid@,
            last_seen_grid: self.last_seen_grid@,
        }
    }
}

/// The state of a drone that has not planned yet.
pub open spec fn idle() -> AutonomyView {
    AutonomyView {
        path: None,
        target_frontier: None,
        all_frontiers: Seq::empty(),
        recalculate_cooldown: 0,
        banned_frontiers: Seq::empty(),
        repath_timer: 0,
        grid: Seq::new(GRID_CELLS as nat, |i: int| CELL_UNKNOWN),
        last_seen_grid: Seq::new(GRID_CELLS as nat, |i: int| 0u64),
    }
}

impl AutonomyView {
    /// The grids have their sizes, and the remembered points are ones that the
    /// arithmetic can hold.
    pub open spec fn wf(self) -> bool {
        &&& self.grid.len() == GRID_CELLS
        &&& self.last_seen_grid.len() == GRID_CELLS
        &&& all_in_range(self.banned_frontiers)
        &&& self.target_frontier matches Some(f) ==> f.in_range()
    }

    /// The timer that a time step counts down stays within an `i64`.
    pub open spec fn can_count_down(self, dt: i64) -> bool {
        if self.recalculate_cooldown > 0 {
            i64::MIN <= self.recalculate_cooldown - dt <= i64::MAX
        } else {
            i64::MIN <= self.repath_timer - dt <= i64::MAX
        }
    }

    /// Both timers are in the range in which time steps keep them.
    pub open spec fn timers_in_range(self) -> bool {
        &&& -COORD_LIMIT <= self.recalculate_cooldown <= IDLE_COOLDOWN
        &&& -COORD_LIMIT <= self.repath_timer <= REPATH_INTERVAL
    }

    /// The drone has no way to go.
    pub open spec fn pathless(self) -> bool {
        match self.path {
            Some(path) => path.len() == 0,
            None => true,
        }
    }

    /// The state after a new plan: frontiers as the map shows them, and a path to
    /// the best of them. Where no path leads there, the frontier is banned; where
    /// none is left, the drone waits.
    pub open spec fn planned(
        self,
        position: Vec2,
        map: Quadtree,
        tick: u64,
        swarm: SwarmContext,
    ) -> (AutonomyView, AutonomyEvent) {
        let frontiers = frontiers_of(raster(map), raster_seen(map), tick);
        let seen = AutonomyView {
            repath_timer: REPATH_INTERVAL,
            grid: raster(map),
            last_seen_grid: raster_seen(map),
            all_frontiers: frontiers.map_values(|f: (Vec2, u64)| f.0),
            ..self
        };
        match best_frontier(position, frontiers, self.banned_frontiers, swarm) {
            Some(target) => match path_between(raster(map), position, target) {
                Some(path) => (
                    AutonomyView { target_frontier: Some(target), path: Some(path), ..seen },
                    AutonomyEvent::Targeted(target),
                ),
                None => (
                    AutonomyView {
                        target_frontier: Some(target),
                        path: None,
                        banned_frontiers: self.banned_frontiers.push(target),
                        ..seen
                    },
                    AutonomyEvent::Unreachable(target),
                ),
            },
            None => (
                AutonomyView {
                    target_frontier: None,
                    path: None,
                    recalculate_cooldown: IDLE_COOLDOWN,
                    ..seen
                },
                if frontiers.len() == 0 {
                    AutonomyEvent::Complete
                } else {
                    AutonomyEvent::AllBanned(frontiers.len() as usize)
                },
            ),
        }
    }

    /// The path leads from cell to cell over the grid, from the drone to the target: no
    /// cell occurs twice, and no other route is cheaper by more than the estimates may
    /// exceed the true costs.
    pub open spec fn heads_along_route(self, position: Vec2, target: Vec2) -> bool {
        exists|route: Seq<(i32, i32)>| #[trigger]
            is_route(self.grid, nearest_cell(position), nearest_cell(target), route)
                && route.no_duplicates() && self.path == Some(waypoints(route))
                && is_nearly_cheapest(
                self.grid,
                nearest_cell(position),
                nearest_cell(target),
                route,
            ) && is_cheapest_but_for_estimates(
                self.grid,
                nearest_cell(position),
                nearest_cell(target),
                route,
            )
    }

    /// The state after a time step: a drone that waits goes on waiting, one that has
    /// a path keeps to it for a while, and any other plans.
    pub open spec fn updated(
        self,
        position: Vec2,
        map: Quadtree,
        dt: i64,
        tick: u64,
        swarm: SwarmContext,
    ) -> (AutonomyView, AutonomyEvent) {
        if self.recalculate_cooldown > 0 {
            (
                AutonomyView {
                    recalculate_cooldown: (self.recalculate_cooldown - dt) as i64,
                    ..self
                },
                AutonomyEvent::CoolingDown,
            )
        } else if self.pathless() || self.repath_timer - dt <= 0 {
            self.planned(position, map, tick, swarm)
        } else {
            (
                AutonomyView { repath_timer: (self.repath_timer - dt) as i64, ..self },
                AutonomyEvent::Following,
            )
        }
    }
}

impl Default for AutonomyState {
    fn default() -> (s: Self)
        ensures
            s@ == idle(),
            s@.wf(),
    {
        let s = AutonomyState {
            path: None,
            target_frontier: None,
            all_frontiers: Vec::new(),
            recalculate_cooldown: 0,
            banned_frontiers: Vec::new(),
            repath_timer: 0,
            grid: vec![CELL_UNKNOWN; GRID_CELLS],
            last_seen_grid: vec![0u64; GRID_CELLS],
        };
        assert(s@ =~= idle());
        s
    }
}

/// The points of frontiers, without their values.
fn frontier_points(frontiers: &Vec<(Vec2, u64)>) -> (points: Vec<Vec2>)
    ensures
        points@ == frontiers@.map_values(|f: (Vec2, u64)| f.0),
{
    let mut points: Vec<Vec2> = Vec::new();
    let mut i: usize = 0;
    while i < frontiers.len()
        invariant
            0 <= i <= frontiers@.len(),
            points@.len() == i,
            forall|k: int| 0 <= k < i ==> #[trigger] points@[k] == frontiers@[k].0,
        decreases frontiers@.len() - i,
    {
        points.push(frontiers[i].0);
        i = i + 1;
    }
    assert(points@ =~= frontiers@.map_values(|f: (Vec2, u64)| f.0));
    points
}

impl AutonomyState {
    pub fn new() -> (s: Self)
        ensures
            s@ == idle(),
            s@.wf(),
    {
        Self::default()
    }

    /// Gives up the current target for good.
    pub fn ban_current_target(&mut self)
        requires
            old(self)@.wf(),
        ensures
            final(self)@.wf(),
            final(self)@ == match old(self)@.target_frontier {
                Some(target) => (AutonomyView {
                    banned_frontiers: old(self)@.banned_frontiers.push(target),
                    target_frontier: None,
                    path: None,
                    ..old(self)@
                }),
                None => old(self)@,
            },
    {
        if let Some(target) = self.target_frontier {
            self.banned_frontiers.push(target);
            self.target_frontier = None;
            self.path = None;
        }
    }

    /// Updates autonomy: rebuilds the grid, finds frontiers, and picks/recalculates
    /// the best target path. Called every physics tick.
    pub fn update(
        &mut self,
        position: Vec2,
        map: &Quadtree,
        dt: i64,
        current_tick: u64,
        swarm: &SwarmContext,
    ) -> (event: AutonomyEvent)
        requires
            old(self)@.wf(),
            position.in_range(),
            map.wf(),
            swarm.wf(),
            old(self)@.can_count_down(dt),
        ensures
            final(self)@.wf(),
            (final(self)@, event) == old(self)@.updated(position, *map, dt, current_tick, *swarm),
            event matches AutonomyEvent::Targeted(target) ==> final(self)@.heads_along_route(
                position,
                target,
            ),
            event matches AutonomyEvent::Unreachable(target) ==> !reachable(
                final(self)@.grid,
                nearest_cell(position),
                nearest_cell(target),
            ),
    {
        if self.recalculate_cooldown > 0 {
            self.recalculate_cooldown = self.recalculate_cooldown - dt;
            return AutonomyEvent::CoolingDown;
        }
        self.repath_timer = self.repath_timer - dt;
        let pathless = match &self.path {
            Some(path) => path.len() == 0,
            None => true,
        };
        if !pathless && self.repath_timer > 0 {
            return AutonomyEvent::Following;
        }
        self.repath_timer = REPATH_INTERVAL;
        rasterize(map, &mut self.grid, &mut self.last_seen_grid);
        let mut frontier_values: Vec<(Vec2, u64)> = Vec::new();
        find_frontiers(&self.grid, &self.last_seen_grid, current_tick, &mut frontier_values);
        self.all_frontiers = frontier_points(&frontier_values);
        match pick_nearest_frontier(position, &frontier_values, &self.banned_frontiers, swarm) {
            Some(target) => {
                self.target_frontier = Some(target);
                self.path = calculate_path(position, target, &self.grid);
                if self.path.is_none() {
                    self.banned_frontiers.push(target);
                    AutonomyEvent::Unreachable(target)
                } else {
                    AutonomyEvent::Targeted(target)
                }
            },
            None => {
                self.target_frontier = None;
                self.path = None;
                self.recalculate_cooldown = IDLE_COOLDOWN;
                if self.all_frontiers.len() == 0 {
                    AutonomyEvent::Complete
                } else {
                    AutonomyEvent::AllBanned(self.all_frontiers.len())
                }
            },
        }
    }
}

/// Updates the autonomy of a drone.
pub fn update_autonomy(
    state: &mut AutonomyState,
    position: Vec2,
    map: &Quadtree,
    dt: i64,
    current_tick: u64,
    swarm: &SwarmContext,
) -> (event: AutonomyEvent)
    requires
        old(state)@.wf(),
        position.in_range(),
        map.wf(),
        swarm.wf(),
        old(state)@.can_count_down(dt),
    ensures
        final(state)@.wf(),
        (final(state)@, event) == old(state)@.updated(position, *map, dt, current_tick, *swarm),
        event matches AutonomyEvent::Targeted(target) ==> final(state)@.heads_along_route(
            position,
            target,
        ),
        event matches AutonomyEvent::Unreachable(target) ==> !reachable(
            final(state)@.grid,
            nearest_cell(position),
            nearest_cell(target),
        ),
{
    state.update(position, map, dt, current_tick, swarm)
}

/// A drone never heads for a banned frontier.
pub proof fn law_banned_is_never_chosen(
    position: Vec2,
    frontiers: Seq<(Vec2, u64)>,
    banned: Seq<Vec2>,
    swarm: SwarmContext,
)
    ensures
        best_frontier(position, frontiers, banned, swarm) matches Some(f) ==> !is_banned(banned, f),
{
    if exists|i: int| is_best(position, frontiers, banned, swarm, i) {
        let i = choose|i: int| is_best(position, frontiers, banned, swarm, i);
        assert(is_best(position, frontiers, banned, swarm, i));
    }
}

/// A frontier to which no path leads is never chosen again, wherever the drone is,
/// whatever the map shows and whatever the peers do.
pub proof fn law_unreachable_is_not_tried_again(
    state: AutonomyView,
    position: Vec2,
    map: Quadtree,
    dt: i64,
    tick: u64,
    swarm: SwarmContext,
    later_position: Vec2,
    later_frontiers: Seq<(Vec2, u64)>,
    later_swarm: SwarmContext,
)
    ensures
        state.updated(position, map, dt, tick, swarm).1 matches AutonomyEvent::Unreachable(target)
            ==> best_frontier(
            later_position,
            later_frontiers,
            state.updated(position, map, dt, tick, swarm).0.banned_frontiers,
            later_swarm,
        ) != Some(target),
{
    let (next, event) = state.updated(position, map, dt, tick, swarm);
    if let AutonomyEvent::Unreachable(target) = event {
        let banned = next.banned_frontiers;
        assert(banned == state.banned_frontiers.push(target));
        assert(banned[banned.len() - 1] == target);
        assert(target.distance_squared_to(target) == 0) by {
            assert(square(0) == 0);
        }
        assert(square(UNIT as int) > 0);
        assert(is_banned(banned, target));
        law_banned_is_never_chosen(later_position, later_frontiers, banned, later_swarm);
    }
}

/// Bans are never lifted.
pub proof fn law_bans_are_kept(
    state: AutonomyView,
    position: Vec2,
    map: Quadtree,
    dt: i64,
    tick: u64,
    swarm: SwarmContext,
)
    ensures
        state.banned_frontiers.is_prefix_of(
            state.updated(position, map, dt, tick, swarm).0.banned_frontiers,
        ),
{
    let next = state.updated(position, map, dt, tick, swarm).0.banned_frontiers;
    assert(next.take(state.banned_frontiers.len() as int) =~= state.banned_frontiers);
}

/// Of frontiers of the same value that are not banned, the one that is picked has the
/// lowest score.
pub proof fn law_lowest_score_is_picked(
    position: Vec2,
    frontiers: Seq<(Vec2, u64)>,
    banned: Seq<Vec2>,
    swarm: SwarmContext,
    i: int,
    j: int,
)
    requires
        is_best(position, frontiers, banned, swarm, i),
        0 <= j < frontiers.len(),
        !is_banned(banned, frontiers[j].0),
        frontiers[j].1 == frontiers[i].1,
    ensures
        best_frontier(position, frontiers, banned, swarm) == Some(frontiers[i].0),
        doubled_score(position, frontiers[i].0, swarm) <= doubled_score(
            position,
            frontiers[j].0,
            swarm,
        ),
{
    lemma_best_is(position, frontiers, banned, swarm, i);
    assert(doubled_utility(position, frontiers[j], swarm) <= doubled_utility(
        position,
        frontiers[i],
        swarm,
    ));
}

/// Another peer makes a frontier within its reach less useful and leaves every
/// other as useful as it was.
pub proof fn law_peer_repels(
    position: Vec2,
    f: (Vec2, u64),
    swarm: SwarmContext,
    joined: SwarmContext,
    peer: Vec2,
)
    requires
        joined.peer_positions@ == swarm.peer_positions@.push(peer),
        joined.peer_paths@ == swarm.peer_paths@,
    ensures
        peer.distance_to(f.0) < PEER_REACH ==> doubled_utility(position, f, joined)
            < doubled_utility(position, f, swarm),
        peer.distance_to(f.0) >= PEER_REACH ==> doubled_utility(position, f, joined)
            == doubled_utility(position, f, swarm),
{
    assert(joined.peer_positions@.drop_last() =~= swarm.peer_positions@);
}

/// Another waypoint on the last peer's path makes a frontier within its reach less
/// useful and leaves every other as useful as it was.
pub proof fn law_waypoint_repels(
    position: Vec2,
    f: (Vec2, u64),
    swarm: SwarmContext,
    extended: SwarmContext,
    waypoint: Vec2,
)
    requires
        extended.peer_positions@ == swarm.peer_positions@,
        swarm.peer_paths@.len() > 0,
        extended.peer_paths@.len() == swarm.peer_paths@.len(),
        extended.peer_paths@.drop_last() == swarm.peer_paths@.drop_last(),
        swarm.peer_paths@.last() is Some,
        extended.peer_paths@.last() is Some,
        extended.peer_paths@.last()->Some_0@ == swarm.peer_paths@.last()->Some_0@.push(waypoint),
    ensures
        waypoint.distance_to(f.0) < WAYPOINT_REACH ==> doubled_utility(position, f, extended)
            < doubled_utility(position, f, swarm),
        waypoint.distance_to(f.0) >= WAYPOINT_REACH ==> doubled_utility(position, f, extended)
            == doubled_utility(position, f, swarm),
{
    assert(extended.peer_paths@.last()->Some_0@.drop_last() =~= swarm.peer_paths@.last()->Some_0@);
}

/// Time steps of any length that is not negative keep the timers in their range,
/// so that the next time step can be taken.
pub proof fn law_timers_stay_in_range(
    state: AutonomyView,
    position: Vec2,
    map: Quadtree,
    dt: i64,
    tick: u64,
    swarm: SwarmContext,
)
    requires
        state.timers_in_range(),
        0 <= dt <= COORD_LIMIT,
    ensures
        state.can_count_down(dt),
        state.updated(position, map, dt, tick, swarm).0.timers_in_range(),
{
}

/// A drone that has no path and does not wait plans at once, and so does one whose
/// path has served for the whole interval.
pub proof fn law_plans_in_time(
    state: AutonomyView,
    position: Vec2,
    map: Quadtree,
    dt: i64,
    tick: u64,
    swarm: SwarmContext,
)
    requires
        state.recalculate_cooldown <= 0,
        state.pathless() || state.repath_timer <= dt,
    ensures
        state.updated(position, map, dt, tick, swarm) == state.planned(position, map, tick, swarm),
        state.updated(position, map, dt, tick, swarm).0.repath_timer == REPATH_INTERVAL,
{
}

/// To a drone without peers a frontier is worth its value in pixels less the square of its
/// distance in pixels.
pub proof fn law_worth_without_peers(position: Vec2, f: (Vec2, u64), swarm: SwarmContext)
    requires
        swarm.peer_positions@.len() == 0,
        swarm.peer_paths@.len() == 0,
    ensures
        doubled_utility(position, f, swarm) == 2 * f.1 * 0x1_0000_0000_0000_0000 - 2 * ((position.x
            - f.0.x) * (position.x - f.0.x) + (position.y - f.0.y) * (position.y - f.0.y)),
{
}

/// Another peer at a distance `d` below 500 pixels lowers what a frontier is worth by two
/// for each pixel that is missing to 500, down to the last, and one farther away not at
/// all. Worths are doubled and in square units.
pub proof fn law_peer_takes_off_what_it_is_near(
    position: Vec2,
    f: (Vec2, u64),
    swarm: SwarmContext,
    joined: SwarmContext,
    peer: Vec2,
    d: int,
)
    requires
        joined.peer_positions@ == swarm.peer_positions@.push(peer),
        joined.peer_paths@ == swarm.peer_paths@,
        0 <= d,
        d * d <= (peer.x - f.0.x) * (peer.x - f.0.x) + (peer.y - f.0.y) * (peer.y - f.0.y) < (d + 1)
            * (d + 1),
    ensures
        d < 0x1f4_0000_0000 ==> doubled_utility(position, f, swarm) - doubled_utility(
            position,
            f,
            joined,
        ) == 0x4_0000_0000 * (0x1f4_0000_0000 - d),
        d >= 0x1f4_0000_0000 ==> doubled_utility(position, f, swarm) == doubled_utility(
            position,
            f,
            joined,
        ),
{
    law_only_one_distance(peer, f.0, d);
    assert(joined.peer_positions@.drop_last() =~= swarm.peer_positions@);
    assert(crowding(f.0, joined.peer_positions@, PEER_REACH as int, 4) == crowding(
        f.0,
        swarm.peer_positions@,
        PEER_REACH as int,
        4,
    ) + if d < PEER_REACH {
        (PEER_REACH - d) * 4
    } else {
        0
    });
}

/// Another waypoint of the last peer at a distance `d` below 300 pixels lowers what a
/// frontier is worth by one and a half for each pixel that is missing to 300, down to the
/// last, and one farther away not at all.
pub proof fn law_waypoint_takes_off_what_it_is_near(
    position: Vec2,
    f: (Vec2, u64),
    swarm: SwarmContext,
    extended: SwarmContext,
    waypoint: Vec2,
    d: int,
)
    requires
        extended.peer_positions@ == swarm.peer_positions@,
        swarm.peer_paths@.len() > 0,
        extended.peer_paths@.len() == swarm.peer_paths@.len(),
        extended.peer_paths@.drop_last() == swarm.peer_paths@.drop_last(),
        swarm.peer_paths@.last() is Some,
        extended.peer_paths@.last() is Some,
        extended.peer_paths@.last()->Some_0@ == swarm.peer_paths@.last()->Some_0@.push(waypoint),
        0 <= d,
        d * d <= (waypoint.x - f.0.x) * (waypoint.x - f.0.x) + (waypoint.y - f.0.y) * (waypoint.y
            - f.0.y) < (d + 1) * (d + 1),
    ensures
        d < 0x12c_0000_0000 ==> doubled_utility(position, f, swarm) - doubled_utility(
            position,
            f,
            extended,
        ) == 0x3_0000_0000 * (0x12c_0000_0000 - d),
        d >= 0x12c_0000_0000 ==> doubled_utility(position, f, swarm) == doubled_utility(
            position,
            f,
            extended,
        ),
{
    law_only_one_distance(waypoint, f.0, d);
    let before = swarm.peer_paths@.last()->Some_0@;
    let after = extended.peer_paths@.last()->Some_0@;
    assert(after.drop_last() =~= before);
    assert(crowding(f.0, after, WAYPOINT_REACH as int, 3) == crowding(
        f.0,
        before,
        WAYPOINT_REACH as int,
        3,
    ) + if d < WAYPOINT_REACH {
        (WAYPOINT_REACH - d) * 3
    } else {
        0
    });
}

/// Another peer without a path, or with one that has no waypoints, plans nothing that
/// would change what a frontier is worth.
pub proof fn law_peer_without_plans_takes_off_nothing(
    position: Vec2,
    f: (Vec2, u64),
    swarm: SwarmContext,
    joined: SwarmContext,
)
    requires
        joined.peer_positions@ == swarm.peer_positions@,
        joined.peer_paths@.len() > 0,
        joined.peer_paths@.drop_last() == swarm.peer_paths@,
        joined.peer_paths@.last() matches Some(path) ==> path@.len() == 0,
    ensures
        doubled_utility(position, f, joined) == doubled_utility(position, f, swarm),
{
}

/// A frontier is banned exactly where a banned point lies less than a pixel away from it.
pub proof fn law_bans_reach_a_pixel(banned: Seq<Vec2>, f: Vec2)
    ensures
        is_banned(banned, f) <==> exists|b: int|
            0 <= b < banned.len() && {
                let p = #[trigger] banned[b];
                (p.x - f.x) * (p.x - f.x) + (p.y - f.y) * (p.y - f.y) < 0x1_0000_0000_0000_0000
            },
{
    assert(square(UNIT as int) == 0x1_0000_0000 * 0x1_0000_0000);
    if is_banned(banned, f) {
        let k = choose|k: int|
            0 <= k < banned.len() && (#[trigger] banned[k]).distance_squared_to(f) < square(
                UNIT as int,
            );
        let p = banned[k];
        assert((p.x - f.x) * (p.x - f.x) + (p.y - f.y) * (p.y - f.y) < 0x1_0000_0000_0000_0000);
    }
    if exists|b: int|
        0 <= b < banned.len() && {
            let p = #[trigger] banned[b];
            (p.x - f.x) * (p.x - f.x) + (p.y - f.y) * (p.y - f.y) < 0x1_0000_0000_0000_0000
        } {
        let b = choose|b: int|
            0 <= b < banned.len() && {
                let p = #[trigger] banned[b];
                (p.x - f.x) * (p.x - f.x) + (p.y - f.y) * (p.y - f.y) < 0x1_0000_0000_0000_0000
            };
        assert(banned[b].distance_squared_to(f) < square(UNIT as int));
    }
}

proof fn lemma_some_is_best(
    position: Vec2,
    frontiers: Seq<(Vec2, u64)>,
    banned: Seq<Vec2>,
    swarm: SwarmContext,
    j: int,
) -> (i: int)
    requires
        0 <= j < frontiers.len(),
        !is_banned(banned, frontiers[j].0),
    ensures
        is_best(position, frontiers, banned, swarm, i),
    decreases frontiers.len(),
{
    let rest = frontiers.drop_last();
    let last = frontiers.len() - 1;
    assert forall|k: int| 0 <= k < rest.len() implies rest[k] == #[trigger] frontiers[k] by {}
    if exists|k: int| 0 <= k < rest.len() && !is_banned(banned, (#[trigger] rest[k]).0) {
        let k = choose|k: int| 0 <= k < rest.len() && !is_banned(banned, (#[trigger] rest[k]).0);
        let b = lemma_some_is_best(position, rest, banned, swarm, k);
        assert(rest[b] == frontiers[b]);
        if !is_banned(banned, frontiers[last].0) && doubled_utility(
            position,
            frontiers[last],
            swarm,
        ) > doubled_utility(position, frontiers[b], swarm) {
            assert forall|j: int|
                0 <= j < last && !is_banned(banned, (#[trigger] frontiers[j]).0) implies
                doubled_utility(position, frontiers[j], swarm) < doubled_utility(
                position,
                frontiers[last],
                swarm,
            ) by {
                assert(rest[j] == frontiers[j]);
            }
            last
        } else {
            assert forall|j: int|
                0 <= j < frontiers.len() && !is_banned(banned, (#[trigger] frontiers[j]).0) implies
                doubled_utility(position, frontiers[j], swarm) <= doubled_utility(
                position,
                frontiers[b],
                swarm,
            ) by {
                if j < last {
                    assert(rest[j] == frontiers[j]);
                }
            }
            assert forall|j: int|
                0 <= j < b && !is_banned(banned, (#[trigger] frontiers[j]).0) implies
                doubled_utility(position, frontiers[j], swarm) < doubled_utility(
                position,
                frontiers[b],
                swarm,
            ) by {
                assert(rest[j] == frontiers[j]);
            }
            b
        }
    } else {
        assert forall|k: int| 0 <= k < last implies is_banned(
            banned,
            (#[trigger] frontiers[k]).0,
        ) by {
            assert(rest[k] == frontiers[k]);
        }
        last
    }
}

/// The frontier that is picked is a listed one that is not banned; no other that is not
/// banned is worth more, and none in front of it is worth as much. Only where all are
/// banned none is picked.
pub proof fn law_most_useful_frontier_is_picked(
    position: Vec2,
    frontiers: Seq<(Vec2, u64)>,
    banned: Seq<Vec2>,
    swarm: SwarmContext,
)
    ensures
        best_frontier(position, frontiers, banned, swarm) is None <==> forall|k: int|
            0 <= k < frontiers.len() ==> is_banned(banned, (#[trigger] frontiers[k]).0),
        best_frontier(position, frontiers, banned, swarm) matches Some(p) ==> exists|i: int|
            0 <= i < frontiers.len() && (#[trigger] frontiers[i]).0 == p && !is_banned(
                banned,
                frontiers[i].0,
            ) && forall|j: int|
                0 <= j < frontiers.len() && !is_banned(banned, (#[trigger] frontiers[j]).0) ==> {
                    let worth = doubled_utility(position, frontiers[i], swarm);
                    let other = doubled_utility(position, frontiers[j], swarm);
                    other < worth || (other == worth && j >= i)
                },
{
    if exists|k: int| 0 <= k < frontiers.len() && !is_banned(banned, (#[trigger] frontiers[k]).0) {
        let k = choose|k: int|
            0 <= k < frontiers.len() && !is_banned(banned, (#[trigger] frontiers[k]).0);
        let i = lemma_some_is_best(position, frontiers, banned, swarm, k);
        lemma_best_is(position, frontiers, banned, swarm, i);
    }
    if exists|i: int| is_best(position, frontiers, banned, swarm, i) {
        let i = choose|i: int| is_best(position, frontiers, banned, swarm, i);
        assert(is_best(position, frontiers, banned, swarm, i));
        assert(!is_banned(banned, frontiers[i].0));
    }
}

/// Of two frontiers alike in value and in distance to the drone, the one that is nearer to
/// the only peer, and within its reach, is never picked.
pub proof fn law_nearer_to_the_peer_is_never_picked(
    position: Vec2,
    frontiers: Seq<(Vec2, u64)>,
    banned: Seq<Vec2>,
    swarm: SwarmContext,
    alone: SwarmContext,
    peer: Vec2,
    i: int,
    j: int,
    di: int,
    dj: int,
)
    requires
        alone.peer_positions@.len() == 0 && alone.peer_paths@.len() == 0,
        swarm.peer_positions@ == alone.peer_positions@.push(peer),
        swarm.peer_paths@ == alone.peer_paths@,
        0 <= i < frontiers.len() && 0 <= j < frontiers.len(),
        !is_banned(banned, frontiers[j].0),
        forall|k: int|
            0 <= k < frontiers.len() && (#[trigger] frontiers[k]).0 == frontiers[i].0
                ==> frontiers[k].1 == frontiers[j].1,
        position.distance_squared_to(frontiers[i].0) == position.distance_squared_to(
            frontiers[j].0,
        ),
        di == peer.distance_to(frontiers[i].0),
        dj == peer.distance_to(frontiers[j].0),
        di < dj,
        di < 0x1f4_0000_0000,
    ensures
        best_frontier(position, frontiers, banned, swarm) != Some(frontiers[i].0),
{
    law_most_useful_frontier_is_picked(position, frontiers, banned, swarm);
    if best_frontier(position, frontiers, banned, swarm) == Some(frontiers[i].0) {
        let c = choose|c: int|
            0 <= c < frontiers.len() && (#[trigger] frontiers[c]).0 == frontiers[i].0 && !is_banned(
                banned,
                frontiers[c].0,
            ) && forall|j: int|
                0 <= j < frontiers.len() && !is_banned(banned, (#[trigger] frontiers[j]).0) ==> {
                    let worth = doubled_utility(position, frontiers[c], swarm);
                    let other = doubled_utility(position, frontiers[j], swarm);
                    other < worth || (other == worth && j >= c)
                };
        law_distance_is_a_root(peer, frontiers[c].0);
        law_distance_is_a_root(peer, frontiers[j].0);
        law_distance_is_a_root(position, frontiers[c].0);
        law_distance_is_a_root(position, frontiers[j].0);
        law_worth_without_peers(position, frontiers[c], alone);
        law_worth_without_peers(position, frontiers[j], alone);
        law_peer_takes_off_what_it_is_near(position, frontiers[c], alone, swarm, peer, di);
        law_peer_takes_off_what_it_is_near(position, frontiers[j], alone, swarm, peer, dj);
        assert(doubled_utility(position, frontiers[c], swarm) < doubled_utility(
            position,
            frontiers[j],
            swarm,
        ));
    }
}

/// A drone that waits does nothing but wait: its cooldown runs down by the time step, and
/// all else stays as it is.
pub proof fn law_waiting_changes_nothing_else(
    state: AutonomyView,
    position: Vec2,
    map: Quadtree,
    dt: i64,
    tick: u64,
    swarm: SwarmContext,
)
    requires
        state.recalculate_cooldown > 0,
        i64::MIN <= state.recalculate_cooldown - dt <= i64::MAX,
    ensures
        ({
            let (next, event) = state.updated(position, map, dt, tick, swarm);
            &&& event == AutonomyEvent::CoolingDown
            &&& next.recalculate_cooldown == state.recalculate_cooldown - dt
            &&& next.repath_timer == state.repath_timer
            &&& next.path == state.path && next.target_frontier == state.target_frontier
            &&& next.all_frontiers == state.all_frontiers
            &&& next.banned_frontiers == state.banned_frontiers
            &&& next.grid == state.grid && next.last_seen_grid == state.last_seen_grid
        }),
{
}

/// A drone that has somewhere to go and time left goes on: its timer runs down by the time
/// step, and all else stays as it is.
pub proof fn law_following_changes_nothing_else(
    state: AutonomyView,
    position: Vec2,
    map: Quadtree,
    dt: i64,
    tick: u64,
    swarm: SwarmContext,
)
    requires
        state.recalculate_cooldown <= 0,
        state.path is Some && state.path->Some_0.len() > 0,
        0 < state.repath_timer - dt <= i64::MAX,
    ensures
        ({
            let (next, event) = state.updated(position, map, dt, tick, swarm);
            &&& event == AutonomyEvent::Following
            &&& next.repath_timer == state.repath_timer - dt
            &&& next.recalculate_cooldown == state.recalculate_cooldown
            &&& next.path == state.path && next.target_frontier == state.target_frontier
            &&& next.all_frontiers == state.all_frontiers
            &&& next.banned_frontiers == state.banned_frontiers
            &&& next.grid == state.grid && next.last_seen_grid == state.last_seen_grid
        }),
{
}

/// When a drone plans, its grids show what the map knows of the middles of their cells: an
/// obstacle as 2, other explored ground as 1 and all else as 0, and when it was seen. `p`
/// is the middle of cell `i`.
pub proof fn law_plans_show_the_map(
    state: AutonomyView,
    position: Vec2,
    map: Quadtree,
    dt: i64,
    tick: u64,
    swarm: SwarmContext,
    i: int,
    p: Vec2,
)
    requires
        state.recalculate_cooldown <= 0,
        state.path is None || state.path->Some_0.len() == 0 || state.repath_timer <= dt,
        0 <= i < 160_000,
        2 * p.x == (2 * (i % 400) + 1) * 0x19_0000_0000,
        2 * p.y == (2 * (i / 400) + 1) * 0x19_0000_0000,
    ensures
        ({
            let next = state.updated(position, map, dt, tick, swarm).0;
            &&& next.grid.len() == 160_000 && next.last_seen_grid.len() == 160_000
            &&& map.known(p) is None ==> next.grid[i] == 0 && next.last_seen_grid[i] == 0
            &&& map.known(p) matches Some(s) ==> {
                &&& next.last_seen_grid[i] == s.last_seen
                &&& s.obstacle ==> next.grid[i] == 2
                &&& !s.obstacle && s.explored ==> next.grid[i] == 1
                &&& !s.obstacle && !s.explored ==> next.grid[i] == 0
            }
        }),
{
    lemma_cell_position(i);
    assert(p == cell_center(cell_x(i), cell_y(i)));
}

/// When a drone plans, it lists the frontiers of its new grids and heads for the best that
/// is not banned, along the path that leads there. It bans the frontier where none does,
/// and nothing else. Where no frontier is left it waits for a second, and tells whether
/// there was none or all are banned. It plans again after a quarter of a second.
pub proof fn law_planning_picks_a_path_or_bans(
    state: AutonomyView,
    position: Vec2,
    map: Quadtree,
    dt: i64,
    tick: u64,
    swarm: SwarmContext,
)
    requires
        state.recalculate_cooldown <= 0,
        state.path is None || state.path->Some_0.len() == 0 || state.repath_timer <= dt,
    ensures
        ({
            let (next, event) = state.updated(position, map, dt, tick, swarm);
            let listed = frontiers_of(next.grid, next.last_seen_grid, tick);
            let best = best_frontier(position, listed, state.banned_frontiers, swarm);
            &&& next.repath_timer == 0x4000_0000
            &&& next.all_frontiers.len() == listed.len()
            &&& forall|k: int|
                0 <= k < listed.len() ==> #[trigger] next.all_frontiers[k] == listed[k].0
            &&& next.target_frontier == best
            &&& best matches Some(target) ==> {
                &&& next.path == path_between(next.grid, position, target)
                &&& next.recalculate_cooldown == state.recalculate_cooldown
                &&& next.path is Some ==> event == AutonomyEvent::Targeted(target)
                    && next.banned_frontiers == state.banned_frontiers
                &&& next.path is None ==> event == AutonomyEvent::Unreachable(target)
                    && next.banned_frontiers == state.banned_frontiers.push(target)
            }
            &&& best is None ==> {
                &&& next.path is None
                &&& next.recalculate_cooldown == 0x1_0000_0000
                &&& next.banned_frontiers == state.banned_frontiers
                &&& listed.len() == 0 ==> event == AutonomyEvent::Complete
                &&& listed.len() > 0 ==> event is AllBanned && event->AllBanned_0 == listed.len()
            }
        }),
{
    lemma_few_frontiers(raster(map), raster_seen(map), tick);
}

/// Who has not planned yet knows nothing and waits for nothing.
pub proof fn law_new_states_know_nothing(i: int)
    ensures
        idle().path is None && idle().target_frontier is None,
        idle().all_frontiers.len() == 0 && idle().banned_frontiers.len() == 0,
        idle().recalculate_cooldown == 0 && idle().repath_timer == 0,
        idle().grid.len() == 160_000 && idle().last_seen_grid.len() == 160_000,
        0 <= i < 160_000 ==> idle().grid[i] == 0 && idle().last_seen_grid[i] == 0,
{
}

/// What peers tell can be used exactly where all points lie within 2^60 units of the origin
/// in both directions, as long as it is less than 2^64 waypoints. Each path adds the number
/// of its waypoints.
pub proof fn law_peers_in_range_can_be_used(
    swarm: SwarmContext,
    paths: Seq<Option<Vec<Vec2>>>,
    path: Option<Vec<Vec2>>,
)
    ensures
        swarm.wf() <==> {
            let limit = 0x1000_0000_0000_0000int;
            &&& forall|k: int|
                0 <= k < swarm.peer_positions@.len() ==> {
                    let p = #[trigger] swarm.peer_positions@[k];
                    -limit <= p.x <= limit && -limit <= p.y <= limit
                }
            &&& forall|k: int, l: int|
                0 <= k < swarm.peer_paths@.len() && swarm.peer_paths@[k] is Some && 0 <= l
                    < swarm.peer_paths@[k]->Some_0@.len() ==> {
                    let p = #[trigger] swarm.peer_paths@[k]->Some_0@[l];
                    -limit <= p.x <= limit && -limit <= p.y <= limit
                }
            &&& waypoint_count(swarm.peer_paths@) <= u64::MAX
        },
        waypoint_count(Seq::empty()) == 0,
        waypoint_count(paths.push(path)) == waypoint_count(paths) + match path {
            Some(points) => points@.len() as int,
            None => 0,
        },
{
    assert(paths.push(path).drop_last() =~= paths);
    let limit = 0x1000_0000_0000_0000int;
    let raw = forall|k: int, l: int|
        0 <= k < swarm.peer_paths@.len() && swarm.peer_paths@[k] is Some && 0 <= l
            < swarm.peer_paths@[k]->Some_0@.len() ==> {
            let p = #[trigger] swarm.peer_paths@[k]->Some_0@[l];
            -limit <= p.x <= limit && -limit <= p.y <= limit
        };
    let stated = forall|k: int|
        0 <= k < swarm.peer_paths@.len() ==> (#[trigger] swarm.peer_paths@[k] matches Some(path)
            ==> all_in_range(path@));
    if raw {
        assert forall|k: int| 0 <= k < swarm.peer_paths@.len() implies (
        #[trigger] swarm.peer_paths@[k] matches Some(path) ==> all_in_range(path@)) by {
            if let Some(path) = swarm.peer_paths@[k] {
                assert forall|l: int| 0 <= l < path@.len() implies (
                #[trigger] path@[l]).in_range() by {
                    assert(swarm.peer_paths@[k]->Some_0@[l] == path@[l]);
                }
            }
        }
    }
    if stated {
        assert forall|k: int, l: int|
            0 <= k < swarm.peer_paths@.len() && swarm.peer_paths@[k] is Some && 0 <= l
                < swarm.peer_paths@[k]->Some_0@.len() implies {
            let p = #[trigger] swarm.peer_paths@[k]->Some_0@[l];
            -limit <= p.x <= limit && -limit <= p.y <= limit
        } by {
            assert(all_in_range(swarm.peer_paths@[k]->Some_0@));
        }
    }
}

/// A state is seen as it is.
pub proof fn law_states_are_seen_as_they_are(state: AutonomyState)
    ensures
        state.path is None ==> state@.path is None,
        state.path matches Some(path) ==> state@.path == Some(path@),
        state@.target_frontier == state.target_frontier,
        state@.all_frontiers == state.all_frontiers@,
        state@.banned_frontiers == state.banned_frontiers@,
        state@.recalculate_cooldown == state.recalculate_cooldown,
        state@.repath_timer == state.repath_timer,
        state@.grid == state.grid@ && state@.last_seen_grid == state.last_seen_grid@,
{
}

} // verus!
