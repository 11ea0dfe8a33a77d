//! The simulation as a whole: where the drones start, what they report, and when
//! the map counts as explored.
use crate::drone::{collides, law_spawned_drone_is_clear, Drone, DRONE_RADIUS, SCAN_RADIUS};
use crate::environment::{
    blocks, walls, Environment, BLOCK_ATTEMPTS, MAP_HEIGHT, MAP_WIDTH,
};
use crate::geometry::{Rect, Vec2, UNIT};
use crate::gossip::{readable, MAP_DEPTH};
use crate::pathing::path_view;
use crate::quadtree::{
    explored_part, law_explored_area_is_a_part, leaves, merged, unseen, MapDiff, Quadtree,
};
use crate::wire::{law_diff_reads_back, DiffView};
use vstd::prelude::*;

verus! {

/// Number of drones to spawn. Also controls the camera cycle range and UDP port
/// range.
pub const DRONE_COUNT: u32 = 3;

/// The exploration is a success when this percentage of the map is explored.
pub const GOAL_PERCENT: i128 = 95;

/// The area of the map in square units.
pub const MAP_AREA: i128 = 1_844_674_407_370_955_161_600_000_000;

/// What a drone shows of itself.
pub struct RenderState {
    pub id: u32,
    pub position: Vec2,
    pub heading: i64,
    pub path: Option<Vec<Vec2>>,
    pub frontiers: Vec<Vec2>,
}

impl Clone for RenderState {
    fn clone(&self) -> (copy: Self)
        ensures
            copy.id == self.id,
            copy.position == self.position,
            copy.heading == self.heading,
            path_view(copy.path) == path_view(self.path),
            copy.frontiers@ == self.frontiers@,
    {
        let path: Option<Vec<Vec2>> = match &self.path {
            Some(path) => {
                let copy: Vec<Vec2> = path.clone();
                assert(copy@ =~= path@);
                Some(copy)
            },
            None => None,
        };
        let frontiers: Vec<Vec2> = self.frontiers.clone();
        assert(frontiers@ =~= self.frontiers@);
        RenderState {
            id: self.id,
            position: self.position,
            heading: self.heading,
            path,
            frontiers,
        }
    }
}

/// What a drone reports.
pub enum RenderEvent {
    StateUpdate(RenderState),
    MapUpdate(Vec<u8>),
}

/// The area of the map.
pub open spec fn map_area() -> Rect {
    Rect { x: 0, y: 0, w: MAP_WIDTH, h: MAP_HEIGHT }
}

/// A map of the whole area, divided down to its smallest cells.
pub open spec fn is_master(map: Quadtree) -> bool {
    map.wf() && map.bounds == map_area() && map.max_depth == MAP_DEPTH
}

/// A map of the whole area on which nothing is known yet.
pub fn new_master_map() -> (map: Quadtree)
    ensures
        is_master(map),
        forall|path: Seq<int>| #[trigger] map.cell(path) == unseen(),
{
    Quadtree::new(Rect::new(0, 0, MAP_WIDTH, MAP_HEIGHT), MAP_DEPTH)
}

/// Where a drone starts.
pub open spec fn start_of(id: u32) -> Vec2 {
    Vec2 { x: (MAP_WIDTH / 2 + id * 50 * UNIT) as i64, y: (MAP_HEIGHT / 2) as i64 }
}

/// Puts a drone at its start.
pub fn spawn(id: u32) -> (d: Drone)
    requires
        MAP_WIDTH / 2 + id * 50 * UNIT <= i64::MAX,
    ensures
        d == (Drone {
            position: start_of(id),
            velocity: Vec2 { x: 0, y: 0 },
            heading: 0,
            scan_radius: SCAN_RADIUS,
            radius: DRONE_RADIUS,
        }),
{
    Drone::new(MAP_WIDTH / 2 + id as i64 * 214_748_364_800, MAP_HEIGHT / 2)
}

/// The bytes start with a part of a map.
pub open spec fn holds_diff(bytes: Seq<u8>) -> bool {
    exists|d: DiffView| d.sendable() && (#[trigger] d.encoding()).is_prefix_of(bytes)
}

/// The map `after` is the map `before` with the part of a map that the bytes start
/// with merged in.
pub open spec fn absorbed(before: Quadtree, bytes: Seq<u8>, after: Quadtree) -> bool {
    &&& after.wf()
    &&& after.bounds == before.bounds
    &&& after.max_depth == before.max_depth
    &&& exists|d: DiffView|
        d.sendable() && (#[trigger] d.encoding()).is_prefix_of(bytes) && forall|path: Seq<int>|
            before.is_cell(path) ==> #[trigger] after.cell(path) == merged(
                before.bounds,
                path,
                readable(d.updates),
                before.cell(path),
            )
}

/// Merges what a drone reports of its map, if it can be read.
pub fn absorb(map: &mut Quadtree, bytes: &[u8]) -> (res: bool)
    requires
        old(map).wf(),
    ensures
        res == holds_diff(bytes@),
        res ==> absorbed(*old(map), bytes@, *final(map)),
        !res ==> *final(map) == *old(map),
{
    match MapDiff::from_bytes(bytes) {
        Some(diff) => {
            map.merge(diff);
            true
        },
        None => false,
    }
}

/// Enough of the map is explored.
pub open spec fn is_complete(map: Quadtree) -> bool {
    explored_part(leaves(map.root, map.bounds)) * 100 >= GOAL_PERCENT * MAP_AREA
}

/// Checks whether enough of the map is explored.
pub fn exploration_complete(map: &Quadtree) -> (res: bool)
    requires
        is_master(*map),
    ensures
        res == is_complete(*map),
{
    assert(42_949_672_960_000int * 42_949_672_960_000int == MAP_AREA);
    proof {
        law_explored_area_is_a_part(map.root, map.bounds);
    }
    let explored: i128 = map.explored_area();
    explored * 100 >= GOAL_PERCENT * MAP_AREA
}

/// What a simulation without a window does next.
#[derive(Clone, Copy, Debug, PartialEq, Eq, Structural)]
pub enum HeadlessAction {
    /// Wait for the next report.
    Wait,
    /// Report success and end.
    Finish,
}

/// Takes a report into account. The exploration is looked at only when a part of a
/// map could be read.
pub fn headless_step(map: &mut Quadtree, event: &RenderEvent) -> (action: HeadlessAction)
    requires
        is_master(*old(map)),
    ensures
        is_master(*final(map)),
        match event {
            RenderEvent::StateUpdate(_) => *final(map) == *old(map) && action
                == HeadlessAction::Wait,
            RenderEvent::MapUpdate(bytes) => if holds_diff(bytes@) {
                absorbed(*old(map), bytes@, *final(map)) && action == if is_complete(*final(map)) {
                    HeadlessAction::Finish
                } else {
                    HeadlessAction::Wait
                }
            } else {
                *final(map) == *old(map) && action == HeadlessAction::Wait
            },
        },
{
    match event {
        RenderEvent::StateUpdate(_) => HeadlessAction::Wait,
        RenderEvent::MapUpdate(bytes) => {
            if absorb(map, bytes.as_slice()) && exploration_complete(map) {
                HeadlessAction::Finish
            } else {
                HeadlessAction::Wait
            }
        },
    }
}

/// Checks whether a progress report is due.
pub fn progress_due(elapsed_secs: u64) -> (res: bool)
    ensures
        res == (elapsed_secs % 10 == 0),
{
    elapsed_secs % 10 == 0
}

/// Every drone of the simulation starts where it hits no obstacle, whatever the
/// seed.
pub proof fn law_drones_start_clear(seed: u32, env: Environment, id: u32)
    requires
        env.wf(),
        env.obstacles@ == walls() + blocks(seed, BLOCK_ATTEMPTS as nat),
        1 <= id <= DRONE_COUNT,
    ensures
        !collides(env, start_of(id), DRONE_RADIUS as int),
{
    let d = Drone {
        position: start_of(id),
        velocity: Vec2 { x: 0, y: 0 },
        heading: 0,
        scan_radius: SCAN_RADIUS,
        radius: DRONE_RADIUS,
    };
    law_spawned_drone_is_clear(seed, env, d);
}

/// The area of the map is that of its bounds.
pub proof fn law_map_area(map: Quadtree)
    requires
        is_master(map),
    ensures
        map.bounds.w * map.bounds.h == MAP_AREA,
        explored_part(leaves(map.root, map.bounds)) <= MAP_AREA,
{
    assert(42_949_672_960_000int * 42_949_672_960_000int == MAP_AREA);
    law_explored_area_is_a_part(map.root, map.bounds);
}

/// The exploration is complete exactly where at least nineteen twentieths of the area of
/// the map are explored.
pub proof fn law_complete_at_95_percent(map: Quadtree)
    requires
        is_master(map),
    ensures
        is_complete(map) <==> 20 * explored_part(leaves(map.root, map.bounds)) >= 19 * (
        map.bounds.w * map.bounds.h),
        map.bounds.x == 0 && map.bounds.y == 0,
        map.bounds.w == 0x2710_0000_0000 && map.bounds.h == 0x2710_0000_0000,
        map.max_depth == 9,
{
    law_map_area(map);
}

/// The drones start in a row, 50 pixels from one to the next, to the right of the middle of
/// the map.
pub proof fn law_drones_start_in_a_row(id: u32)
    requires
        0x1388_0000_0000 + id * 0x32_0000_0000 <= i64::MAX,
    ensures
        start_of(id).x == 0x1388_0000_0000 + id * 0x32_0000_0000,
        start_of(id).y == 0x1388_0000_0000,
{
}

/// Every part of a map that is reported is taken, whatever follows it, and merged update by
/// update; the area and the depth of the map stay. Bytes that start with none are left.
pub proof fn law_reported_parts_are_merged(
    d: DiffView,
    bytes: Seq<u8>,
    before: Quadtree,
    after: Quadtree,
    path: Seq<int>,
)
    requires
        d.updates.len() <= u64::MAX,
        d.encoding().is_prefix_of(bytes),
        before.is_cell(path),
    ensures
        holds_diff(bytes),
        absorbed(before, bytes, after) ==> {
            &&& after.bounds == before.bounds && after.max_depth == before.max_depth
            &&& after.cell(path) == merged(
                before.bounds,
                path,
                readable(d.updates),
                before.cell(path),
            )
        },
{
    assert(d.sendable());
    if absorbed(before, bytes, after) {
        let e = choose|e: DiffView|
            e.sendable() && (#[trigger] e.encoding()).is_prefix_of(bytes) && forall|path: Seq<int>|
                before.is_cell(path) ==> #[trigger] after.cell(path) == merged(
                    before.bounds,
                    path,
                    readable(e.updates),
                    before.cell(path),
                );
        law_diff_reads_back(d, e, bytes);
    }
}

/// Bytes hold a part of a map only where they start with the bytes of one.
pub proof fn law_only_parts_of_maps_are_taken(bytes: Seq<u8>)
    requires
        holds_diff(bytes),
    ensures
        exists|d: DiffView|
            d.updates.len() <= u64::MAX && (#[trigger] d.encoding()).is_prefix_of(bytes),
{
    let d = choose|d: DiffView| d.sendable() && (#[trigger] d.encoding()).is_prefix_of(bytes);
    assert(d.updates.len() <= u64::MAX);
}

} // verus!
