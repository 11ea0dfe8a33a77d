//! What the window shows.
use crate::environment::{MAP_HEIGHT, MAP_WIDTH};
use crate::geometry::Vec2;
use crate::quadtree::{unseen, Quadtree};
use crate::simulation::{
    absorb, absorbed, holds_diff, is_master, new_master_map, RenderEvent, RenderState, DRONE_COUNT,
};
use std::collections::HashMap;
use vstd::prelude::*;

verus! {

broadcast use vstd::std_specs::hash::group_hash_axioms;

/// Up to this distance, 800 pixels, two drones have a good link.
pub const GOOD_LINK: i64 = 0x320_0000_0000;

/// Up to this distance, 2000 pixels, two drones have a weak link.
pub const WEAK_LINK: i64 = 0x7d0_0000_0000;

/// What the viewer has chosen.
#[derive(Clone, Copy, Debug, PartialEq, Eq, Structural)]
pub struct ViewState {
    pub is_map_open: bool,
    pub is_zoomed_out: bool,
    pub is_path_visible: bool,
    pub is_heatmap_visible: bool,
    pub camera_target_id: u32,
}

/// The keys that were pressed since the last frame.
#[derive(Clone, Copy, Debug, PartialEq, Eq, Structural)]
pub struct Presses {
    pub map: bool,
    pub zoom: bool,
    pub path: bool,
    pub heatmap: bool,
    pub camera: bool,
}

/// How well two drones are linked.
#[derive(Clone, Copy, Debug, PartialEq, Eq, Structural)]
pub enum Link {
    Good,
    Weak,
    Broken,
}

/// The drone that the camera follows after another.
pub open spec fn next_target(id: u32) -> u32 {
    if id + 1 > DRONE_COUNT {
        1
    } else {
        (id + 1) as u32
    }
}

impl ViewState {
    /// The camera follows one of the drones.
    pub open spec fn wf(self) -> bool {
        1 <= self.camera_target_id <= DRONE_COUNT
    }

    /// The view after some keys were pressed.
    pub open spec fn pressed(self, keys: Presses) -> ViewState {
        ViewState {
            is_map_open: self.is_map_open != keys.map,
            is_zoomed_out: self.is_zoomed_out != keys.zoom,
            is_path_visible: self.is_path_visible != keys.path,
            is_heatmap_visible: self.is_heatmap_visible != keys.heatmap,
            camera_target_id: if keys.camera {
                next_target(self.camera_target_id)
            } else {
                self.camera_target_id
            },
        }
    }

    /// The view at the start: the map as explored, near the first drone, with paths.
    pub fn new() -> (v: Self)
        ensures
            v == (ViewState {
                is_map_open: false,
                is_zoomed_out: false,
                is_path_visible: true,
                is_heatmap_visible: false,
                camera_target_id: 1,
            }),
            v.wf(),
    {
        ViewState {
            is_map_open: false,
            is_zoomed_out: false,
            is_path_visible: true,
            is_heatmap_visible: false,
            camera_target_id: 1,
        }
    }

    /// Follows the keys.
    pub fn press(&mut self, keys: Presses)
        requires
            old(self).wf(),
        ensures
            final(self).wf(),
            *final(self) == old(self).pressed(keys),
    {
        if keys.map {
            self.is_map_open = !self.is_map_open;
        }
        if keys.zoom {
            self.is_zoomed_out = !self.is_zoomed_out;
        }
        if keys.path {
            self.is_path_visible = !self.is_path_visible;
        }
        if keys.heatmap {
            self.is_heatmap_visible = !self.is_heatmap_visible;
        }
        if keys.camera {
            self.camera_target_id = self.camera_target_id + 1;
            if self.camera_target_id > DRONE_COUNT {
                self.camera_target_id = 1;
            }
        }
    }
}

/// What the window knows of the swarm.
pub struct World {
    pub drone_states: HashMap<u32, RenderState>,
    pub master_map: Quadtree,
}

/// Where the camera looks.
pub open spec fn camera_target(view: ViewState, states: Map<u32, RenderState>) -> Vec2 {
    let center = Vec2 { x: (MAP_WIDTH / 2) as i64, y: (MAP_HEIGHT / 2) as i64 };
    if view.is_zoomed_out || !states.dom().contains(view.camera_target_id) {
        center
    } else {
        states[view.camera_target_id].position
    }
}

impl World {
    pub open spec fn wf(self) -> bool {
        is_master(self.master_map)
    }

    pub fn new() -> (w: Self)
        ensures
            w.wf(),
            w.drone_states@ == Map::<u32, RenderState>::empty(),
            forall|path: Seq<int>| #[trigger]
                w.master_map.cell(path) == unseen(),
    {
        World { drone_states: HashMap::new(), master_map: new_master_map() }
    }

    /// Takes a report of a drone into account. The latest state of each drone
    /// counts.
    pub fn apply(&mut self, event: RenderEvent)
        requires
            old(self).wf(),
        ensures
            final(self).wf(),
            match event {
                RenderEvent::StateUpdate(state) => {
                    &&& final(self).drone_states@ == old(self).drone_states@.insert(state.id, state)
                    &&& final(self).master_map == old(self).master_map
                },
                RenderEvent::MapUpdate(bytes) => {
                    &&& final(self).drone_states@ == old(self).drone_states@
                    &&& if holds_diff(bytes@) {
                        absorbed(old(self).master_map, bytes@, final(self).master_map)
                    } else {
                        final(self).master_map == old(self).master_map
                    }
                },
            },
    {
        match event {
            RenderEvent::StateUpdate(state) => {
                self.drone_states.insert(state.id, state);
            },
            RenderEvent::MapUpdate(bytes) => {
                absorb(&mut self.master_map, bytes.as_slice());
            },
        }
    }

    /// Finds where the camera is to look: at the drone that it follows, or at the
    /// middle of the map.
    pub fn camera_position(&self, view: &ViewState) -> (p: Vec2)
        ensures
            p == camera_target(*view, self.drone_states@),
    {
        let center: Vec2 = Vec2::new(MAP_WIDTH / 2, MAP_HEIGHT / 2);
        if view.is_zoomed_out {
            return center;
        }
        match self.drone_states.get(&view.camera_target_id) {
            Some(state) => state.position,
            None => center,
        }
    }
}

/// How well two drones are linked, by their distance.
pub open spec fn link_at(a: Vec2, b: Vec2) -> Link {
    if a.within(b, GOOD_LINK as int) {
        Link::Good
    } else if a.within(b, WEAK_LINK as int) {
        Link::Weak
    } else {
        Link::Broken
    }
}

/// Tells how well two drones are linked.
pub fn link_between(a: Vec2, b: Vec2) -> (link: Link)
    requires
        a.in_range(),
        b.in_range(),
    ensures
        link == link_at(a, b),
{
    if a.is_within(b, GOOD_LINK) {
        Link::Good
    } else if a.is_within(b, WEAK_LINK) {
        Link::Weak
    } else {
        Link::Broken
    }
}

/// A link looks the same from both sides.
pub proof fn law_link_is_mutual(a: Vec2, b: Vec2)
    ensures
        link_at(a, b) == link_at(b, a),
{
    let dx = a.x - b.x;
    let dy = a.y - b.y;
    assert((-dx) * (-dx) == dx * dx) by (nonlinear_arith);
    assert((-dy) * (-dy) == dy * dy) by (nonlinear_arith);
}

/// Pressing the same toggles twice changes nothing.
pub proof fn law_toggles_undo_themselves(view: ViewState, keys: Presses)
    requires
        !keys.camera,
    ensures
        view.pressed(keys).pressed(keys) == view,
{
}

/// The camera comes back to a drone after it has visited every drone.
pub proof fn law_camera_cycles(id: u32)
    requires
        1 <= id <= DRONE_COUNT,
    ensures
        next_target(next_target(next_target(id))) == id,
        1 <= next_target(id) <= DRONE_COUNT,
        next_target(id) != id,
{
}

/// Every key changes what it is for and nothing else: four of them turn something on that
/// was off and off that was on, and the fifth goes on to the next of the three drones.
pub proof fn law_keys_change_one_thing_each(view: ViewState, keys: Presses)
    requires
        view.wf(),
    ensures
        ({
            let next = view.pressed(keys);
            &&& keys.map ==> next.is_map_open == !view.is_map_open
            &&& !keys.map ==> next.is_map_open == view.is_map_open
            &&& keys.zoom ==> next.is_zoomed_out == !view.is_zoomed_out
            &&& !keys.zoom ==> next.is_zoomed_out == view.is_zoomed_out
            &&& keys.path ==> next.is_path_visible == !view.is_path_visible
            &&& !keys.path ==> next.is_path_visible == view.is_path_visible
            &&& keys.heatmap ==> next.is_heatmap_visible == !view.is_heatmap_visible
            &&& !keys.heatmap ==> next.is_heatmap_visible == view.is_heatmap_visible
            &&& !keys.camera ==> next.camera_target_id == view.camera_target_id
            &&& keys.camera && view.camera_target_id < 3 ==> next.camera_target_id
                == view.camera_target_id + 1
            &&& keys.camera && view.camera_target_id == 3 ==> next.camera_target_id == 1
        }),
{
}

/// Two drones have a good link up to 800 pixels and a weak one up to 2000 pixels.
pub proof fn law_links_by_distance(a: Vec2, b: Vec2)
    ensures
        ({
            let n = (a.x - b.x) * (a.x - b.x) + (a.y - b.y) * (a.y - b.y);
            let good = 0x320_0000_0000int * 0x320_0000_0000int;
            let weak = 0x7d0_0000_0000int * 0x7d0_0000_0000int;
            &&& n <= good <==> link_at(a, b) == Link::Good
            &&& good < n <= weak <==> link_at(a, b) == Link::Weak
            &&& n > weak <==> link_at(a, b) == Link::Broken
        }),
{
}

/// The camera looks at the drone that it follows if that is known and the view is not zoomed
/// out, and at the middle of the map otherwise.
pub proof fn law_camera_looks_at_its_drone(view: ViewState, states: Map<u32, RenderState>)
    ensures
        ({
            let p = camera_target(view, states);
            let follows = !view.is_zoomed_out && states.contains_key(view.camera_target_id);
            &&& follows ==> p == states[view.camera_target_id].position
            &&& !follows ==> p.x == 0x1388_0000_0000 && p.y == 0x1388_0000_0000
        }),
{
}

} // verus!
