//! The spatial map of explored and blocked cells: scan ingestion, and the
//! differences that drones exchange and merge.
use crate::environment::Environment;
use crate::geometry::{half_of, Rect, Vec2, COORD_LIMIT};
use vstd::prelude::*;

verus! {

/// What is known of a cell.
#[derive(Clone, Copy, Debug, PartialEq, Eq, Structural)]
pub struct CellState {
    pub explored: bool,
    pub obstacle: bool,
    pub last_seen: u64,
}

/// A region of the map: known throughout in the same way, or divided in four.
pub enum QuadNode {
    Leaf(CellState),
    Internal(Box<Quads>),
}

/// The four quadrants of a divided region.
pub struct Quads {
    pub top_left: QuadNode,
    pub top_right: QuadNode,
    pub bottom_left: QuadNode,
    pub bottom_right: QuadNode,
}

impl QuadNode {
    /// Copies a region.
    fn copy(&self) -> (copy: Self)
        ensures
            copy == *self,
        decreases self,
    {
        match self {
            QuadNode::Leaf(state) => QuadNode::Leaf(*state),
            QuadNode::Internal(q) => QuadNode::Internal(
                Box::new(
                    Quads {
                        top_left: q.top_left.copy(),
                        top_right: q.top_right.copy(),
                        bottom_left: q.bottom_left.copy(),
                        bottom_right: q.bottom_right.copy(),
                    },
                ),
            ),
        }
    }
}

impl Clone for QuadNode {
    fn clone(&self) -> (copy: Self)
        ensures
            copy == *self,
    {
        self.copy()
    }
}

/// The regions of a map that were seen from some tick on, with their states.
pub struct MapDiff {
    pub timestamp: u64,
    pub updates: Vec<((i64, i64, i64, i64), CellState)>,
}

/// A map of the rectangle `bounds`, divided at most `max_depth` times.
pub struct Quadtree {
    pub root: QuadNode,
    pub bounds: Rect,
    pub max_depth: u8,
}

/// Regions that agree up to less than this are taken for the same: a tenth of a
/// pixel, as the nearest single-precision number.
pub const EPSILON: i64 = 429_496_736;

/// The state of a cell that nobody has seen.
pub open spec fn unseen() -> CellState {
    CellState { explored: false, obstacle: false, last_seen: 0 }
}

impl Default for CellState {
    fn default() -> (s: Self)
        ensures
            s == unseen(),
    {
        Self { explored: false, obstacle: false, last_seen: 0 }
    }
}

/// A path names a region by the quadrants that lead to it.
pub open spec fn is_path(path: Seq<int>, len: nat) -> bool {
    path.len() == len && forall|k: int| 0 <= k < len ==> 0 <= #[trigger] path[k] < 4
}

/// The region that a path leads to.
pub open spec fn region(bounds: Rect, path: Seq<int>) -> Rect
    decreases path.len(),
{
    if path.len() == 0 {
        bounds
    } else {
        region(bounds.quadrant(path[0]), path.drop_first())
    }
}

impl Quads {
    pub open spec fn child(self, i: int) -> QuadNode {
        if i == 0 {
            self.top_left
        } else if i == 1 {
            self.top_right
        } else if i == 2 {
            self.bottom_left
        } else {
            self.bottom_right
        }
    }

    /// All four quadrants are leaves with the same state.
    pub open spec fn uniform(self) -> bool {
        &&& self.top_left is Leaf
        &&& self.top_right == self.top_left
        &&& self.bottom_left == self.top_left
        &&& self.bottom_right == self.top_left
    }
}

impl QuadNode {
    /// The state of the region that the path leads to.
    pub open spec fn at(self, path: Seq<int>) -> CellState
        decreases self,
    {
        match self {
            QuadNode::Leaf(s) => s,
            QuadNode::Internal(q) => {
                let rest = path.drop_first();
                if path[0] == 0 {
                    q.top_left.at(rest)
                } else if path[0] == 1 {
                    q.top_right.at(rest)
                } else if path[0] == 2 {
                    q.bottom_left.at(rest)
                } else {
                    q.bottom_right.at(rest)
                }
            },
        }
    }

    /// The node is divided at most `depth` times.
    pub open spec fn fits(self, depth: nat) -> bool
        decreases self,
    {
        match self {
            QuadNode::Leaf(_) => true,
            QuadNode::Internal(q) => {
                &&& depth > 0
                &&& q.top_left.fits((depth - 1) as nat)
                &&& q.top_right.fits((depth - 1) as nat)
                &&& q.bottom_left.fits((depth - 1) as nat)
                &&& q.bottom_right.fits((depth - 1) as nat)
            },
        }
    }

    /// No division is superfluous: nowhere are the four quadrants leaves with
    /// the same state.
    pub open spec fn compact(self) -> bool
        decreases self,
    {
        match self {
            QuadNode::Leaf(_) => true,
            QuadNode::Internal(q) => {
                &&& !q.uniform()
                &&& q.top_left.compact()
                &&& q.top_right.compact()
                &&& q.bottom_left.compact()
                &&& q.bottom_right.compact()
            },
        }
    }

    /// A node of a map with `depth` divisions left.
    pub open spec fn wf(self, depth: nat) -> bool {
        self.fits(depth) && self.compact()
    }
}

/// The state that a scan writes into a cell.
pub open spec fn scan_state(env: Environment, cell: Rect, tick: u64) -> CellState {
    CellState { explored: true, obstacle: env.blocks_rect(cell), last_seen: tick }
}

/// Every region on the way along the path, both ends included, overlaps `area`.
pub open spec fn all_touch(bounds: Rect, path: Seq<int>, area: Rect) -> bool
    decreases path.len(),
{
    bounds.touches(area) && (path.len() == 0 || all_touch(
        bounds.quadrant(path[0]),
        path.drop_first(),
        area,
    ))
}

/// The square that a scan looks at.
pub open spec fn scan_area(center: Vec2, radius: int) -> Rect {
    Rect {
        x: (center.x - radius) as i64,
        y: (center.y - radius) as i64,
        w: (2 * radius) as i64,
        h: (2 * radius) as i64,
    }
}

/// A scan reaches the cell that the path leads to.
pub open spec fn scanned(bounds: Rect, path: Seq<int>, center: Vec2, radius: int) -> bool {
    &&& all_touch(bounds, path, scan_area(center, radius))
    &&& region(bounds, path).middle().within(center, radius)
}

/// Taking the first step off a path.
pub proof fn lemma_path_step(path: Seq<int>, depth: nat)
    requires
        is_path(path, depth),
        depth > 0,
    ensures
        0 <= path[0] < 4,
        is_path(path.drop_first(), (depth - 1) as nat),
{
    assert forall|k: int| 0 <= k < depth - 1 implies 0 <= #[trigger] path.drop_first()[k] < 4 by {
        assert(path.drop_first()[k] == path[k + 1]);
    }
}

/// Four leaves that are the same become one; anything else stays divided.
fn join(q: Quads, Ghost(depth): Ghost<nat>) -> (node: QuadNode)
    requires
        q.top_left.wf(depth),
        q.top_right.wf(depth),
        q.bottom_left.wf(depth),
        q.bottom_right.wf(depth),
    ensures
        node.wf(depth + 1),
        forall|path: Seq<int>|
            is_path(path, depth + 1) ==> #[trigger] node.at(path) == q.child(path[0]).at(
                path.drop_first(),
            ),
{
    let uniform = match (&q.top_left, &q.top_right, &q.bottom_left, &q.bottom_right) {
        (QuadNode::Leaf(s0), QuadNode::Leaf(s1), QuadNode::Leaf(s2), QuadNode::Leaf(s3)) => {
            if *s0 == *s1 && *s1 == *s2 && *s2 == *s3 {
                Some(*s0)
            } else {
                None
            }
        },
        _ => None,
    };
    if let Some(s) = uniform {
        return QuadNode::Leaf(s);
    }
    QuadNode::Internal(Box::new(q))
}

/// The four quadrants of a node.
fn divide(node: QuadNode, Ghost(depth): Ghost<nat>) -> (q: Quads)
    requires
        node.wf(depth),
        depth > 0,
    ensures
        q.top_left.wf((depth - 1) as nat),
        q.top_right.wf((depth - 1) as nat),
        q.bottom_left.wf((depth - 1) as nat),
        q.bottom_right.wf((depth - 1) as nat),
        forall|path: Seq<int>|
            is_path(path, depth) ==> #[trigger] node.at(path) == q.child(path[0]).at(
                path.drop_first(),
            ),
{
    match node {
        QuadNode::Leaf(state) => Quads {
            top_left: QuadNode::Leaf(state),
            top_right: QuadNode::Leaf(state),
            bottom_left: QuadNode::Leaf(state),
            bottom_right: QuadNode::Leaf(state),
        },
        QuadNode::Internal(q) => *q,
    }
}

impl Quadtree {
    /// The tree is no deeper than allowed, holds no superfluous division, and
    /// its bounds are coordinates that the arithmetic can hold.
    pub open spec fn wf(self) -> bool {
        &&& self.root.wf(self.max_depth as nat)
        &&& self.bounds.in_range()
    }

    /// The paths to the cells of the map, its smallest regions.
    pub open spec fn is_cell(self, path: Seq<int>) -> bool {
        is_path(path, self.max_depth as nat)
    }

    /// What the map knows of a cell.
    pub open spec fn cell(self, path: Seq<int>) -> CellState {
        self.root.at(path)
    }

    /// The rectangle of a cell.
    pub open spec fn cell_bounds(self, path: Seq<int>) -> Rect {
        region(self.bounds, path)
    }

    /// A map of which nothing has been seen.
    pub fn new(bounds: Rect, max_depth: u8) -> (tree: Self)
        requires
            bounds.in_range(),
        ensures
            tree.wf(),
            tree.bounds == bounds,
            tree.max_depth == max_depth,
            tree.root == QuadNode::Leaf(unseen()),
            forall|path: Seq<int>| #[trigger] tree.cell(path) == unseen(),
    {
        Self { root: QuadNode::Leaf(CellState::default()), bounds, max_depth }
    }

    /// Marks what a scan around `center` sees: each cell that it reaches becomes
    /// explored, is an obstacle exactly where an obstacle of the environment
    /// overlaps it, and was last seen at `tick`.
    pub fn insert_scan(&mut self, center: Vec2, radius: i64, env: &Environment, tick: u64)
        requires
            old(self).wf(),
            env.in_range(),
            center.in_range(),
            -COORD_LIMIT <= radius <= COORD_LIMIT,
            scan_area(center, radius as int).in_range(),
        ensures
            final(self).wf(),
            final(self).bounds == old(self).bounds,
            final(self).max_depth == old(self).max_depth,
            forall|path: Seq<int>|
                old(self).is_cell(path) ==> #[trigger] final(self).cell(path) == if scanned(
                    old(self).bounds,
                    path,
                    center,
                    radius as int,
                ) {
                    scan_state(*env, old(self).cell_bounds(path), tick)
                } else {
                    old(self).cell(path)
                },
    {
        let scan_bounds: Rect = Rect::new(
            center.x - radius,
            center.y - radius,
            radius * 2,
            radius * 2,
        );
        let mut root: QuadNode = QuadNode::Leaf(CellState::default());
        core::mem::swap(&mut root, &mut self.root);
        self.root =
        Self::insert_node(
            root,
            self.bounds,
            scan_bounds,
            center,
            radius,
            env,
            tick,
            0,
            self.max_depth,
        );
    }

    fn insert_node(
        node: QuadNode,
        node_bounds: Rect,
        scan_bounds: Rect,
        center: Vec2,
        radius: i64,
        env: &Environment,
        tick: u64,
        depth: u8,
        max_depth: u8,
    ) -> (res: QuadNode)
        requires
            depth <= max_depth,
            node.wf((max_depth - depth) as nat),
            node_bounds.in_range(),
            scan_bounds.in_range(),
            env.in_range(),
            center.in_range(),
            radius <= COORD_LIMIT,
        ensures
            res.wf((max_depth - depth) as nat),
            !node_bounds.touches(scan_bounds) ==> res == node,
            forall|path: Seq<int>|
                is_path(path, (max_depth - depth) as nat) ==> #[trigger] res.at(path) == if all_touch(
                    node_bounds,
                    path,
                    scan_bounds,
                ) && region(node_bounds, path).middle().within(center, radius as int) {
                    scan_state(*env, region(node_bounds, path), tick)
                } else {
                    node.at(path)
                },
        decreases max_depth - depth,
    {
        if !node_bounds.overlaps(&scan_bounds) {
            return node;
        }
        if depth >= max_depth {
            let cell_center: Vec2 = node_bounds.center();
            if cell_center.is_within(center, radius) {
                let is_obstacle = env.overlaps_obstacle(&node_bounds);
                return QuadNode::Leaf(
                    CellState { explored: true, obstacle: is_obstacle, last_seen: tick },
                );
            } else {
                return node;
            }
        }
        let ghost left = (max_depth - depth) as nat;
        let children = divide(node, Ghost(left));
        let top_left = Self::insert_node(
            children.top_left,
            node_bounds.quarter(0),
            scan_bounds,
            center,
            radius,
            env,
            tick,
            depth + 1,
            max_depth,
        );
        let top_right = Self::insert_node(
            children.top_right,
            node_bounds.quarter(1),
            scan_bounds,
            center,
            radius,
            env,
            tick,
            depth + 1,
            max_depth,
        );
        let bottom_left = Self::insert_node(
            children.bottom_left,
            node_bounds.quarter(2),
            scan_bounds,
            center,
            radius,
            env,
            tick,
            depth + 1,
            max_depth,
        );
        let bottom_right = Self::insert_node(
            children.bottom_right,
            node_bounds.quarter(3),
            scan_bounds,
            center,
            radius,
            env,
            tick,
            depth + 1,
            max_depth,
        );
        let updated = Quads { top_left, top_right, bottom_left, bottom_right };
        let res = join(updated, Ghost((left - 1) as nat));
        proof {
            assert forall|path: Seq<int>| is_path(path, left) implies #[trigger] res.at(path)
                == if all_touch(node_bounds, path, scan_bounds) && region(
                node_bounds,
                path,
            ).middle().within(center, radius as int) {
                scan_state(*env, region(node_bounds, path), tick)
            } else {
                node.at(path)
            } by {
                lemma_path_step(path, left);
                assert(res.at(path) == updated.child(path[0]).at(path.drop_first()));
                assert(node.at(path) == children.child(path[0]).at(path.drop_first()));
            }
        }
        res
    }
}


/// The regions of a node that are not divided further, with their states, in
/// the order of their quadrants.
pub open spec fn leaves(node: QuadNode, bounds: Rect) -> Seq<(Rect, CellState)>
    decreases node,
{
    match node {
        QuadNode::Leaf(s) => seq![(bounds, s)],
        QuadNode::Internal(q) => leaves(q.top_left, bounds.quadrant(0)) + leaves(
            q.top_right,
            bounds.quadrant(1),
        ) + leaves(q.bottom_left, bounds.quadrant(2)) + leaves(
            q.bottom_right,
            bounds.quadrant(3),
        ),
    }
}

/// The leaves of a divided region that pass a test are those of its quadrants.
pub proof fn lemma_filter_divided(
    node: QuadNode,
    bounds: Rect,
    f: spec_fn((Rect, CellState)) -> bool,
)
    requires
        node is Internal,
    ensures
        ({
            let q = node->Internal_0;
            leaves(node, bounds).filter(f) == leaves(q.top_left, bounds.quadrant(0)).filter(f)
                + leaves(q.top_right, bounds.quadrant(1)).filter(f) + leaves(
                q.bottom_left,
                bounds.quadrant(2),
            ).filter(f) + leaves(q.bottom_right, bounds.quadrant(3)).filter(f)
        }),
{
    let q = node->Internal_0;
    let a = leaves(q.top_left, bounds.quadrant(0));
    let b = leaves(q.top_right, bounds.quadrant(1));
    let c = leaves(q.bottom_left, bounds.quadrant(2));
    let d = leaves(q.bottom_right, bounds.quadrant(3));
    Seq::filter_distributes_over_add(a, b, f);
    Seq::filter_distributes_over_add(a + b, c, f);
    Seq::filter_distributes_over_add(a + b + c, d, f);
}

/// In which quadrant of a divided region its leaf with the given number lies, and the
/// number that the leaf has there.
pub proof fn lemma_leaf_place(node: QuadNode, bounds: Rect, i: int) -> (place: (int, int))
    requires
        node is Internal,
        0 <= i < leaves(node, bounds).len(),
    ensures
        0 <= place.0 < 4,
        ({
            let part = leaves(node->Internal_0.child(place.0), bounds.quadrant(place.0));
            0 <= place.1 < part.len() && leaves(node, bounds)[i] == part[place.1]
        }),
{
    let q = node->Internal_0;
    let a = leaves(q.top_left, bounds.quadrant(0));
    let b = leaves(q.top_right, bounds.quadrant(1));
    let c = leaves(q.bottom_left, bounds.quadrant(2));
    let d = leaves(q.bottom_right, bounds.quadrant(3));
    let n1 = a.len() as int;
    let n2 = n1 + b.len();
    let n3 = n2 + c.len();
    assert(leaves(node, bounds) == a + b + c + d);
    if i < n1 {
        (0, i)
    } else if i < n2 {
        (1, i - n1)
    } else if i < n3 {
        (2, i - n2)
    } else {
        (3, i - n3)
    }
}

/// The number that a leaf of a quadrant has among the leaves of the divided region.
pub proof fn lemma_leaf_number(node: QuadNode, bounds: Rect, k: int, j: int) -> (i: int)
    requires
        node is Internal,
        0 <= k < 4,
        0 <= j < leaves(node->Internal_0.child(k), bounds.quadrant(k)).len(),
    ensures
        0 <= i < leaves(node, bounds).len(),
        leaves(node, bounds)[i] == leaves(node->Internal_0.child(k), bounds.quadrant(k))[j],
{
    let q = node->Internal_0;
    let a = leaves(q.top_left, bounds.quadrant(0));
    let b = leaves(q.top_right, bounds.quadrant(1));
    let c = leaves(q.bottom_left, bounds.quadrant(2));
    let d = leaves(q.bottom_right, bounds.quadrant(3));
    assert(leaves(node, bounds) == a + b + c + d);
    if k == 0 {
        j
    } else if k == 1 {
        a.len() + j
    } else if k == 2 {
        a.len() + b.len() + j
    } else {
        a.len() + b.len() + c.len() + j
    }
}

/// A region is explored and was seen at `since` or later.
pub open spec fn seen_since(since: u64) -> spec_fn((Rect, CellState)) -> bool {
    |e: (Rect, CellState)| e.1.explored && e.1.last_seen >= since
}

/// A region and its state as an update of a map difference.
pub open spec fn as_update(e: (Rect, CellState)) -> ((i64, i64, i64, i64), CellState) {
    ((e.0.x, e.0.y, e.0.w, e.0.h), e.1)
}

/// The region that an update speaks of.
pub open spec fn update_rect(u: ((i64, i64, i64, i64), CellState)) -> Rect {
    Rect { x: u.0.0, y: u.0.1, w: u.0.2, h: u.0.3 }
}

/// The part of a map that was seen at `since` or later, as a list of updates.
pub open spec fn updates_since(tree: Quadtree, since: u64) -> Seq<
    ((i64, i64, i64, i64), CellState),
> {
    leaves(tree.root, tree.bounds).filter(seen_since(since)).map_values(
        |e: (Rect, CellState)| as_update(e),
    )
}

/// An update of the region `target` reaches the cell that the path leads to: on
/// the way down every region shares more than an edge with `target`, or an edge in a
/// direction in which one of the two has no extent, until one agrees with it or the
/// cell is reached.
pub open spec fn covered(bounds: Rect, path: Seq<int>, target: Rect) -> bool
    decreases path.len(),
{
    bounds.meets(target) && (path.len() == 0 || bounds.near(target, EPSILON as int) || covered(
        bounds.quadrant(path[0]),
        path.drop_first(),
        target,
    ))
}

/// The state of a cell after the updates: that of the last one that reaches it,
/// or `before` where none does.
pub open spec fn merged(
    bounds: Rect,
    path: Seq<int>,
    updates: Seq<((i64, i64, i64, i64), CellState)>,
    before: CellState,
) -> CellState
    decreases updates.len(),
{
    if updates.len() == 0 {
        before
    } else if covered(bounds, path, update_rect(updates.last())) {
        updates.last().1
    } else {
        merged(bounds, path, updates.drop_last(), before)
    }
}

/// The path to the cell that a point falls into: at each division to the right
/// of the middle line or on it, and below the middle line or on it, or not.
pub open spec fn path_to(bounds: Rect, p: Vec2, depth: nat) -> Seq<int>
    decreases depth,
{
    if depth == 0 {
        Seq::empty()
    } else {
        let i = side(bounds, p);
        seq![i] + path_to(bounds.quadrant(i), p, (depth - 1) as nat)
    }
}

/// The quadrant that a point falls into.
pub open spec fn side(bounds: Rect, p: Vec2) -> int {
    let right: int = if p.x >= bounds.middle().x { 1 } else { 0 };
    let below: int = if p.y >= bounds.middle().y { 2 } else { 0 };
    right + below
}

/// The area of the explored regions among the given ones.
pub open spec fn explored_part(regions: Seq<(Rect, CellState)>) -> int
    decreases regions.len(),
{
    if regions.len() == 0 {
        0
    } else {
        let e = regions.last();
        explored_part(regions.drop_last()) + if e.1.explored {
            e.0.w * e.0.h
        } else {
            0
        }
    }
}

/// The explored regions that show in the view: those whose own bounds overlap
/// it, and those of every region that they are part of. The flag tells an
/// obstacle from free ground.
pub open spec fn shown(node: QuadNode, bounds: Rect, view: Rect) -> Seq<(Rect, bool)>
    decreases node,
{
    if !bounds.touches(view) {
        Seq::empty()
    } else {
        match node {
            QuadNode::Leaf(s) => if s.explored {
                seq![(bounds, s.obstacle)]
            } else {
                Seq::empty()
            },
            QuadNode::Internal(q) => shown(q.top_left, bounds.quadrant(0), view) + shown(
                q.top_right,
                bounds.quadrant(1),
                view,
            ) + shown(q.bottom_left, bounds.quadrant(2), view) + shown(
                q.bottom_right,
                bounds.quadrant(3),
                view,
            ),
        }
    }
}

impl MapDiff {
    /// The regions are coordinates that the arithmetic can hold.
    pub open spec fn wf(self) -> bool {
        forall|i: int|
            0 <= i < self.updates@.len() ==> update_rect(#[trigger] self.updates@[i]).in_range()
    }
}

impl Quadtree {
    /// All explored regions that were seen at `since_tick` or later.
    pub fn diff_since(&self, since_tick: u64) -> (diff: MapDiff)
        requires
            self.wf(),
        ensures
            diff.timestamp == since_tick,
            diff.updates@ == updates_since(*self, since_tick),
            diff.wf(),
    {
        let mut found: Vec<(Rect, CellState)> = Vec::new();
        Self::collect_diff(&self.root, self.bounds, since_tick, &mut found);
        let mut updates: Vec<((i64, i64, i64, i64), CellState)> = Vec::new();
        let mut i: usize = 0;
        while i < found.len()
            invariant
                i <= found@.len(),
                updates@.len() == i,
                forall|j: int| 0 <= j < found@.len() ==> (#[trigger] found@[j]).0.in_range(),
                forall|j: int| 0 <= j < i ==> #[trigger] updates@[j] == as_update(found@[j]),
            decreases found@.len() - i,
        {
            let (r, s) = found[i];
            updates.push(((r.x, r.y, r.w, r.h), s));
            i = i + 1;
        }
        assert(updates@ =~= updates_since(*self, since_tick));
        assert forall|j: int| 0 <= j < updates@.len() implies update_rect(
            #[trigger] updates@[j],
        ).in_range() by {
            assert(update_rect(updates@[j]) == found@[j].0);
        }
        MapDiff { timestamp: since_tick, updates }
    }

    fn collect_diff(
        node: &QuadNode,
        bounds: Rect,
        since_tick: u64,
        updates: &mut Vec<(Rect, CellState)>,
    )
        requires
            bounds.in_range(),
            forall|j: int| 0 <= j < old(updates)@.len() ==> (#[trigger] old(updates)@[j]).0.in_range(),
        ensures
            final(updates)@ == old(updates)@ + leaves(*node, bounds).filter(
                seen_since(since_tick),
            ),
            forall|j: int|
                0 <= j < final(updates)@.len() ==> (#[trigger] final(updates)@[j]).0.in_range(),
        decreases node,
    {
        match node {
            QuadNode::Leaf(state) => {
                reveal_with_fuel(Seq::filter, 2);
                assert(seq![(bounds, *state)].drop_last() =~= Seq::empty());
                if state.last_seen >= since_tick && state.explored {
                    updates.push((bounds, *state));
                }
                assert(updates@ =~= old(updates)@ + leaves(*node, bounds).filter(
                    seen_since(since_tick),
                ));
            },
            QuadNode::Internal(q) => {
                Self::collect_diff(&q.top_left, bounds.quarter(0), since_tick, updates);
                Self::collect_diff(&q.top_right, bounds.quarter(1), since_tick, updates);
                Self::collect_diff(&q.bottom_left, bounds.quarter(2), since_tick, updates);
                Self::collect_diff(&q.bottom_right, bounds.quarter(3), since_tick, updates);
                proof {
                    let f = seen_since(since_tick);
                    lemma_filter_divided(*node, bounds, f);
                    assert(updates@ =~= old(updates)@ + leaves(*node, bounds).filter(f));
                }
            },
        }
    }

    /// Takes over the updates of another map, one after the other.
    pub fn merge(&mut self, diff: MapDiff)
        requires
            old(self).wf(),
            diff.wf(),
        ensures
            final(self).wf(),
            final(self).bounds == old(self).bounds,
            final(self).max_depth == old(self).max_depth,
            forall|path: Seq<int>|
                old(self).is_cell(path) ==> #[trigger] final(self).cell(path) == merged(
                    old(self).bounds,
                    path,
                    diff.updates@,
                    old(self).cell(path),
                ),
    {
        let ghost before = *self;
        let mut i: usize = 0;
        assert(diff.updates@.take(0) =~= Seq::empty());
        while i < diff.updates.len()
            invariant
                i <= diff.updates@.len(),
                diff.wf(),
                self.wf(),
                self.bounds == before.bounds,
                self.max_depth == before.max_depth,
                forall|path: Seq<int>|
                    before.is_cell(path) ==> #[trigger] self.cell(path) == merged(
                        before.bounds,
                        path,
                        diff.updates@.take(i as int),
                        before.cell(path),
                    ),
            decreases diff.updates@.len() - i,
        {
            let (rect_tuple, state) = diff.updates[i];
            let rect: Rect = Rect::new(rect_tuple.0, rect_tuple.1, rect_tuple.2, rect_tuple.3);
            assert(rect == update_rect(diff.updates@[i as int]));
            let mut root: QuadNode = QuadNode::Leaf(CellState::default());
            let ghost previous = *self;
            core::mem::swap(&mut root, &mut self.root);
            self.root = Self::merge_node(root, self.bounds, rect, state, 0, self.max_depth);
            proof {
                let done = diff.updates@.take(i as int);
                let next = diff.updates@.take(i + 1);
                assert(next.drop_last() =~= done);
                assert forall|path: Seq<int>| before.is_cell(path) implies #[trigger] self.cell(path)
                    == merged(before.bounds, path, next, before.cell(path)) by {
                    assert(previous.cell(path) == merged(
                        before.bounds,
                        path,
                        done,
                        before.cell(path),
                    ));
                }
            }
            i = i + 1;
        }
        assert(diff.updates@.take(i as int) =~= diff.updates@);
    }

    fn merge_node(
        node: QuadNode,
        node_bounds: Rect,
        target_rect: Rect,
        new_state: CellState,
        depth: u8,
        max_depth: u8,
    ) -> (res: QuadNode)
        requires
            depth <= max_depth,
            node.wf((max_depth - depth) as nat),
            node_bounds.in_range(),
            target_rect.in_range(),
        ensures
            res.wf((max_depth - depth) as nat),
            !node_bounds.meets(target_rect) ==> res == node,
            node_bounds.meets(target_rect) && node_bounds.near(target_rect, EPSILON as int) ==> res
                == QuadNode::Leaf(new_state),
            forall|path: Seq<int>|
                is_path(path, (max_depth - depth) as nat) ==> #[trigger] res.at(path) == if covered(
                    node_bounds,
                    path,
                    target_rect,
                ) {
                    new_state
                } else {
                    node.at(path)
                },
        decreases max_depth - depth,
    {
        if !node_bounds.intersects(&target_rect) {
            return node;
        }
        if node_bounds.is_near(&target_rect, EPSILON) || depth >= max_depth {
            return QuadNode::Leaf(new_state);
        }
        let ghost left = (max_depth - depth) as nat;
        let children = divide(node, Ghost(left));
        let top_left = Self::merge_node(
            children.top_left,
            node_bounds.quarter(0),
            target_rect,
            new_state,
            depth + 1,
            max_depth,
        );
        let top_right = Self::merge_node(
            children.top_right,
            node_bounds.quarter(1),
            target_rect,
            new_state,
            depth + 1,
            max_depth,
        );
        let bottom_left = Self::merge_node(
            children.bottom_left,
            node_bounds.quarter(2),
            target_rect,
            new_state,
            depth + 1,
            max_depth,
        );
        let bottom_right = Self::merge_node(
            children.bottom_right,
            node_bounds.quarter(3),
            target_rect,
            new_state,
            depth + 1,
            max_depth,
        );
        let updated = Quads { top_left, top_right, bottom_left, bottom_right };
        let res = join(updated, Ghost((left - 1) as nat));
        proof {
            assert forall|path: Seq<int>| is_path(path, left) implies #[trigger] res.at(path)
                == if covered(node_bounds, path, target_rect) {
                new_state
            } else {
                node.at(path)
            } by {
                lemma_path_step(path, left);
                assert(res.at(path) == updated.child(path[0]).at(path.drop_first()));
                assert(node.at(path) == children.child(path[0]).at(path.drop_first()));
            }
        }
        res
    }

    /// What the map knows of a point: the state of the cell that it falls into,
    /// or nothing off the map.
    pub open spec fn known(self, p: Vec2) -> Option<CellState> {
        if self.bounds.holds(p) {
            Some(self.cell(path_to(self.bounds, p, self.max_depth as nat)))
        } else {
            None
        }
    }

    /// The state of the cell that a point falls into, or `None` off the map.
    pub fn query_point(&self, p: Vec2) -> (res: Option<CellState>)
        requires
            self.wf(),
        ensures
            res == self.known(p),
    {
        if !self.bounds.contains(p) {
            return None;
        }
        Some(Self::query_node(&self.root, self.bounds, p, Ghost(self.max_depth as nat)))
    }

    fn query_node(node: &QuadNode, bounds: Rect, p: Vec2, Ghost(depth): Ghost<nat>) -> (s: CellState)
        requires
            node.fits(depth),
            bounds.in_range(),
        ensures
            s == node.at(path_to(bounds, p, depth)),
        decreases node,
    {
        match node {
            QuadNode::Leaf(s) => *s,
            QuadNode::Internal(q) => {
                let middle: Vec2 = bounds.center();
                let ghost path = path_to(bounds, p, depth);
                proof {
                    let i = side(bounds, p);
                    assert(path.drop_first() =~= path_to(bounds.quadrant(i), p, (depth - 1) as nat));
                }
                if p.y >= middle.y {
                    if p.x >= middle.x {
                        Self::query_node(&q.bottom_right, bounds.quarter(3), p, Ghost((depth - 1) as nat))
                    } else {
                        Self::query_node(&q.bottom_left, bounds.quarter(2), p, Ghost((depth - 1) as nat))
                    }
                } else {
                    if p.x >= middle.x {
                        Self::query_node(&q.top_right, bounds.quarter(1), p, Ghost((depth - 1) as nat))
                    } else {
                        Self::query_node(&q.top_left, bounds.quarter(0), p, Ghost((depth - 1) as nat))
                    }
                }
            },
        }
    }

    /// The explored regions that a view of the map shows, each with the flag
    /// that tells an obstacle from free ground.
    pub fn visible_regions(&self, camera_bounds: Rect) -> (regions: Vec<(Rect, bool)>)
        requires
            self.wf(),
            camera_bounds.in_range(),
        ensures
            regions@ == shown(self.root, self.bounds, camera_bounds),
    {
        let mut regions: Vec<(Rect, bool)> = Vec::new();
        Self::collect_visible(&self.root, self.bounds, camera_bounds, &mut regions);
        assert(regions@ =~= shown(self.root, self.bounds, camera_bounds));
        regions
    }

    fn collect_visible(
        node: &QuadNode,
        bounds: Rect,
        camera_bounds: Rect,
        regions: &mut Vec<(Rect, bool)>,
    )
        requires
            bounds.in_range(),
            camera_bounds.in_range(),
        ensures
            final(regions)@ == old(regions)@ + shown(*node, bounds, camera_bounds),
        decreases node,
    {
        if !bounds.overlaps(&camera_bounds) {
            assert(regions@ =~= old(regions)@ + shown(*node, bounds, camera_bounds));
            return ;
        }
        match node {
            QuadNode::Leaf(state) => {
                if state.explored {
                    regions.push((bounds, state.obstacle));
                }
                assert(regions@ =~= old(regions)@ + shown(*node, bounds, camera_bounds));
            },
            QuadNode::Internal(q) => {
                Self::collect_visible(&q.top_left, bounds.quarter(0), camera_bounds, regions);
                Self::collect_visible(&q.top_right, bounds.quarter(1), camera_bounds, regions);
                Self::collect_visible(&q.bottom_left, bounds.quarter(2), camera_bounds, regions);
                Self::collect_visible(&q.bottom_right, bounds.quarter(3), camera_bounds, regions);
                assert(regions@ =~= old(regions)@ + shown(*node, bounds, camera_bounds));
            },
        }
    }
}


/// The magnitude of `v`.
pub open spec fn span(v: int) -> int {
    if v < 0 {
        -v
    } else {
        v
    }
}

proof fn lemma_explored_part_add(a: Seq<(Rect, CellState)>, b: Seq<(Rect, CellState)>)
    ensures
        explored_part(a + b) == explored_part(a) + explored_part(b),
    decreases b.len(),
{
    if b.len() == 0 {
        assert(a + b =~= a);
    } else {
        lemma_explored_part_add(a, b.drop_last());
        assert((a + b).drop_last() =~= a + b.drop_last());
        assert((a + b).last() == b.last());
    }
}

/// The area of a divided region is that of its quadrants together.
proof fn lemma_explored_part_divided(q: Quads, bounds: Rect)
    ensures
        explored_part(leaves(QuadNode::Internal(Box::new(q)), bounds)) == explored_part(
            leaves(q.top_left, bounds.quadrant(0)),
        ) + explored_part(leaves(q.top_right, bounds.quadrant(1))) + explored_part(
            leaves(q.bottom_left, bounds.quadrant(2)),
        ) + explored_part(leaves(q.bottom_right, bounds.quadrant(3))),
{
    let a = leaves(q.top_left, bounds.quadrant(0));
    let b = leaves(q.top_right, bounds.quadrant(1));
    let c = leaves(q.bottom_left, bounds.quadrant(2));
    let d = leaves(q.bottom_right, bounds.quadrant(3));
    lemma_explored_part_add(a, b);
    lemma_explored_part_add(a + b, c);
    lemma_explored_part_add(a + b + c, d);
}

/// The magnitude of a product is the product of the magnitudes.
proof fn lemma_span_mul(a: int, b: int)
    ensures
        span(a * b) == span(a) * span(b),
{
    assert(span(a * b) == span(a) * span(b)) by (nonlinear_arith);
}

/// The explored area never exceeds the area of the region.
pub proof fn law_explored_area_is_a_part(node: QuadNode, bounds: Rect)
    requires
        bounds.in_range(),
    ensures
        span(explored_part(leaves(node, bounds))) <= span(bounds.w as int) * span(bounds.h as int),
    decreases node,
{
    let w = bounds.w as int;
    let h = bounds.h as int;
    match node {
        QuadNode::Leaf(s) => {
            let l = leaves(node, bounds);
            assert(l.drop_last() =~= Seq::empty());
            assert(explored_part(l.drop_last()) == 0);
            lemma_span_mul(w, h);
            assert(0 <= span(w) * span(h)) by (nonlinear_arith);
        },
        QuadNode::Internal(q) => {
            let hw = half_of(w);
            let hh = half_of(h);
            law_explored_area_is_a_part(q.top_left, bounds.quadrant(0));
            law_explored_area_is_a_part(q.top_right, bounds.quadrant(1));
            law_explored_area_is_a_part(q.bottom_left, bounds.quadrant(2));
            law_explored_area_is_a_part(q.bottom_right, bounds.quadrant(3));
            lemma_explored_part_divided(*q, bounds);
            assert(4 * (span(hw) * span(hh)) <= span(w) * span(h)) by (nonlinear_arith)
                requires
                    2 * span(hw) <= span(w),
                    2 * span(hh) <= span(h),
                    0 <= span(hw),
                    0 <= span(hh),
            ;
        },
    }
}

impl Quadtree {
    /// The area of all explored regions, in square units.
    pub fn explored_area(&self) -> (area: i128)
        requires
            self.wf(),
        ensures
            area == explored_part(leaves(self.root, self.bounds)),
    {
        Self::explored_node_area(&self.root, self.bounds)
    }

    fn explored_node_area(node: &QuadNode, bounds: Rect) -> (area: i128)
        requires
            bounds.in_range(),
        ensures
            area == explored_part(leaves(*node, bounds)),
            -0x400_0000_0000_0000_0000_0000_0000_0000 <= area
                <= 0x400_0000_0000_0000_0000_0000_0000_0000,
        decreases node,
    {
        proof {
            law_explored_area_is_a_part(*node, bounds);
            assert(span(bounds.w as int) * span(bounds.h as int)
                <= 0x400_0000_0000_0000_0000_0000_0000_0000) by (nonlinear_arith)
                requires
                    0 <= span(bounds.w as int) <= 0x2000_0000_0000_0000,
                    0 <= span(bounds.h as int) <= 0x2000_0000_0000_0000,
            ;
        }
        match node {
            QuadNode::Leaf(state) => {
                proof {
                    let l = leaves(*node, bounds);
                    assert(l.drop_last() =~= Seq::empty());
                    assert(explored_part(l.drop_last()) == 0);
                    lemma_span_mul(bounds.w as int, bounds.h as int);
                }
                if state.explored {
                    bounds.w as i128 * bounds.h as i128
                } else {
                    0
                }
            },
            QuadNode::Internal(q) => {
                let a: i128 = Self::explored_node_area(&q.top_left, bounds.quarter(0));
                let b: i128 = Self::explored_node_area(&q.top_right, bounds.quarter(1));
                let c: i128 = Self::explored_node_area(&q.bottom_left, bounds.quarter(2));
                let d: i128 = Self::explored_node_area(&q.bottom_right, bounds.quarter(3));
                proof {
                    lemma_explored_part_divided(**q, bounds);
                }
                a + b + c + d
            },
        }
    }
}

} // verus!
