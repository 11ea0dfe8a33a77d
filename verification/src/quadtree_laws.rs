//! What holds of the map as a whole.
use crate::environment::{law_blocked_by_what_overlaps, Environment};
use crate::geometry::{
    law_middle_is_halfway, lemma_square_bound, lemma_square_monotone, square, Rect, Vec2,
};
use crate::quadtree::{
    all_touch, as_update, covered, explored_part, is_path, leaves, lemma_filter_divided,
    lemma_leaf_number, lemma_leaf_place, lemma_path_step, merged, path_to, region, scan_area,
    scan_state, scanned, seen_since, shown, side, span, unseen, update_rect, updates_since,
    CellState, QuadNode, Quadtree, EPSILON,
};
use crate::single::halved;
use vstd::arithmetic::power2::{lemma2_to64, lemma_pow2_unfold, pow2};
use vstd::prelude::*;

verus! {

/// Appending a first step to a path.
proof fn lemma_path_cons(i: int, rest: Seq<int>, depth: nat)
    requires
        0 <= i < 4,
        is_path(rest, depth),
    ensures
        is_path(seq![i] + rest, depth + 1),
        (seq![i] + rest)[0] == i,
        (seq![i] + rest).drop_first() == rest,
{
    let path = seq![i] + rest;
    assert(path.drop_first() =~= rest);
    assert forall|k: int| 0 <= k < depth + 1 implies 0 <= #[trigger] path[k] < 4 by {
        if k > 0 {
            assert(path[k] == rest[k - 1]);
        }
    }
}

/// Two nodes that agree on every cell agree in each quadrant on every cell.
proof fn lemma_agree_in_quadrant(
    m: QuadNode,
    n: QuadNode,
    mi: QuadNode,
    ni: QuadNode,
    i: int,
    depth: nat,
)
    requires
        depth > 0,
        0 <= i < 4,
        forall|path: Seq<int>| is_path(path, depth) ==> #[trigger] m.at(path) == n.at(path),
        match m {
            QuadNode::Leaf(_) => mi == m,
            QuadNode::Internal(q) => mi == q.child(i),
        },
        match n {
            QuadNode::Leaf(_) => ni == n,
            QuadNode::Internal(q) => ni == q.child(i),
        },
    ensures
        forall|path: Seq<int>|
            is_path(path, (depth - 1) as nat) ==> #[trigger] mi.at(path) == ni.at(path),
{
    assert forall|path: Seq<int>| is_path(path, (depth - 1) as nat) implies #[trigger] mi.at(path)
        == ni.at(path) by {
        lemma_path_cons(i, path, (depth - 1) as nat);
        let full = seq![i] + path;
        assert(m.at(full) == n.at(full));
    }
}

/// Nodes without superfluous divisions that agree on every cell are the same.
proof fn lemma_same_cells_same_node(m: QuadNode, n: QuadNode, depth: nat)
    requires
        m.wf(depth),
        n.wf(depth),
        forall|path: Seq<int>| is_path(path, depth) ==> #[trigger] m.at(path) == n.at(path),
    ensures
        m == n,
    decreases depth,
{
    match (m, n) {
        (QuadNode::Leaf(s), QuadNode::Leaf(t)) => {
            let path = Seq::new(depth, |k: int| 0int);
            assert(is_path(path, depth));
            assert(m.at(path) == n.at(path));
        },
        (QuadNode::Leaf(s), QuadNode::Internal(q)) => {
            lemma_agree_in_quadrant(m, n, m, q.top_left, 0, depth);
            lemma_agree_in_quadrant(m, n, m, q.top_right, 1, depth);
            lemma_agree_in_quadrant(m, n, m, q.bottom_left, 2, depth);
            lemma_agree_in_quadrant(m, n, m, q.bottom_right, 3, depth);
            lemma_same_cells_same_node(m, q.top_left, (depth - 1) as nat);
            lemma_same_cells_same_node(m, q.top_right, (depth - 1) as nat);
            lemma_same_cells_same_node(m, q.bottom_left, (depth - 1) as nat);
            lemma_same_cells_same_node(m, q.bottom_right, (depth - 1) as nat);
            assert(q.uniform());
        },
        (QuadNode::Internal(p), QuadNode::Leaf(t)) => {
            lemma_agree_in_quadrant(m, n, p.top_left, n, 0, depth);
            lemma_agree_in_quadrant(m, n, p.top_right, n, 1, depth);
            lemma_agree_in_quadrant(m, n, p.bottom_left, n, 2, depth);
            lemma_agree_in_quadrant(m, n, p.bottom_right, n, 3, depth);
            lemma_same_cells_same_node(p.top_left, n, (depth - 1) as nat);
            lemma_same_cells_same_node(p.top_right, n, (depth - 1) as nat);
            lemma_same_cells_same_node(p.bottom_left, n, (depth - 1) as nat);
            lemma_same_cells_same_node(p.bottom_right, n, (depth - 1) as nat);
            assert(p.uniform());
        },
        (QuadNode::Internal(p), QuadNode::Internal(q)) => {
            lemma_agree_in_quadrant(m, n, p.top_left, q.top_left, 0, depth);
            lemma_agree_in_quadrant(m, n, p.top_right, q.top_right, 1, depth);
            lemma_agree_in_quadrant(m, n, p.bottom_left, q.bottom_left, 2, depth);
            lemma_agree_in_quadrant(m, n, p.bottom_right, q.bottom_right, 3, depth);
            lemma_same_cells_same_node(p.top_left, q.top_left, (depth - 1) as nat);
            lemma_same_cells_same_node(p.top_right, q.top_right, (depth - 1) as nat);
            lemma_same_cells_same_node(p.bottom_left, q.bottom_left, (depth - 1) as nat);
            lemma_same_cells_same_node(p.bottom_right, q.bottom_right, (depth - 1) as nat);
            assert(*p == *q);
        },
    }
}

/// A map has one representation only: two maps of the same area and depth that
/// know the same of every cell are the same tree, however they came about.
pub proof fn law_same_cells_same_tree(a: Quadtree, b: Quadtree)
    requires
        a.wf(),
        b.wf(),
        a.bounds == b.bounds,
        a.max_depth == b.max_depth,
        forall|path: Seq<int>| a.is_cell(path) ==> #[trigger] a.cell(path) == b.cell(path),
    ensures
        a == b,
{
    assert forall|path: Seq<int>| is_path(path, a.max_depth as nat) implies #[trigger] a.root.at(
        path,
    ) == b.root.at(path) by {
        assert(a.is_cell(path));
        assert(a.cell(path) == b.cell(path));
    }
    lemma_same_cells_same_node(a.root, b.root, a.max_depth as nat);
}

/// A quadrant of an upright rectangle is upright and lies inside it.
proof fn lemma_quadrant_inside(bounds: Rect, i: int)
    requires
        bounds.in_range(),
        bounds.upright(),
    ensures
        bounds.quadrant(i).in_range(),
        bounds.quadrant(i).upright(),
        bounds.encloses(bounds.quadrant(i)),
{
}

/// The region that a path leads to is upright and lies inside the bounds.
proof fn lemma_region_inside(bounds: Rect, path: Seq<int>)
    requires
        bounds.in_range(),
        bounds.upright(),
    ensures
        region(bounds, path).in_range(),
        region(bounds, path).upright(),
        bounds.encloses(region(bounds, path)),
    decreases path.len(),
{
    if path.len() > 0 {
        lemma_quadrant_inside(bounds, path[0]);
        lemma_region_inside(bounds.quadrant(path[0]), path.drop_first());
    }
}

/// In upright bounds a cell that overlaps an area is reached through regions
/// that all overlap it.
pub proof fn law_overlap_of_cell_is_enough(bounds: Rect, path: Seq<int>, area: Rect)
    requires
        bounds.in_range(),
        bounds.upright(),
    ensures
        all_touch(bounds, path, area) == region(bounds, path).touches(area),
    decreases path.len(),
{
    if path.len() > 0 {
        lemma_quadrant_inside(bounds, path[0]);
        lemma_region_inside(bounds.quadrant(path[0]), path.drop_first());
        law_overlap_of_cell_is_enough(bounds.quadrant(path[0]), path.drop_first(), area);
    }
}

/// A scan marks exactly the cells whose middle lies within its radius.
pub proof fn law_scan_marks_disc(bounds: Rect, path: Seq<int>, center: Vec2, radius: i64)
    requires
        bounds.in_range(),
        bounds.upright(),
        center.in_range(),
        scan_area(center, radius as int).in_range(),
        -crate::geometry::COORD_LIMIT <= radius <= crate::geometry::COORD_LIMIT,
    ensures
        scanned(bounds, path, center, radius as int) == region(bounds, path).middle().within(
            center,
            radius as int,
        ),
{
    law_overlap_of_cell_is_enough(bounds, path, scan_area(center, radius as int));
    let cell = region(bounds, path);
    lemma_region_inside(bounds, path);
    let m = cell.middle();
    if m.within(center, radius as int) {
        let dx = m.x - center.x;
        let dy = m.y - center.y;
        lemma_square_bound(dx, span(dx));
        lemma_square_bound(dy, span(dy));
        if span(dx) > radius {
            lemma_square_monotone(radius as int, span(dx));
            lemma_magnitude_square(dx);
        }
        if span(dy) > radius {
            lemma_square_monotone(radius as int, span(dy));
            lemma_magnitude_square(dy);
        }
        assert(cell.touches(scan_area(center, radius as int)));
    }
}

proof fn lemma_magnitude_square(v: int)
    ensures
        square(span(v)) == square(v),
{
    assert(span(v) * span(v) == v * v) by (nonlinear_arith);
}

/// Merging one difference after another is merging both in one go.
pub proof fn law_merges_compose(
    bounds: Rect,
    path: Seq<int>,
    first: Seq<((i64, i64, i64, i64), CellState)>,
    second: Seq<((i64, i64, i64, i64), CellState)>,
    before: CellState,
)
    ensures
        merged(bounds, path, second, merged(bounds, path, first, before)) == merged(
            bounds,
            path,
            first + second,
            before,
        ),
    decreases second.len(),
{
    if second.len() == 0 {
        assert(first + second =~= first);
    } else {
        law_merges_compose(bounds, path, first, second.drop_last(), before);
        assert((first + second).drop_last() =~= first + second.drop_last());
        assert((first + second).last() == second.last());
    }
}

/// A difference that arrives again changes nothing.
pub proof fn law_merge_is_idempotent(
    bounds: Rect,
    path: Seq<int>,
    updates: Seq<((i64, i64, i64, i64), CellState)>,
    before: CellState,
)
    ensures
        merged(bounds, path, updates, merged(bounds, path, updates, before)) == merged(
            bounds,
            path,
            updates,
            before,
        ),
{
    lemma_merge_overrides(bounds, path, updates, before, merged(bounds, path, updates, before));
}

/// Either no update reaches the cell, or what was there before does not matter.
proof fn lemma_merge_overrides(
    bounds: Rect,
    path: Seq<int>,
    updates: Seq<((i64, i64, i64, i64), CellState)>,
    a: CellState,
    b: CellState,
)
    ensures
        merged(bounds, path, updates, a) == merged(bounds, path, updates, b) || (merged(
            bounds,
            path,
            updates,
            a,
        ) == a && merged(bounds, path, updates, b) == b),
    decreases updates.len(),
{
    if updates.len() > 0 && !covered(bounds, path, update_rect(updates.last())) {
        lemma_merge_overrides(bounds, path, updates.drop_last(), a, b);
    }
}

/// Merging explored regions never makes an explored cell unknown again.
pub proof fn law_merge_never_forgets(
    bounds: Rect,
    path: Seq<int>,
    updates: Seq<((i64, i64, i64, i64), CellState)>,
    before: CellState,
)
    requires
        before.explored,
        forall|i: int| 0 <= i < updates.len() ==> (#[trigger] updates[i]).1.explored,
    ensures
        merged(bounds, path, updates, before).explored,
    decreases updates.len(),
{
    if updates.len() > 0 && !covered(bounds, path, update_rect(updates.last())) {
        assert forall|i: int| 0 <= i < updates.drop_last().len() implies (
        #[trigger] updates.drop_last()[i]).1.explored by {
            assert(updates[i].1.explored);
        }
        law_merge_never_forgets(bounds, path, updates.drop_last(), before);
    }
}

/// The bounds are upright, and where they have an extent, their smallest regions have
/// one too.
pub open spec fn keeps_extent(bounds: Rect, depth: nat) -> bool {
    &&& bounds.upright()
    &&& bounds.w == 0 || halved(bounds.w as int, depth) > 0
    &&& bounds.h == 0 || halved(bounds.h as int, depth) > 0
}

/// The smallest regions of the bounds are so wide or so high that no region is taken for
/// one that it is a part of, unless there is only one region, or all are the same.
pub open spec fn cells_differ(bounds: Rect, depth: nat) -> bool {
    &&& keeps_extent(bounds, depth)
    &&& {
        ||| depth == 0
        ||| bounds.w == 0 && bounds.h == 0
        ||| halved(bounds.w as int, depth) >= EPSILON
        ||| halved(bounds.h as int, depth) >= EPSILON
    }
}

proof fn lemma_halved_below(v: int, times: nat)
    requires
        v >= 0,
    ensures
        0 <= halved(v, times) <= v,
    decreases times,
{
    if times > 0 {
        lemma_halved_below(v / 2, (times - 1) as nat);
    }
}

/// Upright bounds that divide evenly keep their extent.
pub proof fn law_even_division_keeps_extent(bounds: Rect, depth: nat)
    requires
        bounds.upright(),
        divides_evenly(bounds.w as int, bounds.h as int, depth),
    ensures
        keeps_extent(bounds, depth),
{
    lemma_even_halves(bounds.w as int, bounds.h as int, depth);
}

proof fn lemma_even_halves(w: int, h: int, depth: nat)
    requires
        w >= 0 && h >= 0,
        divides_evenly(w, h, depth),
    ensures
        w > 0 ==> halved(w, depth) > 0,
        h > 0 ==> halved(h, depth) > 0,
    decreases depth,
{
    if depth > 0 {
        lemma_even_halves(w / 2, h / 2, (depth - 1) as nat);
    }
}

/// A quadrant of bounds that keep their extent lies inside them, has an extent where
/// they have one, and keeps it.
proof fn lemma_extent_below(bounds: Rect, depth: nat, i: int)
    requires
        bounds.in_range(),
        keeps_extent(bounds, depth),
        depth > 0,
    ensures
        ({
            let q = bounds.quadrant(i);
            let d = (depth - 1) as nat;
            &&& q.in_range()
            &&& bounds.encloses(q)
            &&& 2 * q.w <= bounds.w && 2 * q.h <= bounds.h
            &&& q.w == 0 <==> bounds.w == 0
            &&& q.h == 0 <==> bounds.h == 0
            &&& keeps_extent(q, d)
            &&& halved(q.w as int, d) == halved(bounds.w as int, depth) <= q.w
            &&& halved(q.h as int, d) == halved(bounds.h as int, depth) <= q.h
        }),
{
    let q = bounds.quadrant(i);
    let d = (depth - 1) as nat;
    lemma_halved_below(bounds.w as int / 2, d);
    lemma_halved_below(bounds.h as int / 2, d);
}

/// Some leaf holds the state of the cell, and an update of its region reaches
/// the cell.
proof fn lemma_leaf_of_cell(node: QuadNode, bounds: Rect, path: Seq<int>, depth: nat) -> (i: int)
    requires
        node.fits(depth),
        is_path(path, depth),
        bounds.in_range(),
        bounds.upright(),
    ensures
        0 <= i < leaves(node, bounds).len(),
        leaves(node, bounds)[i].1 == node.at(path),
        leaves(node, bounds)[i].0.upright(),
        bounds.encloses(leaves(node, bounds)[i].0),
        covered(bounds, path, leaves(node, bounds)[i].0),
    decreases node,
{
    match node {
        QuadNode::Leaf(s) => { 0 },
        QuadNode::Internal(q) => {
            lemma_path_step(path, depth);
            let k = path[0];
            let rest = path.drop_first();
            lemma_quadrant_inside(bounds, k);
            let j = lemma_leaf_of_cell(q.child(k), bounds.quadrant(k), rest, (depth - 1) as nat);
            lemma_leaf_number(node, bounds, k, j)
        },
    }
}

/// What a drone has seen reaches its peers: a cell that is explored and was seen
/// at `since` or later is, after a peer with the same area has merged the
/// difference since then, explored and seen at `since` or later there too,
/// whatever the peer knew before.
pub proof fn law_diff_reaches_peer(tree: Quadtree, since: u64, path: Seq<int>, before: CellState)
    requires
        tree.wf(),
        tree.bounds.upright(),
        tree.is_cell(path),
        tree.cell(path).explored,
        tree.cell(path).last_seen >= since,
    ensures
        ({
            let after = merged(tree.bounds, path, updates_since(tree, since), before);
            after.explored && after.last_seen >= since
        }),
{
    let all = leaves(tree.root, tree.bounds);
    let kept = all.filter(seen_since(since));
    let updates = updates_since(tree, since);
    let i = lemma_leaf_of_cell(tree.root, tree.bounds, path, tree.max_depth as nat);
    broadcast use vstd::seq_lib::group_filter_ensures;

    assert(seen_since(since)(all[i]));
    assert(kept.contains(all[i]));
    let k = choose|k: int| 0 <= k < kept.len() && kept[k] == all[i];
    assert(update_rect(updates[k]) == all[i].0);
    let j = lemma_merge_hits(tree.bounds, path, updates, before, k);
    assert(seen_since(since)(kept[j]));
    assert(updates[j].1 == kept[j].1);
}

/// The later the tick, the fewer regions a difference holds: what was seen since
/// a later tick was seen since an earlier one too.
pub proof fn law_later_diff_is_part(regions: Seq<(Rect, CellState)>, early: u64, late: u64)
    requires
        early <= late,
    ensures
        regions.filter(seen_since(early)).filter(seen_since(late)) == regions.filter(
            seen_since(late),
        ),
    decreases regions.len(),
{
    reveal(Seq::filter);
    if regions.len() > 0 {
        law_later_diff_is_part(regions.drop_last(), early, late);
        let rest = regions.drop_last().filter(seen_since(early));
        if seen_since(early)(regions.last()) {
            assert(rest.push(regions.last()).drop_last() =~= rest);
        }
    }
}

/// Both extents can be halved `depth` times without a remainder.
pub open spec fn divides_evenly(w: int, h: int, depth: nat) -> bool
    decreases depth,
{
    depth == 0 || (w % 2 == 0 && h % 2 == 0 && divides_evenly(w / 2, h / 2, (depth - 1) as nat))
}

/// Looking up a point reads a cell of the map, and where the bounds divide
/// evenly the point lies in that cell.
pub proof fn law_point_lies_in_its_cell(bounds: Rect, p: Vec2, depth: nat)
    requires
        bounds.in_range(),
        bounds.upright(),
        divides_evenly(bounds.w as int, bounds.h as int, depth),
        bounds.holds(p),
    ensures
        is_path(path_to(bounds, p, depth), depth),
        region(bounds, path_to(bounds, p, depth)).holds(p),
    decreases depth,
{
    if depth > 0 {
        let i = side(bounds, p);
        let rest = path_to(bounds.quadrant(i), p, (depth - 1) as nat);
        lemma_quadrant_inside(bounds, i);
        law_point_lies_in_its_cell(bounds.quadrant(i), p, (depth - 1) as nat);
        lemma_path_cons(i, rest, (depth - 1) as nat);
    }
}

/// Every leaf of an upright region is upright and lies inside it.
proof fn lemma_leaves_inside(node: QuadNode, bounds: Rect)
    requires
        bounds.in_range(),
        bounds.upright(),
    ensures
        forall|i: int|
            0 <= i < leaves(node, bounds).len() ==> bounds.encloses(
                (#[trigger] leaves(node, bounds)[i]).0,
            ) && leaves(node, bounds)[i].0.upright(),
    decreases node,
{
    if let QuadNode::Internal(q) = node {
        lemma_quadrant_inside(bounds, 0);
        lemma_quadrant_inside(bounds, 1);
        lemma_quadrant_inside(bounds, 2);
        lemma_quadrant_inside(bounds, 3);
        lemma_leaves_inside(q.top_left, bounds.quadrant(0));
        lemma_leaves_inside(q.top_right, bounds.quadrant(1));
        lemma_leaves_inside(q.bottom_left, bounds.quadrant(2));
        lemma_leaves_inside(q.bottom_right, bounds.quadrant(3));
        let all = leaves(node, bounds);
        assert forall|i: int| 0 <= i < all.len() implies bounds.encloses((#[trigger] all[i]).0)
            && all[i].0.upright() by {
            let (k, j) = lemma_leaf_place(node, bounds, i);
            assert(bounds.quadrant(k).encloses(leaves(q.child(k), bounds.quadrant(k))[j].0));
        }
    }
}

/// A region is explored and overlaps the view.
pub open spec fn in_view(view: Rect) -> spec_fn((Rect, CellState)) -> bool {
    |e: (Rect, CellState)| e.1.explored && e.0.touches(view)
}

/// A region as it is drawn.
pub open spec fn as_drawn(e: (Rect, CellState)) -> (Rect, bool) {
    (e.0, e.1.obstacle)
}

/// A view shows exactly the explored regions that overlap it.
pub proof fn law_view_shows_what_overlaps(node: QuadNode, bounds: Rect, view: Rect)
    requires
        bounds.in_range(),
        bounds.upright(),
    ensures
        shown(node, bounds, view) == leaves(node, bounds).filter(in_view(view)).map_values(
            |e: (Rect, CellState)| as_drawn(e),
        ),
    decreases node,
{
    let all = leaves(node, bounds);
    let f = in_view(view);
    let g = |e: (Rect, CellState)| as_drawn(e);
    if !bounds.touches(view) {
        lemma_leaves_inside(node, bounds);
        assert forall|i: int| 0 <= i < all.len() implies !f(#[trigger] all[i]) by {}
        all.lemma_all_neg_filter_empty(f);
        assert(all.filter(f).map_values(g) =~= Seq::empty());
    } else {
        match node {
            QuadNode::Leaf(s) => {
                reveal_with_fuel(Seq::filter, 2);
                assert(all.drop_last() =~= Seq::empty());
                assert(shown(node, bounds, view) =~= all.filter(f).map_values(g));
            },
            QuadNode::Internal(q) => {
                lemma_quadrant_inside(bounds, 0);
                lemma_quadrant_inside(bounds, 1);
                lemma_quadrant_inside(bounds, 2);
                lemma_quadrant_inside(bounds, 3);
                law_view_shows_what_overlaps(q.top_left, bounds.quadrant(0), view);
                law_view_shows_what_overlaps(q.top_right, bounds.quadrant(1), view);
                law_view_shows_what_overlaps(q.bottom_left, bounds.quadrant(2), view);
                law_view_shows_what_overlaps(q.bottom_right, bounds.quadrant(3), view);
                lemma_filter_divided(node, bounds, f);
                let a = leaves(q.top_left, bounds.quadrant(0));
                let b = leaves(q.top_right, bounds.quadrant(1));
                let c = leaves(q.bottom_left, bounds.quadrant(2));
                let d = leaves(q.bottom_right, bounds.quadrant(3));
                assert(all.filter(f).map_values(g) =~= a.filter(f).map_values(g) + b.filter(
                    f,
                ).map_values(g) + c.filter(f).map_values(g) + d.filter(f).map_values(g));
            },
        }
    }
}

/// Every leaf of bounds that keep their extent has an extent where they have one.
proof fn lemma_leaves_keep_extent(node: QuadNode, bounds: Rect, depth: nat, i: int)
    requires
        node.fits(depth),
        bounds.in_range(),
        keeps_extent(bounds, depth),
        0 <= i < leaves(node, bounds).len(),
    ensures
        leaves(node, bounds)[i].0.w == 0 <==> bounds.w == 0,
        leaves(node, bounds)[i].0.h == 0 <==> bounds.h == 0,
    decreases node,
{
    if let QuadNode::Internal(q) = node {
        let (k, j) = lemma_leaf_place(node, bounds, i);
        lemma_extent_below(bounds, depth, k);
        lemma_leaves_keep_extent(q.child(k), bounds.quadrant(k), (depth - 1) as nat, j);
    }
}

/// Where the bounds have no extent in some direction, cells with the same rectangle have
/// the same state.
pub open spec fn alike(node: QuadNode, bounds: Rect, depth: nat) -> bool {
    bounds.w == 0 || bounds.h == 0 ==> forall|p: Seq<int>, q: Seq<int>|
        is_path(p, depth) && is_path(q, depth) && region(bounds, p) == region(bounds, q)
            ==> #[trigger] node.at(p) == #[trigger] node.at(q)
}

/// The map does not tell cells with the same rectangle apart. Such cells occur only
/// where its bounds have no extent in some direction.
pub open spec fn cells_alike(tree: Quadtree) -> bool {
    alike(tree.root, tree.bounds, tree.max_depth as nat)
}

proof fn lemma_alike_below(node: QuadNode, bounds: Rect, depth: nat, i: int)
    requires
        alike(node, bounds, depth),
        node is Internal,
        depth > 0,
        0 <= i < 4,
        bounds.in_range(),
        keeps_extent(bounds, depth),
    ensures
        alike(node->Internal_0.child(i), bounds.quadrant(i), (depth - 1) as nat),
{
    let d = (depth - 1) as nat;
    let b = bounds.quadrant(i);
    let child = node->Internal_0.child(i);
    lemma_extent_below(bounds, depth, i);
    if b.w == 0 || b.h == 0 {
        assert forall|p: Seq<int>, q: Seq<int>|
            is_path(p, d) && is_path(q, d) && region(b, p) == region(
                b,
                q,
            ) implies #[trigger] child.at(p) == #[trigger] child.at(q) by {
            lemma_path_cons(i, p, d);
            lemma_path_cons(i, q, d);
            assert(node.at(seq![i] + p) == node.at(seq![i] + q));
        }
    }
}

/// All regions of bounds without any extent are the same.
proof fn lemma_regions_of_a_point(bounds: Rect, path: Seq<int>)
    requires
        bounds.w == 0 && bounds.h == 0,
    ensures
        region(bounds, path) == bounds,
    decreases path.len(),
{
    if path.len() > 0 {
        assert(bounds.quadrant(path[0]) == bounds);
        lemma_regions_of_a_point(bounds.quadrant(path[0]), path.drop_first());
    }
}

/// An update of a leaf reaches only cells that have the state of the leaf.
proof fn lemma_leaf_reaches_its_cells(
    node: QuadNode,
    bounds: Rect,
    path: Seq<int>,
    depth: nat,
    i: int,
)
    requires
        node.fits(depth),
        is_path(path, depth),
        bounds.in_range(),
        cells_differ(bounds, depth),
        alike(node, bounds, depth),
        0 <= i < leaves(node, bounds).len(),
        covered(bounds, path, leaves(node, bounds)[i].0),
    ensures
        leaves(node, bounds)[i].1 == node.at(path),
    decreases node,
{
    if let QuadNode::Internal(q) = node {
        if bounds.w == 0 && bounds.h == 0 {
            let other = lemma_leaf_is_a_cell(node, bounds, depth, i);
            lemma_regions_of_a_point(bounds, path);
            lemma_regions_of_a_point(bounds, other);
            assert(node.at(path) == node.at(other));
        } else {
            lemma_path_step(path, depth);
            let k = path[0];
            let rest = path.drop_first();
            let d = (depth - 1) as nat;
            let target = leaves(node, bounds)[i].0;
            let (j, m) = lemma_leaf_place(node, bounds, i);
            lemma_extent_below(bounds, depth, j);
            lemma_extent_below(bounds, depth, k);
            let quarter = bounds.quadrant(j);
            lemma_leaves_inside(q.child(j), quarter);
            lemma_leaves_keep_extent(q.child(j), quarter, d, m);
            assert(quarter.encloses(target));
            assert(!bounds.near(target, EPSILON as int));
            assert(covered(bounds.quadrant(k), rest, target));
            assert(bounds.quadrant(k).meets(target));
            assert(bounds.quadrant(k) == quarter);
            lemma_alike_below(node, bounds, depth, j);
            lemma_leaf_reaches_its_cells(q.child(j), quarter, rest, d, m);
            if j != k {
                lemma_path_cons(j, rest, d);
                assert(node.at(path) == node.at(seq![j] + rest));
            }
        }
    }
}

/// A cell that no update reaches keeps its state.
proof fn lemma_merge_misses(
    bounds: Rect,
    path: Seq<int>,
    updates: Seq<((i64, i64, i64, i64), CellState)>,
    before: CellState,
)
    requires
        forall|k: int|
            0 <= k < updates.len() ==> !covered(bounds, path, update_rect(#[trigger] updates[k])),
    ensures
        merged(bounds, path, updates, before) == before,
    decreases updates.len(),
{
    if updates.len() > 0 {
        assert(!covered(bounds, path, update_rect(updates[updates.len() - 1])));
        let rest = updates.drop_last();
        assert forall|k: int| 0 <= k < rest.len() implies !covered(
            bounds,
            path,
            update_rect(#[trigger] rest[k]),
        ) by {
            assert(rest[k] == updates[k]);
        }
        lemma_merge_misses(bounds, path, rest, before);
    }
}

/// A cell that some update reaches takes the state of one that reaches it.
proof fn lemma_merge_hits(
    bounds: Rect,
    path: Seq<int>,
    updates: Seq<((i64, i64, i64, i64), CellState)>,
    before: CellState,
    k: int,
) -> (j: int)
    requires
        0 <= k < updates.len(),
        covered(bounds, path, update_rect(updates[k])),
    ensures
        0 <= j < updates.len(),
        covered(bounds, path, update_rect(updates[j])),
        merged(bounds, path, updates, before) == updates[j].1,
    decreases updates.len(),
{
    if covered(bounds, path, update_rect(updates.last())) {
        updates.len() - 1
    } else {
        lemma_merge_hits(bounds, path, updates.drop_last(), before, k)
    }
}

/// What a peer that knew nothing knows of a cell after it has merged everything that
/// a map has explored.
pub open spec fn explored_only(s: CellState) -> CellState {
    if s.explored {
        s
    } else {
        unseen()
    }
}

/// A peer that knew nothing learns of every cell what the map has explored, and
/// nothing else: the obstacles and the ticks come over as they are, and a cell that
/// was not explored stays unknown.
pub proof fn law_diff_copies_cells(tree: Quadtree, path: Seq<int>)
    requires
        tree.wf(),
        cells_differ(tree.bounds, tree.max_depth as nat),
        cells_alike(tree),
        tree.is_cell(path),
    ensures
        merged(tree.bounds, path, updates_since(tree, 0), unseen()) == explored_only(
            tree.cell(path),
        ),
{
    let depth = tree.max_depth as nat;
    let all = leaves(tree.root, tree.bounds);
    let f = seen_since(0);
    let kept = all.filter(f);
    let updates = updates_since(tree, 0);
    assert forall|k: int| 0 <= k < updates.len() && covered(
        tree.bounds,
        path,
        update_rect(#[trigger] updates[k]),
    ) implies updates[k].1 == tree.cell(path) && updates[k].1.explored by {
        assert(kept.contains(kept[k]));
        all.lemma_filter_contains_rev(f, kept[k]);
        let i = choose|i: int| 0 <= i < all.len() && all[i] == kept[k];
        broadcast use vstd::seq_lib::group_filter_ensures;

        assert(f(kept[k]));
        assert(update_rect(updates[k]) == all[i].0);
        lemma_leaf_reaches_its_cells(tree.root, tree.bounds, path, depth, i);
    }
    if tree.cell(path).explored {
        let i = lemma_leaf_of_cell(tree.root, tree.bounds, path, depth);
        broadcast use vstd::seq_lib::group_filter_ensures;

        assert(f(all[i]));
        assert(kept.contains(all[i]));
        let k = choose|k: int| 0 <= k < kept.len() && kept[k] == all[i];
        assert(update_rect(updates[k]) == all[i].0);
        let j = lemma_merge_hits(tree.bounds, path, updates, unseen(), k);
        assert(updates[j].1 == tree.cell(path));
    } else {
        assert forall|k: int| 0 <= k < updates.len() implies !covered(
            tree.bounds,
            path,
            update_rect(#[trigger] updates[k]),
        ) by {}
        lemma_merge_misses(tree.bounds, path, updates, unseen());
    }
}

/// Every leaf has the state of some cell.
proof fn lemma_leaf_is_a_cell(node: QuadNode, bounds: Rect, depth: nat, i: int) -> (path: Seq<int>)
    requires
        node.fits(depth),
        0 <= i < leaves(node, bounds).len(),
    ensures
        is_path(path, depth),
        node.at(path) == leaves(node, bounds)[i].1,
    decreases node,
{
    match node {
        QuadNode::Leaf(s) => {
            let path = Seq::new(depth, |k: int| 0int);
            assert(is_path(path, depth));
            path
        },
        QuadNode::Internal(q) => {
            let d = (depth - 1) as nat;
            let (j, m) = lemma_leaf_place(node, bounds, i);
            let rest = lemma_leaf_is_a_cell(q.child(j), bounds.quadrant(j), d, m);
            lemma_path_cons(j, rest, d);
            seq![j] + rest
        },
    }
}

/// A node without explored cells has no explored leaves.
proof fn lemma_nothing_explored(node: QuadNode, bounds: Rect, depth: nat)
    requires
        node.fits(depth),
        forall|path: Seq<int>| is_path(path, depth) ==> !(#[trigger] node.at(path)).explored,
    ensures
        leaves(node, bounds).filter(seen_since(0)) == Seq::<(Rect, CellState)>::empty(),
{
    let all = leaves(node, bounds);
    let f = seen_since(0);
    assert forall|i: int| 0 <= i < all.len() implies !f(#[trigger] all[i]) by {
        let path = lemma_leaf_is_a_cell(node, bounds, depth, i);
        assert(!node.at(path).explored);
    }
    all.lemma_all_neg_filter_empty(f);
}

/// Two nodes without superfluous divisions that have explored the same, one of which
/// knows nothing else, have the same explored leaves.
proof fn lemma_same_explored(a: QuadNode, b: QuadNode, bounds: Rect, depth: nat)
    requires
        a.wf(depth),
        b.wf(depth),
        forall|path: Seq<int>|
            is_path(path, depth) ==> #[trigger] b.at(path) == explored_only(a.at(path)),
    ensures
        leaves(a, bounds).filter(seen_since(0)) == leaves(b, bounds).filter(seen_since(0)),
    decreases a,
{
    let f = seen_since(0);
    let zero = Seq::new(depth, |k: int| 0int);
    assert(is_path(zero, depth));
    assert(b.at(zero) == explored_only(a.at(zero)));
    match (a, b) {
        (QuadNode::Leaf(s), _) => {
            let flat = QuadNode::Leaf(explored_only(s));
            assert forall|path: Seq<int>| is_path(path, depth) implies #[trigger] b.at(path)
                == flat.at(path) by {
                assert(a.at(path) == s);
            }
            lemma_same_cells_same_node(b, flat, depth);
            reveal_with_fuel(Seq::filter, 2);
            assert(leaves(a, bounds).drop_last() =~= Seq::empty());
            assert(leaves(b, bounds).drop_last() =~= Seq::empty());
            assert(leaves(a, bounds).filter(f) =~= leaves(b, bounds).filter(f));
        },
        (QuadNode::Internal(p), QuadNode::Leaf(t)) => {
            if t.explored {
                assert forall|path: Seq<int>| is_path(path, depth) implies #[trigger] a.at(path)
                    == b.at(path) by {
                    assert(b.at(path) == explored_only(a.at(path)));
                }
                lemma_same_cells_same_node(a, b, depth);
            } else {
                assert forall|path: Seq<int>| is_path(path, depth) implies !(#[trigger] a.at(
                    path,
                )).explored by {
                    assert(b.at(path) == explored_only(a.at(path)));
                }
                assert forall|path: Seq<int>| is_path(path, depth) implies !(#[trigger] b.at(
                    path,
                )).explored by {}
                lemma_nothing_explored(a, bounds, depth);
                lemma_nothing_explored(b, bounds, depth);
            }
        },
        (QuadNode::Internal(p), QuadNode::Internal(q)) => {
            let d = (depth - 1) as nat;
            lemma_explored_in_quadrant(a, b, p.top_left, q.top_left, 0, depth);
            lemma_explored_in_quadrant(a, b, p.top_right, q.top_right, 1, depth);
            lemma_explored_in_quadrant(a, b, p.bottom_left, q.bottom_left, 2, depth);
            lemma_explored_in_quadrant(a, b, p.bottom_right, q.bottom_right, 3, depth);
            lemma_same_explored(p.top_left, q.top_left, bounds.quadrant(0), d);
            lemma_same_explored(p.top_right, q.top_right, bounds.quadrant(1), d);
            lemma_same_explored(p.bottom_left, q.bottom_left, bounds.quadrant(2), d);
            lemma_same_explored(p.bottom_right, q.bottom_right, bounds.quadrant(3), d);
            lemma_filter_divided(a, bounds, f);
            lemma_filter_divided(b, bounds, f);
        },
    }
}

proof fn lemma_explored_in_quadrant(
    a: QuadNode,
    b: QuadNode,
    ai: QuadNode,
    bi: QuadNode,
    i: int,
    depth: nat,
)
    requires
        depth > 0,
        0 <= i < 4,
        forall|path: Seq<int>|
            is_path(path, depth) ==> #[trigger] b.at(path) == explored_only(a.at(path)),
        a matches QuadNode::Internal(p) && ai == p.child(i),
        b matches QuadNode::Internal(q) && bi == q.child(i),
    ensures
        forall|path: Seq<int>|
            is_path(path, (depth - 1) as nat) ==> #[trigger] bi.at(path) == explored_only(
                ai.at(path),
            ),
{
    assert forall|path: Seq<int>| is_path(path, (depth - 1) as nat) implies #[trigger] bi.at(path)
        == explored_only(ai.at(path)) by {
        lemma_path_cons(i, path, (depth - 1) as nat);
        let full = seq![i] + path;
        assert(b.at(full) == explored_only(a.at(full)));
    }
}

/// Merging everything that a map has explored into a fresh map of the same bounds and
/// depth carries it over as it is: both maps then have the same differences. `after`
/// is the fresh map after the merge.
pub proof fn law_merge_synchronizes(src: Quadtree, after: Quadtree)
    requires
        src.wf(),
        after.wf(),
        after.bounds == src.bounds,
        after.max_depth == src.max_depth,
        cells_differ(src.bounds, src.max_depth as nat),
        cells_alike(src),
        forall|path: Seq<int>|
            src.is_cell(path) ==> #[trigger] after.cell(path) == merged(
                src.bounds,
                path,
                updates_since(src, 0),
                unseen(),
            ),
    ensures
        updates_since(after, 0) == updates_since(src, 0),
        forall|path: Seq<int>|
            src.is_cell(path) ==> #[trigger] after.cell(path) == explored_only(src.cell(path)),
{
    let depth = src.max_depth as nat;
    assert forall|path: Seq<int>| src.is_cell(path) implies #[trigger] after.cell(path)
        == explored_only(src.cell(path)) by {
        law_diff_copies_cells(src, path);
    }
    assert forall|path: Seq<int>| is_path(path, depth) implies #[trigger] after.root.at(path)
        == explored_only(src.root.at(path)) by {
        assert(src.is_cell(path));
        assert(after.cell(path) == explored_only(src.cell(path)));
    }
    lemma_same_explored(src.root, after.root, src.bounds, depth);
}

/// The regions on the way along the path agree with `target` only where they are it.
pub open spec fn exact_or_apart(bounds: Rect, path: Seq<int>, target: Rect) -> bool
    decreases path.len(),
{
    &&& bounds.near(target, EPSILON as int) ==> bounds == target
    &&& path.len() > 0 ==> exact_or_apart(bounds.quadrant(path[0]), path.drop_first(), target)
}

/// An update reaches exactly the cells that share more than an edge with its region, or
/// an edge in a direction without extent, as long as no region on the way is taken for
/// the updated one without being it.
pub proof fn law_update_reaches_what_it_overlaps(bounds: Rect, path: Seq<int>, target: Rect)
    requires
        bounds.in_range(),
        is_path(path, path.len()),
        keeps_extent(bounds, path.len()),
        exact_or_apart(bounds, path, target),
    ensures
        covered(bounds, path, target) == region(bounds, path).meets(target),
    decreases path.len(),
{
    if path.len() > 0 {
        lemma_path_step(path, path.len());
        lemma_extent_below(bounds, path.len(), path[0]);
        let q = bounds.quadrant(path[0]);
        law_update_reaches_what_it_overlaps(q, path.drop_first(), target);
        lemma_region_keeps_extent(bounds, path);
    }
}

proof fn lemma_region_keeps_extent(bounds: Rect, path: Seq<int>)
    requires
        bounds.in_range(),
        is_path(path, path.len()),
        keeps_extent(bounds, path.len()),
    ensures
        bounds.encloses(region(bounds, path)),
        region(bounds, path).upright(),
        region(bounds, path).w == 0 <==> bounds.w == 0,
        region(bounds, path).h == 0 <==> bounds.h == 0,
    decreases path.len(),
{
    if path.len() > 0 {
        lemma_path_step(path, path.len());
        lemma_extent_below(bounds, path.len(), path[0]);
        lemma_region_keeps_extent(bounds.quadrant(path[0]), path.drop_first());
    }
}

/// What reaches a cell reaches every cell with the same rectangle.
proof fn lemma_same_region_same_reach(bounds: Rect, p: Seq<int>, q: Seq<int>, target: Rect)
    requires
        bounds.in_range(),
        keeps_extent(bounds, p.len()),
        is_path(p, p.len()),
        is_path(q, p.len()),
        region(bounds, p) == region(bounds, q),
    ensures
        covered(bounds, p, target) == covered(bounds, q, target),
    decreases p.len(),
{
    if p.len() > 0 {
        lemma_path_step(p, p.len());
        lemma_path_step(q, p.len());
        lemma_extent_below(bounds, p.len(), p[0]);
        lemma_extent_below(bounds, p.len(), q[0]);
        lemma_region_keeps_extent(bounds.quadrant(p[0]), p.drop_first());
        lemma_region_keeps_extent(bounds.quadrant(q[0]), q.drop_first());
        assert(bounds.quadrant(p[0]) == bounds.quadrant(q[0]));
        lemma_same_region_same_reach(
            bounds.quadrant(p[0]),
            p.drop_first(),
            q.drop_first(),
            target,
        );
    }
}

proof fn lemma_same_region_same_merge(
    bounds: Rect,
    p: Seq<int>,
    q: Seq<int>,
    updates: Seq<((i64, i64, i64, i64), CellState)>,
    before: CellState,
)
    requires
        bounds.in_range(),
        keeps_extent(bounds, p.len()),
        is_path(p, p.len()),
        is_path(q, p.len()),
        region(bounds, p) == region(bounds, q),
    ensures
        merged(bounds, p, updates, before) == merged(bounds, q, updates, before),
    decreases updates.len(),
{
    if updates.len() > 0 {
        lemma_same_region_same_reach(bounds, p, q, update_rect(updates.last()));
        lemma_same_region_same_merge(bounds, p, q, updates.drop_last(), before);
    }
}

/// A merge tells cells with the same rectangle as little apart as a scan does: whatever
/// is merged into a map in which they are alike, they stay so.
pub proof fn law_merges_keep_cells_alike(
    before: Quadtree,
    updates: Seq<((i64, i64, i64, i64), CellState)>,
    after: Quadtree,
)
    requires
        before.wf(),
        keeps_extent(before.bounds, before.max_depth as nat),
        cells_alike(before),
        after.bounds == before.bounds,
        after.max_depth == before.max_depth,
        forall|path: Seq<int>|
            before.is_cell(path) ==> #[trigger] after.cell(path) == merged(
                before.bounds,
                path,
                updates,
                before.cell(path),
            ),
    ensures
        cells_alike(after),
{
    let b = before.bounds;
    let depth = before.max_depth as nat;
    if b.w == 0 || b.h == 0 {
        assert forall|p: Seq<int>, q: Seq<int>|
            is_path(p, depth) && is_path(q, depth) && region(b, p) == region(
                b,
                q,
            ) implies #[trigger] after.root.at(p) == #[trigger] after.root.at(q) by {
            assert(before.is_cell(p) && before.is_cell(q));
            assert(before.root.at(p) == before.root.at(q));
            assert(after.cell(p) == merged(b, p, updates, before.cell(p)));
            assert(after.cell(q) == merged(b, q, updates, before.cell(q)));
            lemma_same_region_same_merge(b, p, q, updates, before.cell(p));
        }
    }
}

/// A scan does not tell cells with the same rectangle apart: where they are alike, they
/// stay so.
pub proof fn law_scans_keep_cells_alike(
    before: Quadtree,
    center: Vec2,
    radius: i64,
    env: Environment,
    tick: u64,
    after: Quadtree,
)
    requires
        before.wf(),
        before.bounds.upright(),
        cells_alike(before),
        after.bounds == before.bounds,
        after.max_depth == before.max_depth,
        forall|path: Seq<int>|
            before.is_cell(path) ==> #[trigger] after.cell(path) == if scanned(
                before.bounds,
                path,
                center,
                radius as int,
            ) {
                scan_state(env, before.cell_bounds(path), tick)
            } else {
                before.cell(path)
            },
    ensures
        cells_alike(after),
{
    let b = before.bounds;
    let depth = before.max_depth as nat;
    if b.w == 0 || b.h == 0 {
        assert forall|p: Seq<int>, q: Seq<int>|
            is_path(p, depth) && is_path(q, depth) && region(b, p) == region(
                b,
                q,
            ) implies #[trigger] after.root.at(p) == #[trigger] after.root.at(q) by {
            assert(before.is_cell(p) && before.is_cell(q));
            assert(before.root.at(p) == before.root.at(q));
            assert(after.cell(p) == after.root.at(p) && after.cell(q) == after.root.at(q));
            law_overlap_of_cell_is_enough(b, p, scan_area(center, radius as int));
            law_overlap_of_cell_is_enough(b, q, scan_area(center, radius as int));
        }
    }
}

/// The cells of a new map are alike.
pub proof fn law_new_maps_are_alike(tree: Quadtree)
    requires
        tree.root == QuadNode::Leaf(unseen()),
    ensures
        cells_alike(tree),
{
}

/// What a scan does to a cell. `m` is the middle of the cell. Where it is within the radius,
/// the cell is explored from now on, was seen at the tick of the scan, and holds an obstacle
/// exactly where one has an edge or more in common with it, whatever was known of it before.
/// Any other cell stays as it is.
pub proof fn law_scan_sees_what_is_near(
    before: Quadtree,
    center: Vec2,
    radius: i64,
    env: Environment,
    tick: u64,
    after: Quadtree,
    path: Seq<int>,
    m: (int, int),
)
    requires
        before.wf(),
        before.bounds.w >= 0 && before.bounds.h >= 0,
        center.in_range(),
        scan_area(center, radius as int).in_range(),
        -crate::geometry::COORD_LIMIT <= radius <= crate::geometry::COORD_LIMIT,
        before.is_cell(path),
        forall|path: Seq<int>|
            before.is_cell(path) ==> #[trigger] after.cell(path) == if scanned(
                before.bounds,
                path,
                center,
                radius as int,
            ) {
                scan_state(env, before.cell_bounds(path), tick)
            } else {
                before.cell(path)
            },
        2 * (m.0 - region(before.bounds, path).x) <= region(before.bounds, path).w <= 2 * (m.0
            - region(before.bounds, path).x) + 1,
        2 * (m.1 - region(before.bounds, path).y) <= region(before.bounds, path).h <= 2 * (m.1
            - region(before.bounds, path).y) + 1,
    ensures
        ({
            let r = region(before.bounds, path);
            let near = radius >= 0 && (m.0 - center.x) * (m.0 - center.x) + (m.1 - center.y) * (m.1
                - center.y) <= radius * radius;
            let s = after.cell(path);
            &&& !near ==> s == before.cell(path)
            &&& near ==> s.explored && s.last_seen == tick
            &&& near ==> (s.obstacle <==> exists|i: int|
                0 <= i < env.obstacles@.len() && {
                    let o = (#[trigger] env.obstacles@[i]).rect;
                    o.x - r.w <= r.x <= o.x + o.w && o.y - r.h <= r.y <= o.y + o.h
                })
        }),
{
    let r = region(before.bounds, path);
    lemma_region_inside(before.bounds, path);
    law_scan_marks_disc(before.bounds, path, center, radius);
    law_middle_is_halfway(r);
    assert(r.middle().x == m.0 && r.middle().y == m.1);
    law_blocked_by_what_overlaps(env, r);
    assert(after.cell(path) == if scanned(before.bounds, path, center, radius as int) {
        scan_state(env, before.cell_bounds(path), tick)
    } else {
        before.cell(path)
    });
}

/// The cells of bounds that divide evenly are all as wide and as high as the bounds,
/// divided by two as often as their path is long, and lie in the bounds.
pub proof fn law_cells_are_of_one_size(bounds: Rect, path: Seq<int>)
    requires
        bounds.in_range(),
        bounds.w >= 0 && bounds.h >= 0,
        divides_evenly(bounds.w as int, bounds.h as int, path.len()),
    ensures
        region(bounds, path).w * pow2(path.len()) == bounds.w,
        region(bounds, path).h * pow2(path.len()) == bounds.h,
        bounds.x <= region(bounds, path).x,
        region(bounds, path).x + region(bounds, path).w <= bounds.x + bounds.w,
        bounds.y <= region(bounds, path).y,
        region(bounds, path).y + region(bounds, path).h <= bounds.y + bounds.h,
    decreases path.len(),
{
    lemma2_to64();
    lemma_region_inside(bounds, path);
    if path.len() > 0 {
        let q = bounds.quadrant(path[0]);
        let rest = path.drop_first();
        lemma_quadrant_inside(bounds, path[0]);
        law_cells_are_of_one_size(q, rest);
        lemma_pow2_unfold(path.len());
        let (w, h, p) = (
            region(q, rest).w as int,
            region(q, rest).h as int,
            pow2(rest.len()) as int,
        );
        assert(w * (2 * p) == 2 * (w * p) && h * (2 * p) == 2 * (h * p)) by (nonlinear_arith);
    }
}

/// Different cells of bounds that have an extent and divide evenly have nothing but edges
/// in common.
pub proof fn law_cells_are_apart(bounds: Rect, p: Seq<int>, q: Seq<int>)
    requires
        bounds.in_range(),
        bounds.w > 0 && bounds.h > 0,
        divides_evenly(bounds.w as int, bounds.h as int, p.len()),
        is_path(p, p.len()),
        is_path(q, p.len()),
        p != q,
    ensures
        !region(bounds, p).meets(region(bounds, q)),
    decreases p.len(),
{
    if p.len() == 0 {
        assert(p =~= q);
    } else {
        let d = (p.len() - 1) as nat;
        lemma_path_step(p, p.len());
        lemma_path_step(q, p.len());
        law_even_division_keeps_extent(bounds, p.len());
        lemma_extent_below(bounds, p.len(), p[0]);
        lemma_extent_below(bounds, p.len(), q[0]);
        let bp = bounds.quadrant(p[0]);
        let bq = bounds.quadrant(q[0]);
        lemma_region_keeps_extent(bp, p.drop_first());
        lemma_region_keeps_extent(bq, q.drop_first());
        if p[0] == q[0] {
            if p.drop_first() == q.drop_first() {
                assert(p =~= seq![p[0]] + p.drop_first());
                assert(q =~= seq![q[0]] + q.drop_first());
            }
            law_cells_are_apart(bp, p.drop_first(), q.drop_first());
        } else {
            assert(!bp.meets(bq));
        }
    }
}

/// What the map knows of a point is what it knows of the cell around it. Of several cells
/// with the point on their edges, that to the right of it and below it counts.
pub proof fn law_point_is_looked_up_in_its_cell(tree: Quadtree, p: Vec2, path: Seq<int>)
    requires
        tree.wf(),
        tree.bounds.w >= 0 && tree.bounds.h >= 0,
        divides_evenly(tree.bounds.w as int, tree.bounds.h as int, tree.max_depth as nat),
        tree.is_cell(path),
        ({
            let r = region(tree.bounds, path);
            r.x <= p.x < r.x + r.w && r.y <= p.y < r.y + r.h
        }),
    ensures
        tree.known(p) == Some(tree.cell(path)),
{
    lemma_region_inside(tree.bounds, path);
    lemma_path_to_is(tree.bounds, p, path);
}

/// Nothing is known of a point off the map, and something of every other.
pub proof fn law_only_points_on_the_map_are_known(tree: Quadtree, p: Vec2)
    ensures
        tree.known(p) is None <==> p.x < tree.bounds.x || p.x > tree.bounds.x + tree.bounds.w || p.y
            < tree.bounds.y || p.y > tree.bounds.y + tree.bounds.h,
{
}

proof fn lemma_path_to_is(bounds: Rect, p: Vec2, path: Seq<int>)
    requires
        bounds.in_range(),
        bounds.w >= 0 && bounds.h >= 0,
        divides_evenly(bounds.w as int, bounds.h as int, path.len()),
        is_path(path, path.len()),
        region(bounds, path).x <= p.x < region(bounds, path).right(),
        region(bounds, path).y <= p.y < region(bounds, path).bottom(),
    ensures
        path_to(bounds, p, path.len()) == path,
    decreases path.len(),
{
    if path.len() == 0 {
        assert(path_to(bounds, p, 0) =~= path);
    } else {
        lemma_path_step(path, path.len());
        let i = path[0];
        let q = bounds.quadrant(i);
        lemma_quadrant_inside(bounds, i);
        lemma_region_inside(q, path.drop_first());
        assert(side(bounds, p) == i);
        lemma_path_to_is(q, p, path.drop_first());
        assert(path =~= seq![i] + path.drop_first());
    }
}

/// A difference tells only of what is explored and was seen at `since` or later, and of
/// all of it: every such cell lies in the region of an update with exactly its state, and
/// every update has the state of some cell.
pub proof fn law_diff_tells_what_was_seen_since(tree: Quadtree, since: u64)
    requires
        tree.wf(),
        tree.bounds.w >= 0 && tree.bounds.h >= 0,
    ensures
        forall|k: int|
            0 <= k < updates_since(tree, since).len() ==> {
                let u = #[trigger] updates_since(tree, since)[k];
                u.1.explored && u.1.last_seen >= since && exists|path: Seq<int>|
                    tree.is_cell(path) && #[trigger] tree.cell(path) == u.1
            },
        forall|path: Seq<int>|
            #![trigger tree.cell(path)]
            tree.is_cell(path) && tree.cell(path).explored && tree.cell(path).last_seen >= since
                ==> exists|k: int|
                0 <= k < updates_since(tree, since).len() && {
                    let u = #[trigger] updates_since(tree, since)[k];
                    let r = region(tree.bounds, path);
                    &&& u.1 == tree.cell(path)
                    &&& u.0.0 <= r.x && r.x + r.w <= u.0.0 + u.0.2
                    &&& u.0.1 <= r.y && r.y + r.h <= u.0.1 + u.0.3
                },
{
    let all = leaves(tree.root, tree.bounds);
    let f = seen_since(since);
    let kept = all.filter(f);
    let updates = updates_since(tree, since);
    let depth = tree.max_depth as nat;
    assert forall|k: int| 0 <= k < updates.len() implies {
        let u = #[trigger] updates[k];
        u.1.explored && u.1.last_seen >= since && exists|path: Seq<int>|
            tree.is_cell(path) && #[trigger] tree.cell(path) == u.1
    } by {
        assert(kept.contains(kept[k]));
        all.lemma_filter_contains_rev(f, kept[k]);
        let i = choose|i: int| 0 <= i < all.len() && all[i] == kept[k];
        broadcast use vstd::seq_lib::group_filter_ensures;

        assert(f(kept[k]));
        let path = lemma_leaf_is_a_cell(tree.root, tree.bounds, depth, i);
        assert(tree.is_cell(path) && tree.cell(path) == updates[k].1);
    }
    assert forall|path: Seq<int>|
        #![trigger tree.cell(path)]
        tree.is_cell(path) && tree.cell(path).explored && tree.cell(path).last_seen
            >= since implies exists|k: int|
        0 <= k < updates.len() && {
            let u = #[trigger] updates[k];
            let r = region(tree.bounds, path);
            &&& u.1 == tree.cell(path)
            &&& u.0.0 <= r.x && r.x + r.w <= u.0.0 + u.0.2
            &&& u.0.1 <= r.y && r.y + r.h <= u.0.1 + u.0.3
        } by {
        let i = lemma_leaf_holds_cell(tree.root, tree.bounds, path, depth);
        broadcast use vstd::seq_lib::group_filter_ensures;

        assert(f(all[i]));
        assert(kept.contains(all[i]));
        let k = choose|k: int| 0 <= k < kept.len() && kept[k] == all[i];
        assert(updates[k] == as_update(all[i]));
    }
}

proof fn lemma_leaf_holds_cell(node: QuadNode, bounds: Rect, path: Seq<int>, depth: nat) -> (i: int)
    requires
        node.fits(depth),
        is_path(path, depth),
        bounds.in_range(),
        bounds.upright(),
    ensures
        0 <= i < leaves(node, bounds).len(),
        leaves(node, bounds)[i].1 == node.at(path),
        leaves(node, bounds)[i].0.encloses(region(bounds, path)),
    decreases node,
{
    lemma_region_inside(bounds, path);
    match node {
        QuadNode::Leaf(s) => { 0 },
        QuadNode::Internal(q) => {
            lemma_path_step(path, depth);
            let k = path[0];
            let rest = path.drop_first();
            lemma_quadrant_inside(bounds, k);
            let j = lemma_leaf_holds_cell(q.child(k), bounds.quadrant(k), rest, (depth - 1) as nat);
            lemma_leaf_number(node, bounds, k, j)
        },
    }
}

/// A further update decides on the cells that it reaches, and on no others.
pub proof fn law_last_update_decides(
    bounds: Rect,
    path: Seq<int>,
    updates: Seq<((i64, i64, i64, i64), CellState)>,
    update: ((i64, i64, i64, i64), CellState),
    before: CellState,
)
    ensures
        ({
            let target = Rect { x: update.0.0, y: update.0.1, w: update.0.2, h: update.0.3 };
            let after = merged(bounds, path, updates.push(update), before);
            &&& covered(bounds, path, target) ==> after == update.1
            &&& !covered(bounds, path, target) ==> after == merged(bounds, path, updates, before)
        }),
        merged(bounds, path, Seq::empty(), before) == before,
{
    assert(updates.push(update).drop_last() =~= updates);
}

/// An update of a region that differs from the whole map by less than a tenth of a pixel in
/// its corner and its extents reaches every cell, if the two share more than edges; an
/// update that shares no more than edges with the map reaches none.
pub proof fn law_update_of_all_reaches_all(bounds: Rect, path: Seq<int>, target: Rect)
    ensures
        !bounds.meets(target) ==> !covered(bounds, path, target),
        bounds.meets(target) && -429_496_736 < bounds.x - target.x < 429_496_736 && -429_496_736
            < bounds.y - target.y < 429_496_736 && -429_496_736 < bounds.w - target.w < 429_496_736
            && -429_496_736 < bounds.h - target.h < 429_496_736 ==> covered(bounds, path, target),
{
}

/// Each explored region adds its width times its height to the explored area, whether it
/// holds an obstacle or not and whenever it was seen, and no other region adds anything.
pub proof fn law_explored_regions_add_their_area(
    regions: Seq<(Rect, CellState)>,
    r: Rect,
    s: CellState,
)
    ensures
        explored_part(Seq::empty()) == 0,
        s.explored ==> explored_part(regions.push((r, s))) == explored_part(regions) + r.w * r.h,
        !s.explored ==> explored_part(regions.push((r, s))) == explored_part(regions),
{
    assert(regions.push((r, s)).drop_last() =~= regions);
}

/// A map whose cells all have the same state is one region, its bounds: all of it is
/// explored, or nothing is.
pub proof fn law_uniform_map_is_one_region(tree: Quadtree, s: CellState)
    requires
        tree.wf(),
        forall|path: Seq<int>| tree.is_cell(path) ==> #[trigger] tree.cell(path) == s,
    ensures
        leaves(tree.root, tree.bounds) == seq![(tree.bounds, s)],
        explored_part(leaves(tree.root, tree.bounds)) == (if s.explored {
            tree.bounds.w * tree.bounds.h
        } else {
            0
        }),
{
    let flat = Quadtree { root: QuadNode::Leaf(s), ..tree };
    law_same_cells_same_tree(tree, flat);
    let none = Seq::<(Rect, CellState)>::empty();
    law_explored_regions_add_their_area(none, tree.bounds, s);
    assert(none.push((tree.bounds, s)) =~= seq![(tree.bounds, s)]);
}

/// How an update is handed down: a cell is reached where it has something to do with the
/// region, and larger bounds hand the update to the quarter with the cell, unless they differ
/// from the region by less than a tenth of a pixel everywhere.
pub proof fn law_updates_are_handed_to_quarters(bounds: Rect, path: Seq<int>, target: Rect)
    ensures
        path.len() == 0 ==> (covered(bounds, path, target) <==> bounds.meets(target)),
        path.len() > 0 && bounds.meets(target) && (bounds.x - target.x >= 429_496_736 || bounds.x
            - target.x <= -429_496_736 || bounds.y - target.y >= 429_496_736 || bounds.y - target.y
            <= -429_496_736 || bounds.w - target.w >= 429_496_736 || bounds.w - target.w
            <= -429_496_736 || bounds.h - target.h >= 429_496_736 || bounds.h - target.h
            <= -429_496_736) ==> covered(bounds, path, target) == covered(
            bounds.quadrant(path[0]),
            path.drop_first(),
            target,
        ),
{
}

/// An undivided map is one region. The regions of a divided map are those of its upper left,
/// upper right, lower left and lower right quarter, one behind the other.
pub proof fn law_regions_are_listed_quarter_by_quarter(
    s: CellState,
    q: crate::quadtree::Quads,
    bounds: Rect,
)
    ensures
        leaves(QuadNode::Leaf(s), bounds).len() == 1,
        leaves(QuadNode::Leaf(s), bounds)[0] == (bounds, s),
        ({
            let all = leaves(QuadNode::Internal(Box::new(q)), bounds);
            let upper_left = leaves(q.top_left, bounds.quadrant(0));
            let upper_right = leaves(q.top_right, bounds.quadrant(1));
            let lower_left = leaves(q.bottom_left, bounds.quadrant(2));
            let lower_right = leaves(q.bottom_right, bounds.quadrant(3));
            let a = upper_left.len() as int;
            let b = a + upper_right.len();
            let c = b + lower_left.len();
            &&& all.len() == c + lower_right.len()
            &&& all.subrange(0, a) == upper_left
            &&& all.subrange(a, b) == upper_right
            &&& all.subrange(b, c) == lower_left
            &&& all.skip(c) == lower_right
        }),
{
    let all = leaves(QuadNode::Internal(Box::new(q)), bounds);
    let upper_left = leaves(q.top_left, bounds.quadrant(0));
    let upper_right = leaves(q.top_right, bounds.quadrant(1));
    let lower_left = leaves(q.bottom_left, bounds.quadrant(2));
    let lower_right = leaves(q.bottom_right, bounds.quadrant(3));
    let a = upper_left.len() as int;
    let b = a + upper_right.len();
    let c = b + lower_left.len();
    assert(all.subrange(0, a) =~= upper_left);
    assert(all.subrange(a, b) =~= upper_right);
    assert(all.subrange(b, c) =~= lower_left);
    assert(all.skip(c) =~= lower_right);
}

/// The updates since a tick are the regions that are explored and were seen at that tick or
/// later, with their corners, their extents and their states, in the order of the regions:
/// `chosen` gives the number of the region for each.
pub proof fn law_updates_are_the_regions_seen_since(tree: Quadtree, since: u64) -> (chosen:
    Seq<int>)
    ensures
        chosen.len() == updates_since(tree, since).len(),
        forall|k: int|
            0 <= k < chosen.len() ==> {
                let i = #[trigger] chosen[k];
                let u = updates_since(tree, since)[k];
                let e = leaves(tree.root, tree.bounds)[i];
                &&& 0 <= i < leaves(tree.root, tree.bounds).len()
                &&& u.0 == (e.0.x, e.0.y, e.0.w, e.0.h)
                &&& u.1 == e.1
            },
        forall|k: int, l: int|
            0 <= k < l < chosen.len() ==> #[trigger] chosen[k] < #[trigger] chosen[l],
        forall|i: int|
            0 <= i < leaves(tree.root, tree.bounds).len() ==> {
                let s = (#[trigger] leaves(tree.root, tree.bounds)[i]).1;
                chosen.contains(i) <==> s.explored && s.last_seen >= since
            },
{
    lemma_filter_chooses(leaves(tree.root, tree.bounds), seen_since(since))
}

/// Where the elements that a filter keeps come from.
proof fn lemma_filter_chooses<A>(all: Seq<A>, f: spec_fn(A) -> bool) -> (chosen: Seq<int>)
    ensures
        chosen.len() == all.filter(f).len(),
        forall|k: int|
            0 <= k < chosen.len() ==> 0 <= #[trigger] chosen[k] < all.len() && all.filter(f)[k]
                == all[chosen[k]],
        forall|k: int, l: int|
            0 <= k < l < chosen.len() ==> #[trigger] chosen[k] < #[trigger] chosen[l],
        forall|i: int| 0 <= i < all.len() ==> (chosen.contains(i) <==> f(#[trigger] all[i])),
    decreases all.len(),
{
    reveal(Seq::filter);
    if all.len() == 0 {
        Seq::empty()
    } else {
        let front = all.drop_last();
        let before = lemma_filter_chooses(front, f);
        let last = all.len() - 1;
        let chosen = if f(all.last()) {
            before.push(last)
        } else {
            before
        };
        assert forall|i: int| 0 <= i < all.len() implies (chosen.contains(i) <==> f(
            #[trigger] all[i],
        )) by {
            if i < last {
                assert(front[i] == all[i]);
                assert(before.contains(i) <==> f(front[i]));
                if before.contains(i) {
                    let k = choose|k: int| 0 <= k < before.len() && before[k] == i;
                    assert(chosen[k] == i);
                }
                if chosen.contains(i) {
                    let k = choose|k: int| 0 <= k < chosen.len() && chosen[k] == i;
                    assert(before[k] == i);
                }
            } else if f(all.last()) {
                assert(chosen[before.len() as int] == i);
            }
        }
        chosen
    }
}

/// A view shows the regions that are explored and have at least an edge in common with it,
/// each with its bounds and whether it holds an obstacle, in the order of the regions:
/// `chosen` gives the number of the region for each.
pub proof fn law_view_shows_regions_in_order(node: QuadNode, bounds: Rect, view: Rect) -> (chosen:
    Seq<int>)
    requires
        bounds.in_range(),
        bounds.w >= 0 && bounds.h >= 0,
    ensures
        chosen.len() == shown(node, bounds, view).len(),
        forall|k: int|
            0 <= k < chosen.len() ==> {
                let i = #[trigger] chosen[k];
                let e = leaves(node, bounds)[i];
                &&& 0 <= i < leaves(node, bounds).len()
                &&& shown(node, bounds, view)[k] == (e.0, e.1.obstacle)
            },
        forall|k: int, l: int|
            0 <= k < l < chosen.len() ==> #[trigger] chosen[k] < #[trigger] chosen[l],
        forall|i: int|
            0 <= i < leaves(node, bounds).len() ==> {
                let e = #[trigger] leaves(node, bounds)[i];
                let r = e.0;
                chosen.contains(i) <==> {
                    &&& e.1.explored
                    &&& r.x - view.x <= view.w && view.x - r.x <= r.w
                    &&& r.y - view.y <= view.h && view.y - r.y <= r.h
                }
            },
{
    law_view_shows_what_overlaps(node, bounds, view);
    lemma_filter_chooses(leaves(node, bounds), in_view(view))
}

/// A point is looked up in the right half of the bounds from their middle on, and in the lower
/// half likewise, and then in the quarter in the same way.
pub proof fn law_points_are_looked_up_by_halves(bounds: Rect, p: Vec2, depth: nat)
    requires
        depth > 0,
    ensures
        ({
            let path = path_to(bounds, p, depth);
            let m = bounds.middle();
            &&& p.x < m.x && p.y < m.y ==> path[0] == 0
            &&& p.x >= m.x && p.y < m.y ==> path[0] == 1
            &&& p.x < m.x && p.y >= m.y ==> path[0] == 2
            &&& p.x >= m.x && p.y >= m.y ==> path[0] == 3
            &&& path.drop_first() == path_to(
                bounds.quadrant(path[0]),
                p,
                (depth - 1) as nat,
            )
        }),
        path_to(bounds, p, 0).len() == 0,
{
    let i = side(bounds, p);
    let rest = path_to(bounds.quadrant(i), p, (depth - 1) as nat);
    assert((seq![i] + rest).drop_first() =~= rest);
}

/// Of a cell that was never scanned nothing is known: it is not explored, holds no obstacle,
/// and was last seen at tick zero.
pub proof fn law_unseen_cells_are_blank()
    ensures
        !unseen().explored && !unseen().obstacle && unseen().last_seen == 0,
{
}

/// A scan marks a cell exactly where its middle is within the radius and every region on the
/// way to the cell, from the whole map down to the cell itself, has at least an edge in
/// common with the square around the disc.
pub proof fn law_scan_goes_through_regions(
    bounds: Rect,
    path: Seq<int>,
    center: Vec2,
    radius: i64,
)
    requires
        scan_area(center, radius as int).in_range(),
        center.in_range(),
        -crate::geometry::COORD_LIMIT <= radius <= crate::geometry::COORD_LIMIT,
    ensures
        scanned(bounds, path, center, radius as int) <==> {
            &&& region(bounds, path).middle().within(center, radius as int)
            &&& forall|k: int|
                0 <= k <= path.len() ==> {
                    let r = #[trigger] region(bounds, path.take(k));
                    &&& r.x - center.x <= radius && center.x - r.x <= r.w + radius
                    &&& r.y - center.y <= radius && center.y - r.y <= r.h + radius
                }
        },
{
    lemma_all_touch(bounds, path, scan_area(center, radius as int));
    assert(scan_area(center, radius as int).x == center.x - radius);
    assert(scan_area(center, radius as int).y == center.y - radius);
    let area = scan_area(center, radius as int);
    if all_touch(bounds, path, area) {
        assert forall|k: int| 0 <= k <= path.len() implies {
            let r = #[trigger] region(bounds, path.take(k));
            &&& r.x - center.x <= radius && center.x - r.x <= r.w + radius
            &&& r.y - center.y <= radius && center.y - r.y <= r.h + radius
        } by {
            assert(region(bounds, path.take(k)).touches(area));
        }
    }
}

proof fn lemma_all_touch(bounds: Rect, path: Seq<int>, area: Rect)
    ensures
        all_touch(bounds, path, area) <==> forall|k: int|
            0 <= k <= path.len() ==> (#[trigger] region(bounds, path.take(k))).touches(area),
    decreases path.len(),
{
    let all = forall|k: int|
        0 <= k <= path.len() ==> (#[trigger] region(bounds, path.take(k))).touches(area);
    assert(path.take(0) =~= Seq::empty());
    assert(region(bounds, path.take(0)) == bounds);
    if path.len() > 0 {
        let q = bounds.quadrant(path[0]);
        let rest = path.drop_first();
        lemma_all_touch(q, rest, area);
        assert forall|k: int| 0 < k <= path.len() implies #[trigger] region(bounds, path.take(k))
            == region(q, rest.take(k - 1)) by {
            assert(path.take(k).drop_first() =~= rest.take(k - 1));
        }
        if all_touch(bounds, path, area) {
            assert forall|k: int| 0 <= k <= path.len() implies (#[trigger] region(
                bounds,
                path.take(k),
            )).touches(area) by {
                if k > 0 {
                    assert(region(q, rest.take(k - 1)).touches(area));
                }
            }
        }
        if all {
            assert forall|k: int| 0 <= k <= rest.len() implies (#[trigger] region(
                q,
                rest.take(k),
            )).touches(area) by {
                assert(region(bounds, path.take(k + 1)).touches(area));
            }
        }
    }
}

/// A view shows nothing of bounds without an edge in common with it, an undivided map where
/// it is explored, and of a divided one what it shows of the quarters, one behind the other.
pub proof fn law_view_goes_quarter_by_quarter(
    s: CellState,
    q: crate::quadtree::Quads,
    bounds: Rect,
    view: Rect,
)
    ensures
        ({
            let apart = bounds.x - view.x > view.w || view.x - bounds.x > bounds.w || bounds.y
                - view.y > view.h || view.y - bounds.y > bounds.h;
            let whole = shown(QuadNode::Leaf(s), bounds, view);
            let all = shown(QuadNode::Internal(Box::new(q)), bounds, view);
            &&& apart ==> whole.len() == 0 && all.len() == 0
            &&& !apart && !s.explored ==> whole.len() == 0
            &&& !apart && s.explored ==> whole.len() == 1 && whole[0] == (bounds, s.obstacle)
            &&& !apart ==> all == shown(q.top_left, bounds.quadrant(0), view) + shown(
                q.top_right,
                bounds.quadrant(1),
                view,
            ) + shown(q.bottom_left, bounds.quadrant(2), view) + shown(
                q.bottom_right,
                bounds.quadrant(3),
                view,
            )
        }),
{
}

} // verus!
