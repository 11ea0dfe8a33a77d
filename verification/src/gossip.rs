//! Parts of a map as drones send them to each other.
use crate::environment::{MAP_HEIGHT, MAP_WIDTH};
use crate::geometry::{clamped, half_of, spans_meet, Rect, COORD_LIMIT};
use crate::quadtree::{
    as_update, leaves, lemma_leaf_place, merged, seen_since, unseen, update_rect, updates_since,
    CellState, MapDiff, QuadNode, Quadtree,
};
use crate::quadtree_laws::{cells_differ, law_diff_reaches_peer, law_merge_synchronizes};
use crate::single::{
    doubled, halved, is_finite, is_single, law_bits_are_unique, law_single_reads_back,
    lemma_doubled_once_more, lemma_is_single, lemma_zero_is_single, read_single, read_sum, reading,
    stands_for, units_of, write_single, WIRE_LIMIT,
};
use crate::wire::{
    deserialize_diff, law_diff_reads_back, serialize_diff, DiffView, WireUpdate,
};
use vstd::prelude::*;

verus! {

/// How deep the map of the simulator is divided.
pub const MAP_DEPTH: u8 = 9;

/// A coordinate within its limits.
pub open spec fn clipped(v: int) -> int {
    clamped(v, -COORD_LIMIT as int, COORD_LIMIT as int)
}

/// Some of the span, with more than an end of it if there is more, lies within the limits
/// of coordinates.
pub open spec fn in_reach(start: int, end: int) -> bool {
    &&& start <= COORD_LIMIT && end >= -COORD_LIMIT
    &&& start < end ==> start < COORD_LIMIT && end > -COORD_LIMIT
}

/// Where a region starts and ends in one direction as it is read off the wire, clipped to
/// the limits of coordinates. There is no such place where it is not a number, where the
/// region starts infinitely far away, and where it lies beyond the limits, and so off
/// every map.
pub open spec fn wire_span(start: u32, extent: u32) -> Option<(int, int)> {
    match (reading(start), reading(extent)) {
        (Some(a), Some(d)) => if is_finite(start) && in_reach(a, a + d) {
            Some((clipped(a), clipped(a + d)))
        } else {
            None
        },
        _ => None,
    }
}

/// A region as it is read off the wire, clipped to the limits of coordinates.
pub open spec fn wire_rect(bits: (u32, u32, u32, u32)) -> Option<Rect> {
    match (wire_span(bits.0, bits.2), wire_span(bits.1, bits.3)) {
        (Some((left, right)), Some((top, bottom))) => Some(
            Rect {
                x: left as i64,
                y: top as i64,
                w: (right - left) as i64,
                h: (bottom - top) as i64,
            },
        ),
        _ => None,
    }
}

/// The state of a cell as it is read off the wire.
pub open spec fn wire_state(s: (bool, bool, u64)) -> CellState {
    CellState { explored: s.0, obstacle: s.1, last_seen: s.2 }
}

/// The updates as they are read off the wire. One without a region is left out.
pub open spec fn readable(s: Seq<WireUpdate>) -> Seq<((i64, i64, i64, i64), CellState)>
    decreases s.len(),
{
    if s.len() == 0 {
        Seq::empty()
    } else {
        let before = readable(s.drop_last());
        match wire_rect(s.last().0) {
            Some(r) => before.push(as_update((r, wire_state(s.last().1)))),
            None => before,
        }
    }
}

/// What goes over the wire for an update.
pub open spec fn wires(w: WireUpdate, u: ((i64, i64, i64, i64), CellState)) -> bool {
    &&& stands_for(w.0.0, u.0.0 as int)
    &&& stands_for(w.0.1, u.0.1 as int)
    &&& stands_for(w.0.2, u.0.2 as int)
    &&& stands_for(w.0.3, u.0.3 as int)
    &&& w.1 == (u.1.explored, u.1.obstacle, u.1.last_seen)
}

/// What goes over the wire for a list of updates.
pub open spec fn wires_all(
    w: Seq<WireUpdate>,
    s: Seq<((i64, i64, i64, i64), CellState)>,
) -> bool {
    &&& w.len() == s.len()
    &&& forall|k: int| 0 <= k < s.len() ==> wires(#[trigger] w[k], s[k])
}

impl MapDiff {
    /// The bytes that stand for the part of a map on the wire.
    pub fn to_bytes(&self) -> (res: Result<Vec<u8>, bincode::Error>)
        requires
            self.wf(),
        ensures
            res is Ok,
            exists|w: Seq<WireUpdate>| #[trigger]
                wires_all(w, self.updates@) && res->Ok_0@ == (DiffView {
                    timestamp: self.timestamp,
                    updates: w,
                }).encoding(),
    {
        let mut w: Vec<WireUpdate> = Vec::new();
        let mut i: usize = 0;
        while i < self.updates.len()
            invariant
                self.wf(),
                0 <= i <= self.updates@.len(),
                w@.len() == i,
                forall|k: int| 0 <= k < i ==> wires(#[trigger] w@[k], self.updates@[k]),
            decreases self.updates@.len() - i,
        {
            let (r, s): ((i64, i64, i64, i64), CellState) = self.updates[i];
            assert(update_rect(self.updates@[i as int]).in_range());
            w.push(
                (
                    (write_single(r.0), write_single(r.1), write_single(r.2), write_single(r.3)),
                    (s.explored, s.obstacle, s.last_seen),
                ),
            );
            i = i + 1;
        }
        assert(wires_all(w@, self.updates@));
        serialize_diff(self.timestamp, &w)
    }

    /// Reads a part of a map off the front of the bytes. `None` where they do not
    /// start with the bytes of any part of a map.
    pub fn from_bytes(bytes: &[u8]) -> (res: Option<Self>)
        ensures
            match res {
                Some(diff) => diff.wf() && exists|d: DiffView| #[trigger]
                    d.encoding().is_prefix_of(bytes@) && d.sendable() && diff.timestamp
                        == d.timestamp && diff.updates@ == readable(d.updates),
                None => forall|d: DiffView|
                    d.sendable() ==> !(#[trigger] d.encoding()).is_prefix_of(bytes@),
            },
    {
        match deserialize_diff(bytes) {
            Ok((timestamp, w)) => {
                let updates = read_updates(&w);
                proof {
                    let d = DiffView { timestamp, updates: w@ };
                    assert(w.len() == w@.len());
                    assert(d.encoding().is_prefix_of(bytes@));
                }
                Some(MapDiff { timestamp, updates })
            },
            Err(_) => None,
        }
    }
}

/// Brings a coordinate within its limits.
pub fn clip(v: i64) -> (c: i64)
    ensures
        c == clipped(v as int),
        -COORD_LIMIT <= c <= COORD_LIMIT,
{
    if v < -COORD_LIMIT {
        -COORD_LIMIT
    } else if v > COORD_LIMIT {
        COORD_LIMIT
    } else {
        v
    }
}

/// Reads where a region starts and ends in one direction.
fn read_span(start: u32, extent: u32) -> (res: Option<(i64, i64)>)
    ensures
        match res {
            Some(span) => wire_span(start, extent) == Some((span.0 as int, span.1 as int))
                && -COORD_LIMIT <= span.0 <= COORD_LIMIT && -COORD_LIMIT <= span.1 <= COORD_LIMIT,
            None => wire_span(start, extent) is None,
        },
{
    match (read_single(start), read_single(extent)) {
        (Some(a), Some(_)) => {
            let end: i64 = read_sum(start, extent);
            if start % 0x8000_0000 >= 0x7f80_0000 || a > COORD_LIMIT || end < -COORD_LIMIT || (a
                < end && (a == COORD_LIMIT || end == -COORD_LIMIT)) {
                None
            } else {
                Some((clip(a), clip(end)))
            }
        },
        _ => None,
    }
}

/// Reads a region off the wire.
fn read_rect(bits: (u32, u32, u32, u32)) -> (res: Option<Rect>)
    ensures
        res == wire_rect(bits),
        res matches Some(r) ==> r.in_range(),
{
    match (read_span(bits.0, bits.2), read_span(bits.1, bits.3)) {
        (Some((left, right)), Some((top, bottom))) => Some(
            Rect { x: left, y: top, w: right - left, h: bottom - top },
        ),
        _ => None,
    }
}

/// Reads updates off the wire.
fn read_updates(w: &Vec<WireUpdate>) -> (updates: Vec<((i64, i64, i64, i64), CellState)>)
    ensures
        updates@ == readable(w@),
        forall|k: int| 0 <= k < updates@.len() ==> update_rect(#[trigger] updates@[k]).in_range(),
{
    let mut updates: Vec<((i64, i64, i64, i64), CellState)> = Vec::new();
    let mut i: usize = 0;
    assert(w@.take(0) =~= Seq::empty());
    while i < w.len()
        invariant
            0 <= i <= w@.len(),
            updates@ == readable(w@.take(i as int)),
            forall|k: int|
                0 <= k < updates@.len() ==> update_rect(#[trigger] updates@[k]).in_range(),
        decreases w@.len() - i,
    {
        let (bits, s): ((u32, u32, u32, u32), (bool, bool, u64)) = w[i];
        assert(w@.take(i + 1).drop_last() =~= w@.take(i as int));
        if let Some(r) = read_rect(bits) {
            updates.push(
                (
                    (r.x, r.y, r.w, r.h),
                    CellState { explored: s.0, obstacle: s.1, last_seen: s.2 },
                ),
            );
        }
        i = i + 1;
    }
    assert(w@.take(w@.len() as int) =~= w@);
    updates
}

/// All four numbers of the update are single-precision numbers, and the region is
/// one that the arithmetic can hold.
pub open spec fn is_exact(u: ((i64, i64, i64, i64), CellState)) -> bool {
    &&& is_single(u.0.0 as int)
    &&& is_single(u.0.1 as int)
    &&& is_single(u.0.2 as int)
    &&& is_single(u.0.3 as int)
    &&& update_rect(u).in_range()
}

/// Updates whose numbers are single-precision numbers are read as they were
/// written.
pub proof fn law_exact_updates_read_back(
    w: Seq<WireUpdate>,
    s: Seq<((i64, i64, i64, i64), CellState)>,
)
    requires
        wires_all(w, s),
        forall|k: int| 0 <= k < s.len() ==> is_exact(#[trigger] s[k]),
    ensures
        readable(w) == s,
    decreases s.len(),
{
    if s.len() == 0 {
        assert(readable(w) =~= s);
    } else {
        let u = s.last();
        let l = w.last();
        assert(wires(w[w.len() - 1], s[s.len() - 1]));
        assert(is_exact(s[s.len() - 1]));
        lemma_coordinate(u.0.0, l.0.0);
        lemma_coordinate(u.0.1, l.0.1);
        lemma_coordinate(u.0.2, l.0.2);
        lemma_coordinate(u.0.3, l.0.3);
        let ws = w.drop_last();
        let ss = s.drop_last();
        assert forall|k: int| 0 <= k < ss.len() implies wires(#[trigger] ws[k], ss[k]) by {
            assert(wires(w[k], s[k]));
        }
        assert forall|k: int| 0 <= k < ss.len() implies is_exact(#[trigger] ss[k]) by {
            assert(is_exact(s[k]));
        }
        law_exact_updates_read_back(ws, ss);
        assert(wire_rect(l.0) == Some(update_rect(u)));
        assert(as_update((update_rect(u), wire_state(l.1))) == u);
        assert(readable(w) =~= s);
    }
}

proof fn lemma_coordinate(v: i64, bits: u32)
    requires
        is_single(v as int),
        -WIRE_LIMIT <= v <= WIRE_LIMIT,
        stands_for(bits, v as int),
    ensures
        reading(bits) == Some(v as int),
        is_finite(bits),
{
    let exact = choose|b: u32| #[trigger] units_of(b) == Some(v as int);
    law_single_reads_back(v as int, exact, bits);
}

/// A square that lies on the lattice of the smallest cells of the simulator's map:
/// `p` cells wide, with its corner in column `kx` and row `ky`.
spec fn on_lattice(r: Rect, kx: int, ky: int, p: int) -> bool {
    &&& 0 <= kx && kx + p <= 512
    &&& 0 <= ky && ky + p <= 512
    &&& 0 < p
    &&& r.x == kx * 83_886_080_000
    &&& r.y == ky * 83_886_080_000
    &&& r.w == p * 83_886_080_000
    &&& r.h == p * 83_886_080_000
}

proof fn lemma_multiple_is_single(k: int)
    requires
        0 <= k <= 512,
    ensures
        is_single(k * 83_886_080_000),
{
    if k == 0 {
        lemma_zero_is_single();
    } else {
        reveal_with_fuel(doubled, 24);
        assert(doubled(k * 10_000, 23) == k * 83_886_080_000);
        lemma_is_single(k * 10_000, 23);
    }
}

proof fn lemma_exact_leaves(node: QuadNode, bounds: Rect, depth: nat, kx: int, ky: int)
    requires
        node.fits(depth),
        on_lattice(bounds, kx, ky, doubled(1, depth)),
    ensures
        forall|i: int|
            0 <= i < leaves(node, bounds).len() ==> is_exact(
                as_update(#[trigger] leaves(node, bounds)[i]),
            ),
    decreases node,
{
    let p = doubled(1, depth);
    match node {
        QuadNode::Leaf(s) => {
            lemma_multiple_is_single(kx);
            lemma_multiple_is_single(ky);
            lemma_multiple_is_single(p);
            assert(update_rect(as_update((bounds, s))).in_range());
        },
        QuadNode::Internal(q) => {
            let d = (depth - 1) as nat;
            let half = doubled(1, d);
            lemma_doubled_once_more(1, d);
            assert(p == 2 * half);
            assert(half_of(bounds.w as int) == half * 83_886_080_000);
            let b0 = bounds.quadrant(0);
            let b1 = bounds.quadrant(1);
            let b2 = bounds.quadrant(2);
            let b3 = bounds.quadrant(3);
            lemma_exact_leaves(q.top_left, b0, d, kx, ky);
            lemma_exact_leaves(q.top_right, b1, d, kx + half, ky);
            lemma_exact_leaves(q.bottom_left, b2, d, kx, ky + half);
            lemma_exact_leaves(q.bottom_right, b3, d, kx + half, ky + half);
            let all = leaves(node, bounds);
            assert forall|i: int| 0 <= i < all.len() implies is_exact(
                as_update(#[trigger] all[i]),
            ) by {
                let (k, j) = lemma_leaf_place(node, bounds, i);
                assert(is_exact(as_update(leaves(q.child(k), bounds.quadrant(k))[j])));
            }
        },
    }
}

/// What a drone sends of a map of the simulator's size is read as it was written,
/// whatever follows in the same bytes.
pub proof fn law_map_survives_the_wire(
    tree: Quadtree,
    since: u64,
    sent: DiffView,
    bytes: Seq<u8>,
    read: DiffView,
)
    requires
        tree.wf(),
        tree.bounds == (Rect { x: 0, y: 0, w: MAP_WIDTH, h: MAP_HEIGHT }),
        tree.max_depth == MAP_DEPTH,
        sent.timestamp == since,
        wires_all(sent.updates, updates_since(tree, since)),
        sent.sendable(),
        sent.encoding().is_prefix_of(bytes),
        read.sendable(),
        read.encoding().is_prefix_of(bytes),
    ensures
        read.timestamp == since,
        readable(read.updates) == updates_since(tree, since),
{
    law_diff_reads_back(sent, read, bytes);
    let all = leaves(tree.root, tree.bounds);
    let kept = all.filter(seen_since(since));
    let updates = updates_since(tree, since);
    reveal_with_fuel(doubled, 10);
    assert(doubled(1, 9) == 512);
    lemma_exact_leaves(tree.root, tree.bounds, 9, 0, 0);
    assert forall|k: int| 0 <= k < updates.len() implies is_exact(#[trigger] updates[k]) by {
        assert(kept.contains(kept[k]));
        all.lemma_filter_contains_rev(seen_since(since), kept[k]);
        let i = choose|i: int| 0 <= i < all.len() && all[i] == kept[k];
        assert(is_exact(as_update(all[i])));
    }
    law_exact_updates_read_back(sent.updates, updates);
}

/// What a drone has seen reaches a peer over the wire: a cell that is explored and was
/// seen at `since` or later is so for the peer too, once it has merged what it read
/// off the bytes, whatever it knew before.
pub proof fn law_gossip_reaches_peer(
    tree: Quadtree,
    since: u64,
    sent: DiffView,
    bytes: Seq<u8>,
    read: DiffView,
    path: Seq<int>,
    before: CellState,
)
    requires
        tree.wf(),
        tree.bounds == (Rect { x: 0, y: 0, w: MAP_WIDTH, h: MAP_HEIGHT }),
        tree.max_depth == MAP_DEPTH,
        sent.timestamp == since,
        wires_all(sent.updates, updates_since(tree, since)),
        sent.sendable(),
        sent.encoding().is_prefix_of(bytes),
        read.sendable(),
        read.encoding().is_prefix_of(bytes),
        tree.is_cell(path),
        tree.cell(path).explored,
        tree.cell(path).last_seen >= since,
    ensures
        merged(tree.bounds, path, readable(read.updates), before).explored,
        merged(tree.bounds, path, readable(read.updates), before).last_seen >= since,
{
    law_map_survives_the_wire(tree, since, sent, bytes, read);
    law_diff_reaches_peer(tree, since, path, before);
}

/// The smallest cells of the simulator's map are wide enough to be told apart.
proof fn lemma_map_cells(bounds: Rect)
    requires
        bounds == (Rect { x: 0, y: 0, w: MAP_WIDTH, h: MAP_HEIGHT }),
    ensures
        cells_differ(bounds, MAP_DEPTH as nat),
{
    reveal_with_fuel(halved, 10);
    assert(halved(42_949_672_960_000, 9) == 83_886_080_000);
}

/// A peer that knew nothing and reads off the wire everything that a drone has
/// explored has the same map: both then have the same differences.
pub proof fn law_gossip_synchronizes(
    tree: Quadtree,
    sent: DiffView,
    bytes: Seq<u8>,
    read: DiffView,
    after: Quadtree,
)
    requires
        tree.wf(),
        tree.bounds == (Rect { x: 0, y: 0, w: MAP_WIDTH, h: MAP_HEIGHT }),
        tree.max_depth == MAP_DEPTH,
        sent.timestamp == 0,
        wires_all(sent.updates, updates_since(tree, 0)),
        sent.sendable(),
        sent.encoding().is_prefix_of(bytes),
        read.sendable(),
        read.encoding().is_prefix_of(bytes),
        after.wf(),
        after.bounds == tree.bounds,
        after.max_depth == tree.max_depth,
        forall|path: Seq<int>|
            tree.is_cell(path) ==> #[trigger] after.cell(path) == merged(
                tree.bounds,
                path,
                readable(read.updates),
                unseen(),
            ),
    ensures
        updates_since(after, 0) == updates_since(tree, 0),
{
    law_map_survives_the_wire(tree, 0, sent, bytes, read);
    lemma_map_cells(tree.bounds);
    law_merge_synchronizes(tree, after);
}

/// Only one sequence of bytes stands for a part of a map.
pub proof fn law_diff_bytes_are_unique(
    timestamp: u64,
    s: Seq<((i64, i64, i64, i64), CellState)>,
    first: Seq<WireUpdate>,
    second: Seq<WireUpdate>,
)
    requires
        wires_all(first, s),
        wires_all(second, s),
    ensures
        (DiffView { timestamp, updates: first }).encoding() == (DiffView {
            timestamp,
            updates: second,
        }).encoding(),
{
    assert forall|k: int| 0 <= k < s.len() implies first[k] == second[k] by {
        let (a, b, u) = (first[k], second[k], s[k]);
        assert(wires(a, u) && wires(b, u));
        law_bits_are_unique(u.0.0 as int, a.0.0, b.0.0);
        law_bits_are_unique(u.0.1 as int, a.0.1, b.0.1);
        law_bits_are_unique(u.0.2 as int, a.0.2, b.0.2);
        law_bits_are_unique(u.0.3 as int, a.0.3, b.0.3);
    }
    assert(first =~= second);
}

/// Clipping a region changes nothing for a map: in each direction, what a span within the
/// limits of coordinates shares more than an end with is the region as it was sent, with
/// its edges however far away, exactly where it is the region as it is read. A region that
/// is not read shares nothing with it.
pub proof fn law_clipping_changes_no_map(start: u32, extent: u32, lo: int, hi: int)
    requires
        reading(start) is Some && reading(extent) is Some,
        is_finite(start),
        reading(extent)->0 >= 0,
        -0x1000_0000_0000_0000 <= lo <= hi <= 0x1000_0000_0000_0000,
        lo < hi || (-0x1000_0000_0000_0000 < lo && hi < 0x1000_0000_0000_0000),
    ensures
        spans_meet(lo, hi, reading(start)->0, reading(start)->0 + reading(extent)->0) <==> {
            wire_span(start, extent) matches Some(s) && spans_meet(lo, hi, s.0, s.1)
        },
{
}

/// A region within the limits of coordinates is read with the numbers that were sent, and
/// its state as it was sent.
pub proof fn law_regions_in_range_are_read_as_sent(
    bits: (u32, u32, u32, u32),
    r: Rect,
    s: (bool, bool, u64),
)
    requires
        r.in_range(),
        reading(bits.0) == Some(r.x as int),
        reading(bits.1) == Some(r.y as int),
        reading(bits.2) == Some(r.w as int),
        reading(bits.3) == Some(r.h as int),
        is_finite(bits.0) && is_finite(bits.1),
    ensures
        wire_rect(bits) == Some(r),
        wire_state(s).explored == s.0,
        wire_state(s).obstacle == s.1,
        wire_state(s).last_seen == s.2,
{
}

/// Each update that is read is added with its region and its state behind those that were
/// read before, and one that has no region is passed over.
pub proof fn law_updates_are_read_in_order(s: Seq<WireUpdate>, u: WireUpdate)
    ensures
        readable(Seq::empty()).len() == 0,
        wire_rect(u.0) is None ==> readable(s.push(u)) == readable(s),
        wire_rect(u.0) matches Some(r) ==> readable(s.push(u)) == readable(s).push(
            (
                (r.x, r.y, r.w, r.h),
                CellState { explored: u.1.0, obstacle: u.1.1, last_seen: u.1.2 },
            ),
        ),
{
    assert(s.push(u).drop_last() =~= s);
}

/// A span is read where it starts at a finite number, its extent is a number, and it does not
/// lie beyond 2^60 units on either side; its ends are then cut off there.
pub proof fn law_spans_are_cut_at_the_limits(start: u32, extent: u32, a: int, d: int)
    requires
        reading(start) == Some(a),
        reading(extent) == Some(d),
    ensures
        ({
            let limit = 0x1000_0000_0000_0000int;
            let span = wire_span(start, extent);
            &&& span is Some <==> {
                &&& is_finite(start)
                &&& a <= limit && a + d >= -limit
                &&& d > 0 ==> a < limit && a + d > -limit
            }
            &&& span matches Some(s) ==> {
                &&& -limit <= a <= limit ==> s.0 == a
                &&& a < -limit ==> s.0 == -limit
                &&& a > limit ==> s.0 == limit
                &&& -limit <= a + d <= limit ==> s.1 == a + d
                &&& a + d > limit ==> s.1 == limit
                &&& a + d < -limit ==> s.1 == -limit
            }
        }),
{
}

/// A region is read where both its spans are, with their starts as its corner and their
/// lengths as its extents. A span without numbers is not read.
pub proof fn law_regions_are_read_by_their_spans(bits: (u32, u32, u32, u32))
    ensures
        reading(bits.0) is None || reading(bits.2) is None ==> wire_rect(bits) is None,
        reading(bits.1) is None || reading(bits.3) is None ==> wire_rect(bits) is None,
        wire_rect(bits) is Some <==> wire_span(bits.0, bits.2) is Some && wire_span(
            bits.1,
            bits.3,
        ) is Some,
        wire_rect(bits) matches Some(r) ==> {
            &&& wire_span(bits.0, bits.2) == Some((r.x as int, r.x + r.w))
            &&& wire_span(bits.1, bits.3) == Some((r.y as int, r.y + r.h))
        },
{
}

} // verus!
