//! The rasterized map on which frontiers are found and paths are planned.
use crate::geometry::Vec2;
use crate::sorting::{lemma_place, lemma_sort_push};
use vstd::prelude::*;
use vstd::relations::total_ordering;

verus! {

/// The side of a grid cell, 25 pixels.
pub const GRID_RES: i64 = 107_374_182_400;

/// Half the side of a grid cell.
pub const HALF_RES: i64 = 53_687_091_200;

pub const GRID_WIDTH: i32 = 400;

pub const GRID_HEIGHT: i32 = 400;

/// The number of grid cells.
pub const GRID_CELLS: usize = 160_000;

/// Grid cell state encoding used in the rasterized pathfinding grid.
pub const CELL_UNKNOWN: u8 = 0;

pub const CELL_EXPLORED: u8 = 1;

pub const CELL_OBSTACLE: u8 = 2;

/// The value of a frontier next to unknown ground.
pub const UNKNOWN_VALUE: u64 = 1_000_000;

/// An explored cell counts as stale when it was seen more ticks ago than this.
pub const STALE_TICKS: u64 = 600;

/// How many of the stalest cells are kept.
pub const STALE_KEPT: usize = 100;

/// The position lies on the grid.
pub open spec fn on_grid(x: int, y: int) -> bool {
    0 <= x < GRID_WIDTH && 0 <= y < GRID_HEIGHT
}

/// The number of a cell, row by row.
pub open spec fn cell_index(x: int, y: int) -> int {
    y * GRID_WIDTH + x
}

/// The column of a cell.
pub open spec fn cell_x(i: int) -> int {
    i % (GRID_WIDTH as int)
}

/// The row of a cell.
pub open spec fn cell_y(i: int) -> int {
    i / (GRID_WIDTH as int)
}

/// What the grid holds at a position.
pub open spec fn cell_at(grid: Seq<u8>, x: int, y: int) -> u8 {
    grid[cell_index(x, y)]
}

/// The middle of a grid cell on the map.
pub open spec fn cell_center(x: int, y: int) -> Vec2 {
    Vec2 { x: (x * GRID_RES + HALF_RES) as i64, y: (y * GRID_RES + HALF_RES) as i64 }
}

/// The two positions are neighbours, diagonals included.
pub open spec fn adjacent(x: int, y: int, nx: int, ny: int) -> bool {
    &&& -1 <= nx - x <= 1
    &&& -1 <= ny - y <= 1
    &&& !(nx == x && ny == y)
}

/// Some neighbour on the grid is unknown.
pub open spec fn borders_unknown(grid: Seq<u8>, x: int, y: int) -> bool {
    exists|nx: int, ny: int|
        adjacent(x, y, nx, ny) && on_grid(nx, ny) && #[trigger] cell_at(grid, nx, ny)
            == CELL_UNKNOWN
}

/// Cell `i` is explored and lies at the edge of the unknown.
pub open spec fn unknown_frontier(grid: Seq<u8>, i: int) -> bool {
    grid[i] == CELL_EXPLORED && borders_unknown(grid, cell_x(i), cell_y(i))
}

/// How many ticks ago cell `i` was seen.
pub open spec fn age(seen: Seq<u64>, tick: u64, i: int) -> int {
    if tick >= seen[i] {
        tick - seen[i]
    } else {
        0
    }
}

/// Cell `i` is explored, away from the unknown, and was seen long ago.
pub open spec fn stale(grid: Seq<u8>, seen: Seq<u64>, tick: u64, i: int) -> bool {
    &&& grid[i] == CELL_EXPLORED
    &&& !borders_unknown(grid, cell_x(i), cell_y(i))
    &&& age(seen, tick, i) > STALE_TICKS
}

/// The cells up to number `n`, in order.
pub open spec fn cells(n: nat) -> Seq<int> {
    Seq::new(n, |i: int| i)
}

/// Some cell before number `n` lies at the edge of the unknown.
pub open spec fn unknown_before(grid: Seq<u8>, n: int) -> bool {
    exists|j: int| 0 <= j < n && #[trigger] unknown_frontier(grid, j)
}

/// The explored cells at the edge of the unknown.
pub open spec fn at_the_edge(grid: Seq<u8>) -> spec_fn(int) -> bool {
    |i: int| unknown_frontier(grid, i)
}

/// The stale cells.
pub open spec fn is_stale(grid: Seq<u8>, seen: Seq<u64>, tick: u64) -> spec_fn(int) -> bool {
    |i: int| stale(grid, seen, tick, i)
}

/// The order of stale cells: the longest unseen first, and of two that were seen
/// at the same time the one with the smaller number.
pub open spec fn stalest_first(seen: Seq<u64>, tick: u64) -> spec_fn(int, int) -> bool {
    |a: int, b: int|
        age(seen, tick, a) > age(seen, tick, b) || (age(seen, tick, a) == age(seen, tick, b) && a
            <= b)
}

/// The first cells of a sequence, at most `k`.
pub open spec fn at_most(s: Seq<int>, k: nat) -> Seq<int> {
    if s.len() <= k {
        s
    } else {
        s.take(k as int)
    }
}

/// A cell as a frontier: its middle, and what exploring it is worth.
pub open spec fn as_frontier(i: int, value: int) -> (Vec2, u64) {
    (cell_center(cell_x(i), cell_y(i)), value as u64)
}

/// The frontiers of a grid: the explored cells at the edge of the unknown, or,
/// where there are none, the stalest explored cells with their ages.
pub open spec fn frontiers_of(grid: Seq<u8>, seen: Seq<u64>, tick: u64) -> Seq<(Vec2, u64)> {
    if unknown_before(grid, GRID_CELLS as int) {
        cells(GRID_CELLS as nat).filter(at_the_edge(grid)).map_values(
            |i: int| as_frontier(i, UNKNOWN_VALUE as int),
        )
    } else {
        at_most(
            cells(GRID_CELLS as nat).filter(is_stale(grid, seen, tick)).sort_by(
                stalest_first(seen, tick),
            ),
            STALE_KEPT as nat,
        ).map_values(|i: int| as_frontier(i, age(seen, tick, i)))
    }
}

/// Every cell has its own number, and every number its own cell.
pub proof fn lemma_cell_index(x: int, y: int)
    requires
        on_grid(x, y),
    ensures
        0 <= cell_index(x, y) < GRID_CELLS,
        cell_x(cell_index(x, y)) == x,
        cell_y(cell_index(x, y)) == y,
{
    assert(cell_index(x, y) == y * 400 + x);
    assert((y * 400 + x) / 400 == y);
    assert((y * 400 + x) % 400 == x);
}

pub proof fn lemma_cell_position(i: int)
    requires
        0 <= i < GRID_CELLS,
    ensures
        on_grid(cell_x(i), cell_y(i)),
        cell_index(cell_x(i), cell_y(i)) == i,
{
}

/// The middle of the grid cell at a position.
pub fn grid_center(x: i32, y: i32) -> (p: Vec2)
    requires
        on_grid(x as int, y as int),
    ensures
        p == cell_center(x as int, y as int),
        p.in_range(),
{
    Vec2 { x: x as i64 * GRID_RES + HALF_RES, y: y as i64 * GRID_RES + HALF_RES }
}

/// Reads the grid at a position, if it lies on it.
pub fn grid_cell(grid: &Vec<u8>, x: i32, y: i32) -> (res: Option<u8>)
    requires
        grid@.len() == GRID_CELLS,
    ensures
        res == if on_grid(x as int, y as int) {
            Some(cell_at(grid@, x as int, y as int))
        } else {
            None
        },
{
    if x >= 0 && x < GRID_WIDTH && y >= 0 && y < GRID_HEIGHT {
        proof {
            lemma_cell_index(x as int, y as int);
        }
        Some(grid[(y * GRID_WIDTH + x) as usize])
    } else {
        None
    }
}

/// Checks whether some neighbour is unknown.
fn has_unknown_neighbour(grid: &Vec<u8>, x: i32, y: i32) -> (res: bool)
    requires
        grid@.len() == GRID_CELLS,
        on_grid(x as int, y as int),
    ensures
        res == borders_unknown(grid@, x as int, y as int),
{
    let mut dx: i32 = -1;
    while dx <= 1
        invariant
            grid@.len() == GRID_CELLS,
            on_grid(x as int, y as int),
            -1 <= dx <= 2,
            forall|nx: int, ny: int|
                adjacent(x as int, y as int, nx, ny) && on_grid(nx, ny) && nx < x + dx
                    ==> #[trigger] cell_at(grid@, nx, ny) != CELL_UNKNOWN,
        decreases 2 - dx,
    {
        let mut dy: i32 = -1;
        while dy <= 1
            invariant
                grid@.len() == GRID_CELLS,
                on_grid(x as int, y as int),
                -1 <= dx <= 1,
                -1 <= dy <= 2,
                forall|nx: int, ny: int|
                    adjacent(x as int, y as int, nx, ny) && on_grid(nx, ny) && (nx < x + dx || (nx
                        == x + dx && ny < y + dy)) ==> #[trigger] cell_at(grid@, nx, ny)
                        != CELL_UNKNOWN,
            decreases 2 - dy,
        {
            if !(dx == 0 && dy == 0) {
                let cell = grid_cell(grid, x + dx, y + dy);
                if let Some(c) = cell {
                    if c == CELL_UNKNOWN {
                        assert(adjacent(x as int, y as int, x + dx, y + dy));
                        assert(cell_at(grid@, x + dx, y + dy) == CELL_UNKNOWN);
                        return true;
                    }
                }
            }
            dy = dy + 1;
        }
        dx = dx + 1;
    }
    false
}

proof fn lemma_stalest_first_is_total(seen: Seq<u64>, tick: u64)
    ensures
        total_ordering(stalest_first(seen, tick)),
{
}

/// The cells of a vector of cell numbers.
pub open spec fn as_cells(v: Seq<usize>) -> Seq<int> {
    v.map_values(|c: usize| c as int)
}

/// The ticks since a cell was seen.
fn cell_age(last_seen_grid: &Vec<u64>, current_tick: u64, i: usize) -> (a: u64)
    requires
        i < last_seen_grid@.len(),
    ensures
        a == age(last_seen_grid@, current_tick, i as int),
{
    let seen: u64 = last_seen_grid[i];
    if current_tick >= seen {
        current_tick - seen
    } else {
        0
    }
}

/// Adds a cell with a larger number to the list of the stalest ones.
fn insert_stale(
    stalest: &mut Vec<usize>,
    i: usize,
    last_seen_grid: &Vec<u64>,
    current_tick: u64,
    Ghost(all): Ghost<Seq<int>>,
)
    requires
        i < last_seen_grid@.len(),
        forall|k: int| 0 <= k < all.len() ==> 0 <= #[trigger] all[k] < i,
        as_cells(old(stalest)@) == at_most(
            all.sort_by(stalest_first(last_seen_grid@, current_tick)),
            STALE_KEPT as nat,
        ),
    ensures
        as_cells(final(stalest)@) == at_most(
            all.push(i as int).sort_by(stalest_first(last_seen_grid@, current_tick)),
            STALE_KEPT as nat,
        ),
{
    let ghost leq = stalest_first(last_seen_grid@, current_tick);
    let ghost sorted = all.sort_by(leq);
    let ghost kept = as_cells(stalest@);
    proof {
        lemma_stalest_first_is_total(last_seen_grid@, current_tick);
        all.lemma_sort_by_ensures(leq);
        assert forall|k: int| 0 <= k < sorted.len() implies 0 <= #[trigger] sorted[k] < i by {
            assert(sorted.contains(sorted[k]));
            assert(all.contains(sorted[k]));
        }
        assert(kept == at_most(sorted, STALE_KEPT as nat));
        assert(kept.len() == stalest@.len());
        assert(kept.len() <= sorted.len());
        assert forall|k: int| 0 <= k < stalest@.len() implies #[trigger] stalest@[k] == sorted[k] by {
            assert(kept[k] == stalest@[k]);
            assert(kept[k] == sorted[k]);
        }
    }
    let a: u64 = cell_age(last_seen_grid, current_tick, i);
    let mut pos: usize = stalest.len();
    while pos > 0 && cell_age(last_seen_grid, current_tick, stalest[pos - 1]) < a
        invariant
            pos <= stalest@.len(),
            stalest@.len() <= sorted.len(),
            i < last_seen_grid@.len(),
            a == age(last_seen_grid@, current_tick, i as int),
            forall|k: int| 0 <= k < sorted.len() ==> 0 <= #[trigger] sorted[k] < i,
            forall|k: int| 0 <= k < stalest@.len() ==> #[trigger] stalest@[k] == sorted[k],
            forall|k: int|
                pos <= k < stalest@.len() ==> age(last_seen_grid@, current_tick, #[trigger] sorted[k])
                    < a,
        decreases pos,
    {
        assert(stalest@[pos - 1] == sorted[pos - 1]);
        pos = pos - 1;
    }
    proof {
        assert forall|k: int| 0 <= k < pos implies leq(#[trigger] sorted[k], i as int) by {
            assert(stalest@[pos - 1] == sorted[pos - 1]);
            if k < pos - 1 {
                assert(leq(sorted[k], sorted[pos - 1]));
            }
        }
        let place = if pos < stalest@.len() {
            assert forall|k: int| pos <= k < sorted.len() implies leq(
                i as int,
                #[trigger] sorted[k],
            ) by {
                if k > pos {
                    assert(leq(sorted[pos as int], sorted[k]));
                }
                assert(age(last_seen_grid@, current_tick, sorted[pos as int]) < a);
            }
            pos as int
        } else {
            lemma_place(sorted, i as int, pos as int, leq)
        };
        lemma_sort_push(all, i as int, place, leq);
        let full = sorted.insert(place, i as int);
        assert(full == all.push(i as int).sort_by(leq));
        let grown = kept.insert(pos as int, i as int);
        assert(grown.len() == kept.len() + 1);
        assert(at_most(grown, STALE_KEPT as nat) =~= at_most(full, STALE_KEPT as nat));
        assert(as_cells(stalest@.insert(pos as int, i)) =~= grown);
    }
    stalest.insert(pos, i);
    let ghost inserted = stalest@;
    stalest.truncate(STALE_KEPT);
    assert(as_cells(stalest@) =~= at_most(as_cells(inserted), STALE_KEPT as nat));
}

proof fn lemma_filter_step(n: nat, f: spec_fn(int) -> bool)
    ensures
        cells(n + 1).filter(f) == if f(n as int) {
            cells(n).filter(f).push(n as int)
        } else {
            cells(n).filter(f)
        },
{
    reveal(Seq::filter);
    assert(cells(n + 1).drop_last() =~= cells(n));
}

proof fn lemma_filtered_cells(n: nat, f: spec_fn(int) -> bool)
    ensures
        forall|k: int| 0 <= k < cells(n).filter(f).len() ==> 0 <= #[trigger] cells(n).filter(f)[k] < n,
    decreases n,
{
    if n > 0 {
        lemma_filter_step((n - 1) as nat, f);
        lemma_filtered_cells((n - 1) as nat, f);
    } else {
        reveal(Seq::filter);
    }
}

/// Lists the frontiers of a grid.
pub fn find_frontiers(
    grid: &Vec<u8>,
    last_seen_grid: &Vec<u64>,
    current_tick: u64,
    frontiers: &mut Vec<(Vec2, u64)>,
)
    requires
        grid@.len() == GRID_CELLS,
        last_seen_grid@.len() == GRID_CELLS,
    ensures
        final(frontiers)@ == frontiers_of(grid@, last_seen_grid@, current_tick),
        forall|k: int| 0 <= k < final(frontiers)@.len() ==> (#[trigger] final(frontiers)@[k]).0.in_range(),
{
    frontiers.clear();
    let mut has_unknown_frontiers = false;
    let mut edge: Vec<usize> = Vec::new();
    let mut stalest: Vec<usize> = Vec::new();
    let ghost unknown = at_the_edge(grid@);
    let ghost old_cells = is_stale(grid@, last_seen_grid@, current_tick);
    let ghost leq = stalest_first(last_seen_grid@, current_tick);
    proof {
        reveal(Seq::filter);
        assert(cells(0) =~= Seq::empty());
        assert(as_cells(edge@) =~= cells(0).filter(unknown));
        lemma_stalest_first_is_total(last_seen_grid@, current_tick);
        Seq::<int>::empty().lemma_sort_by_ensures(leq);
        assert(cells(0).filter(old_cells).sort_by(leq) =~= Seq::empty()) by {
            let e = Seq::<int>::empty().sort_by(leq);
            assert(e.len() == 0) by {
                if e.len() > 0 {
                    assert(e.contains(e[0]));
                }
            }
        }
        assert(as_cells(stalest@) =~= at_most(
            cells(0).filter(old_cells).sort_by(leq),
            STALE_KEPT as nat,
        ));
    }
    let mut i: usize = 0;
    while i < GRID_CELLS
        invariant
            i <= GRID_CELLS,
            grid@.len() == GRID_CELLS,
            last_seen_grid@.len() == GRID_CELLS,
            unknown == at_the_edge(grid@),
            old_cells == is_stale(grid@, last_seen_grid@, current_tick),
            leq == stalest_first(last_seen_grid@, current_tick),
            has_unknown_frontiers == unknown_before(grid@, i as int),
            as_cells(edge@) == cells(i as nat).filter(unknown),
            !has_unknown_frontiers ==> as_cells(stalest@) == at_most(
                cells(i as nat).filter(old_cells).sort_by(leq),
                STALE_KEPT as nat,
            ),
        decreases GRID_CELLS - i,
    {
        proof {
            lemma_cell_position(i as int);
            lemma_filter_step(i as nat, unknown);
            lemma_filter_step(i as nat, old_cells);
            lemma_filtered_cells(i as nat, old_cells);
        }
        let ghost before = edge@;
        if grid[i] == CELL_EXPLORED {
            let x: i32 = (i % 400) as i32;
            let y: i32 = (i / 400) as i32;
            if has_unknown_neighbour(grid, x, y) {
                assert(unknown_frontier(grid@, i as int));
                edge.push(i);
                has_unknown_frontiers = true;
                assert(as_cells(edge@) =~= as_cells(before).push(i as int));
            } else if !has_unknown_frontiers {
                let a: u64 = cell_age(last_seen_grid, current_tick, i);
                if a > STALE_TICKS {
                    insert_stale(
                        &mut stalest,
                        i,
                        last_seen_grid,
                        current_tick,
                        Ghost(cells(i as nat).filter(old_cells)),
                    );
                }
            }
        }
        proof {
            assert(unknown_before(grid@, i + 1) == (unknown_before(grid@, i as int)
                || unknown_frontier(grid@, i as int)));
        }
        i = i + 1;
    }
    proof {
        lemma_filtered_cells(GRID_CELLS as nat, unknown);
        assert forall|k: int| 0 <= k < edge@.len() implies #[trigger] edge@[k] < GRID_CELLS by {
            assert(as_cells(edge@)[k] == edge@[k]);
        }
    }
    if has_unknown_frontiers {
        list_frontiers(&edge, None, current_tick, frontiers);
        assert(frontiers@ =~= frontiers_of(grid@, last_seen_grid@, current_tick));
    } else {
        proof {
            let all = cells(GRID_CELLS as nat).filter(old_cells);
            lemma_filtered_cells(GRID_CELLS as nat, old_cells);
            lemma_stalest_first_is_total(last_seen_grid@, current_tick);
            all.lemma_sort_by_ensures(leq);
            assert forall|k: int| 0 <= k < stalest@.len() implies #[trigger] stalest@[k] < GRID_CELLS by {
                let sorted = all.sort_by(leq);
                assert(as_cells(stalest@)[k] == stalest@[k]);
                assert(sorted.contains(sorted[k]));
                assert(all.contains(sorted[k]));
            }
        }
        list_frontiers(&stalest, Some(last_seen_grid), current_tick, frontiers);
        assert(frontiers@ =~= frontiers_of(grid@, last_seen_grid@, current_tick));
    }
}

/// Lists cells as frontiers, with their ages as values where the ticks at which
/// they were seen are given, and with `UNKNOWN_VALUE` otherwise.
fn list_frontiers(
    chosen: &Vec<usize>,
    last_seen_grid: Option<&Vec<u64>>,
    current_tick: u64,
    frontiers: &mut Vec<(Vec2, u64)>,
)
    requires
        old(frontiers)@.len() == 0,
        forall|k: int| 0 <= k < chosen@.len() ==> #[trigger] chosen@[k] < GRID_CELLS,
        last_seen_grid matches Some(g) ==> g@.len() == GRID_CELLS,
    ensures
        final(frontiers)@.len() == chosen@.len(),
        forall|k: int|
            0 <= k < chosen@.len() ==> #[trigger] final(frontiers)@[k] == as_frontier(
                chosen@[k] as int,
                match last_seen_grid {
                    Some(g) => age(g@, current_tick, chosen@[k] as int),
                    None => UNKNOWN_VALUE as int,
                },
            ) && final(frontiers)@[k].0.in_range(),
{
    let mut k: usize = 0;
    while k < chosen.len()
        invariant
            k <= chosen@.len(),
            frontiers@.len() == k,
            forall|j: int| 0 <= j < chosen@.len() ==> #[trigger] chosen@[j] < GRID_CELLS,
            last_seen_grid matches Some(g) ==> g@.len() == GRID_CELLS,
            forall|j: int|
                0 <= j < k ==> #[trigger] frontiers@[j] == as_frontier(
                    chosen@[j] as int,
                    match last_seen_grid {
                        Some(g) => age(g@, current_tick, chosen@[j] as int),
                        None => UNKNOWN_VALUE as int,
                    },
                ) && frontiers@[j].0.in_range(),
        decreases chosen@.len() - k,
    {
        let c: usize = chosen[k];
        proof {
            lemma_cell_position(c as int);
        }
        let center: Vec2 = grid_center((c % 400) as i32, (c / 400) as i32);
        let value: u64 = match last_seen_grid {
            Some(g) => cell_age(g, current_tick, c),
            None => UNKNOWN_VALUE,
        };
        frontiers.push((center, value));
        k = k + 1;
    }
}

proof fn lemma_filter_keeps(n: nat, f: spec_fn(int) -> bool, i: int)
    requires
        0 <= i < n,
        f(i),
    ensures
        cells(n).filter(f).contains(i),
    decreases n,
{
    lemma_filter_step((n - 1) as nat, f);
    let before = cells((n - 1) as nat).filter(f);
    if i == n - 1 {
        assert(before.push(i)[before.len() as int] == i);
    } else {
        lemma_filter_keeps((n - 1) as nat, f, i);
        let k = choose|k: int| 0 <= k < before.len() && before[k] == i;
        assert(cells(n).filter(f)[k] == i);
    }
}

proof fn lemma_filter_selects(n: nat, f: spec_fn(int) -> bool)
    ensures
        forall|k: int| 0 <= k < cells(n).filter(f).len() ==> f(#[trigger] cells(n).filter(f)[k]),
    decreases n,
{
    if n > 0 {
        lemma_filter_step((n - 1) as nat, f);
        lemma_filter_selects((n - 1) as nat, f);
    } else {
        reveal(Seq::filter);
    }
}

/// Every explored cell at the edge of the unknown is a frontier.
pub proof fn law_edge_is_frontier(grid: Seq<u8>, seen: Seq<u64>, tick: u64, i: int)
    requires
        0 <= i < GRID_CELLS,
        unknown_frontier(grid, i),
    ensures
        frontiers_of(grid, seen, tick).contains(as_frontier(i, UNKNOWN_VALUE as int)),
{
    let f = at_the_edge(grid);
    lemma_filter_keeps(GRID_CELLS as nat, f, i);
    let kept = cells(GRID_CELLS as nat).filter(f);
    let k = choose|k: int| 0 <= k < kept.len() && kept[k] == i;
    assert(frontiers_of(grid, seen, tick)[k] == as_frontier(i, UNKNOWN_VALUE as int));
}

/// Every frontier is the middle of an explored cell, which lies at the edge of the
/// unknown or is stale.
pub proof fn law_frontier_is_explored(grid: Seq<u8>, seen: Seq<u64>, tick: u64, k: int)
    requires
        0 <= k < frontiers_of(grid, seen, tick).len(),
    ensures
        exists|i: int|
            0 <= i < GRID_CELLS && #[trigger] worth_a_visit(grid, seen, tick, i) && grid[i]
                == CELL_EXPLORED && frontiers_of(grid, seen, tick)[k].0 == cell_center(
                cell_x(i),
                cell_y(i),
            ),
{
    let n = GRID_CELLS as nat;
    if unknown_before(grid, GRID_CELLS as int) {
        let f = at_the_edge(grid);
        lemma_filter_selects(n, f);
        lemma_filtered_cells(n, f);
        let i = cells(n).filter(f)[k];
        assert(worth_a_visit(grid, seen, tick, i));
    } else {
        let f = is_stale(grid, seen, tick);
        let leq = stalest_first(seen, tick);
        let all = cells(n).filter(f);
        lemma_filter_selects(n, f);
        lemma_filtered_cells(n, f);
        lemma_stalest_first_is_total(seen, tick);
        all.lemma_sort_by_ensures(leq);
        let sorted = all.sort_by(leq);
        let i = sorted[k];
        assert(sorted.contains(i));
        assert(all.contains(i));
        assert(worth_a_visit(grid, seen, tick, i));
    }
}

/// Cell `i` lies at the edge of the unknown or is stale.
pub open spec fn worth_a_visit(grid: Seq<u8>, seen: Seq<u64>, tick: u64, i: int) -> bool {
    unknown_frontier(grid, i) || stale(grid, seen, tick, i)
}

/// Nothing is left to explore exactly where no explored cell lies at the edge of
/// the unknown and none is stale.
pub proof fn law_complete_when_nothing_is_left(grid: Seq<u8>, seen: Seq<u64>, tick: u64)
    ensures
        frontiers_of(grid, seen, tick).len() > 0 <==> exists|i: int|
            0 <= i < GRID_CELLS && #[trigger] worth_a_visit(grid, seen, tick, i),
{
    let n = GRID_CELLS as nat;
    if frontiers_of(grid, seen, tick).len() > 0 {
        law_frontier_is_explored(grid, seen, tick, 0);
    }
    if exists|i: int| 0 <= i < GRID_CELLS && #[trigger] worth_a_visit(grid, seen, tick, i) {
        let i = choose|i: int| 0 <= i < GRID_CELLS && #[trigger] worth_a_visit(grid, seen, tick, i);
        if unknown_before(grid, GRID_CELLS as int) {
            let j = choose|j: int| 0 <= j < GRID_CELLS && #[trigger] unknown_frontier(grid, j);
            law_edge_is_frontier(grid, seen, tick, j);
        } else {
            let f = is_stale(grid, seen, tick);
            let leq = stalest_first(seen, tick);
            let all = cells(n).filter(f);
            assert(stale(grid, seen, tick, i));
            lemma_filter_keeps(n, f, i);
            lemma_stalest_first_is_total(seen, tick);
            all.lemma_sort_by_ensures(leq);
            assert(all.sort_by(leq).len() == all.len()) by {
                broadcast use vstd::seq_lib::group_to_multiset_ensures;

                assert(all.to_multiset().len() == all.sort_by(leq).to_multiset().len());
            }
        }
    }
}

/// While some explored cell lies at the edge of the unknown, all frontiers do, and all
/// are worth `UNKNOWN_VALUE`: no stale cell is among them.
pub proof fn law_unknown_comes_first(grid: Seq<u8>, seen: Seq<u64>, tick: u64, i: int, k: int)
    requires
        0 <= i < GRID_CELLS,
        unknown_frontier(grid, i),
        0 <= k < frontiers_of(grid, seen, tick).len(),
    ensures
        frontiers_of(grid, seen, tick)[k].1 == UNKNOWN_VALUE,
        exists|j: int|
            0 <= j < GRID_CELLS && #[trigger] unknown_frontier(grid, j) && frontiers_of(
                grid,
                seen,
                tick,
            )[k] == as_frontier(j, UNKNOWN_VALUE as int),
{
    let f = at_the_edge(grid);
    let n = GRID_CELLS as nat;
    lemma_filter_selects(n, f);
    lemma_filtered_cells(n, f);
    let j = cells(n).filter(f)[k];
    assert(unknown_frontier(grid, j));
}

/// A cell lies at the edge of the unknown exactly where it is explored and one of the
/// cells at most one column and one row off is unknown.
pub proof fn law_edge_cells_border_the_unknown(grid: Seq<u8>, i: int)
    requires
        0 <= i < 160_000,
    ensures
        unknown_frontier(grid, i) <==> grid[i] == 1 && exists|j: int|
            0 <= j < 160_000 && #[trigger] grid[j] == 0 && -1 <= j % 400 - i % 400 <= 1 && -1 <= j
                / 400 - i / 400 <= 1,
{
    let x = cell_x(i);
    let y = cell_y(i);
    lemma_cell_position(i);
    if grid[i] == 1 && borders_unknown(grid, x, y) {
        let (nx, ny) = choose|nx: int, ny: int|
            adjacent(x, y, nx, ny) && on_grid(nx, ny) && #[trigger] cell_at(grid, nx, ny)
                == CELL_UNKNOWN;
        lemma_cell_index(nx, ny);
        assert(grid[cell_index(nx, ny)] == 0);
    }
    if grid[i] == 1 && exists|j: int|
        0 <= j < 160_000 && #[trigger] grid[j] == 0 && -1 <= j % 400 - i % 400 <= 1 && -1 <= j / 400
            - i / 400 <= 1 {
        let j = choose|j: int|
            0 <= j < 160_000 && #[trigger] grid[j] == 0 && -1 <= j % 400 - i % 400 <= 1 && -1 <= j
                / 400 - i / 400 <= 1;
        lemma_cell_position(j);
        assert(cell_at(grid, cell_x(j), cell_y(j)) == CELL_UNKNOWN);
        assert(adjacent(x, y, cell_x(j), cell_y(j)));
    }
}

/// A cell away from the unknown is stale exactly where it is explored and more than 600
/// ticks have passed since it was seen, however many more.
pub proof fn law_stale_cells_were_seen_long_ago(grid: Seq<u8>, seen: Seq<u64>, tick: u64, i: int)
    requires
        !unknown_frontier(grid, i),
    ensures
        stale(grid, seen, tick, i) <==> grid[i] == 1 && seen[i] + 600 < tick,
{
}

proof fn lemma_filter_ascends(n: nat, f: spec_fn(int) -> bool)
    ensures
        forall|k: int, l: int|
            0 <= k < l < cells(n).filter(f).len() ==> #[trigger] cells(n).filter(f)[k]
                < #[trigger] cells(n).filter(f)[l],
    decreases n,
{
    if n > 0 {
        lemma_filter_step((n - 1) as nat, f);
        lemma_filter_ascends((n - 1) as nat, f);
        lemma_filtered_cells((n - 1) as nat, f);
    } else {
        reveal(Seq::filter);
    }
}

/// Where some explored cell borders the unknown, exactly the cells that do are listed, row
/// by row, with their middles and the value 1000000.
pub proof fn law_edge_is_listed_row_by_row(grid: Seq<u8>, seen: Seq<u64>, tick: u64) -> (chosen:
    Seq<int>)
    requires
        exists|i: int| 0 <= i < 160_000 && #[trigger] unknown_frontier(grid, i),
    ensures
        chosen.len() == frontiers_of(grid, seen, tick).len(),
        forall|k: int|
            0 <= k < chosen.len() ==> {
                let c = #[trigger] chosen[k];
                let f = frontiers_of(grid, seen, tick)[k];
                &&& 0 <= c < 160_000
                &&& unknown_frontier(grid, c)
                &&& 2 * f.0.x == (2 * (c % 400) + 1) * 0x19_0000_0000
                &&& 2 * f.0.y == (2 * (c / 400) + 1) * 0x19_0000_0000
                &&& f.1 == 1_000_000
            },
        forall|k: int, l: int|
            0 <= k < l < chosen.len() ==> #[trigger] chosen[k] < #[trigger] chosen[l],
        forall|i: int|
            0 <= i < 160_000 && #[trigger] unknown_frontier(grid, i) ==> chosen.contains(i),
{
    let f = at_the_edge(grid);
    let n = GRID_CELLS as nat;
    let chosen = cells(n).filter(f);
    lemma_filter_selects(n, f);
    lemma_filtered_cells(n, f);
    lemma_filter_ascends(n, f);
    assert(unknown_before(grid, GRID_CELLS as int));
    assert forall|k: int| 0 <= k < chosen.len() implies {
        let c = #[trigger] chosen[k];
        let f = frontiers_of(grid, seen, tick)[k];
        &&& 0 <= c < 160_000
        &&& unknown_frontier(grid, c)
        &&& 2 * f.0.x == (2 * (c % 400) + 1) * 0x19_0000_0000
        &&& 2 * f.0.y == (2 * (c / 400) + 1) * 0x19_0000_0000
        &&& f.1 == 1_000_000
    } by {
        assert(f(chosen[k]));
        lemma_cell_position(chosen[k]);
    }
    assert forall|i: int|
        0 <= i < 160_000 && #[trigger] unknown_frontier(grid, i) implies chosen.contains(i) by {
        lemma_filter_keeps(n, f, i);
    }
    chosen
}

/// Where no explored cell borders the unknown, the explored cells that were seen more than
/// 600 ticks ago are listed, those seen first in front and of those seen at the same tick
/// the one with the smaller number, each with its middle and the ticks that have passed
/// since it was seen. The list ends after a hundred: what is left out comes behind all
/// that is listed.
pub proof fn law_stalest_cells_are_listed(grid: Seq<u8>, seen: Seq<u64>, tick: u64) -> (chosen:
    Seq<int>)
    requires
        forall|i: int| 0 <= i < 160_000 ==> !(#[trigger] unknown_frontier(grid, i)),
    ensures
        chosen.len() == frontiers_of(grid, seen, tick).len() <= 100,
        forall|k: int|
            0 <= k < chosen.len() ==> {
                let c = #[trigger] chosen[k];
                let f = frontiers_of(grid, seen, tick)[k];
                &&& 0 <= c < 160_000
                &&& grid[c] == 1 && seen[c] + 600 < tick
                &&& 2 * f.0.x == (2 * (c % 400) + 1) * 0x19_0000_0000
                &&& 2 * f.0.y == (2 * (c / 400) + 1) * 0x19_0000_0000
                &&& f.1 == tick - seen[c]
            },
        forall|k: int, l: int|
            0 <= k < l < chosen.len() ==> seen[#[trigger] chosen[k]] < seen[#[trigger] chosen[l]]
                || (seen[chosen[k]] == seen[chosen[l]] && chosen[k] < chosen[l]),
        forall|i: int|
            0 <= i < 160_000 && #[trigger] grid[i] == 1 && seen[i] + 600 < tick ==> chosen.contains(
                i,
            ) || (chosen.len() == 100 && forall|k: int|
                0 <= k < 100 ==> seen[#[trigger] chosen[k]] < seen[i] || (seen[chosen[k]] == seen[i]
                    && chosen[k] < i)),
{
    let n = GRID_CELLS as nat;
    let f = is_stale(grid, seen, tick);
    let leq = stalest_first(seen, tick);
    let all = cells(n).filter(f);
    let sorted = all.sort_by(leq);
    let chosen = at_most(sorted, STALE_KEPT as nat);
    lemma_filter_selects(n, f);
    lemma_filtered_cells(n, f);
    lemma_filter_ascends(n, f);
    lemma_stalest_first_is_total(seen, tick);
    all.lemma_sort_by_ensures(leq);
    assert(all.no_duplicates());
    all.lemma_multiset_has_no_duplicates();
    sorted.lemma_multiset_has_no_duplicates_conv();
    assert(!unknown_before(grid, GRID_CELLS as int));
    assert forall|k: int| 0 <= k < sorted.len() implies 0 <= (#[trigger] sorted[k]) < 160_000
        && grid[sorted[k]] == 1 && seen[sorted[k]] + 600 < tick by {
        assert(sorted.contains(sorted[k]));
        assert(all.contains(sorted[k]));
        let c = sorted[k];
        assert(stale(grid, seen, tick, c));
        law_stale_cells_were_seen_long_ago(grid, seen, tick, c);
    }
    assert forall|k: int, l: int| 0 <= k < l < sorted.len() implies seen[#[trigger] sorted[k]]
        < seen[#[trigger] sorted[l]] || (seen[sorted[k]] == seen[sorted[l]] && sorted[k]
        < sorted[l]) by {
        assert(leq(sorted[k], sorted[l]));
        assert(sorted[k] != sorted[l]);
    }
    assert forall|k: int| 0 <= k < chosen.len() implies chosen[k] == #[trigger] sorted[k] by {}
    assert forall|k: int| 0 <= k < chosen.len() implies {
        let c = #[trigger] chosen[k];
        let f = frontiers_of(grid, seen, tick)[k];
        &&& 0 <= c < 160_000
        &&& grid[c] == 1 && seen[c] + 600 < tick
        &&& 2 * f.0.x == (2 * (c % 400) + 1) * 0x19_0000_0000
        &&& 2 * f.0.y == (2 * (c / 400) + 1) * 0x19_0000_0000
        &&& f.1 == tick - seen[c]
    } by {
        assert(chosen[k] == sorted[k]);
        lemma_cell_position(chosen[k]);
    }
    assert forall|k: int, l: int| 0 <= k < l < chosen.len() implies seen[#[trigger] chosen[k]]
        < seen[#[trigger] chosen[l]] || (seen[chosen[k]] == seen[chosen[l]] && chosen[k]
        < chosen[l]) by {
        assert(chosen[k] == sorted[k] && chosen[l] == sorted[l]);
    }
    assert forall|i: int|
        0 <= i < 160_000 && #[trigger] grid[i] == 1 && seen[i] + 600 < tick implies chosen.contains(
        i,
    ) || (chosen.len() == 100 && forall|k: int|
        0 <= k < 100 ==> seen[#[trigger] chosen[k]] < seen[i] || (seen[chosen[k]] == seen[i]
            && chosen[k] < i)) by {
        assert(!unknown_frontier(grid, i));
        law_stale_cells_were_seen_long_ago(grid, seen, tick, i);
        lemma_filter_keeps(n, f, i);
        assert(all.to_multiset().count(i) > 0) by {
            broadcast use vstd::seq_lib::group_to_multiset_ensures;

        }
        assert(sorted.contains(i)) by {
            broadcast use vstd::seq_lib::group_to_multiset_ensures;

        }
        let l = choose|l: int| 0 <= l < sorted.len() && sorted[l] == i;
        if l < chosen.len() {
            assert(chosen[l] == i);
        } else {
            assert forall|k: int| 0 <= k < 100 implies seen[#[trigger] chosen[k]] < seen[i] || (
            seen[chosen[k]] == seen[i] && chosen[k] < i) by {
                assert(chosen[k] == sorted[k]);
                assert(seen[sorted[k]] < seen[sorted[l]] || sorted[k] < sorted[l]);
            }
        }
    }
    chosen
}

proof fn lemma_filter_is_shorter(n: nat, f: spec_fn(int) -> bool)
    ensures
        cells(n).filter(f).len() <= n,
    decreases n,
{
    if n > 0 {
        lemma_filter_step((n - 1) as nat, f);
        lemma_filter_is_shorter((n - 1) as nat, f);
    } else {
        reveal(Seq::filter);
    }
}

/// There are no more frontiers than cells.
pub proof fn lemma_few_frontiers(grid: Seq<u8>, seen: Seq<u64>, tick: u64)
    ensures
        frontiers_of(grid, seen, tick).len() <= GRID_CELLS,
{
    lemma_filter_is_shorter(GRID_CELLS as nat, at_the_edge(grid));
}

/// The cells are numbered row by row, 400 to a row, and lie on the map at 25 pixels each.
pub proof fn law_cells_are_numbered_row_by_row(grid: Seq<u8>, x: int, y: int)
    ensures
        on_grid(x, y) <==> 0 <= x < 400 && 0 <= y < 400,
        cell_at(grid, x, y) == grid[400 * y + x],
        on_grid(x, y) ==> 2 * cell_center(x, y).x == (2 * x + 1) * 0x19_0000_0000,
        on_grid(x, y) ==> 2 * cell_center(x, y).y == (2 * y + 1) * 0x19_0000_0000,
{
}

} // verus!
