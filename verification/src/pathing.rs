//! Paths over the rasterized map.
use crate::geometry::{clamped, square, Vec2};
use crate::grid::{
    adjacent, cell_at, cell_center, grid_cell, grid_center, on_grid, CELL_EXPLORED, CELL_OBSTACLE,
    GRID_CELLS, GRID_HEIGHT, GRID_RES, GRID_WIDTH,
};
use vstd::prelude::*;

verus! {

/// What a straight step costs.
pub const STRAIGHT_COST: i32 = 10;

/// What a diagonal step costs.
pub const DIAGONAL_COST: i32 = 14;

/// What an obstacle right beside the entered cell adds.
pub const TOUCHING_PENALTY: i32 = 1000;

/// What an obstacle within two cells of the entered cell adds.
pub const CLOSE_PENALTY: i32 = 200;

/// The cell is on the grid and holds an obstacle.
pub open spec fn blocked(grid: Seq<u8>, x: int, y: int) -> bool {
    on_grid(x, y) && cell_at(grid, x, y) == CELL_OBSTACLE
}

/// A step changes both the column and the row.
pub open spec fn diagonal(from: (i32, i32), to: (i32, i32)) -> bool {
    from.0 != to.0 && from.1 != to.1
}

/// The drone may move from one cell to the other: a neighbour that is explored or
/// the target, with no obstacle at either side of a diagonal step.
pub open spec fn is_step(
    grid: Seq<u8>,
    target: (i32, i32),
    from: (i32, i32),
    to: (i32, i32),
) -> bool {
    &&& adjacent(from.0 as int, from.1 as int, to.0 as int, to.1 as int)
    &&& on_grid(to.0 as int, to.1 as int)
    &&& cell_at(grid, to.0 as int, to.1 as int) == CELL_EXPLORED || to == target
    &&& diagonal(from, to) ==> !blocked(grid, to.0 as int, from.1 as int) && !blocked(
        grid,
        from.0 as int,
        to.1 as int,
    )
}

/// What an obstacle at an offset from the entered cell adds to the cost.
pub open spec fn weight(cx: int, cy: int) -> int {
    let d = square(cx) + square(cy);
    if d == 0 {
        0
    } else if d <= 1 {
        TOUCHING_PENALTY as int
    } else if d <= 4 {
        CLOSE_PENALTY as int
    } else {
        0
    }
}

/// The offset with number `k` in the square of five by five cells around a cell.
pub open spec fn window(k: int) -> (int, int) {
    (k / 5 - 2, k % 5 - 2)
}

/// What the first `n` cells of the surrounding square add to the cost.
pub open spec fn penalty_of(grid: Seq<u8>, x: int, y: int, n: nat) -> int
    decreases n,
{
    if n == 0 {
        0
    } else {
        let (cx, cy) = window(n - 1);
        penalty_of(grid, x, y, (n - 1) as nat) + if blocked(grid, x + cx, y + cy) {
            weight(cx, cy)
        } else {
            0
        }
    }
}

/// What a step costs: its length, and a penalty for obstacles around its end.
pub open spec fn step_cost(grid: Seq<u8>, from: (i32, i32), to: (i32, i32)) -> int {
    (if diagonal(from, to) {
        DIAGONAL_COST as int
    } else {
        STRAIGHT_COST as int
    }) + penalty_of(grid, to.0 as int, to.1 as int, 25)
}

/// The cell with number `k` in the square of three by three cells around a cell,
/// column by column.
pub open spec fn around(from: (i32, i32), k: int) -> (i32, i32) {
    ((from.0 + k / 3 - 1) as i32, (from.1 + k % 3 - 1) as i32)
}

/// Where the first `n` cells around a cell lead, with what each step costs.
pub open spec fn steps(
    grid: Seq<u8>,
    target: (i32, i32),
    from: (i32, i32),
    n: nat,
) -> Seq<((i32, i32), i32)>
    decreases n,
{
    if n == 0 {
        Seq::empty()
    } else {
        let before = steps(grid, target, from, (n - 1) as nat);
        let to = around(from, n - 1);
        if is_step(grid, target, from, to) {
            before.push((to, step_cost(grid, from, to) as i32))
        } else {
            before
        }
    }
}

/// The largest penalty that the first `n` cells of the surrounding square allow.
spec fn weights(n: nat) -> int
    decreases n,
{
    if n == 0 {
        0
    } else {
        let (cx, cy) = window(n - 1);
        weights((n - 1) as nat) + weight(cx, cy)
    }
}

proof fn lemma_penalty_bound(grid: Seq<u8>, x: int, y: int, n: nat)
    ensures
        0 <= penalty_of(grid, x, y, n) <= weights(n),
    decreases n,
{
    if n > 0 {
        lemma_penalty_bound(grid, x, y, (n - 1) as nat);
        assert(weight(window(n - 1).0, window(n - 1).1) >= 0);
    }
}

/// Every step costs at least a straight step, and at most a diagonal one with an
/// obstacle on every cell that counts.
pub proof fn law_step_cost_is_bounded(grid: Seq<u8>, from: (i32, i32), to: (i32, i32))
    ensures
        STRAIGHT_COST <= step_cost(grid, from, to) <= DIAGONAL_COST + 4 * TOUCHING_PENALTY + 8
            * CLOSE_PENALTY,
{
    lemma_penalty_bound(grid, to.0 as int, to.1 as int, 25);
    assert(weights(25) == 4 * TOUCHING_PENALTY + 8 * CLOSE_PENALTY) by {
        assert(square(-2) == 4 && square(-1) == 1 && square(0) == 0 && square(1) == 1 && square(2)
            == 4);
        reveal_with_fuel(weights, 26);
    }
}

/// Adds up the penalty for obstacles around a cell.
fn penalty(grid: &Vec<u8>, x: i32, y: i32) -> (res: i32)
    requires
        grid@.len() == GRID_CELLS,
        on_grid(x as int, y as int),
    ensures
        res == penalty_of(grid@, x as int, y as int, 25),
        0 <= res <= 25_000,
{
    let mut total: i32 = 0;
    let mut k: i32 = 0;
    while k < 25
        invariant
            grid@.len() == GRID_CELLS,
            on_grid(x as int, y as int),
            0 <= k <= 25,
            total == penalty_of(grid@, x as int, y as int, k as nat),
            0 <= total <= 1000 * k,
        decreases 25 - k,
    {
        let cx: i32 = k / 5 - 2;
        let cy: i32 = k % 5 - 2;
        assert(window(k as int) == (cx as int, cy as int));
        if let Some(c) = grid_cell(grid, x + cx, y + cy) {
            if c == CELL_OBSTACLE {
                assert(-4 <= cx * cx <= 4 && -4 <= cy * cy <= 4) by (nonlinear_arith)
                    requires
                        -2 <= cx <= 2,
                        -2 <= cy <= 2,
                ;
                let dist_sq: i32 = cx * cx + cy * cy;
                if dist_sq == 0 {
                } else if dist_sq <= 1 {
                    total = total + TOUCHING_PENALTY;
                } else if dist_sq <= 4 {
                    total = total + CLOSE_PENALTY;
                }
            }
        }
        k = k + 1;
    }
    total
}

/// Checks whether the cell is on the grid and holds an obstacle.
fn is_obstacle(grid: &Vec<u8>, x: i32, y: i32) -> (res: bool)
    requires
        grid@.len() == GRID_CELLS,
    ensures
        res == blocked(grid@, x as int, y as int),
{
    match grid_cell(grid, x, y) {
        Some(c) => c == CELL_OBSTACLE,
        None => false,
    }
}

/// Lists the cells that a drone can enter from a cell, with the costs.
pub fn successors(grid: &Vec<u8>, target: (i32, i32), from: (i32, i32)) -> (res: Vec<
    ((i32, i32), i32),
>)
    requires
        grid@.len() == GRID_CELLS,
        on_grid(from.0 as int, from.1 as int),
    ensures
        res@ == steps(grid@, target, from, 9),
{
    let mut res: Vec<((i32, i32), i32)> = Vec::new();
    let mut k: i32 = 0;
    while k < 9
        invariant
            grid@.len() == GRID_CELLS,
            on_grid(from.0 as int, from.1 as int),
            0 <= k <= 9,
            res@ == steps(grid@, target, from, k as nat),
        decreases 9 - k,
    {
        let nx: i32 = from.0 + k / 3 - 1;
        let ny: i32 = from.1 + k % 3 - 1;
        assert(around(from, k as int) == (nx, ny));
        if !(nx == from.0 && ny == from.1) {
            if let Some(c) = grid_cell(grid, nx, ny) {
                if c == CELL_EXPLORED || (nx == target.0 && ny == target.1) {
                    let slanted = nx != from.0 && ny != from.1;
                    let squeezed = slanted && (is_obstacle(grid, nx, from.1) || is_obstacle(
                        grid,
                        from.0,
                        ny,
                    ));
                    if !squeezed {
                        let cost: i32 = if slanted {
                            DIAGONAL_COST
                        } else {
                            STRAIGHT_COST
                        };
                        let added: i32 = penalty(grid, nx, ny);
                        assert(is_step(grid@, target, from, (nx, ny)));
                        res.push(((nx, ny), cost + added));
                    }
                }
            }
        }
        k = k + 1;
    }
    res
}

proof fn lemma_steps_list(
    grid: Seq<u8>,
    target: (i32, i32),
    from: (i32, i32),
    n: nat,
    k: int,
)
    requires
        0 <= k < n,
        is_step(grid, target, from, around(from, k)),
    ensures
        steps(grid, target, from, n).contains(
            (around(from, k), step_cost(grid, from, around(from, k)) as i32),
        ),
    decreases n,
{
    let before = steps(grid, target, from, (n - 1) as nat);
    let all = steps(grid, target, from, n);
    if k == n - 1 {
        assert(all[before.len() as int] == (
            around(from, k),
            step_cost(grid, from, around(from, k)) as i32,
        ));
    } else {
        lemma_steps_list(grid, target, from, (n - 1) as nat, k);
        let i = choose|i: int|
            0 <= i < before.len() && before[i] == (
                around(from, k),
                step_cost(grid, from, around(from, k)) as i32,
            );
        assert(all[i] == before[i]);
    }
}

proof fn lemma_steps_are_steps(grid: Seq<u8>, target: (i32, i32), from: (i32, i32), n: nat)
    ensures
        forall|i: int|
            0 <= i < steps(grid, target, from, n).len() ==> {
                let s = #[trigger] steps(grid, target, from, n)[i];
                is_step(grid, target, from, s.0) && s.1 == step_cost(grid, from, s.0) as i32
            },
    decreases n,
{
    if n > 0 {
        lemma_steps_are_steps(grid, target, from, (n - 1) as nat);
        let before = steps(grid, target, from, (n - 1) as nat);
        let all = steps(grid, target, from, n);
        assert forall|i: int| 0 <= i < all.len() implies {
            let s = #[trigger] all[i];
            is_step(grid, target, from, s.0) && s.1 == step_cost(grid, from, s.0) as i32
        } by {
            if i < before.len() {
                assert(all[i] == before[i]);
            }
        }
    }
}

/// The successors of a cell are exactly the cells to which a step leads, with what
/// the steps cost.
pub proof fn law_successors_are_steps(
    grid: Seq<u8>,
    target: (i32, i32),
    from: (i32, i32),
    to: (i32, i32),
    cost: i32,
)
    requires
        on_grid(from.0 as int, from.1 as int),
    ensures
        steps(grid, target, from, 9).contains((to, cost)) <==> is_step(grid, target, from, to)
            && cost == step_cost(grid, from, to),
{
    law_step_cost_is_bounded(grid, from, to);
    if is_step(grid, target, from, to) {
        let k = (to.0 - from.0 + 1) * 3 + (to.1 - from.1 + 1);
        assert(around(from, k) == to);
        lemma_steps_list(grid, target, from, 9, k);
    }
    lemma_steps_are_steps(grid, target, from, 9);
}

/// The estimated cost from one cell to the other, by columns and rows.
pub open spec fn estimate(from: (i32, i32), target: (i32, i32)) -> int {
    let dx = if from.0 >= target.0 {
        from.0 - target.0
    } else {
        target.0 - from.0
    };
    let dy = if from.1 >= target.1 {
        from.1 - target.1
    } else {
        target.1 - from.1
    };
    (dx + dy) * STRAIGHT_COST
}

/// Estimates what is left of the way to the target.
pub fn heuristic(from: (i32, i32), target: (i32, i32)) -> (res: i32)
    requires
        on_grid(from.0 as int, from.1 as int),
        on_grid(target.0 as int, target.1 as int),
    ensures
        res == estimate(from, target),
{
    let dx: i32 = if from.0 >= target.0 {
        from.0 - target.0
    } else {
        target.0 - from.0
    };
    let dy: i32 = if from.1 >= target.1 {
        from.1 - target.1
    } else {
        target.1 - from.1
    };
    (dx + dy) * STRAIGHT_COST
}

/// Checks whether the search has arrived.
pub fn is_target(cell: (i32, i32), target: (i32, i32)) -> (res: bool)
    ensures
        res == (cell == target),
{
    cell.0 == target.0 && cell.1 == target.1
}

/// A way over the grid from one cell to another.
pub open spec fn is_route(
    grid: Seq<u8>,
    start: (i32, i32),
    target: (i32, i32),
    route: Seq<(i32, i32)>,
) -> bool {
    &&& route.len() > 0
    &&& route[0] == start
    &&& route.last() == target
    &&& forall|k: int|
        0 <= k < route.len() - 1 ==> is_step(grid, target, #[trigger] route[k], route[k + 1])
}

/// Some way leads from one cell to the other.
pub open spec fn reachable(grid: Seq<u8>, start: (i32, i32), target: (i32, i32)) -> bool {
    exists|route: Seq<(i32, i32)>| #[trigger] is_route(grid, start, target, route)
}

/// What the steps of a route cost together.
pub open spec fn route_cost(grid: Seq<u8>, route: Seq<(i32, i32)>) -> int
    decreases route.len(),
{
    if route.len() < 2 {
        0
    } else {
        step_cost(grid, route[0], route[1]) + route_cost(grid, route.drop_first())
    }
}

/// From no cell is more than `excess` too much estimated of what any way from there to
/// the target costs.
pub open spec fn estimates_within(grid: Seq<u8>, target: (i32, i32), excess: int) -> bool {
    forall|from: (i32, i32), route: Seq<(i32, i32)>|
        on_grid(from.0 as int, from.1 as int) && #[trigger] is_route(grid, from, target, route)
            ==> estimate(from, target) <= route_cost(grid, route) + excess
}

/// By how much a route may cost more than another: what `heuristic` may estimate too
/// much, six for each of up to 399 diagonal steps.
pub const COST_EXCESS: i32 = 2394;

/// What the steps from one cell to the other cost at least, where nothing is in the way.
spec fn open_cost(from: (i32, i32), target: (i32, i32)) -> int {
    let dx = span_of(from.0 - target.0);
    let dy = span_of(from.1 - target.1);
    if dx >= dy {
        10 * dx + 4 * dy
    } else {
        10 * dy + 4 * dx
    }
}

spec fn span_of(v: int) -> int {
    if v < 0 {
        -v
    } else {
        v
    }
}

proof fn lemma_open_cost(
    grid: Seq<u8>,
    from: (i32, i32),
    target: (i32, i32),
    route: Seq<(i32, i32)>,
)
    requires
        is_route(grid, from, target, route),
    ensures
        open_cost(from, target) <= route_cost(grid, route),
    decreases route.len(),
{
    if route.len() >= 2 {
        let rest = route.drop_first();
        let next = route[1];
        assert(is_step(grid, target, route[0], route[0int + 1]));
        assert forall|k: int| 0 <= k < rest.len() - 1 implies is_step(
            grid,
            target,
            #[trigger] rest[k],
            rest[k + 1],
        ) by {
            assert(is_step(grid, target, route[k + 1], route[k + 1 + 1]));
        }
        assert(rest.last() == route.last());
        lemma_open_cost(grid, next, target, rest);
        lemma_penalty_bound(grid, next.0 as int, next.1 as int, 25);
    }
}

/// `heuristic` estimates at most `COST_EXCESS` too much.
pub proof fn law_estimates_are_close(grid: Seq<u8>, target: (i32, i32))
    requires
        on_grid(target.0 as int, target.1 as int),
    ensures
        estimates_within(grid, target, COST_EXCESS as int),
{
    assert forall|from: (i32, i32), route: Seq<(i32, i32)>|
        on_grid(from.0 as int, from.1 as int) && #[trigger] is_route(
            grid,
            from,
            target,
            route,
        ) implies estimate(from, target) <= route_cost(grid, route) + COST_EXCESS by {
        lemma_open_cost(grid, from, target, route);
    }
}

/// The route, if any, that the search finds.
pub uninterp spec fn found_route(grid: Seq<u8>, start: (i32, i32), target: (i32, i32)) -> Option<
    Seq<(i32, i32)>,
>;

/// A route as a value.
pub open spec fn route_view(route: Option<Vec<(i32, i32)>>) -> Option<Seq<(i32, i32)>> {
    match route {
        Some(r) => Some(r@),
        None => None,
    }
}

/// Searches a route with `pathfinding::prelude::astar`, which walks the graph that
/// `successors` spans, in the order that the costs and `heuristic` give. Which of
/// several routes it returns depends on its arguments alone and has the name
/// `found_route`. It finds one exactly where there is one. A route contains both
/// its ends, every cell of it is a successor of the one before, and no cell
/// occurs twice. `heuristic` can exceed the true cost, so that the route need not be a
/// cheapest one; but as a cell is looked at again when a cheaper way to it turns up,
/// no other route is cheaper by more than `heuristic` may exceed the true cost. A step
/// costs at most 5614, so that the cost of a way that enters no cell twice, and what
/// is estimated to be left of it, stay within an `i32`.
#[verifier::external_body]
fn search(grid: &Vec<u8>, start: (i32, i32), target: (i32, i32)) -> (res: Option<Vec<(i32, i32)>>)
    requires
        grid@.len() == GRID_CELLS,
        on_grid(start.0 as int, start.1 as int),
        on_grid(target.0 as int, target.1 as int),
    ensures
        route_view(res) == found_route(grid@, start, target),
        res is Some <==> reachable(grid@, start, target),
        res is Some ==> is_route(grid@, start, target, res->Some_0@),
        res is Some ==> res->Some_0@.no_duplicates(),
        forall|excess: int, other: Seq<(i32, i32)>|
            res is Some && #[trigger] estimates_within(grid@, target, excess)
                && #[trigger] is_route(grid@, start, target, other) ==> route_cost(
                grid@,
                res->Some_0@,
            ) <= route_cost(grid@, other) + excess,
{
    pathfinding::prelude::astar(
        &start,
        |&cell| successors(grid, target, cell),
        |&cell| heuristic(cell, target),
        |&cell| is_target(cell, target),
    ).map(|(route, _cost)| route)
}

/// The number of the column or row that holds a coordinate, at most `last`.
/// Coordinates outside of the map count as its edge.
pub open spec fn nearest_line(v: int, last: int) -> int {
    clamped(v / (GRID_RES as int), 0, last)
}

/// The grid cell that holds a point, or the nearest one.
pub open spec fn nearest_cell(p: Vec2) -> (i32, i32) {
    (
        nearest_line(p.x as int, GRID_WIDTH - 1) as i32,
        nearest_line(p.y as int, GRID_HEIGHT - 1) as i32,
    )
}

fn find_line(v: i64, last: i32) -> (n: i32)
    requires
        0 <= last,
    ensures
        n == nearest_line(v as int, last as int),
        0 <= n <= last,
{
    if v < 0 {
        0
    } else {
        let n: i64 = v / GRID_RES;
        if n > last as i64 {
            last
        } else {
            n as i32
        }
    }
}

/// Finds the grid cell that holds a point, or the nearest one.
pub fn cell_of(p: Vec2) -> (cell: (i32, i32))
    ensures
        cell == nearest_cell(p),
        on_grid(cell.0 as int, cell.1 as int),
{
    (find_line(p.x, GRID_WIDTH - 1), find_line(p.y, GRID_HEIGHT - 1))
}

/// The points that a drone passes on a route: the middles of its cells without the
/// first, in which the drone is already.
pub open spec fn waypoints(route: Seq<(i32, i32)>) -> Seq<Vec2> {
    if route.len() == 0 {
        Seq::empty()
    } else {
        route.skip(1).map_values(
            |cell: (i32, i32)| cell_center(cell.0 as int, cell.1 as int),
        )
    }
}

/// All cells of the route lie on the grid.
pub open spec fn stays_on_grid(route: Seq<(i32, i32)>) -> bool {
    forall|k: int|
        0 <= k < route.len() ==> on_grid((#[trigger] route[k]).0 as int, route[k].1 as int)
}

/// Turns a route into the points to pass.
pub fn world_path(route: &Vec<(i32, i32)>) -> (path: Vec<Vec2>)
    requires
        stays_on_grid(route@),
    ensures
        path@ == waypoints(route@),
        forall|k: int| 0 <= k < path@.len() ==> (#[trigger] path@[k]).in_range(),
{
    let mut path: Vec<Vec2> = Vec::new();
    let mut i: usize = 1;
    while i < route.len()
        invariant
            1 <= i,
            stays_on_grid(route@),
            path@.len() == if route@.len() == 0 {
                0
            } else {
                i - 1
            },
            i <= route@.len() || route@.len() == 0,
            forall|k: int|
                0 <= k < path@.len() ==> (#[trigger] path@[k]).in_range() && path@[k]
                    == cell_center(route@[k + 1].0 as int, route@[k + 1].1 as int),
        decreases route@.len() - i,
    {
        let (x, y) = route[i];
        path.push(grid_center(x, y));
        i = i + 1;
    }
    assert(path@ =~= waypoints(route@));
    path
}

/// A path as a value.
pub open spec fn path_view(path: Option<Vec<Vec2>>) -> Option<Seq<Vec2>> {
    match path {
        Some(p) => Some(p@),
        None => None,
    }
}

/// The path that leads from one point to another.
pub open spec fn path_between(grid: Seq<u8>, start: Vec2, target: Vec2) -> Option<Seq<Vec2>> {
    match found_route(grid, nearest_cell(start), nearest_cell(target)) {
        Some(route) => Some(waypoints(route)),
        None => None,
    }
}

/// A route never leaves the grid.
pub proof fn law_route_stays_on_grid(
    grid: Seq<u8>,
    start: (i32, i32),
    target: (i32, i32),
    route: Seq<(i32, i32)>,
)
    requires
        on_grid(start.0 as int, start.1 as int),
        is_route(grid, start, target, route),
    ensures
        stays_on_grid(route),
{
    assert forall|k: int| 0 <= k < route.len() implies on_grid(
        (#[trigger] route[k]).0 as int,
        route[k].1 as int,
    ) by {
        if k > 0 {
            assert(is_step(grid, target, route[k - 1], route[k - 1 + 1]));
        }
    }
}

/// Between its ends a route passes explored cells only, so it enters no unknown
/// cell and no obstacle but where the target is one.
pub proof fn law_route_is_explored(
    grid: Seq<u8>,
    start: (i32, i32),
    target: (i32, i32),
    route: Seq<(i32, i32)>,
    k: int,
)
    requires
        is_route(grid, start, target, route),
        0 < k < route.len(),
        route[k] != target,
    ensures
        cell_at(grid, route[k].0 as int, route[k].1 as int) == CELL_EXPLORED,
{
    assert(is_step(grid, target, route[k - 1], route[k - 1 + 1]));
}

/// A route never squeezes through between two cells that touch at a corner when
/// one of the cells beside the corner holds an obstacle.
pub proof fn law_route_never_squeezes(
    grid: Seq<u8>,
    start: (i32, i32),
    target: (i32, i32),
    route: Seq<(i32, i32)>,
    k: int,
)
    requires
        is_route(grid, start, target, route),
        0 <= k < route.len() - 1,
        diagonal(route[k], route[k + 1]),
    ensures
        !blocked(grid, route[k + 1].0 as int, route[k].1 as int),
        !blocked(grid, route[k].0 as int, route[k + 1].1 as int),
{
    assert(is_step(grid, target, route[k], route[k + 1]));
}

/// No other route is cheaper by more than the estimates may exceed the true costs.
pub open spec fn is_cheapest_but_for_estimates(
    grid: Seq<u8>,
    start: (i32, i32),
    target: (i32, i32),
    route: Seq<(i32, i32)>,
) -> bool {
    forall|excess: int, other: Seq<(i32, i32)>| #[trigger]
        estimates_within(grid, target, excess) && #[trigger] is_route(grid, start, target, other)
            ==> route_cost(grid, route) <= route_cost(grid, other) + excess
}

/// No other route is cheaper by more than `COST_EXCESS`.
pub open spec fn is_nearly_cheapest(
    grid: Seq<u8>,
    start: (i32, i32),
    target: (i32, i32),
    route: Seq<(i32, i32)>,
) -> bool {
    forall|other: Seq<(i32, i32)>| #[trigger]
        is_route(grid, start, target, other) ==> route_cost(grid, route) <= route_cost(grid, other)
            + COST_EXCESS
}

/// Plans a path from one point to another over explored ground.
pub fn calculate_path(start: Vec2, target: Vec2, grid: &Vec<u8>) -> (res: Option<Vec<Vec2>>)
    requires
        grid@.len() == GRID_CELLS,
    ensures
        path_view(res) == path_between(grid@, start, target),
        res is Some <==> reachable(grid@, nearest_cell(start), nearest_cell(target)),
        res is Some ==> exists|route: Seq<(i32, i32)>| #[trigger]
            is_route(grid@, nearest_cell(start), nearest_cell(target), route)
                && route.no_duplicates() && res->Some_0@ == waypoints(route) && is_nearly_cheapest(
                grid@,
                nearest_cell(start),
                nearest_cell(target),
                route,
            ) && is_cheapest_but_for_estimates(
                grid@,
                nearest_cell(start),
                nearest_cell(target),
                route,
            ),
        res matches Some(path) ==> forall|k: int|
            0 <= k < path@.len() ==> (#[trigger] path@[k]).in_range(),
{
    let start_grid: (i32, i32) = cell_of(start);
    let target_grid: (i32, i32) = cell_of(target);
    match search(grid, start_grid, target_grid) {
        Some(route) => {
            proof {
                law_route_stays_on_grid(grid@, start_grid, target_grid, route@);
                law_estimates_are_close(grid@, target_grid);
                assert(is_nearly_cheapest(grid@, start_grid, target_grid, route@));
                assert(is_cheapest_but_for_estimates(grid@, start_grid, target_grid, route@));
            }
            Some(world_path(&route))
        },
        None => None,
    }
}

/// Every legal move is offered, and no other: from a cell of the grid to one of its eight
/// neighbours on the grid that is explored or the target, in the same row or column, or
/// past two cells beside the diagonal neither of which is an obstacle.
pub proof fn law_every_legal_move_is_offered(
    grid: Seq<u8>,
    target: (i32, i32),
    from: (i32, i32),
    to: (i32, i32),
)
    requires
        0 <= from.0 < 400 && 0 <= from.1 < 400,
    ensures
        (exists|cost: i32| steps(grid, target, from, 9).contains((to, cost))) <==> {
            &&& -1 <= to.0 - from.0 <= 1 && -1 <= to.1 - from.1 <= 1 && to != from
            &&& 0 <= to.0 < 400 && 0 <= to.1 < 400
            &&& grid[to.1 * 400 + to.0] == 1 || to == target
            &&& to.0 != from.0 && to.1 != from.1 ==> grid[from.1 * 400 + to.0] != 2
                && grid[to.1 * 400 + from.0] != 2
        },
{
    let cost = step_cost(grid, from, to) as i32;
    law_step_cost_is_bounded(grid, from, to);
    law_successors_are_steps(grid, target, from, to, cost);
    if exists|cost: i32| steps(grid, target, from, 9).contains((to, cost)) {
        let c = choose|cost: i32| steps(grid, target, from, 9).contains((to, cost));
        law_successors_are_steps(grid, target, from, to, c);
    }
    if is_step(grid, target, from, to) {
        assert(steps(grid, target, from, 9).contains((to, cost)));
    }
}

/// One where the position lies on the grid and holds an obstacle, and nothing elsewhere.
pub open spec fn obstacles_at(grid: Seq<u8>, x: int, y: int) -> int {
    if 0 <= x < 400 && 0 <= y < 400 && grid[y * 400 + x] == 2 {
        1
    } else {
        0
    }
}

/// A move costs 10, or 14 where it changes both the column and the row, and 1000 for each
/// obstacle that shares an edge with the cell that it enters, and 200 for each that shares
/// a corner with it or lies two cells off in the same row or column. What else is on the
/// grid, and where the move comes from, does not matter.
pub proof fn law_moves_cost_what_is_near(
    grid: Seq<u8>,
    target: (i32, i32),
    from: (i32, i32),
    to: (i32, i32),
    cost: i32,
)
    requires
        0 <= from.0 < 400 && 0 <= from.1 < 400,
        steps(grid, target, from, 9).contains((to, cost)),
    ensures
        ({
            let (x, y) = (to.0 as int, to.1 as int);
            let beside = obstacles_at(grid, x - 1, y) + obstacles_at(grid, x + 1, y) + obstacles_at(
                grid,
                x,
                y - 1,
            ) + obstacles_at(grid, x, y + 1);
            let corners = obstacles_at(grid, x - 1, y - 1) + obstacles_at(grid, x - 1, y + 1)
                + obstacles_at(grid, x + 1, y - 1) + obstacles_at(grid, x + 1, y + 1);
            let two_off = obstacles_at(grid, x - 2, y) + obstacles_at(grid, x + 2, y)
                + obstacles_at(grid, x, y - 2) + obstacles_at(grid, x, y + 2);
            &&& from.0 == to.0 || from.1 == to.1 ==> cost == 10 + 1000 * beside + 200 * (corners
                + two_off)
            &&& from.0 != to.0 && from.1 != to.1 ==> cost == 14 + 1000 * beside + 200 * (corners
                + two_off)
        }),
{
    law_successors_are_steps(grid, target, from, to, cost);
    lemma_penalty_counts(grid, to.0 as int, to.1 as int);
}

proof fn lemma_penalty_step(grid: Seq<u8>, x: int, y: int, n: nat, cx: int, cy: int, w: int)
    requires
        n > 0,
        window(n - 1) == (cx, cy),
        w == weight(cx, cy),
    ensures
        penalty_of(grid, x, y, n) == penalty_of(grid, x, y, (n - 1) as nat) + w * obstacles_at(
            grid,
            x + cx,
            y + cy,
        ),
{
    assert(blocked(grid, x + cx, y + cy) == (obstacles_at(grid, x + cx, y + cy) == 1));
    assert(w * 1 == w && w * 0 == 0);
}

proof fn lemma_penalty_counts(grid: Seq<u8>, x: int, y: int)
    ensures
        penalty_of(grid, x, y, 25) == 1000 * (obstacles_at(grid, x - 1, y) + obstacles_at(
            grid,
            x + 1,
            y,
        ) + obstacles_at(grid, x, y - 1) + obstacles_at(grid, x, y + 1)) + 200 * (obstacles_at(
            grid,
            x - 1,
            y - 1,
        ) + obstacles_at(grid, x - 1, y + 1) + obstacles_at(grid, x + 1, y - 1) + obstacles_at(
            grid,
            x + 1,
            y + 1,
        ) + obstacles_at(grid, x - 2, y) + obstacles_at(grid, x + 2, y) + obstacles_at(
            grid,
            x,
            y - 2,
        ) + obstacles_at(grid, x, y + 2)),
{
    assert(square(-2) == 4 && square(-1) == 1 && square(0) == 0 && square(1) == 1 && square(2)
        == 4);
    assert(penalty_of(grid, x, y, 0) == 0);
    lemma_penalty_step(grid, x, y, 1, -2, -2, 0);
    lemma_penalty_step(grid, x, y, 2, -2, -1, 0);
    lemma_penalty_step(grid, x, y, 3, -2, 0, 200);
    lemma_penalty_step(grid, x, y, 4, -2, 1, 0);
    lemma_penalty_step(grid, x, y, 5, -2, 2, 0);
    lemma_penalty_step(grid, x, y, 6, -1, -2, 0);
    lemma_penalty_step(grid, x, y, 7, -1, -1, 200);
    lemma_penalty_step(grid, x, y, 8, -1, 0, 1000);
    lemma_penalty_step(grid, x, y, 9, -1, 1, 200);
    lemma_penalty_step(grid, x, y, 10, -1, 2, 0);
    lemma_penalty_step(grid, x, y, 11, 0, -2, 200);
    lemma_penalty_step(grid, x, y, 12, 0, -1, 1000);
    lemma_penalty_step(grid, x, y, 13, 0, 0, 0);
    lemma_penalty_step(grid, x, y, 14, 0, 1, 1000);
    lemma_penalty_step(grid, x, y, 15, 0, 2, 200);
    lemma_penalty_step(grid, x, y, 16, 1, -2, 0);
    lemma_penalty_step(grid, x, y, 17, 1, -1, 200);
    lemma_penalty_step(grid, x, y, 18, 1, 0, 1000);
    lemma_penalty_step(grid, x, y, 19, 1, 1, 200);
    lemma_penalty_step(grid, x, y, 20, 1, 2, 0);
    lemma_penalty_step(grid, x, y, 21, 2, -2, 0);
    lemma_penalty_step(grid, x, y, 22, 2, -1, 0);
    lemma_penalty_step(grid, x, y, 23, 2, 0, 200);
    lemma_penalty_step(grid, x, y, 24, 2, 1, 0);
    lemma_penalty_step(grid, x, y, 25, 2, 2, 0);
}

/// The estimate is 10 for every column and every row between the two cells, and so the
/// same in both directions.
pub proof fn law_estimate_counts_columns_and_rows(from: (i32, i32), target: (i32, i32))
    ensures
        ({
            let e = estimate(from, target);
            let dx = from.0 - target.0;
            let dy = from.1 - target.1;
            &&& e == 10 * dx + 10 * dy || e == 10 * dx - 10 * dy || e == -10 * dx + 10 * dy || e
                == -10 * dx - 10 * dy
            &&& e >= 10 * dx + 10 * dy && e >= 10 * dx - 10 * dy
            &&& e >= -10 * dx + 10 * dy && e >= -10 * dx - 10 * dy
        }),
        estimate(from, target) == estimate(target, from),
{
}

/// Whoever gets from cell to cell by legal moves reaches the last: any such sequence is a
/// way, and every way is such a sequence.
pub proof fn law_legal_moves_make_a_way(
    grid: Seq<u8>,
    start: (i32, i32),
    target: (i32, i32),
    route: Seq<(i32, i32)>,
)
    requires
        0 <= start.0 < 400 && 0 <= start.1 < 400,
    ensures
        is_route(grid, start, target, route) <==> {
            &&& route.len() > 0 && route[0] == start && route[route.len() - 1] == target
            &&& forall|k: int|
                0 <= k < route.len() - 1 ==> {
                    let from = #[trigger] route[k];
                    let to = route[k + 1];
                    &&& -1 <= to.0 - from.0 <= 1 && -1 <= to.1 - from.1 <= 1 && to != from
                    &&& 0 <= to.0 < 400 && 0 <= to.1 < 400
                    &&& grid[to.1 * 400 + to.0] == 1 || to == target
                    &&& to.0 != from.0 && to.1 != from.1 ==> grid[from.1 * 400 + to.0] != 2
                        && grid[to.1 * 400 + from.0] != 2
                }
        },
        is_route(grid, start, target, route) ==> reachable(grid, start, target),
{
    let raw = {
        &&& route.len() > 0 && route[0] == start && route[route.len() - 1] == target
        &&& forall|k: int|
            0 <= k < route.len() - 1 ==> {
                let from = #[trigger] route[k];
                let to = route[k + 1];
                &&& -1 <= to.0 - from.0 <= 1 && -1 <= to.1 - from.1 <= 1 && to != from
                &&& 0 <= to.0 < 400 && 0 <= to.1 < 400
                &&& grid[to.1 * 400 + to.0] == 1 || to == target
                &&& to.0 != from.0 && to.1 != from.1 ==> grid[from.1 * 400 + to.0] != 2
                    && grid[to.1 * 400 + from.0] != 2
            }
    };
    if is_route(grid, start, target, route) {
        law_route_stays_on_grid(grid, start, target, route);
    }
    if raw {
        assert forall|k: int| 0 <= k < route.len() implies 0 <= (#[trigger] route[k]).0 < 400 && 0
            <= route[k].1 < 400 by {
            if k > 0 {
                let from = route[k - 1];
                let to = route[k - 1 + 1];
                assert(0 <= to.0 < 400 && 0 <= to.1 < 400);
            }
        }
        assert forall|k: int| 0 <= k < route.len() - 1 implies is_step(
            grid,
            target,
            #[trigger] route[k],
            route[k + 1],
        ) by {
            assert(0 <= route[k].0 < 400 && 0 <= route[k].1 < 400);
        }
        assert(is_route(grid, start, target, route));
    }
}

/// A cell from which the target can be reached is the target itself, or a legal move leads
/// from it to a cell from which the target can be reached. And the other way round.
pub proof fn law_reachable_move_by_move(grid: Seq<u8>, start: (i32, i32), target: (i32, i32))
    requires
        0 <= start.0 < 400 && 0 <= start.1 < 400,
    ensures
        reachable(grid, start, target) <==> start == target || exists|to: (i32, i32)| #[trigger]
            reachable(grid, to, target) && {
                let from = start;
                &&& -1 <= to.0 - from.0 <= 1 && -1 <= to.1 - from.1 <= 1 && to != from
                &&& 0 <= to.0 < 400 && 0 <= to.1 < 400
                &&& grid[to.1 * 400 + to.0] == 1 || to == target
                &&& to.0 != from.0 && to.1 != from.1 ==> grid[from.1 * 400 + to.0] != 2
                    && grid[to.1 * 400 + from.0] != 2
            },
{
    if reachable(grid, start, target) && start != target {
        let route = choose|route: Seq<(i32, i32)>| #[trigger]
            is_route(grid, start, target, route);
        let to = route[1];
        let rest = route.drop_first();
        assert(route.len() >= 2);
        assert(is_step(grid, target, route[0], route[0int + 1]));
        assert forall|k: int| 0 <= k < rest.len() - 1 implies is_step(
            grid,
            target,
            #[trigger] rest[k],
            rest[k + 1],
        ) by {
            assert(is_step(grid, target, route[k + 1], route[k + 1 + 1]));
        }
        assert(rest.last() == route.last());
        assert(is_route(grid, to, target, rest));
        assert(reachable(grid, to, target));
    }
    if start == target {
        assert(is_route(grid, start, target, seq![start]));
    }
    assert forall|to: (i32, i32)| #[trigger]
        reachable(grid, to, target) && is_step(grid, target, start, to) implies reachable(
        grid,
        start,
        target,
    ) by {
        let rest = choose|route: Seq<(i32, i32)>| #[trigger] is_route(grid, to, target, route);
        let route = seq![start] + rest;
        assert forall|k: int| 0 <= k < route.len() - 1 implies is_step(
            grid,
            target,
            #[trigger] route[k],
            route[k + 1],
        ) by {
            if k > 0 {
                assert(is_step(grid, target, rest[k - 1], rest[k - 1 + 1]));
            }
        }
        assert(route.last() == rest.last());
        assert(is_route(grid, start, target, route));
    }
}

/// The first move of a way costs what the rest of the way does not.
pub proof fn law_way_costs_its_moves(
    grid: Seq<u8>,
    target: (i32, i32),
    route: Seq<(i32, i32)>,
    cost: i32,
)
    requires
        route.len() >= 2,
        0 <= route[0].0 < 400 && 0 <= route[0].1 < 400,
        steps(grid, target, route[0], 9).contains((route[1], cost)),
    ensures
        route_cost(grid, route) - route_cost(grid, route.drop_first()) == cost,
        route_cost(grid, seq![target]) == 0,
{
    law_successors_are_steps(grid, target, route[0], route[1], cost);
}

/// A point on the map belongs to the cell of 25 by 25 pixels that it lies in, and one
/// beside the map to the nearest at the edge.
pub proof fn law_points_belong_to_the_cell_around_them(p: Vec2)
    ensures
        ({
            let (x, y) = (nearest_cell(p).0 as int, nearest_cell(p).1 as int);
            let side = 0x19_0000_0000int;
            &&& 0 <= x < 400 && 0 <= y < 400
            &&& 0 <= p.x < 400 * side ==> x * side <= p.x < (x + 1) * side
            &&& 0 <= p.y < 400 * side ==> y * side <= p.y < (y + 1) * side
            &&& p.x < 0 ==> x == 0
            &&& p.y < 0 ==> y == 0
            &&& p.x >= 400 * side ==> x == 399
            &&& p.y >= 400 * side ==> y == 399
        }),
{
}

/// A path passes the middles of all cells of the way but the first, in their order.
pub proof fn law_path_passes_the_middles(route: Seq<(i32, i32)>, k: int)
    requires
        stays_on_grid(route),
        route.len() > 0,
    ensures
        waypoints(route).len() == route.len() - 1,
        waypoints(Seq::empty()).len() == 0,
        0 < k < route.len() ==> {
            let p = waypoints(route)[k - 1];
            &&& 2 * p.x == (2 * route[k].0 + 1) * 0x19_0000_0000
            &&& 2 * p.y == (2 * route[k].1 + 1) * 0x19_0000_0000
            &&& nearest_cell(p) == route[k]
        },
{
    if 0 < k < route.len() {
        assert(on_grid(route[k].0 as int, route[k].1 as int));
        assert(route.skip(1)[k - 1] == route[k]);
    }
}

/// There is a path exactly where the search finds a way, and it passes the middles of its
/// cells.
pub proof fn law_path_is_of_the_way(grid: Seq<u8>, start: Vec2, target: Vec2)
    ensures
        path_between(grid, start, target) is None <==> found_route(
            grid,
            nearest_cell(start),
            nearest_cell(target),
        ) is None,
        found_route(grid, nearest_cell(start), nearest_cell(target)) matches Some(route)
            ==> path_between(grid, start, target) == Some(waypoints(route)),
{
}

/// The moves from a cell are listed column by column from the left, and in a column from the
/// top; none is listed twice.
pub proof fn law_moves_are_listed_column_by_column(
    grid: Seq<u8>,
    target: (i32, i32),
    from: (i32, i32),
    i: int,
    j: int,
)
    requires
        0 <= from.0 < 400 && 0 <= from.1 < 400,
        0 <= i < j < steps(grid, target, from, 9).len(),
    ensures
        ({
            let a = steps(grid, target, from, 9)[i].0;
            let b = steps(grid, target, from, 9)[j].0;
            a.0 < b.0 || (a.0 == b.0 && a.1 < b.1)
        }),
{
    lemma_steps_ascend(grid, target, from, 9);
}

proof fn lemma_steps_ascend(grid: Seq<u8>, target: (i32, i32), from: (i32, i32), n: nat)
    requires
        0 <= from.0 < 400 && 0 <= from.1 < 400,
        n <= 9,
    ensures
        forall|i: int|
            0 <= i < steps(grid, target, from, n).len() ==> {
                let a = (#[trigger] steps(grid, target, from, n)[i]).0;
                (a.0 - from.0 + 1) * 3 + (a.1 - from.1 + 1) < n && -1 <= a.1 - from.1 <= 1
            },
        forall|i: int, j: int|
            0 <= i < j < steps(grid, target, from, n).len() ==> {
                let a = (#[trigger] steps(grid, target, from, n)[i]).0;
                let b = (#[trigger] steps(grid, target, from, n)[j]).0;
                a.0 < b.0 || (a.0 == b.0 && a.1 < b.1)
            },
    decreases n,
{
    if n > 0 {
        let m = (n - 1) as nat;
        lemma_steps_ascend(grid, target, from, m);
        let before = steps(grid, target, from, m);
        let all = steps(grid, target, from, n);
        let last = around(from, n - 1);
        assert((last.0 - from.0 + 1) * 3 + (last.1 - from.1 + 1) == n - 1);
        assert forall|i: int| 0 <= i < before.len() implies all[i] == #[trigger] before[i] by {}
    }
}

} // verus!
