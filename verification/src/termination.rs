use vstd::prelude::*;
use crate::coord::Coord;
use crate::environment::{EnvironmentState, SimulationView};
use crate::grid::{GridView, Neighbor, Tile};
use crate::grid_laws::{lemma_outside_is_refused, reachable};
use crate::run_laws::lemma_start_outside_is_stuck;
use crate::progress::lemma_neighbors_ring;
use crate::search::{lemma_top, top, SearchView};

verus! {

/// The cell in column `x` of row `y`.
pub open spec fn cell(x: int, y: int) -> Coord {
    Coord { x: x as i32, y: y as i32 }
}

/// What a cell weighs under the costs `cost`. Counting, a cell without a
/// cost weighs one and any other nothing; else a cell weighs its cost.
pub open spec fn weight(cost: Map<Coord, nat>, counting: bool, c: Coord) -> nat {
    if counting {
        if cost.contains_key(c) {
            0
        } else {
            1
        }
    } else {
        if cost.contains_key(c) {
            cost[c]
        } else {
            0
        }
    }
}

/// The weight of the first `upto` cells of row `y`.
pub open spec fn row_weight(cost: Map<Coord, nat>, counting: bool, y: int, upto: int) -> nat
    decreases upto,
{
    if upto <= 0 {
        0
    } else {
        row_weight(cost, counting, y, upto - 1) + weight(cost, counting, cell(upto - 1, y))
    }
}

/// The weight of the first `upto` rows of a grid `width` cells wide.
pub open spec fn grid_weight(cost: Map<Coord, nat>, counting: bool, width: int, upto: int) -> nat
    decreases upto,
{
    if upto <= 0 {
        0
    } else {
        grid_weight(cost, counting, width, upto - 1) + row_weight(cost, counting, upto - 1, width)
    }
}

/// The number of cells of `grid` that the search has given no cost yet.
pub open spec fn unseen(s: SearchView, grid: GridView) -> nat {
    grid_weight(s.best_cost, true, grid.width as int, grid.height() as int)
}

/// The sum of the costs that the search has given to cells of `grid`.
pub open spec fn total_cost(s: SearchView, grid: GridView) -> nat {
    grid_weight(s.best_cost, false, grid.width as int, grid.height() as int)
}

/// Where no cell of a row weighs more under `a` than under `b`, neither does
/// the row.
proof fn lemma_row_weight_le(
    a: Map<Coord, nat>,
    b: Map<Coord, nat>,
    counting: bool,
    y: int,
    upto: int,
)
    requires
        forall|x: int|
            0 <= x < upto ==> #[trigger] weight(a, counting, cell(x, y)) <= weight(
                b,
                counting,
                cell(x, y),
            ),
    ensures
        row_weight(a, counting, y, upto) <= row_weight(b, counting, y, upto),
    decreases upto,
{
    if upto > 0 {
        lemma_row_weight_le(a, b, counting, y, upto - 1);
        assert(weight(a, counting, cell(upto - 1, y)) <= weight(b, counting, cell(upto - 1, y)));
    }
}

/// Where moreover the cell in column `at` weighs less, so does the row.
proof fn lemma_row_weight_lt(
    a: Map<Coord, nat>,
    b: Map<Coord, nat>,
    counting: bool,
    y: int,
    upto: int,
    at: int,
)
    requires
        forall|x: int|
            0 <= x < upto ==> #[trigger] weight(a, counting, cell(x, y)) <= weight(
                b,
                counting,
                cell(x, y),
            ),
        0 <= at < upto,
        weight(a, counting, cell(at, y)) < weight(b, counting, cell(at, y)),
    ensures
        row_weight(a, counting, y, upto) < row_weight(b, counting, y, upto),
    decreases upto,
{
    assert(weight(a, counting, cell(upto - 1, y)) <= weight(b, counting, cell(upto - 1, y)));
    if at == upto - 1 {
        lemma_row_weight_le(a, b, counting, y, upto - 1);
    } else {
        lemma_row_weight_lt(a, b, counting, y, upto - 1, at);
    }
}

/// Where no cell weighs more under `a` than under `b`, neither do the rows
/// together.
proof fn lemma_grid_weight_le(
    a: Map<Coord, nat>,
    b: Map<Coord, nat>,
    counting: bool,
    width: int,
    upto: int,
)
    requires
        forall|x: int, y: int|
            0 <= x < width && 0 <= y < upto ==> #[trigger] weight(a, counting, cell(x, y))
                <= weight(b, counting, cell(x, y)),
    ensures
        grid_weight(a, counting, width, upto) <= grid_weight(b, counting, width, upto),
    decreases upto,
{
    if upto > 0 {
        lemma_grid_weight_le(a, b, counting, width, upto - 1);
        lemma_row_weight_le(a, b, counting, upto - 1, width);
    }
}

/// Where moreover the cell at `(at_x, at_y)` weighs less, so do the rows
/// together.
proof fn lemma_grid_weight_lt(
    a: Map<Coord, nat>,
    b: Map<Coord, nat>,
    counting: bool,
    width: int,
    upto: int,
    at_x: int,
    at_y: int,
)
    requires
        forall|x: int, y: int|
            0 <= x < width && 0 <= y < upto ==> #[trigger] weight(a, counting, cell(x, y))
                <= weight(b, counting, cell(x, y)),
        0 <= at_x < width,
        0 <= at_y < upto,
        weight(a, counting, cell(at_x, at_y)) < weight(b, counting, cell(at_x, at_y)),
    ensures
        grid_weight(a, counting, width, upto) < grid_weight(b, counting, width, upto),
    decreases upto,
{
    if at_y == upto - 1 {
        lemma_grid_weight_le(a, b, counting, width, upto - 1);
        lemma_row_weight_lt(a, b, counting, upto - 1, width, at_x);
    } else {
        lemma_grid_weight_lt(a, b, counting, width, upto - 1, at_x, at_y);
        lemma_row_weight_le(a, b, counting, upto - 1, width);
    }
}

/// `q` has come from `p` by looking at neighbours: either cells have got
/// their first cost, or none has and costs have fallen, or nothing has
/// changed but possibly what waits; and only in the last case does as much
/// wait as before.
pub open spec fn relaxed(p: SearchView, q: SearchView, grid: GridView) -> bool {
    ||| unseen(q, grid) < unseen(p, grid)
    ||| unseen(q, grid) == unseen(p, grid) && total_cost(q, grid) < total_cost(p, grid)
    ||| unseen(q, grid) == unseen(p, grid) && total_cost(q, grid) == total_cost(p, grid)
        && q.frontier.len() == p.frontier.len()
}

/// Looking at one neighbour in the grid either changes nothing or brings
/// the search forward.
proof fn lemma_relax_measure(p: SearchView, from: Coord, to: Coord, goal: Coord, grid: GridView)
    requires
        grid.wf(),
        grid.contains(to),
    ensures
        ({
            let q = p.relax(from, to, goal);
            ||| q == p
            ||| unseen(q, grid) < unseen(p, grid)
            ||| unseen(q, grid) == unseen(p, grid) && total_cost(q, grid) < total_cost(p, grid)
        }),
{
    let q = p.relax(from, to, goal);
    let w = grid.width as int;
    let h = grid.height() as int;
    if q != p {
        assert(cell(to.x as int, to.y as int) == to);
        assert forall|x: int, y: int| 0 <= x < w && 0 <= y < h implies #[trigger] weight(
            q.best_cost,
            true,
            cell(x, y),
        ) <= weight(p.best_cost, true, cell(x, y)) by {}
        if !p.best_cost.contains_key(to) {
            lemma_grid_weight_lt(q.best_cost, p.best_cost, true, w, h, to.x as int, to.y as int);
        } else {
            assert forall|x: int, y: int| 0 <= x < w && 0 <= y < h implies #[trigger] weight(
                p.best_cost,
                true,
                cell(x, y),
            ) <= weight(q.best_cost, true, cell(x, y)) by {}
            lemma_grid_weight_le(q.best_cost, p.best_cost, true, w, h);
            lemma_grid_weight_le(p.best_cost, q.best_cost, true, w, h);
            assert forall|x: int, y: int| 0 <= x < w && 0 <= y < h implies #[trigger] weight(
                q.best_cost,
                false,
                cell(x, y),
            ) <= weight(p.best_cost, false, cell(x, y)) by {}
            lemma_grid_weight_lt(q.best_cost, p.best_cost, false, w, h, to.x as int, to.y as int);
        }
    }
}

/// Looking at neighbours in the grid brings the search forward or leaves as
/// much waiting as before.
proof fn lemma_expand_measure(
    p: SearchView,
    from: Coord,
    ns: Seq<Neighbor>,
    goal: Coord,
    grid: GridView,
)
    requires
        grid.wf(),
        forall|i: int| 0 <= i < ns.len() ==> grid.contains((#[trigger] ns[i]).position),
    ensures
        relaxed(p, p.expand(from, ns, goal), grid),
    decreases ns.len(),
{
    if ns.len() > 0 {
        let init = ns.drop_last();
        assert(forall|i: int| 0 <= i < init.len() ==> init[i] == ns[i]);
        lemma_expand_measure(p, from, init, goal, grid);
        let q1 = p.expand(from, init, goal);
        assert(grid.contains(ns[ns.len() - 1].position));
        lemma_relax_measure(q1, from, ns.last().position, goal, grid);
    }
}

/// A step of a search in which something waits brings it forward, or leaves
/// the costs as they are and one entry less waiting.
pub proof fn lemma_step_measure(s: SearchView, grid: GridView, goal: Coord)
    requires
        grid.wf(),
        s.frontier.len() > 0,
    ensures
        ({
            let q = s.step(grid, goal).0;
            ||| unseen(q, grid) < unseen(s, grid)
            ||| unseen(q, grid) == unseen(s, grid) && total_cost(q, grid) < total_cost(s, grid)
            ||| unseen(q, grid) == unseen(s, grid) && total_cost(q, grid) == total_cost(s, grid)
                && q.frontier.len() < s.frontier.len()
        }),
{
    let t0 = top(s.frontier);
    lemma_top(s.frontier);
    let current = s.frontier[t0].position;
    let popped = s.without(t0);
    assert(popped.best_cost == s.best_cost);
    if current != goal {
        let ns = grid.neighbors(current);
        if grid.contains(current) {
            lemma_neighbors_ring(grid, current);
        } else {
            lemma_outside_is_refused(grid, current, Tile::CLEAN);
        }
        lemma_expand_measure(popped, current, ns, goal, grid);
    }
}

/// Ticking first and then `n` times is ticking `n + 1` times.
pub proof fn lemma_after_tick(s: SimulationView, n: nat)
    ensures
        s.tick().after(n) == s.after(n + 1),
    decreases n,
{
    if n > 0 {
        lemma_after_tick(s, (n - 1) as nat);
        assert(s.after(n + 1) == s.after(n).tick());
    } else {
        assert(s.after(1) == s.after(0).tick());
    }
}

/// Every run comes to rest. The result is a number of ticks after which the
/// simulation has arrived or the search has nothing left; from then on the
/// one or the other holds at every tick, no advice is given, and the robot
/// stays where it is.
pub proof fn lemma_run_comes_to_rest(s: SimulationView) -> (n: nat)
    requires
        s.grid.wf(),
    ensures
        forall|m: nat|
            m >= n ==> {
                let t = #[trigger] s.after(m);
                &&& t.state == EnvironmentState::END || t.search.exhausted()
                &&& t.state == EnvironmentState::END || t.search.step(t.grid, t.goal).1 is None
                &&& t.agent == s.after(n).agent
            },
    decreases unseen(s.search, s.grid), total_cost(s.search, s.grid), s.search.frontier.len(),
{
    if s.state == EnvironmentState::END || s.search.exhausted() {
        assert forall|m: nat| m >= 0 implies ({
            let t = #[trigger] s.after(m);
            &&& t.state == EnvironmentState::END || t.search.exhausted()
            &&& t.state == EnvironmentState::END || t.search.step(t.grid, t.goal).1 is None
            &&& t.agent == s.after(0).agent
        }) by {
            lemma_rest_lasts(s, m);
        }
        0
    } else {
        lemma_step_measure(s.search, s.grid, s.goal);
        let next = s.tick();
        let k = lemma_run_comes_to_rest(next);
        let n = k + 1;
        assert forall|m: nat| m >= n implies ({
            let t = #[trigger] s.after(m);
            &&& t.state == EnvironmentState::END || t.search.exhausted()
            &&& t.state == EnvironmentState::END || t.search.step(t.grid, t.goal).1 is None
            &&& t.agent == s.after(n).agent
        }) by {
            lemma_after_tick(s, (m - 1) as nat);
            lemma_after_tick(s, k);
            let t = next.after((m - 1) as nat);
            assert(t == s.after(m));
        }
        n
    }
}

/// Where the goal cannot be reached from the start, the run still comes to
/// rest: the result is a number of ticks after which no advice is given any
/// more and the robot stays where it is. A robot that starts outside the
/// grid, and not on the goal, never moves and never arrives.
pub proof fn lemma_cut_off_run_comes_to_rest(grid: GridView, start: Coord, goal: Coord) -> (n: nat)
    requires
        grid.wf(),
        !reachable(grid, start, goal),
    ensures
        forall|m: nat|
            m >= n ==> {
                let t = #[trigger] SimulationView::init(grid, start, goal).after(m);
                &&& t.state == EnvironmentState::END || t.search.exhausted()
                &&& t.state == EnvironmentState::END || t.search.step(t.grid, t.goal).1 is None
                &&& t.agent == SimulationView::init(grid, start, goal).after(n).agent
            },
        !grid.contains(start) && start != goal ==> forall|m: nat|
            {
                let t = #[trigger] SimulationView::init(grid, start, goal).after(m);
                t.state != EnvironmentState::END && t.agent == start
            },
{
    let s = SimulationView::init(grid, start, goal);
    let n = lemma_run_comes_to_rest(s);
    if !grid.contains(start) && start != goal {
        assert forall|m: nat|
            {
                let t = #[trigger] s.after(m);
                t.state != EnvironmentState::END && t.agent == start
            } by {
            if m > 0 {
                lemma_start_outside_is_stuck(grid, start, goal, m);
            }
        }
    }
    n
}

/// A simulation that has arrived or whose search has nothing left stays so,
/// and its robot where it is.
pub proof fn lemma_rest_lasts(s: SimulationView, m: nat)
    requires
        s.state == EnvironmentState::END || s.search.exhausted(),
    ensures
        s.after(m).state == EnvironmentState::END || s.after(m).search.exhausted(),
        s.after(m).state == EnvironmentState::END || s.after(m).search.step(
            s.after(m).grid,
            s.after(m).goal,
        ).1 is None,
        s.after(m).agent == s.agent,
        s.after(m).grid == s.grid,
        s.after(m).goal == s.goal,
    decreases m,
{
    if m > 0 {
        lemma_rest_lasts(s, (m - 1) as nat);
    }
}

} // verus!
