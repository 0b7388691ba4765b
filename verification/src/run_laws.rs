use vstd::prelude::*;
use crate::coord::Coord;
use crate::environment::{EnvironmentState, SimulationView};
use crate::grid::GridView;
use crate::grid_laws::{connects, lemma_outside_is_refused, reachable};
use crate::grid::Tile;
use crate::search::{top, Entry};

verus! {

/// Two simulations that agree on the grid, the robot, the goal, the search
/// and the state go the same way, tick for tick, however many ticks each has
/// counted before.
pub proof fn lemma_runs_are_deterministic(a: SimulationView, b: SimulationView, n: nat)
    requires
        a.grid == b.grid,
        a.agent == b.agent,
        a.goal == b.goal,
        a.search == b.search,
        a.state == b.state,
    ensures
        a.after(n).grid == b.after(n).grid,
        a.after(n).agent == b.after(n).agent,
        a.after(n).goal == b.after(n).goal,
        a.after(n).search == b.after(n).search,
        a.after(n).state == b.after(n).state,
        a.after(n).turns == a.turns + n,
        b.after(n).turns == b.turns + n,
    decreases n,
{
    if n > 0 {
        lemma_runs_are_deterministic(a, b, (n - 1) as nat);
    }
}

/// Once nothing waits in the search and the robot is not on the goal, it
/// stays so: no tick gives advice, the robot does not move, and the
/// simulation never arrives.
pub proof fn lemma_stuck_stays_stuck(s: SimulationView, n: nat)
    requires
        s.search.exhausted(),
        s.agent != s.goal,
        s.state != EnvironmentState::END,
    ensures
        s.after(n).search == s.search,
        s.after(n).search.step(s.grid, s.goal).1 is None,
        s.after(n).agent == s.agent,
        s.after(n).grid == s.grid,
        s.after(n).goal == s.goal,
        s.after(n).state != EnvironmentState::END,
    decreases n,
{
    if n > 0 {
        lemma_stuck_stays_stuck(s, (n - 1) as nat);
    }
}

/// A robot that starts outside the grid cannot reach any goal, nor can any
/// robot reach a goal outside the grid.
pub proof fn lemma_outside_is_cut_off(grid: GridView, start: Coord, goal: Coord)
    requires
        !grid.contains(start) || !grid.contains(goal),
    ensures
        !reachable(grid, start, goal),
{
    if reachable(grid, start, goal) {
        let path = choose|path: Seq<Coord>| connects(grid, path, start, goal);
        assert(grid.contains(path[0]));
        assert(grid.contains(path[path.len() - 1]));
    }
}

/// A robot that starts outside the grid has nowhere to go: its first tick
/// leaves the search with nothing, and unless it started on the goal it
/// never arrives.
pub proof fn lemma_start_outside_is_stuck(grid: GridView, start: Coord, goal: Coord, n: nat)
    requires
        !grid.contains(start),
        start != goal,
        n > 0,
    ensures
        SimulationView::init(grid, start, goal).after(n).search.exhausted(),
        SimulationView::init(grid, start, goal).after(n).agent == start,
        SimulationView::init(grid, start, goal).after(n).state == EnvironmentState::RUN,
    decreases n,
{
    let s = SimulationView::init(grid, start, goal);
    if n == 1 {
        assert(s.after(0) == s);
        lemma_outside_is_refused(grid, start, Tile::CLEAN);
        let f = s.search.frontier;
        assert(top(f) == 0);
        assert(f.remove(0) =~= Seq::<Entry>::empty());
        let popped = s.search.without(0);
        assert(grid.neighbors(start).len() == 0);
        assert(popped.expand(start, grid.neighbors(start), goal) == popped);
    } else {
        lemma_start_outside_is_stuck(grid, start, goal, (n - 1) as nat);
    }
}

} // verus!
