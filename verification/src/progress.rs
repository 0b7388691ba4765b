use vstd::prelude::*;
use crate::action::Direction;
use crate::coord::{manhattan, Coord};
use crate::environment::{EnvironmentState, SimulationView};
use crate::grid::{GridView, Neighbor};
use crate::grid_laws::{
    connects, lemma_neighbor_is_one_step, lemma_neighbor_slots, lemma_neighbors_are_adjacent,
    reachable, slot,
};
use crate::search::{direction_to, lemma_top, top, Entry, SearchView};

verus! {

/// Whether one of `ns` lies at `c`.
pub open spec fn among(ns: Seq<Neighbor>, c: Coord) -> bool {
    exists|i: int| 0 <= i < ns.len() && (#[trigger] ns[i]).position == c
}

/// Whether `c` waits in `f` at index `from` or behind it.
pub open spec fn waits(f: Seq<Entry>, from: int, c: Coord) -> bool {
    exists|k: int| from <= k < f.len() && (#[trigger] f[k]).position == c
}

/// Whether `ns` lie round `a`: each one step away, no two at one position.
pub open spec fn ring(ns: Seq<Neighbor>, a: Coord) -> bool {
    &&& forall|i: int| 0 <= i < ns.len() ==> manhattan(a, (#[trigger] ns[i]).position) == 1
    &&& forall|i: int, j: int|
        0 <= i < j < ns.len() ==> (#[trigger] ns[i]).position != (#[trigger] ns[j]).position
}

/// What expanding `a` on `p` does, for neighbours `ns` that lie round `a`:
/// the cost of `a` and the entries that waited stay; every new entry is one
/// of `ns`, at the cost of `a` plus one; only `ns` get a cost for the first
/// time; and each of `ns` that had no cost now waits.
pub proof fn lemma_expand(p: SearchView, a: Coord, ns: Seq<Neighbor>, goal: Coord)
    requires
        p.best_cost.contains_key(a),
        ring(ns, a),
    ensures
        ({
            let q = p.expand(a, ns, goal);
            let g = p.best_cost[a];
            &&& q.best_cost.contains_key(a)
            &&& q.best_cost[a] == g
            &&& p.frontier.len() <= q.frontier.len()
            &&& forall|k: int| 0 <= k < p.frontier.len() ==> #[trigger] q.frontier[k] == p.frontier[k]
            &&& forall|k: int|
                p.frontier.len() <= k < q.frontier.len() ==> {
                    let e = #[trigger] q.frontier[k];
                    &&& among(ns, e.position)
                    &&& e.priority == g + 1 + manhattan(e.position, goal)
                    &&& q.best_cost.contains_key(e.position)
                    &&& q.best_cost[e.position] == g + 1
                }
            &&& forall|c: Coord| #[trigger]
                q.best_cost.contains_key(c) ==> p.best_cost.contains_key(c) || among(ns, c)
            &&& forall|c: Coord| #[trigger] p.best_cost.contains_key(c) ==> q.best_cost.contains_key(c)
            &&& forall|i: int|
                0 <= i < ns.len() && !p.best_cost.contains_key((#[trigger] ns[i]).position) ==> waits(
                    q.frontier,
                    p.frontier.len() as int,
                    ns[i].position,
                )
        }),
    decreases ns.len(),
{
    if ns.len() > 0 {
        let init = ns.drop_last();
        let last = ns.last();
        let to = last.position;
        let m = ns.len() - 1;
        assert(forall|i: int| 0 <= i < init.len() ==> init[i] == ns[i]);
        lemma_expand(p, a, init, goal);
        let q1 = p.expand(a, init, goal);
        let q = q1.relax(a, to, goal);
        let g = p.best_cost[a];
        assert(q == p.expand(a, ns, goal));
        assert(manhattan(a, ns[m].position) == 1);
        assert(to != a);
        assert forall|c: Coord| among(init, c) implies among(ns, c) && c != to by {
            let i = choose|i: int| 0 <= i < init.len() && (#[trigger] init[i]).position == c;
            assert(ns[i].position == c);
            assert(ns[i].position != ns[m].position);
        }
        assert(among(ns, to)) by {
            assert(ns[m].position == to);
        }
        assert forall|k: int| p.frontier.len() <= k < q.frontier.len() implies ({
            let e = #[trigger] q.frontier[k];
            &&& among(ns, e.position)
            &&& e.priority == g + 1 + manhattan(e.position, goal)
            &&& q.best_cost.contains_key(e.position)
            &&& q.best_cost[e.position] == g + 1
        }) by {
            if k < q1.frontier.len() {
                let e = q1.frontier[k];
                assert(q.frontier[k] == e);
                assert(among(init, e.position));
            }
        }
        assert forall|c: Coord| #[trigger] q.best_cost.contains_key(c) implies p.best_cost.contains_key(
            c,
        ) || among(ns, c) by {
            if c != to {
                assert(q1.best_cost.contains_key(c));
            }
        }
        assert forall|i: int|
            0 <= i < ns.len() && !p.best_cost.contains_key((#[trigger] ns[i]).position) implies waits(
            q.frontier,
            p.frontier.len() as int,
            ns[i].position,
        ) by {
            if i < m {
                assert(init[i].position == ns[i].position);
                assert(waits(q1.frontier, p.frontier.len() as int, init[i].position));
                let k = choose|k: int|
                    p.frontier.len() <= k < q1.frontier.len() && (#[trigger] q1.frontier[k]).position
                        == init[i].position;
                assert(q.frontier[k].position == ns[i].position);
            } else {
                if q1.best_cost.contains_key(to) {
                    assert(p.best_cost.contains_key(to) || among(init, to));
                    assert(false);
                }
                let k = q.frontier.len() - 1;
                assert(q.frontier[k].position == to);
            }
        }
    }
}

/// Among neighbours at different positions, the direction to the position
/// of one of them is the direction of that one.
pub proof fn lemma_direction_to_found(ns: Seq<Neighbor>, i: int)
    requires
        0 <= i < ns.len(),
        forall|j: int, k: int|
            0 <= j < k < ns.len() ==> (#[trigger] ns[j]).position != (#[trigger] ns[k]).position,
    ensures
        direction_to(ns, ns[i].position) == Some(ns[i].direction),
    decreases ns.len(),
{
    let init = ns.drop_last();
    assert(forall|j: int| 0 <= j < init.len() ==> init[j] == ns[j]);
    if i < ns.len() - 1 {
        lemma_direction_to_found(init, i);
    } else {
        lemma_direction_to_absent(init, ns[i].position);
    }
}

/// There is no direction to a position at which none of the neighbours lies.
pub proof fn lemma_direction_to_absent(ns: Seq<Neighbor>, target: Coord)
    requires
        forall|j: int| 0 <= j < ns.len() ==> (#[trigger] ns[j]).position != target,
    ensures
        direction_to(ns, target) is None,
    decreases ns.len(),
{
    if ns.len() > 0 {
        let init = ns.drop_last();
        assert(forall|j: int| 0 <= j < init.len() ==> init[j] == ns[j]);
        lemma_direction_to_absent(init, target);
    }
}

/// The search is on the robot's heels: robot and goal stand in the grid, the
/// simulation has not arrived, the entry on top of the frontier is the
/// robot's position, no other entry has a priority below the robot's cost
/// plus its distance to the goal, and no position with a cost is nearer to
/// the goal than the robot.
pub open spec fn on_course(s: SimulationView) -> bool {
    let f = s.search.frontier;
    let cost = s.search.best_cost;
    let left = manhattan(s.agent, s.goal);
    &&& s.grid.wf()
    &&& s.grid.contains(s.agent)
    &&& s.grid.contains(s.goal)
    &&& s.state != EnvironmentState::END
    &&& f.len() > 0
    &&& f[top(f)].position == s.agent
    &&& cost.contains_key(s.agent)
    &&& forall|i: int|
        0 <= i < f.len() && i != top(f) ==> (#[trigger] f[i]).priority >= cost[s.agent] + left
    &&& forall|c: Coord| #[trigger] cost.contains_key(c) ==> manhattan(c, s.goal) >= left
}

/// The direction that leads from `a` towards `goal`, along the row first.
pub open spec fn heading(a: Coord, goal: Coord) -> Direction {
    if a.x < goal.x {
        Direction::Right
    } else if a.x > goal.x {
        Direction::Left
    } else if a.y < goal.y {
        Direction::Down
    } else {
        Direction::Up
    }
}

/// The neighbours of a cell of the grid lie round it, each in the grid and
/// where its direction leads.
pub proof fn lemma_neighbors_ring(grid: GridView, c: Coord)
    requires
        grid.wf(),
        grid.contains(c),
    ensures
        ring(grid.neighbors(c), c),
        forall|i: int|
            0 <= i < grid.neighbors(c).len() ==> {
                let n = #[trigger] grid.neighbors(c)[i];
                grid.contains(n.position) && n.position == c.plus(n.direction.delta())
            },
{
    lemma_neighbors_are_adjacent(grid, c);
}

/// A cell of the grid other than the goal has a neighbour that is one step
/// nearer to the goal: the result is its index among the neighbours.
pub proof fn lemma_heading_neighbor(grid: GridView, a: Coord, goal: Coord) -> (m: int)
    requires
        grid.wf(),
        grid.contains(a),
        grid.contains(goal),
        a != goal,
    ensures
        0 <= m < grid.neighbors(a).len(),
        manhattan(grid.neighbors(a)[m].position, goal) + 1 == manhattan(a, goal),
{
    let d = heading(a, goal);
    assert(grid.neighbor(a, d) is Some);
    lemma_neighbor_is_one_step(grid, a, d);
    lemma_neighbor_slots(grid, a);
    slot(grid, a, d)
}

/// Expanding `a`, which has a neighbour nearer to the goal, on a search in
/// which nothing waits with a priority below the cost of `a` plus its
/// distance to the goal, and nothing with a cost is nearer to the goal than
/// `a`: afterwards a neighbour one step nearer to the goal is on top, at the
/// cost of `a` plus one, and both bounds hold for it.
pub proof fn lemma_top_after_expand(p: SearchView, a: Coord, ns: Seq<Neighbor>, goal: Coord, m: int)
    requires
        p.best_cost.contains_key(a),
        ring(ns, a),
        0 <= m < ns.len(),
        manhattan(ns[m].position, goal) + 1 == manhattan(a, goal),
        forall|k: int|
            0 <= k < p.frontier.len() ==> (#[trigger] p.frontier[k]).priority >= p.best_cost[a]
                + manhattan(a, goal),
        forall|c: Coord| #[trigger] p.best_cost.contains_key(c) ==> manhattan(c, goal) >= manhattan(a, goal),
    ensures
        ({
            let q = p.expand(a, ns, goal);
            let next = q.frontier[top(q.frontier)].position;
            &&& q.frontier.len() > 0
            &&& among(ns, next)
            &&& manhattan(next, goal) + 1 == manhattan(a, goal)
            &&& q.best_cost.contains_key(next)
            &&& q.best_cost[next] == p.best_cost[a] + 1
            &&& forall|j: int|
                0 <= j < q.frontier.len() ==> (#[trigger] q.frontier[j]).priority >= p.best_cost[a]
                    + manhattan(a, goal)
            &&& forall|c: Coord| #[trigger]
                q.best_cost.contains_key(c) ==> manhattan(c, goal) + 1 >= manhattan(a, goal)
        }),
{
    let g = p.best_cost[a];
    let left = manhattan(a, goal);
    let base = p.frontier.len() as int;
    lemma_expand(p, a, ns, goal);
    let q = p.expand(a, ns, goal);
    let near = ns[m].position;
    assert(!p.best_cost.contains_key(near));
    assert(waits(q.frontier, base, near));
    let k = choose|k: int| base <= k < q.frontier.len() && (#[trigger] q.frontier[k]).position == near;
    assert(q.frontier[k].priority == g + left);
    assert forall|j: int| 0 <= j < q.frontier.len() implies (#[trigger] q.frontier[j]).priority >= g
        + left by {
        if j < base {
            assert(q.frontier[j] == p.frontier[j]);
        } else {
            let e = q.frontier[j];
            assert(among(ns, e.position));
            let i = choose|i: int| 0 <= i < ns.len() && (#[trigger] ns[i]).position == e.position;
            assert(manhattan(a, ns[i].position) == 1);
        }
    }
    lemma_top(q.frontier);
    let t1 = top(q.frontier);
    assert(t1 >= k) by {
        if t1 < k {
            assert(q.frontier[t1].priority < q.frontier[k].priority);
        }
    }
    assert(q.frontier[t1].priority == g + left) by {
        if t1 > k {
            assert(q.frontier[t1].priority <= q.frontier[k].priority);
        }
    }
    assert forall|c: Coord| #[trigger] q.best_cost.contains_key(c) implies manhattan(c, goal) + 1
        >= left by {
        if !p.best_cost.contains_key(c) {
            assert(among(ns, c));
            let j = choose|j: int| 0 <= j < ns.len() && (#[trigger] ns[j]).position == c;
            assert(manhattan(a, ns[j].position) == 1);
        }
    }
}

/// A tick of a simulation that is on course and not on the goal takes the
/// robot one step nearer to the goal, inside the grid, and leaves the
/// simulation on course or arrived.
pub proof fn lemma_tick_on_course(s: SimulationView)
    requires
        on_course(s),
        s.agent != s.goal,
    ensures
        s.tick().grid == s.grid,
        s.tick().goal == s.goal,
        s.tick().turns == s.turns + 1,
        s.grid.contains(s.tick().agent),
        manhattan(s.tick().agent, s.goal) + 1 == manhattan(s.agent, s.goal),
        s.tick().agent != s.goal ==> on_course(s.tick()),
        s.tick().agent == s.goal ==> s.tick().state == EnvironmentState::END,
{
    let f = s.search.frontier;
    let a = s.agent;
    let goal = s.goal;
    let left = manhattan(a, goal);
    let g = s.search.best_cost[a];
    let t0 = top(f);
    lemma_top(f);
    let popped = s.search.without(t0);
    assert forall|k: int| 0 <= k < popped.frontier.len() implies (#[trigger] popped.frontier[k]).priority
        >= g + left by {
        if k < t0 {
            assert(popped.frontier[k] == f[k]);
        } else {
            assert(popped.frontier[k] == f[k + 1]);
        }
    }
    let ns = s.grid.neighbors(a);
    lemma_neighbors_ring(s.grid, a);
    let m = lemma_heading_neighbor(s.grid, a, goal);
    lemma_top_after_expand(popped, a, ns, goal, m);
    let q = popped.expand(a, ns, goal);
    let t1 = top(q.frontier);
    let next = q.frontier[t1].position;
    let i = choose|i: int| 0 <= i < ns.len() && (#[trigger] ns[i]).position == next;
    lemma_direction_to_found(ns, i);
    let advice = direction_to(ns, next);
    assert(advice == Some(ns[i].direction));
    assert(s.search.step(s.grid, goal) == (q, advice));
    let t = s.tick();
    assert(t.agent == next);
    assert(t.search == q);
    if next != goal {
        assert(t.state == EnvironmentState::RUN);
        assert(on_course(t));
    }
}

/// Between two cells of the grid there is a walk of as many steps as they
/// are apart: the result is one. With the law that no walk is shorter, the
/// distance is the length of the shortest walk.
pub proof fn lemma_straight_walk(grid: GridView, a: Coord, b: Coord) -> (path: Seq<Coord>)
    requires
        grid.wf(),
        grid.contains(a),
        grid.contains(b),
    ensures
        connects(grid, path, a, b),
        path.len() == manhattan(a, b) + 1,
    decreases manhattan(a, b),
{
    if a == b {
        seq![a]
    } else {
        let d = heading(a, b);
        assert(grid.neighbor(a, d) is Some);
        lemma_neighbor_is_one_step(grid, a, d);
        let n = a.plus(d.delta());
        let rest = lemma_straight_walk(grid, n, b);
        let path = seq![a] + rest;
        assert forall|i: int| 0 <= i < path.len() implies grid.contains(#[trigger] path[i]) by {
            if i > 0 {
                assert(path[i] == rest[i - 1]);
            }
        }
        assert forall|i: int| 0 <= i < path.len() - 1 implies manhattan(
            #[trigger] path[i],
            path[i + 1],
        ) == 1 by {
            assert(path[i + 1] == rest[i]);
            if i > 0 {
                assert(path[i] == rest[i - 1]);
                assert(manhattan(rest[i - 1], rest[i - 1 + 1]) == 1);
            }
        }
        path
    }
}

/// One cell can be reached from another exactly if both lie in the grid.
pub proof fn lemma_reachable_means_inside(grid: GridView, a: Coord, b: Coord)
    requires
        grid.wf(),
    ensures
        reachable(grid, a, b) <==> grid.contains(a) && grid.contains(b),
{
    if reachable(grid, a, b) {
        let path = choose|path: Seq<Coord>| connects(grid, path, a, b);
        assert(grid.contains(path[0]));
        assert(grid.contains(path[path.len() - 1]));
    }
    if grid.contains(a) && grid.contains(b) {
        let path = lemma_straight_walk(grid, a, b);
        assert(connects(grid, path, a, b));
    }
}

/// A simulation on course comes one step nearer to the goal with every tick
/// until it arrives.
pub proof fn lemma_march(s: SimulationView, n: nat)
    requires
        on_course(s),
        s.agent != s.goal,
        n <= manhattan(s.agent, s.goal),
    ensures
        s.after(n).grid == s.grid,
        s.after(n).goal == s.goal,
        s.after(n).turns == s.turns + n,
        s.grid.contains(s.after(n).agent),
        manhattan(s.after(n).agent, s.goal) + n == manhattan(s.agent, s.goal),
        n < manhattan(s.agent, s.goal) ==> on_course(s.after(n)),
        n == manhattan(s.agent, s.goal) ==> s.after(n).state == EnvironmentState::END,
    decreases n,
{
    if n > 0 {
        let before = s.after((n - 1) as nat);
        lemma_march(s, (n - 1) as nat);
        lemma_tick_on_course(before);
    }
}

/// Where the goal can be reached from the start, the simulation arrives, and
/// soon: a robot that starts on the goal has arrived after its first tick,
/// any other comes one step nearer with every tick and has arrived after as
/// many ticks as the goal is steps away, not before. That is never more than
/// the grid has cells.
pub proof fn lemma_reaches_goal(grid: GridView, start: Coord, goal: Coord)
    requires
        grid.wf(),
        reachable(grid, start, goal),
    ensures
        ({
            let s = SimulationView::init(grid, start, goal);
            let ticks: nat = if start == goal { 1 } else { manhattan(start, goal) };
            &&& s.after(ticks).state == EnvironmentState::END
            &&& s.after(ticks).agent == goal
            &&& ticks <= grid.width * grid.height()
            &&& forall|n: nat| n < ticks ==> (#[trigger] s.after(n)).state != EnvironmentState::END
            &&& forall|n: nat|
                n <= ticks ==> grid.contains((#[trigger] s.after(n)).agent) && manhattan(
                    s.after(n).agent,
                    goal,
                ) + n == manhattan(start, goal) + (if start == goal { n } else { 0 })
        }),
{
    lemma_reachable_means_inside(grid, start, goal);
    let s = SimulationView::init(grid, start, goal);
    let ticks: nat = if start == goal { 1 } else { manhattan(start, goal) };
    let w = grid.width as int;
    let h = grid.height() as int;
    assert(manhattan(start, goal) <= (w - 1) + (h - 1));
    assert(w + h - 1 <= w * h) by (nonlinear_arith)
        requires
            w >= 1,
            h >= 1,
    ;
    let f = s.search.frontier;
    assert(top(f) == 0);
    assert(s.after(0) == s);
    if start == goal {
        assert(s.after(1) == s.tick());
        assert forall|n: nat| n <= ticks implies grid.contains((#[trigger] s.after(n)).agent)
            && manhattan(s.after(n).agent, goal) + n == manhattan(start, goal) + n by {
            if n == 1 {
            }
        }
    } else {
        assert(on_course(s));
        lemma_march(s, ticks);
        assert forall|n: nat| n < ticks implies (#[trigger] s.after(n)).state
            != EnvironmentState::END by {
            lemma_march(s, n);
        }
        assert forall|n: nat| n <= ticks implies grid.contains((#[trigger] s.after(n)).agent)
            && manhattan(s.after(n).agent, goal) + n == manhattan(start, goal) by {
            lemma_march(s, n);
        }
    }
}

} // verus!
