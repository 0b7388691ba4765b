use vstd::prelude::*;
use std::collections::HashMap;
use crate::action::Direction;
use crate::coord::{manhattan, manhattan_distance, Coord};
use crate::grid::{Grid, GridView, Neighbor, Tile};
use crate::grid_laws::lemma_outside_is_refused;

verus! {

broadcast use vstd::std_specs::hash::group_hash_axioms;

/// An entry of the frontier as the contracts see it: a position waiting to be
/// expanded and its priority, the cost of reaching it plus the estimate of
/// what is left.
pub struct Entry {
    pub position: Coord,
    pub priority: nat,
}

/// An entry of the frontier. `cost` is its priority.
#[derive(Clone, Copy, PartialEq, Eq, Structural, Debug)]
pub struct PositionNode {
    pub position: Coord,
    pub cost: u128,
}

impl View for PositionNode {
    type V = Entry;

    open spec fn view(&self) -> Entry {
        Entry { position: self.position, priority: self.cost as nat }
    }
}

/// The entries of a frontier held in a vector.
pub open spec fn entries(nodes: Seq<PositionNode>) -> Seq<Entry> {
    Seq::new(nodes.len(), |i: int| nodes[i]@)
}

/// The index of the entry that leaves a frontier next: the one of least
/// priority and, among several of them, the one that was added last.
pub open spec fn top(f: Seq<Entry>) -> int
    decreases f.len(),
{
    if f.len() <= 1 {
        0
    } else {
        let t = top(f.drop_last());
        if f.last().priority <= f[t].priority {
            f.len() - 1
        } else {
            t
        }
    }
}

/// What `top` picks, said without recursion.
pub open spec fn is_top(f: Seq<Entry>, i: int) -> bool {
    &&& 0 <= i < f.len()
    &&& forall|j: int| 0 <= j < i ==> f[i].priority <= (#[trigger] f[j]).priority
    &&& forall|j: int| i < j < f.len() ==> f[i].priority < (#[trigger] f[j]).priority
}

/// `top` picks the entry that `is_top` describes, and there is only one.
pub proof fn lemma_top(f: Seq<Entry>)
    requires
        f.len() > 0,
    ensures
        is_top(f, top(f)),
        forall|i: int| is_top(f, i) ==> i == top(f),
    decreases f.len(),
{
    if f.len() > 1 {
        let g = f.drop_last();
        lemma_top(g);
        let t = top(g);
        assert(forall|j: int| 0 <= j < g.len() ==> g[j] == f[j]);
        assert(is_top(f, top(f)));
    }
    assert forall|i: int| is_top(f, i) implies i == top(f) by {
        let t = top(f);
        if i < t {
            assert(f[i].priority < f[t].priority);
            assert(f[t].priority <= f[i].priority);
        } else if t < i {
            assert(f[t].priority < f[i].priority);
            assert(f[i].priority <= f[t].priority);
        }
    }
}

/// The direction of the first of `ns` that lies at `target`.
pub open spec fn direction_to(ns: Seq<Neighbor>, target: Coord) -> Option<Direction>
    decreases ns.len(),
{
    if ns.len() == 0 {
        None
    } else {
        match direction_to(ns.drop_last(), target) {
            Some(d) => Some(d),
            None => if ns.last().position == target {
                Some(ns.last().direction)
            } else {
                None
            },
        }
    }
}

/// The state of an incremental search as the contracts see it.
pub struct SearchView {
    /// The least number of steps found so far to each position reached.
    pub best_cost: Map<Coord, nat>,
    /// The position from which each position was last reached.
    pub parent: Map<Coord, Coord>,
    /// The entries that wait, in the order in which they were added.
    pub frontier: Seq<Entry>,
}

impl SearchView {
    /// Every position that waits has a cost.
    pub open spec fn wf(self) -> bool {
        forall|i: int| 0 <= i < self.frontier.len() ==> self.best_cost.contains_key(
            (#[trigger] self.frontier[i]).position,
        )
    }

    /// The search that starts at `start`.
    pub open spec fn init(start: Coord) -> SearchView {
        SearchView {
            best_cost: Map::<Coord, nat>::empty().insert(start, 0),
            parent: Map::empty(),
            frontier: seq![Entry { position: start, priority: 0 }],
        }
    }

    /// Whether nothing waits any more.
    pub open spec fn exhausted(self) -> bool {
        self.frontier.len() == 0
    }

    /// The search after looking from `from` at its neighbour `to`: where the
    /// step over `from` is the first or a cheaper way to `to`, `to` gets
    /// that cost, waits with the cost plus its distance to `goal` as
    /// priority, and has `from` as parent.
    pub open spec fn relax(self, from: Coord, to: Coord, goal: Coord) -> SearchView {
        let cost = self.best_cost[from] + 1;
        if !self.best_cost.contains_key(to) || cost < self.best_cost[to] {
            SearchView {
                best_cost: self.best_cost.insert(to, cost),
                parent: self.parent.insert(to, from),
                frontier: self.frontier.push(
                    Entry { position: to, priority: cost + manhattan(to, goal) },
                ),
            }
        } else {
            self
        }
    }

    /// The search after looking from `from` at each of `ns` in turn.
    pub open spec fn expand(self, from: Coord, ns: Seq<Neighbor>, goal: Coord) -> SearchView
        decreases ns.len(),
    {
        if ns.len() == 0 {
            self
        } else {
            self.expand(from, ns.drop_last(), goal).relax(from, ns.last().position, goal)
        }
    }

    /// The search without the entry at index `i` of its frontier.
    pub open spec fn without(self, i: int) -> SearchView {
        SearchView { frontier: self.frontier.remove(i), ..self }
    }

    /// One step of the search on `grid` towards `goal`, and the direction it
    /// advises.
    ///
    /// With nothing waiting, nothing changes and there is no advice. Else the
    /// top entry leaves the frontier. If it is the goal, that is all. If not,
    /// its neighbours are looked at in turn, impassable ones as any other.
    /// Then the advice is the direction from the entry that left to the one
    /// that is now on top, which stays in the frontier; there is none where
    /// the frontier is empty or its top is no neighbour of the entry that
    /// left.
    pub open spec fn step(self, grid: GridView, goal: Coord) -> (SearchView, Option<Direction>) {
        if self.frontier.len() == 0 {
            (self, None)
        } else {
            let current = self.frontier[top(self.frontier)].position;
            let popped = self.without(top(self.frontier));
            if current == goal {
                (popped, None)
            } else {
                let ns = grid.neighbors(current);
                let after = popped.expand(current, ns, goal);
                if after.frontier.len() == 0 {
                    (after, None)
                } else {
                    let next = after.frontier[top(after.frontier)].position;
                    (after, direction_to(ns, next))
                }
            }
        }
    }
}

/// The number under which a position is filed.
spec fn key(c: Coord) -> u64 {
    ((c.x + 0x8000_0000) * 0x1_0000_0000 + (c.y + 0x8000_0000)) as u64
}

/// No two positions are filed under one number.
proof fn lemma_key_injective()
    ensures
        forall|a: Coord, b: Coord| #[trigger] key(a) == #[trigger] key(b) ==> a == b,
{
    assert forall|a: Coord, b: Coord| #[trigger] key(a) == #[trigger] key(b) implies a == b by {
        let ka = (a.x + 0x8000_0000) * 0x1_0000_0000 + (a.y + 0x8000_0000);
        let kb = (b.x + 0x8000_0000) * 0x1_0000_0000 + (b.y + 0x8000_0000);
        assert(0 <= ka <= u64::MAX);
        assert(0 <= kb <= u64::MAX);
        assert(ka == kb);
    }
}

/// The number under which `c` is filed.
fn key_of(c: &Coord) -> (k: u64)
    ensures
        k == key(*c),
{
    let hi = (c.x as i64 + 0x8000_0000) as u64;
    let lo = (c.y as i64 + 0x8000_0000) as u64;
    hi * 0x1_0000_0000 + lo
}

/// The index of the entry that leaves `frontier` next.
fn top_index(frontier: &Vec<PositionNode>) -> (best: usize)
    requires
        frontier@.len() > 0,
    ensures
        best == top(entries(frontier@)),
        best < frontier@.len(),
{
    let ghost f = entries(frontier@);
    let mut best: usize = 0;
    let mut j: usize = 1;
    assert(f.take(1).len() == 1);
    while j < frontier.len()
        invariant
            1 <= j <= frontier@.len(),
            f == entries(frontier@),
            best < j,
            best == top(f.take(j as int)),
        decreases frontier@.len() - j,
    {
        proof {
            assert(f.take(j + 1).drop_last() =~= f.take(j as int));
            assert(f.take(j + 1).last() == f[j as int]);
            assert(f.take(j + 1)[best as int] == f[best as int]);
        }
        if frontier[j].cost <= frontier[best].cost {
            best = j;
        }
        j += 1;
    }
    assert(f.take(frontier@.len() as int) =~= f);
    best
}

/// The direction of the first of `neighbors` that lies at `target`.
pub fn find_direction(neighbors: &Vec<Neighbor>, target: Coord) -> (d: Option<Direction>)
    ensures
        d == direction_to(neighbors@, target),
{
    let mut i: usize = 0;
    assert(neighbors@.take(0) =~= Seq::<Neighbor>::empty());
    while i < neighbors.len()
        invariant
            i <= neighbors@.len(),
            direction_to(neighbors@.take(i as int), target) is None,
        decreases neighbors@.len() - i,
    {
        proof {
            assert(neighbors@.take(i + 1).drop_last() =~= neighbors@.take(i as int));
        }
        if neighbors[i].position == target {
            proof {
                lemma_direction_to_prefix(neighbors@, i + 1, target);
            }
            return Some(neighbors[i].direction);
        }
        i += 1;
    }
    assert(neighbors@.take(neighbors@.len() as int) =~= neighbors@);
    None
}

/// A direction found in a prefix of `ns` is the one found in `ns`.
proof fn lemma_direction_to_prefix(ns: Seq<Neighbor>, n: int, target: Coord)
    requires
        0 <= n <= ns.len(),
        direction_to(ns.take(n), target) is Some,
    ensures
        direction_to(ns, target) == direction_to(ns.take(n), target),
    decreases ns.len() - n,
{
    if n < ns.len() {
        assert(ns.take(n + 1).drop_last() =~= ns.take(n));
        lemma_direction_to_prefix(ns, n + 1, target);
    } else {
        assert(ns.take(n) =~= ns);
    }
}

/// The search state that three collections hold.
spec fn model(
    came_from: Map<u64, Coord>,
    costs: Map<u64, u64>,
    frontier: Seq<PositionNode>,
) -> SearchView {
    SearchView {
        best_cost: Map::new(|c: Coord| costs.contains_key(key(c)), |c: Coord| costs[key(c)] as nat),
        parent: Map::new(|c: Coord| came_from.contains_key(key(c)), |c: Coord| came_from[key(c)]),
        frontier: entries(frontier),
    }
}

/// Each position that waits has a cost, and no cost reaches the number of
/// positions that have one.
spec fn consistent(costs: Map<u64, u64>, frontier: Seq<PositionNode>) -> bool {
    &&& costs.dom().finite()
    &&& costs.len() <= usize::MAX
    &&& forall|i: int|
        0 <= i < frontier.len() ==> costs.contains_key(key((#[trigger] frontier[i]).position))
    &&& forall|k: u64| costs.contains_key(k) ==> (#[trigger] costs[k]) < costs.len()
}

/// Looks from `from` at its neighbour `to`.
fn relax(
    came_from: &mut HashMap<u64, Coord>,
    costs: &mut HashMap<u64, u64>,
    frontier: &mut Vec<PositionNode>,
    from: Coord,
    to: Coord,
    goal: Coord,
)
    requires
        consistent(old(costs)@, old(frontier)@),
        old(costs)@.contains_key(key(from)),
    ensures
        consistent(final(costs)@, final(frontier)@),
        final(costs)@.contains_key(key(from)),
        model(final(came_from)@, final(costs)@, final(frontier)@) == model(
            old(came_from)@,
            old(costs)@,
            old(frontier)@,
        ).relax(from, to, goal),
{
    proof {
        lemma_key_injective();
    }
    let ghost before = model(came_from@, costs@, frontier@);
    let base: u64 = match costs.get(&key_of(&from)) {
        Some(c) => *c,
        None => 0,
    };
    let cost: u64 = base + 1;
    let kt = key_of(&to);
    let better = match costs.get(&kt) {
        Some(c) => cost < *c,
        None => true,
    };
    if better {
        costs.insert(kt, cost);
        let priority: u128 = cost as u128 + manhattan_distance(&to, &goal) as u128;
        frontier.push(PositionNode { position: to, cost: priority });
        came_from.insert(kt, from);
        proof {
            let want = before.relax(from, to, goal);
            let got = model(came_from@, costs@, frontier@);
            assert(got.best_cost =~= want.best_cost);
            assert(got.parent =~= want.parent);
            assert(got.frontier =~= want.frontier);
            assert(costs@.len() == costs.len());
        }
    }
}

/// One step of the search held in the three collections.
fn advance(
    came_from: &mut HashMap<u64, Coord>,
    costs: &mut HashMap<u64, u64>,
    frontier: &mut Vec<PositionNode>,
    map: &Grid,
    goal: &Coord,
) -> (d: Option<Direction>)
    requires
        consistent(old(costs)@, old(frontier)@),
    ensures
        consistent(final(costs)@, final(frontier)@),
        (model(final(came_from)@, final(costs)@, final(frontier)@), d) == model(
            old(came_from)@,
            old(costs)@,
            old(frontier)@,
        ).step(map@, *goal),
{
    let ghost start = model(came_from@, costs@, frontier@);
    if frontier.len() == 0 {
        return None;
    }
    let i = top_index(frontier);
    let current = frontier.remove(i).position;
    let ghost popped = model(came_from@, costs@, frontier@);
    proof {
        assert(popped.frontier =~= start.without(i as int).frontier);
        assert(popped == start.without(i as int));
    }
    if current == *goal {
        return None;
    }
    let neighbors = match map.get_neighbors(&current) {
        Ok(v) => v,
        Err(_) => Vec::new(),
    };
    proof {
        if !map@.contains(current) {
            lemma_outside_is_refused(map@, current, Tile::CLEAN);
        }
    }
    let mut k: usize = 0;
    while k < neighbors.len()
        invariant
            k <= neighbors@.len(),
            consistent(costs@, frontier@),
            costs@.contains_key(key(current)),
            model(came_from@, costs@, frontier@) == popped.expand(
                current,
                neighbors@.take(k as int),
                *goal,
            ),
        decreases neighbors@.len() - k,
    {
        proof {
            assert(neighbors@.take(k + 1).drop_last() =~= neighbors@.take(k as int));
        }
        relax(came_from, costs, frontier, current, neighbors[k].position, *goal);
        k += 1;
    }
    assert(neighbors@.take(neighbors@.len() as int) =~= neighbors@);
    if frontier.len() == 0 {
        return None;
    }
    let j = top_index(frontier);
    let next = frontier[j].position;
    find_direction(&neighbors, next)
}

/// An incremental search for a way to a goal: each call of `run` expands one
/// position and advises one move.
pub struct AStar {
    came_from: HashMap<u64, Coord>,
    cost_so_far: HashMap<u64, u64>,
    frontier: Vec<PositionNode>,
}

impl View for AStar {
    type V = SearchView;

    closed spec fn view(&self) -> SearchView {
        model(self.came_from@, self.cost_so_far@, self.frontier@)
    }
}

impl AStar {
    /// The invariant of every search value.
    #[verifier::type_invariant]
    pub closed spec fn inv(&self) -> bool {
        consistent(self.cost_so_far@, self.frontier@)
    }

    /// What the invariant says of the view.
    pub proof fn lemma_inv(&self)
        requires
            self.inv(),
        ensures
            self@.wf(),
    {
        assert forall|i: int| 0 <= i < self@.frontier.len() implies self@.best_cost.contains_key(
            (#[trigger] self@.frontier[i]).position,
        ) by {
            assert(self@.frontier[i].position == self.frontier@[i].position);
        }
    }

    /// The search that starts at `start`: `start` has cost 0 and waits alone.
    pub fn new(start: Coord) -> (search: AStar)
        ensures
            search@ == SearchView::init(start),
    {
        let mut cost_so_far: HashMap<u64, u64> = HashMap::new();
        cost_so_far.insert(key_of(&start), 0);
        let mut frontier: Vec<PositionNode> = Vec::new();
        frontier.push(PositionNode { position: start, cost: 0 });
        proof {
            assert(cost_so_far@.len() == cost_so_far.len());
        }
        let search = AStar { came_from: HashMap::new(), cost_so_far, frontier };
        proof {
            lemma_key_injective();
            assert(search@.best_cost =~= SearchView::init(start).best_cost);
            assert(search@.parent =~= SearchView::init(start).parent);
            assert(search@.frontier =~= SearchView::init(start).frontier);
        }
        search
    }

    /// Whether nothing waits any more: the search will give no more advice.
    pub fn is_exhausted(&self) -> (b: bool)
        ensures
            b == self@.exhausted(),
    {
        self.frontier.len() == 0
    }

    /// The least number of steps found so far to `pos`.
    pub fn cost_of(&self, pos: &Coord) -> (c: Option<u64>)
        ensures
            match c {
                Some(n) => self@.best_cost.contains_key(*pos) && self@.best_cost[*pos] == n,
                None => !self@.best_cost.contains_key(*pos),
            },
    {
        let k = key_of(pos);
        match self.cost_so_far.get(&k) {
            Some(c) => Some(*c),
            None => None,
        }
    }

    /// The position from which `pos` was last reached.
    pub fn parent_of(&self, pos: &Coord) -> (p: Option<Coord>)
        ensures
            match p {
                Some(from) => self@.parent.contains_key(*pos) && self@.parent[*pos] == from,
                None => !self@.parent.contains_key(*pos),
            },
    {
        let k = key_of(pos);
        match self.came_from.get(&k) {
            Some(c) => Some(*c),
            None => None,
        }
    }

    /// The entry that leaves the frontier next.
    pub fn peek(&self) -> (n: Option<PositionNode>)
        ensures
            match n {
                Some(node) => !self@.exhausted() && node@ == self@.frontier[top(self@.frontier)],
                None => self@.exhausted(),
            },
    {
        if self.frontier.len() == 0 {
            None
        } else {
            let i = top_index(&self.frontier);
            Some(self.frontier[i])
        }
    }

    /// One step of the search on `map` towards `goal`: the top entry of the
    /// frontier is expanded, and the result is the direction from it to the
    /// entry that is on top afterwards.
    pub fn run(&mut self, map: &Grid, goal: &Coord) -> (d: Option<Direction>)
        ensures
            (final(self)@, d) == old(self)@.step(map@, *goal),
    {
        proof {
            use_type_invariant(&*self);
        }
        let mut taken = AStar {
            came_from: HashMap::new(),
            cost_so_far: HashMap::new(),
            frontier: Vec::new(),
        };
        std::mem::swap(self, &mut taken);
        let AStar { came_from, cost_so_far, frontier } = taken;
        let mut came_from = came_from;
        let mut cost_so_far = cost_so_far;
        let mut frontier = frontier;
        let d = advance(&mut came_from, &mut cost_so_far, &mut frontier, map, goal);
        *self = AStar { came_from, cost_so_far, frontier };
        d
    }
}

} // verus!
