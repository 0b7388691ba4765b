use vstd::prelude::*;
use crate::action::Direction;
use crate::coord::{manhattan, sum_fits, Coord};
use crate::grid::{holds, GridError, GridView, Neighbor, Tile};

verus! {

/// A possible neighbour as a sequence of one or none.
pub open spec fn maybe(n: Option<Neighbor>) -> Seq<Neighbor> {
    match n {
        Some(n) => seq![n],
        None => Seq::empty(),
    }
}

/// Whether `c` lies on the rim of `grid`.
pub open spec fn on_edge(grid: GridView, c: Coord) -> bool {
    c.x == 0 || c.y == 0 || c.x + 1 == grid.width || c.y + 1 == grid.height()
}

/// The number of sides on which `c` has a cell of `grid` next to it.
pub open spec fn open_sides(grid: GridView, c: Coord) -> nat {
    let up: nat = if c.y > 0 { 1 } else { 0 };
    let down: nat = if c.y + 1 < grid.height() { 1 } else { 0 };
    let left: nat = if c.x > 0 { 1 } else { 0 };
    let right: nat = if c.x + 1 < grid.width { 1 } else { 0 };
    up + down + left + right
}

/// A tile written with `set` is the tile that `get` reads there; every other
/// cell and the extent stay as they were.
pub proof fn lemma_get_after_set(grid: GridView, c: Coord, t: Tile)
    requires
        grid.wf(),
        grid.contains(c),
    ensures
        grid.set(c, t).wf(),
        grid.set(c, t).width == grid.width,
        grid.set(c, t).height() == grid.height(),
        grid.get(c) is Ok,
        grid.set(c, t).get(c) == Ok::<Tile, GridError>(t),
        forall|other: Coord| other != c ==> grid.set(c, t).get(other) == grid.get(other),
{
    let after = grid.set(c, t);
    assert forall|y: int| 0 <= y < after.rows.len() implies (#[trigger] after.rows[y]).len()
        == after.width by {
        assert(grid.rows[y].len() == grid.width);
    }
}

/// Outside the extent nothing is read, written or next to anything.
pub proof fn lemma_outside_is_refused(grid: GridView, c: Coord, t: Tile)
    requires
        !grid.contains(c),
    ensures
        grid.get(c) == Err::<Tile, GridError>(GridError::OutOfBounds),
        grid.set(c, t) == grid,
        grid.neighbors(c).len() == 0,
{
    lemma_neighbors_unfold(grid, c);
}

/// The neighbours of `c` are what lies above, below, left and right of it,
/// in this order.
pub proof fn lemma_neighbors_unfold(grid: GridView, c: Coord)
    ensures
        grid.neighbors(c) == maybe(grid.neighbor(c, Direction::Up)) + maybe(
            grid.neighbor(c, Direction::Down),
        ) + maybe(grid.neighbor(c, Direction::Left)) + maybe(grid.neighbor(c, Direction::Right)),
{
    let f = grid.neighbor_towards(c);
    let all = Direction::all_spec();
    assert(all.take(0).filter_map(f) =~= Seq::<Neighbor>::empty());
    all.lemma_filter_map_take_succ(f, 0);
    all.lemma_filter_map_take_succ(f, 1);
    all.lemma_filter_map_take_succ(f, 2);
    all.lemma_filter_map_take_succ(f, 3);
    assert(all.take(4) =~= all);
    assert(grid.neighbors(c) =~= maybe(f(all[0])) + maybe(f(all[1])) + maybe(f(all[2])) + maybe(
        f(all[3]),
    ));
}

/// Where the neighbour in direction `d` stands among the neighbours of `c`,
/// if there is one: behind those of the directions before `d`.
pub open spec fn slot(grid: GridView, c: Coord, d: Direction) -> int {
    let up: int = if grid.neighbor(c, Direction::Up) is Some { 1 } else { 0 };
    let down: int = if grid.neighbor(c, Direction::Down) is Some { 1 } else { 0 };
    let left: int = if grid.neighbor(c, Direction::Left) is Some { 1 } else { 0 };
    match d {
        Direction::Up => 0,
        Direction::Down => up,
        Direction::Left => up + down,
        Direction::Right => up + down + left,
    }
}

/// The neighbours of `c` are the neighbours in the four directions, each in
/// its slot.
pub proof fn lemma_neighbor_slots(grid: GridView, c: Coord)
    ensures
        grid.neighbors(c).len() == slot(grid, c, Direction::Right) + (if grid.neighbor(
            c,
            Direction::Right,
        ) is Some {
            1int
        } else {
            0int
        }),
        forall|d: Direction| #[trigger]
            grid.neighbor(c, d) is Some ==> 0 <= slot(grid, c, d) < grid.neighbors(c).len()
                && grid.neighbors(c)[slot(grid, c, d)] == grid.neighbor(c, d).unwrap(),
        forall|i: int|
            0 <= i < grid.neighbors(c).len() ==> {
                let n = #[trigger] grid.neighbors(c)[i];
                grid.neighbor(c, n.direction) == Some(n) && slot(grid, c, n.direction) == i
            },
{
    lemma_neighbors_unfold(grid, c);
    let up = grid.neighbor(c, Direction::Up);
    let down = grid.neighbor(c, Direction::Down);
    let left = grid.neighbor(c, Direction::Left);
    let right = grid.neighbor(c, Direction::Right);
    let ns = grid.neighbors(c);
    let ab = maybe(up) + maybe(down);
    let abl = ab + maybe(left);
    assert(ns == abl + maybe(right));
    assert(ab.len() == slot(grid, c, Direction::Left));
    assert(abl.len() == slot(grid, c, Direction::Right));
    if up is Some {
        assert(ab[0] == up.unwrap());
        assert(abl[0] == up.unwrap());
        assert(ns[0] == up.unwrap());
    }
    if down is Some {
        let k = slot(grid, c, Direction::Down);
        assert(ab[k] == down.unwrap());
        assert(abl[k] == down.unwrap());
        assert(ns[k] == down.unwrap());
    }
    if left is Some {
        let k = slot(grid, c, Direction::Left);
        assert(abl[k] == left.unwrap());
        assert(ns[k] == left.unwrap());
    }
    if right is Some {
        let k = slot(grid, c, Direction::Right);
        assert(ns[k] == right.unwrap());
    }
    assert forall|d: Direction| #[trigger] grid.neighbor(c, d) is Some implies 0 <= slot(
        grid,
        c,
        d,
    ) < ns.len() && ns[slot(grid, c, d)] == grid.neighbor(c, d).unwrap() by {
        match d {
            Direction::Up => {},
            Direction::Down => {},
            Direction::Left => {},
            Direction::Right => {},
        }
    }
    assert forall|i: int| 0 <= i < ns.len() implies ({
        let n = #[trigger] ns[i];
        grid.neighbor(c, n.direction) == Some(n) && slot(grid, c, n.direction) == i
    }) by {
        if up is Some && i == 0 {
        } else if down is Some && i == slot(grid, c, Direction::Down) {
        } else if left is Some && i == slot(grid, c, Direction::Left) {
        } else {
            assert(right is Some && i == slot(grid, c, Direction::Right));
        }
    }
}

/// A cell has at most four neighbours: one on each side on which the grid
/// goes on, so fewer than four exactly on the rim. Each lies in the grid, one
/// step from the cell in the direction it is listed with, and carries its
/// own tile; no two share a position or a direction; and every cell of the
/// grid one step away is among them.
pub proof fn lemma_neighbors_are_adjacent(grid: GridView, c: Coord)
    requires
        grid.wf(),
        grid.contains(c),
    ensures
        grid.neighbors(c).len() <= 4,
        grid.neighbors(c).len() == open_sides(grid, c),
        grid.neighbors(c).len() < 4 <==> on_edge(grid, c),
        forall|i: int|
            0 <= i < grid.neighbors(c).len() ==> {
                let n = #[trigger] grid.neighbors(c)[i];
                &&& grid.neighbor(c, n.direction) == Some(n)
                &&& sum_fits(c, n.direction.delta())
                &&& n.position == c.plus(n.direction.delta())
                &&& manhattan(c, n.position) == 1
                &&& grid.contains(n.position)
                &&& n.tile == grid.tile(n.position)
            },
        forall|i: int, j: int|
            0 <= i < j < grid.neighbors(c).len() ==> {
                &&& (#[trigger] grid.neighbors(c)[i]).position != (#[trigger] grid.neighbors(
                    c,
                )[j]).position
                &&& grid.neighbors(c)[i].direction != grid.neighbors(c)[j].direction
            },
        forall|p: Coord|
            grid.contains(p) && manhattan(c, p) == 1 ==> exists|i: int|
                0 <= i < grid.neighbors(c).len() && (#[trigger] grid.neighbors(c)[i]).position == p,
{
    lemma_neighbor_slots(grid, c);
    let ns = grid.neighbors(c);
    assert(grid.neighbor(c, Direction::Up) is Some <==> c.y > 0);
    assert(grid.neighbor(c, Direction::Down) is Some <==> c.y + 1 < grid.height());
    assert(grid.neighbor(c, Direction::Left) is Some <==> c.x > 0);
    assert(grid.neighbor(c, Direction::Right) is Some <==> c.x + 1 < grid.width);
    assert forall|i: int| 0 <= i < ns.len() implies ({
        let n = #[trigger] ns[i];
        &&& grid.neighbor(c, n.direction) == Some(n)
        &&& sum_fits(c, n.direction.delta())
        &&& n.position == c.plus(n.direction.delta())
        &&& manhattan(c, n.position) == 1
        &&& grid.contains(n.position)
        &&& n.tile == grid.tile(n.position)
    }) by {
        lemma_neighbor_is_one_step(grid, c, ns[i].direction);
    }
    assert forall|i: int, j: int| 0 <= i < j < ns.len() implies ({
        &&& (#[trigger] ns[i]).position != (#[trigger] ns[j]).position
        &&& ns[i].direction != ns[j].direction
    }) by {
        lemma_neighbor_is_one_step(grid, c, ns[i].direction);
        lemma_neighbor_is_one_step(grid, c, ns[j].direction);
        assert(slot(grid, c, ns[i].direction) == i);
        assert(slot(grid, c, ns[j].direction) == j);
    }
    assert forall|p: Coord| grid.contains(p) && manhattan(c, p) == 1 implies exists|i: int|
        0 <= i < ns.len() && (#[trigger] ns[i]).position == p by {
        let d = if p.y < c.y {
            Direction::Up
        } else if p.y > c.y {
            Direction::Down
        } else if p.x < c.x {
            Direction::Left
        } else {
            Direction::Right
        };
        assert(grid.neighbor(c, d) is Some);
        assert(ns[slot(grid, c, d)].position == p);
    }
}

/// The neighbour of `c` in direction `d`, where there is one, lies in the
/// grid one step from `c`.
pub proof fn lemma_neighbor_is_one_step(grid: GridView, c: Coord, d: Direction)
    requires
        grid.neighbor(c, d) is Some,
    ensures
        grid.contains(c),
        sum_fits(c, d.delta()),
        grid.neighbor(c, d).unwrap().direction == d,
        grid.neighbor(c, d).unwrap().position == c.plus(d.delta()),
        grid.neighbor(c, d).unwrap().position.x == c.x + d.delta().x,
        grid.neighbor(c, d).unwrap().position.y == c.y + d.delta().y,
        grid.neighbor(c, d).unwrap().position != c,
        grid.neighbor(c, d).unwrap().tile == grid.tile(c.plus(d.delta())),
        grid.contains(grid.neighbor(c, d).unwrap().position),
        manhattan(c, grid.neighbor(c, d).unwrap().position) == 1,
{
}

/// The listing of the first `upto` rows holds each of their cells, with its
/// tile, and nothing else.
proof fn lemma_cells_upto(grid: GridView, upto: int)
    requires
        grid.wf(),
        0 <= upto <= grid.height(),
    ensures
        forall|i: int|
            0 <= i < grid.lines().take(upto).flatten().len() ==> {
                let e = #[trigger] grid.lines().take(upto).flatten()[i];
                grid.contains(e.0) && e.0.y < upto && e.1 == grid.tile(e.0)
            },
        forall|c: Coord|
            grid.contains(c) && c.y < upto ==> grid.lines().take(upto).flatten().contains(
                (c, #[trigger] grid.tile(c)),
            ),
    decreases upto,
{
    let lines = grid.lines();
    if upto == 0 {
        assert(lines.take(0) =~= Seq::<Seq<(Coord, Tile)>>::empty());
    } else {
        let y = upto - 1;
        lemma_cells_upto(grid, y);
        let before = lines.take(y).flatten();
        let row = grid.line(y);
        assert(lines.take(upto) =~= lines.take(y).push(lines[y]));
        lines.take(y).lemma_flatten_push(lines[y]);
        let all = lines.take(upto).flatten();
        assert(all == before + row);
        assert forall|i: int| 0 <= i < all.len() implies ({
            let e = #[trigger] all[i];
            grid.contains(e.0) && e.0.y < upto && e.1 == grid.tile(e.0)
        }) by {
            if i < before.len() {
                assert(all[i] == before[i]);
            } else {
                assert(all[i] == row[i - before.len()]);
            }
        }
        assert forall|c: Coord| grid.contains(c) && c.y < upto implies all.contains(
            (c, #[trigger] grid.tile(c)),
        ) by {
            let e = (c, grid.tile(c));
            if c.y < y {
                assert(before.contains(e));
                let i = choose|i: int| 0 <= i < before.len() && before[i] == e;
                assert(all[i] == e);
            } else {
                assert(row[c.x as int] == e);
                assert(all[before.len() + c.x] == e);
            }
        }
    }
}

/// `cells` lists exactly the cells of the grid, each with its tile, and
/// `all_of` those among them that hold the tile asked for.
pub proof fn lemma_cells_are_the_grid(grid: GridView, t: Tile)
    requires
        grid.wf(),
    ensures
        forall|i: int|
            0 <= i < grid.cells().len() ==> {
                let e = #[trigger] grid.cells()[i];
                grid.contains(e.0) && e.1 == grid.tile(e.0)
            },
        forall|c: Coord| grid.contains(c) ==> grid.cells().contains((c, #[trigger] grid.tile(c))),
        forall|i: int|
            0 <= i < grid.all_of(t).len() ==> {
                let e = #[trigger] grid.all_of(t)[i];
                grid.contains(e.0) && e.1 == t && grid.tile(e.0) == t
            },
        forall|c: Coord|
            grid.contains(c) && #[trigger] grid.tile(c) == t ==> grid.all_of(t).contains((c, t)),
{
    let cells = grid.cells();
    let found = grid.all_of(t);
    lemma_cells_upto(grid, grid.height() as int);
    assert(grid.lines().take(grid.height() as int) =~= grid.lines());
    assert forall|i: int| 0 <= i < found.len() implies ({
        let e = #[trigger] found[i];
        grid.contains(e.0) && e.1 == t && grid.tile(e.0) == t
    }) by {
        let e = found[i];
        cells.lemma_filter_pred(holds(t), i);
        assert(found.contains(e));
        cells.lemma_filter_contains_rev(holds(t), e);
        let j = choose|j: int| 0 <= j < cells.len() && cells[j] == e;
        assert(grid.contains(cells[j].0));
    }
    assert forall|c: Coord| grid.contains(c) && #[trigger] grid.tile(c) == t implies found.contains(
        (c, t),
    ) by {
        let e = (c, grid.tile(c));
        assert(cells.contains(e));
        let j = choose|j: int| 0 <= j < cells.len() && cells[j] == e;
        cells.lemma_filter_contains(holds(t), j);
    }
}

/// A walk over `grid`: cells of the grid, each one step from the one before.
pub open spec fn is_walk(grid: GridView, path: Seq<Coord>) -> bool {
    &&& path.len() > 0
    &&& forall|i: int| 0 <= i < path.len() ==> grid.contains(#[trigger] path[i])
    &&& forall|i: int| 0 <= i < path.len() - 1 ==> manhattan(#[trigger] path[i], path[i + 1]) == 1
}

/// Whether `path` is a walk over `grid` from `a` to `b`.
pub open spec fn connects(grid: GridView, path: Seq<Coord>, a: Coord, b: Coord) -> bool {
    is_walk(grid, path) && path.first() == a && path.last() == b
}

/// Whether some walk over `grid` leads from `a` to `b`. Every cell can be
/// walked on, whatever its tile.
pub open spec fn reachable(grid: GridView, a: Coord, b: Coord) -> bool {
    exists|path: Seq<Coord>| connects(grid, path, a, b)
}

/// The Manhattan distance never overestimates: no walk from one cell to
/// another has fewer steps than their distance, so neither has the shortest.
pub proof fn lemma_heuristic_is_admissible(grid: GridView, path: Seq<Coord>)
    requires
        is_walk(grid, path),
    ensures
        manhattan(path.first(), path.last()) <= path.len() - 1,
    decreases path.len(),
{
    if path.len() > 1 {
        let shorter = path.drop_last();
        assert(is_walk(grid, shorter)) by {
            assert forall|i: int| 0 <= i < shorter.len() - 1 implies manhattan(
                #[trigger] shorter[i],
                shorter[i + 1],
            ) == 1 by {
                assert(manhattan(path[i], path[i + 1]) == 1);
            }
            assert forall|i: int| 0 <= i < shorter.len() implies grid.contains(
                #[trigger] shorter[i],
            ) by {
                assert(grid.contains(path[i]));
            }
        }
        lemma_heuristic_is_admissible(grid, shorter);
        let k = path.len() - 2;
        assert(manhattan(path[k], path[k + 1]) == 1);
        assert(shorter.last() == path[k]);
        assert(shorter.first() == path.first());
    }
}

/// One step changes the distance to any cell by exactly one, so the estimate
/// never falls by more than the step costs.
pub proof fn lemma_heuristic_is_consistent(a: Coord, b: Coord, goal: Coord)
    requires
        manhattan(a, b) == 1,
    ensures
        manhattan(b, goal) + 1 == manhattan(a, goal) || manhattan(b, goal) == manhattan(a, goal)
            + 1,
{
}

} // verus!
