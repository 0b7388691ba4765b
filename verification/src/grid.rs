use vstd::prelude::*;
use crate::action::Direction;
use crate::coord::{sum_fits, Coord};

verus! {

/// What a cell of the grid holds.
#[allow(non_camel_case_types)]
#[derive(Clone, Copy, PartialEq, Eq, Structural, Debug)]
pub enum Tile {
    CLEAN,
    DIRTY,
    IMPASSABLE,
    TARGET,
}

impl Default for Tile {
    fn default() -> (t: Tile)
        ensures
            t == Tile::CLEAN,
    {
        Tile::CLEAN
    }
}

/// Why a grid operation was refused.
#[derive(Clone, Copy, PartialEq, Eq, Structural, Debug)]
pub enum GridError {
    /// The coordinate lies outside the grid's extent.
    OutOfBounds,
}

/// The largest width and height of a grid: every cell must have a 32-bit
/// coordinate, and so must the step past the last one.
pub const MAX_DIM: usize = 0x7fff_ffff;

/// A cell next to another: where it lies, in which direction, and what it
/// holds.
#[derive(Clone, Copy, PartialEq, Eq, Structural, Debug)]
pub struct Neighbor {
    pub position: Coord,
    pub direction: Direction,
    pub tile: Tile,
}

/// The test that a cell holds `t`.
pub open spec fn holds(t: Tile) -> spec_fn((Coord, Tile)) -> bool {
    |e: (Coord, Tile)| e.1 == t
}

/// The mathematical grid: `width` columns and one sequence of tiles per row.
pub struct GridView {
    pub width: nat,
    pub rows: Seq<Seq<Tile>>,
}

impl GridView {
    /// The number of rows.
    pub open spec fn height(self) -> nat {
        self.rows.len()
    }

    /// Every row holds exactly `width` tiles, and neither side is longer
    /// than `MAX_DIM`.
    pub open spec fn wf(self) -> bool {
        &&& self.width <= MAX_DIM
        &&& self.rows.len() <= MAX_DIM
        &&& forall|y: int| 0 <= y < self.rows.len() ==> (#[trigger] self.rows[y]).len() == self.width
    }

    /// The grid of `width` by `height` clean tiles.
    pub open spec fn blank(width: nat, height: nat) -> GridView {
        GridView {
            width,
            rows: Seq::new(height, |y: int| Seq::new(width, |x: int| Tile::CLEAN)),
        }
    }

    /// Whether `c` names a cell of the grid.
    pub open spec fn contains(self, c: Coord) -> bool {
        0 <= c.x < self.width && 0 <= c.y < self.height()
    }

    /// The tile at `c`, for a `c` that the grid contains.
    pub open spec fn tile(self, c: Coord) -> Tile {
        self.rows[c.y as int][c.x as int]
    }

    /// The tile at `c`, or the refusal of a `c` outside the grid.
    pub open spec fn get(self, c: Coord) -> Result<Tile, GridError> {
        if self.contains(c) {
            Ok(self.tile(c))
        } else {
            Err(GridError::OutOfBounds)
        }
    }

    /// The cell next to `c` in direction `d`, where both lie in the grid.
    pub open spec fn neighbor(self, c: Coord, d: Direction) -> Option<Neighbor> {
        let n = c.plus(d.delta());
        if self.contains(c) && sum_fits(c, d.delta()) && self.contains(n) {
            Some(Neighbor { position: n, direction: d, tile: self.tile(n) })
        } else {
            None
        }
    }

    /// The cells next to `c`, in the order of `Direction::all`. A `c` outside
    /// the grid has none.
    pub open spec fn neighbors(self, c: Coord) -> Seq<Neighbor> {
        Direction::all_spec().filter_map(self.neighbor_towards(c))
    }

    /// `neighbor` as a function of the direction alone.
    pub open spec fn neighbor_towards(self, c: Coord) -> spec_fn(Direction) -> Option<Neighbor> {
        |d: Direction| self.neighbor(c, d)
    }

    /// Row `y` with the coordinate of each of its tiles.
    pub open spec fn line(self, y: int) -> Seq<(Coord, Tile)> {
        Seq::new(self.width, |x: int| (Coord { x: x as i32, y: y as i32 }, self.rows[y][x]))
    }

    /// All rows, each as `line` gives it.
    pub open spec fn lines(self) -> Seq<Seq<(Coord, Tile)>> {
        Seq::new(self.height(), |y: int| self.line(y))
    }

    /// Every cell with its coordinate, row by row.
    pub open spec fn cells(self) -> Seq<(Coord, Tile)> {
        self.lines().flatten()
    }

    /// The cells that hold `t`, in the order of `cells`.
    pub open spec fn all_of(self, t: Tile) -> Seq<(Coord, Tile)> {
        self.cells().filter(holds(t))
    }

    /// The grid with the cell at `c` replaced by `t`; the same grid for a `c`
    /// outside it.
    pub open spec fn set(self, c: Coord, t: Tile) -> GridView {
        if self.contains(c) {
            GridView {
                width: self.width,
                rows: self.rows.update(c.y as int, self.rows[c.y as int].update(c.x as int, t)),
            }
        } else {
            self
        }
    }
}

/// A rectangular grid of tiles, addressed by column and row.
pub struct Grid {
    width: usize,
    height: usize,
    tiles: Vec<Vec<Tile>>,
}

impl View for Grid {
    type V = GridView;

    closed spec fn view(&self) -> GridView {
        GridView {
            width: self.width as nat,
            rows: Seq::new(self.tiles@.len(), |y: int| self.tiles@[y]@),
        }
    }
}

impl Grid {
    /// The invariant of every grid value: it is rectangular and no larger
    /// than `MAX_DIM` either way.
    #[verifier::type_invariant]
    pub closed spec fn inv(&self) -> bool {
        &&& self.width <= MAX_DIM
        &&& self.height <= MAX_DIM
        &&& self.tiles@.len() == self.height
        &&& forall|y: int| 0 <= y < self.tiles@.len() ==> (#[trigger] self.tiles@[y])@.len() == self.width
    }

    /// What the invariant says of the view.
    pub proof fn lemma_inv(&self)
        requires
            self.inv(),
        ensures
            self@.wf(),
    {
    }

    /// A grid of `width` by `height` clean tiles.
    pub fn new(width: usize, height: usize) -> (g: Grid)
        requires
            width <= MAX_DIM,
            height <= MAX_DIM,
        ensures
            g@ == GridView::blank(width as nat, height as nat),
            g@.wf(),
    {
        let mut tiles: Vec<Vec<Tile>> = Vec::new();
        let mut y: usize = 0;
        while y < height
            invariant
                y <= height,
                tiles@.len() == y,
                forall|j: int| 0 <= j < y ==> (#[trigger] tiles@[j])@.len() == width,
                forall|j: int, i: int| 0 <= j < y && 0 <= i < width ==> (#[trigger] tiles@[j]@[i]) == Tile::CLEAN,
            decreases height - y,
        {
            let mut row: Vec<Tile> = Vec::new();
            let mut x: usize = 0;
            while x < width
                invariant
                    x <= width,
                    row@.len() == x,
                    forall|i: int| 0 <= i < x ==> (#[trigger] row@[i]) == Tile::CLEAN,
                decreases width - x,
            {
                row.push(Tile::default());
                x += 1;
            }
            tiles.push(row);
            y += 1;
        }
        let g = Grid { width, height, tiles };
        assert(g@.rows =~~= GridView::blank(width as nat, height as nat).rows);
        g
    }

    /// The grid that holds `rows` from top to bottom.
    pub(crate) fn from_rows(width: usize, rows: Vec<Vec<Tile>>) -> (g: Grid)
        requires
            width <= MAX_DIM,
            rows@.len() <= MAX_DIM,
            forall|y: int| 0 <= y < rows@.len() ==> (#[trigger] rows@[y])@.len() == width,
        ensures
            g@.wf(),
            g@.width == width,
            g@.rows == Seq::new(rows@.len(), |y: int| rows@[y]@),
    {
        let height = rows.len();
        Grid { width, height, tiles: rows }
    }

    /// The number of columns.
    pub fn width(&self) -> (w: usize)
        ensures
            w == self@.width,
    {
        self.width
    }

    /// The number of rows.
    pub fn height(&self) -> (h: usize)
        ensures
            h == self@.height(),
    {
        proof {
            use_type_invariant(self);
        }
        self.height
    }

    /// Whether `pos` names a cell of this grid.
    pub fn has_tile(&self, pos: Coord) -> (b: bool)
        ensures
            b == self@.contains(pos),
    {
        proof {
            use_type_invariant(self);
        }
        pos.x >= 0 && pos.y >= 0 && (pos.x as usize) < self.width && (pos.y as usize) < self.height
    }

    /// The tile at `pos`.
    pub fn get_tile(&self, pos: Coord) -> (r: Result<Tile, GridError>)
        ensures
            r == self@.get(pos),
    {
        proof {
            use_type_invariant(self);
        }
        if self.has_tile(pos) {
            Ok(self.tiles[pos.y as usize][pos.x as usize])
        } else {
            Err(GridError::OutOfBounds)
        }
    }

    /// Replaces the tile at `pos`. A `pos` outside the grid is refused and
    /// the grid stays as it was.
    pub fn set_tile(&mut self, pos: Coord, tile: Tile) -> (r: Result<(), GridError>)
        ensures
            final(self)@ == old(self)@.set(pos, tile),
            r == (if old(self)@.contains(pos) { Ok::<(), GridError>(()) } else { Err(GridError::OutOfBounds) }),
    {
        proof {
            use_type_invariant(&*self);
        }
        if self.has_tile(pos) {
            let mut taken = Grid { width: 0, height: 0, tiles: Vec::new() };
            std::mem::swap(self, &mut taken);
            let Grid { width, height, tiles } = taken;
            let mut tiles = tiles;
            tiles[pos.y as usize][pos.x as usize] = tile;
            *self = Grid { width, height, tiles };
            assert(self@.rows =~~= old(self)@.set(pos, tile).rows);
            Ok(())
        } else {
            Err(GridError::OutOfBounds)
        }
    }

    /// The cells next to `pos`, in the order of `Direction::all`, each with
    /// the direction that leads to it and its tile. A `pos` outside the grid
    /// is refused.
    pub fn get_neighbors(&self, pos: &Coord) -> (r: Result<Vec<Neighbor>, GridError>)
        ensures
            match r {
                Ok(v) => self@.contains(*pos) && v@ == self@.neighbors(*pos),
                Err(e) => !self@.contains(*pos) && e == GridError::OutOfBounds,
            },
    {
        if !self.has_tile(*pos) {
            return Err(GridError::OutOfBounds);
        }
        let dirs = Direction::all();
        let ghost f = self@.neighbor_towards(*pos);
        let mut out: Vec<Neighbor> = Vec::new();
        let mut i: usize = 0;
        assert(dirs@.take(0).filter_map(f) =~= Seq::<Neighbor>::empty());
        while i < 4
            invariant
                i <= 4,
                dirs@ == Direction::all_spec(),
                dirs@.len() == 4,
                self@.contains(*pos),
                f == self@.neighbor_towards(*pos),
                out@ == dirs@.take(i as int).filter_map(f),
            decreases 4 - i,
        {
            let d = dirs[i];
            let n = pos.offset(d.to_ivec2());
            proof {
                dirs@.lemma_filter_map_take_succ(f, i as int);
            }
            if n != *pos {
                match self.get_tile(n) {
                    Ok(tile) => {
                        out.push(Neighbor { position: n, direction: d, tile });
                    },
                    Err(_) => {},
                }
            }
            i += 1;
        }
        assert(dirs@.take(4) =~= dirs@);
        Ok(out)
    }

    /// Every cell with its coordinate, row by row.
    pub fn get_tile_iterator(&self) -> (cells: Vec<(Coord, Tile)>)
        ensures
            cells@ == self@.cells(),
    {
        proof {
            use_type_invariant(self);
        }
        let mut out: Vec<(Coord, Tile)> = Vec::new();
        let mut y: usize = 0;
        assert(self@.lines().take(0) =~= Seq::<Seq<(Coord, Tile)>>::empty());
        while y < self.height
            invariant
                self.inv(),
                y <= self.height,
                out@ == self@.lines().take(y as int).flatten(),
            decreases self.height - y,
        {
            let ghost before = out@;
            let mut x: usize = 0;
            while x < self.width
                invariant
                    self.inv(),
                    y < self.height,
                    x <= self.width,
                    out@ == before + self@.line(y as int).take(x as int),
                decreases self.width - x,
            {
                let tile = self.tiles[y][x];
                out.push((Coord::new(x as i32, y as i32), tile));
                proof {
                    let l = self@.line(y as int);
                    assert(l.take(x + 1) =~= l.take(x as int).push(l[x as int]));
                }
                x += 1;
            }
            proof {
                let ls = self@.lines();
                assert(self@.line(y as int).take(self.width as int) =~= self@.line(y as int));
                assert(ls.take(y + 1) =~= ls.take(y as int).push(ls[y as int]));
                ls.take(y as int).lemma_flatten_push(ls[y as int]);
            }
            y += 1;
        }
        assert(self@.lines().take(self.height as int) =~= self@.lines());
        out
    }

    /// The rows from top to bottom, each with the coordinate of every tile.
    pub fn get_line_iterator(&self) -> (lines: Vec<Vec<(Coord, Tile)>>)
        ensures
            lines@.len() == self@.height(),
            forall|y: int| 0 <= y < lines@.len() ==> (#[trigger] lines@[y])@ == self@.line(y),
    {
        proof {
            use_type_invariant(self);
        }
        let mut out: Vec<Vec<(Coord, Tile)>> = Vec::new();
        let mut y: usize = 0;
        while y < self.height
            invariant
                self.inv(),
                y <= self.height,
                out@.len() == y,
                forall|j: int| 0 <= j < y ==> (#[trigger] out@[j])@ == self@.line(j),
            decreases self.height - y,
        {
            let mut row: Vec<(Coord, Tile)> = Vec::new();
            let mut x: usize = 0;
            while x < self.width
                invariant
                    self.inv(),
                    y < self.height,
                    x <= self.width,
                    row@ == self@.line(y as int).take(x as int),
                decreases self.width - x,
            {
                let tile = self.tiles[y][x];
                row.push((Coord::new(x as i32, y as i32), tile));
                proof {
                    let l = self@.line(y as int);
                    assert(l.take(x + 1) =~= l.take(x as int).push(l[x as int]));
                }
                x += 1;
            }
            assert(self@.line(y as int).take(self.width as int) =~= self@.line(y as int));
            out.push(row);
            y += 1;
        }
        out
    }

    /// The cells that hold `tile_type`, row by row.
    pub fn get_all_of_type(&self, tile_type: Tile) -> (found: Vec<(Coord, Tile)>)
        ensures
            found@ == self@.all_of(tile_type),
    {
        let cells = self.get_tile_iterator();
        let ghost p = holds(tile_type);
        let mut out: Vec<(Coord, Tile)> = Vec::new();
        let mut i: usize = 0;
        assert(cells@.take(0) =~= Seq::<(Coord, Tile)>::empty());
        while i < cells.len()
            invariant
                i <= cells.len(),
                p == holds(tile_type),
                out@ == cells@.take(i as int).filter(p),
            decreases cells.len() - i,
        {
            let e = cells[i];
            proof {
                assert(cells@.take(i + 1) =~= cells@.take(i as int).push(e));
                cells@.take(i as int).lemma_filter_push(e, p);
            }
            if e.1 == tile_type {
                out.push(e);
            }
            i += 1;
        }
        assert(cells@.take(cells.len() as int) =~= cells@);
        out
    }
}

} // verus!
