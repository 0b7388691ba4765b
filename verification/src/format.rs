use vstd::prelude::*;
use vstd::string::*;
use crate::coord::Coord;
use crate::grid::{Grid, GridView, Tile, MAX_DIM};

verus! {

/// Why a map text was refused.
#[derive(Clone, Copy, PartialEq, Eq, Structural, Debug)]
pub enum MapParseError {
    /// No line holds anything but white space.
    Empty,
    /// The map has more than `MAX_DIM` rows or columns.
    TooLarge,
    /// Row `line` of the map holds `character`, which stands for no tile.
    UnknownTile { line: usize, character: char },
    /// Row `line` of the map is not as long as the first row.
    Ragged { line: usize },
}

/// White space as Unicode defines it: what is trimmed off a line.
pub open spec fn is_blank(c: char) -> bool {
    let n = c as u32;
    ||| 0x09 <= n <= 0x0d
    ||| n == 0x20
    ||| n == 0x85
    ||| n == 0xa0
    ||| n == 0x1680
    ||| 0x2000 <= n <= 0x200a
    ||| n == 0x2028
    ||| n == 0x2029
    ||| n == 0x202f
    ||| n == 0x205f
    ||| n == 0x3000
}

/// The tile that a character of a map text stands for.
pub open spec fn tile_of(c: char) -> Option<Tile> {
    if c == 'C' {
        Some(Tile::CLEAN)
    } else if c == 'W' {
        Some(Tile::IMPASSABLE)
    } else if c == 'T' {
        Some(Tile::TARGET)
    } else {
        None
    }
}

/// The character that a tile is drawn as.
pub open spec fn tile_char(t: Tile) -> char {
    match t {
        Tile::IMPASSABLE => 'W',
        Tile::CLEAN => 'C',
        Tile::DIRTY => 'D',
        Tile::TARGET => 'T',
    }
}

/// The pieces of `s` between its line feeds; at least one, the last of them
/// what follows the last line feed.
pub open spec fn segments(s: Seq<char>) -> Seq<Seq<char>>
    decreases s.len(),
{
    if s.len() == 0 {
        seq![Seq::<char>::empty()]
    } else {
        let before = segments(s.drop_last());
        if s.last() == '\n' {
            before.push(Seq::<char>::empty())
        } else {
            before.drop_last().push(before.last().push(s.last()))
        }
    }
}

/// The first index from `i` on at which `s` holds no white space, or its
/// length.
pub open spec fn skip_blanks(s: Seq<char>, i: int) -> int
    decreases s.len() - i,
{
    if 0 <= i < s.len() && is_blank(s[i]) {
        skip_blanks(s, i + 1)
    } else {
        i
    }
}

/// The end of `s` without the white space before index `j`, never below
/// `low`.
pub open spec fn skip_blanks_back(s: Seq<char>, j: int, low: int) -> int
    decreases j,
{
    if low < j <= s.len() && 0 < j && is_blank(s[j - 1]) {
        skip_blanks_back(s, j - 1, low)
    } else {
        j
    }
}

/// `s` without the white space at its two ends.
pub open spec fn trimmed(s: Seq<char>) -> Seq<char> {
    let start = skip_blanks(s, 0);
    let end = skip_blanks_back(s, s.len() as int, start);
    s.subrange(start, end)
}

/// `trimmed` as a function value.
pub open spec fn trim_fn() -> spec_fn(Seq<char>) -> Seq<char> {
    |s: Seq<char>| trimmed(s)
}

/// The test that a line holds something.
pub open spec fn not_empty() -> spec_fn(Seq<char>) -> bool {
    |s: Seq<char>| s.len() > 0
}

/// The rows of a map text: its lines, trimmed, without the empty ones.
pub open spec fn map_lines(text: Seq<char>) -> Seq<Seq<char>> {
    segments(text).map_values(trim_fn()).filter(not_empty())
}

/// The first character from index `i` on in `line` that stands for no tile.
pub open spec fn first_unknown(line: Seq<char>, i: int) -> Option<char>
    decreases line.len() - i,
{
    if i < 0 || i >= line.len() {
        None
    } else if tile_of(line[i]) is None {
        Some(line[i])
    } else {
        first_unknown(line, i + 1)
    }
}

/// What is wrong with row `i`, an unknown character before a wrong length.
pub open spec fn line_error(lines: Seq<Seq<char>>, i: int) -> Option<MapParseError> {
    match first_unknown(lines[i], 0) {
        Some(c) => Some(MapParseError::UnknownTile { line: i as usize, character: c }),
        None => if lines[i].len() != lines[0].len() {
            Some(MapParseError::Ragged { line: i as usize })
        } else {
            None
        },
    }
}

/// The error of the first row from `i` on that has one.
pub open spec fn first_error(lines: Seq<Seq<char>>, i: int) -> Option<MapParseError>
    decreases lines.len() - i,
{
    if i < 0 || i >= lines.len() {
        None
    } else {
        match line_error(lines, i) {
            Some(e) => Some(e),
            None => first_error(lines, i + 1),
        }
    }
}

/// The tiles of a row whose characters all stand for one.
pub open spec fn tiles_of(line: Seq<char>) -> Seq<Tile> {
    Seq::new(line.len(), |x: int| tile_of(line[x]).unwrap())
}

/// The grid that a map text describes, or why it describes none.
pub open spec fn parse_spec(text: Seq<char>) -> Result<GridView, MapParseError> {
    let lines = map_lines(text);
    if lines.len() == 0 {
        Err(MapParseError::Empty)
    } else if lines.len() > MAX_DIM || lines[0].len() > MAX_DIM {
        Err(MapParseError::TooLarge)
    } else {
        match first_error(lines, 0) {
            Some(e) => Err(e),
            None => Ok(
                GridView {
                    width: lines[0].len(),
                    rows: Seq::new(lines.len(), |y: int| tiles_of(lines[y])),
                },
            ),
        }
    }
}

/// The views of the rows of `v`.
spec fn rows_of(v: Seq<Vec<char>>) -> Seq<Seq<char>> {
    Seq::new(v.len(), |i: int| v[i]@)
}

/// Whether `c` is white space.
pub fn is_whitespace(c: char) -> (b: bool)
    ensures
        b == is_blank(c),
{
    let n = c as u32;
    (0x09 <= n && n <= 0x0d) || n == 0x20 || n == 0x85 || n == 0xa0 || n == 0x1680 || (0x2000 <= n
        && n <= 0x200a) || n == 0x2028 || n == 0x2029 || n == 0x202f || n == 0x205f || n == 0x3000
}

/// The characters of `text`, in order.
fn chars_of(text: &str) -> (out: Vec<char>)
    ensures
        out@ == text@,
{
    let mut out: Vec<char> = Vec::new();
    for c in it: text.chars()
        invariant
            it.seq() == text@,
            out@ == text@.take(it.index()),
    {
        out.push(c);
        assert(text@.take(it.index() + 1) =~= text@.take(it.index()).push(c));
    }
    assert(text@.take(text@.len() as int) =~= text@);
    out
}

/// `line` without the white space at its two ends.
fn trim(line: &Vec<char>) -> (t: Vec<char>)
    ensures
        t@ == trimmed(line@),
{
    let len = line.len();
    let mut start: usize = 0;
    while start < len && is_whitespace(line[start])
        invariant
            start <= len,
            len == line@.len(),
            skip_blanks(line@, start as int) == skip_blanks(line@, 0),
        decreases len - start,
    {
        start += 1;
    }
    let mut end: usize = len;
    while end > start && is_whitespace(line[end - 1])
        invariant
            start <= end <= len,
            len == line@.len(),
            skip_blanks_back(line@, end as int, start as int) == skip_blanks_back(
                line@,
                len as int,
                start as int,
            ),
        decreases end,
    {
        end -= 1;
    }
    let mut out: Vec<char> = Vec::new();
    let mut i: usize = start;
    while i < end
        invariant
            start <= i <= end <= len,
            len == line@.len(),
            out@ == line@.subrange(start as int, i as int),
        decreases end - i,
    {
        out.push(line[i]);
        assert(line@.subrange(start as int, i + 1) =~= line@.subrange(start as int, i as int).push(
            line@[i as int],
        ));
        i += 1;
    }
    out
}

/// The rows of a map text.
fn lines_of(chars: &Vec<char>) -> (lines: Vec<Vec<char>>)
    ensures
        rows_of(lines@) == map_lines(chars@),
{
    let mut lines: Vec<Vec<char>> = Vec::new();
    let mut cur: Vec<char> = Vec::new();
    let ghost mut done: Seq<Seq<char>> = Seq::empty();
    let mut i: usize = 0;
    proof {
        assert(chars@.take(0) =~= Seq::<char>::empty());
        assert(segments(chars@.take(0)) =~= done.push(cur@));
        assert(done.map_values(trim_fn()).filter(not_empty()) =~= Seq::<Seq<char>>::empty());
        assert(rows_of(lines@) =~= Seq::<Seq<char>>::empty());
    }
    while i < chars.len()
        invariant
            i <= chars.len(),
            segments(chars@.take(i as int)) == done.push(cur@),
            rows_of(lines@) == done.map_values(trim_fn()).filter(not_empty()),
        decreases chars.len() - i,
    {
        let c = chars[i];
        proof {
            assert(chars@.take(i + 1).drop_last() =~= chars@.take(i as int));
            assert(chars@.take(i + 1).last() == c);
        }
        if c == '\n' {
            let t = trim(&cur);
            proof {
                let m = done.map_values(trim_fn());
                assert(done.push(cur@).map_values(trim_fn()) =~= m.push(trimmed(cur@)));
                m.lemma_filter_push(trimmed(cur@), not_empty());
                done = done.push(cur@);
            }
            let ghost old_lines = lines@;
            if t.len() > 0 {
                lines.push(t);
                assert(rows_of(lines@) =~= rows_of(old_lines).push(t@));
            }
            cur = Vec::new();
            assert(segments(chars@.take(i + 1)) =~= done.push(cur@));
        } else {
            let ghost old_cur = cur@;
            cur.push(c);
            assert(segments(chars@.take(i + 1)) =~= done.push(cur@)) by {
                assert(done.push(old_cur).drop_last() =~= done);
            }
        }
        i += 1;
    }
    assert(chars@.take(chars.len() as int) =~= chars@);
    let t = trim(&cur);
    proof {
        let m = done.map_values(trim_fn());
        assert(done.push(cur@).map_values(trim_fn()) =~= m.push(trimmed(cur@)));
        m.lemma_filter_push(trimmed(cur@), not_empty());
    }
    let ghost old_lines = lines@;
    if t.len() > 0 {
        lines.push(t);
        assert(rows_of(lines@) =~= rows_of(old_lines).push(t@));
    }
    lines
}

/// The tile that `c` stands for.
pub fn tile_from_char(c: char) -> (t: Option<Tile>)
    ensures
        t == tile_of(c),
{
    if c == 'C' {
        Some(Tile::CLEAN)
    } else if c == 'W' {
        Some(Tile::IMPASSABLE)
    } else if c == 'T' {
        Some(Tile::TARGET)
    } else {
        None
    }
}

impl Grid {
    /// Reads a grid from a map text: one row per line, `C` for a clean tile,
    /// `W` for an impassable one and `T` for a target. White space round a
    /// line and empty lines do not count. A text without rows, a row with
    /// another character, rows of different lengths and a map too large for
    /// its coordinates are refused.
    #[verifier::loop_isolation(false)]
    pub fn parse(text: &str) -> (r: Result<Grid, MapParseError>)
        ensures
            match r {
                Ok(g) => parse_spec(text@) == Ok::<GridView, MapParseError>(g@) && g@.wf(),
                Err(e) => parse_spec(text@) == Err::<GridView, MapParseError>(e),
            },
    {
        let chars = chars_of(text);
        let lines = lines_of(&chars);
        let ghost ls = map_lines(text@);
        assert(ls.len() == lines@.len());
        if lines.len() == 0 {
            return Err(MapParseError::Empty);
        }
        assert(lines@[0]@ == ls[0]);
        let width = lines[0].len();
        if lines.len() > MAX_DIM || width > MAX_DIM {
            return Err(MapParseError::TooLarge);
        }
        let mut rows: Vec<Vec<Tile>> = Vec::new();
        let mut y: usize = 0;
        while y < lines.len()
            invariant
                y <= lines.len(),
                ls == rows_of(lines@),
                ls.len() > 0,
                width == ls[0].len(),
                first_error(ls, y as int) == first_error(ls, 0),
                rows@.len() == y,
                forall|j: int| 0 <= j < y ==> (#[trigger] rows@[j])@ == tiles_of(ls[j]),
                forall|j: int| 0 <= j < y ==> (#[trigger] rows@[j])@.len() == width,
            decreases lines.len() - y,
        {
            let line = &lines[y];
            assert(line@ == ls[y as int]);
            let mut row: Vec<Tile> = Vec::new();
            let mut x: usize = 0;
            while x < line.len()
                invariant
                    x <= line.len(),
                    first_unknown(line@, x as int) == first_unknown(line@, 0),
                    row@ == tiles_of(line@).take(x as int),
                decreases line.len() - x,
            {
                match tile_from_char(line[x]) {
                    Some(t) => {
                        row.push(t);
                        assert(tiles_of(line@).take(x + 1) =~= tiles_of(line@).take(x as int).push(t));
                    },
                    None => {
                        return Err(MapParseError::UnknownTile { line: y, character: line[x] });
                    },
                }
                x += 1;
            }
            assert(tiles_of(line@).take(line@.len() as int) =~= tiles_of(line@));
            if line.len() != width {
                return Err(MapParseError::Ragged { line: y });
            }
            rows.push(row);
            y += 1;
        }
        let g = Grid::from_rows(width, rows);
        assert(g@.rows =~= Seq::new(ls.len(), |y: int| tiles_of(ls[y])));
        Ok(g)
    }
}

impl GridView {
    /// What is drawn for the cell at `c`: the agent's symbol where the agent
    /// stands, else the character of the tile.
    pub open spec fn cell_text(self, c: Coord, agent: Option<(Coord, Seq<char>)>) -> Seq<char> {
        match agent {
            Some((at, symbol)) => if at == c {
                symbol
            } else {
                seq![tile_char(self.tile(c))]
            },
            None => seq![tile_char(self.tile(c))],
        }
    }

    /// The cells of row `y` as they are drawn, one after the other.
    pub open spec fn row_cells(self, y: int, agent: Option<(Coord, Seq<char>)>) -> Seq<Seq<char>> {
        Seq::new(self.width, |x: int| self.cell_text(Coord { x: x as i32, y: y as i32 }, agent))
    }

    /// Row `y` as it is drawn, with its line feed.
    pub open spec fn row_text(self, y: int, agent: Option<(Coord, Seq<char>)>) -> Seq<char> {
        self.row_cells(y, agent).flatten().push('\n')
    }

    /// The rows as they are drawn, from top to bottom.
    pub open spec fn row_texts(self, agent: Option<(Coord, Seq<char>)>) -> Seq<Seq<char>> {
        Seq::new(self.height(), |y: int| self.row_text(y, agent))
    }

    /// The whole grid as text: one line per row, one character per tile, the
    /// agent's symbol in place of the tile it stands on.
    pub open spec fn text(self, agent: Option<(Coord, Seq<char>)>) -> Seq<char> {
        self.row_texts(agent).flatten()
    }
}

/// The letter of a tile as a string.
fn tile_str(t: Tile) -> (s: &'static str)
    ensures
        s@ == seq![tile_char(t)],
{
    proof {
        reveal_strlit("W");
        reveal_strlit("C");
        reveal_strlit("D");
        reveal_strlit("T");
    }
    let s = match t {
        Tile::IMPASSABLE => "W",
        Tile::CLEAN => "C",
        Tile::DIRTY => "D",
        Tile::TARGET => "T",
    };
    assert(s@ =~= seq![tile_char(t)]);
    s
}

/// The agent of a drawing as the contracts see it.
pub open spec fn overlay_view(agent: Option<(Coord, &str)>) -> Option<(Coord, Seq<char>)> {
    match agent {
        Some((at, symbol)) => Some((at, symbol@)),
        None => None,
    }
}

/// Draws `grid` as text, with the symbol of `agent` over the tile that it
/// stands on.
pub fn render(grid: &Grid, agent: Option<(Coord, &str)>) -> (s: String)
    ensures
        s@ == grid@.text(overlay_view(agent)),
{
    proof {
        use_type_invariant(grid);
        grid.lemma_inv();
        reveal_strlit("\n");
    }
    let ghost ov = overlay_view(agent);
    let ghost texts = grid@.row_texts(ov);
    let width = grid.width();
    let height = grid.height();
    let mut out = String::new();
    let mut y: usize = 0;
    assert(texts.take(0) =~= Seq::<Seq<char>>::empty());
    while y < height
        invariant
            grid@.wf(),
            width == grid@.width,
            height == grid@.height(),
            y <= height,
            ov == overlay_view(agent),
            texts == grid@.row_texts(ov),
            "\n"@ == seq!['\n'],
            out@ == texts.take(y as int).flatten(),
        decreases height - y,
    {
        let ghost before = out@;
        let ghost cells = grid@.row_cells(y as int, ov);
        let mut x: usize = 0;
        assert(cells.take(0) =~= Seq::<Seq<char>>::empty());
        while x < width
            invariant
                grid@.wf(),
                width == grid@.width,
                height == grid@.height(),
                width <= MAX_DIM,
                height <= MAX_DIM,
                y < height,
                x <= width,
                ov == overlay_view(agent),
                cells == grid@.row_cells(y as int, ov),
                out@ == before + cells.take(x as int).flatten(),
            decreases width - x,
        {
            let c = Coord::new(x as i32, y as i32);
            let here = match agent {
                Some((at, _)) => at == c,
                None => false,
            };
            proof {
                assert(cells.take(x + 1) =~= cells.take(x as int).push(cells[x as int]));
                cells.take(x as int).lemma_flatten_push(cells[x as int]);
            }
            if here {
                match agent {
                    Some((_, symbol)) => {
                        out.append(symbol);
                    },
                    None => {},
                }
            } else {
                match grid.get_tile(c) {
                    Ok(t) => {
                        out.append(tile_str(t));
                    },
                    Err(_) => {},
                }
            }
            assert(out@ =~= before + cells.take(x + 1).flatten());
            x += 1;
        }
        out.append("\n");
        proof {
            assert(cells.take(width as int) =~= cells);
            assert(texts.take(y + 1) =~= texts.take(y as int).push(texts[y as int]));
            texts.take(y as int).lemma_flatten_push(texts[y as int]);
            assert(out@ =~= texts.take(y + 1).flatten());
        }
        y += 1;
    }
    assert(texts.take(height as int) =~= texts);
    out
}

impl Grid {
    /// The grid as text: one line per row, one letter per tile.
    pub fn to_string(&self) -> (s: String)
        ensures
            s@ == self@.text(None),
    {
        render(self, None)
    }
}

} // verus!
