//! A grid of pipe tiles with one origin tile, the loop of pipes that leaves
//! the origin and comes back to it, and the cells that the loop encloses.
use crate::text::{find_line_end, lemma_line_end_bounds, lines, lines_from, NEWLINE};
use vstd::arithmetic::div_mod::lemma_fundamental_div_mod_converse;
use vstd::prelude::*;
use vstd::set_lib::{lemma_int_range, lemma_len_subset, lemma_map_size, set_int_range};
use vstd::string::StringSliceAdditionalSpecFns;

verus! {

/// The largest width or height of a grid.
pub const MAX_SIDE: usize = 0x4000_0000;

#[derive(Debug, Clone, Copy, PartialEq, Eq, Structural)]
pub enum Direction {
    North,
    East,
    South,
    West,
}

impl Direction {
    pub open spec fn reverse(self) -> Direction {
        match self {
            Direction::North => Direction::South,
            Direction::East => Direction::West,
            Direction::South => Direction::North,
            Direction::West => Direction::East,
        }
    }

    /// Column change of one step in this direction.
    pub open spec fn dx(self) -> int {
        match self {
            Direction::East => 1,
            Direction::West => -1,
            _ => 0,
        }
    }

    /// Row change of one step in this direction; rows grow southwards.
    pub open spec fn dy(self) -> int {
        match self {
            Direction::North => -1,
            Direction::South => 1,
            _ => 0,
        }
    }

    pub fn opposite(&self) -> (r: Direction)
        ensures
            r == self.reverse(),
    {
        match self {
            Direction::North => Direction::South,
            Direction::East => Direction::West,
            Direction::South => Direction::North,
            Direction::West => Direction::East,
        }
    }
}

/// A cell of the grid: column `x`, row `y`.
#[derive(Debug, Clone, Copy, PartialEq, Eq, Structural)]
pub struct Pos {
    pub x: i32,
    pub y: i32,
}

impl Pos {
    /// One step in `dir` stays within the range of `i32`.
    pub open spec fn can_advance(self, dir: Direction) -> bool {
        i32::MIN <= self.x + dir.dx() <= i32::MAX && i32::MIN <= self.y + dir.dy() <= i32::MAX
    }

    pub open spec fn next(self, dir: Direction) -> Pos {
        Pos { x: (self.x + dir.dx()) as i32, y: (self.y + dir.dy()) as i32 }
    }

    pub fn advance(&self, dir: Direction) -> (r: Pos)
        requires
            self.can_advance(dir),
        ensures
            r == self.next(dir),
            r.x == self.x + dir.dx(),
            r.y == self.y + dir.dy(),
    {
        match dir {
            Direction::North => Pos { x: self.x, y: self.y - 1 },
            Direction::East => Pos { x: self.x + 1, y: self.y },
            Direction::South => Pos { x: self.x, y: self.y + 1 },
            Direction::West => Pos { x: self.x - 1, y: self.y },
        }
    }
}

/// What a cell holds: a pipe joining two distinct directions, the origin,
/// which joins all four, or ground, which joins none.
#[derive(Debug, Clone, Copy, PartialEq, Eq, Structural)]
pub enum Tile {
    Pipe(Direction, Direction),
    Origin,
    Ground,
}

/// The tile that a grid symbol stands for.
pub open spec fn symbol_tile(c: u8) -> Option<Tile> {
    if c == ORIGIN_SYMBOL {
        Some(Tile::Origin)
    } else if c == ('.' as u8) {
        Some(Tile::Ground)
    } else if c == ('|' as u8) {
        Some(Tile::Pipe(Direction::North, Direction::South))
    } else if c == ('-' as u8) {
        Some(Tile::Pipe(Direction::East, Direction::West))
    } else if c == ('L' as u8) {
        Some(Tile::Pipe(Direction::North, Direction::East))
    } else if c == ('J' as u8) {
        Some(Tile::Pipe(Direction::North, Direction::West))
    } else if c == ('7' as u8) {
        Some(Tile::Pipe(Direction::South, Direction::West))
    } else if c == ('F' as u8) {
        Some(Tile::Pipe(Direction::South, Direction::East))
    } else {
        None
    }
}

/// The symbol of the origin tile.
pub const ORIGIN_SYMBOL: u8 = ('S' as u8);

impl Tile {
    pub fn from_symbol(c: u8) -> (r: Option<Tile>)
        ensures
            r == symbol_tile(c),
    {
        if c == ORIGIN_SYMBOL {
            Some(Tile::Origin)
        } else if c == ('.' as u8) {
            Some(Tile::Ground)
        } else if c == ('|' as u8) {
            Some(Tile::Pipe(Direction::North, Direction::South))
        } else if c == ('-' as u8) {
            Some(Tile::Pipe(Direction::East, Direction::West))
        } else if c == ('L' as u8) {
            Some(Tile::Pipe(Direction::North, Direction::East))
        } else if c == ('J' as u8) {
            Some(Tile::Pipe(Direction::North, Direction::West))
        } else if c == ('7' as u8) {
            Some(Tile::Pipe(Direction::South, Direction::West))
        } else if c == ('F' as u8) {
            Some(Tile::Pipe(Direction::South, Direction::East))
        } else {
            None
        }
    }

    /// A pipe joins two different directions.
    pub open spec fn distinct_ends(self) -> bool {
        match self {
            Tile::Pipe(a, b) => a != b,
            _ => true,
        }
    }

    pub open spec fn joins(self, dir: Direction) -> bool {
        match self {
            Tile::Pipe(a, b) => a == dir || b == dir,
            Tile::Origin => true,
            Tile::Ground => false,
        }
    }

    pub fn has_direction(&self, dir: Direction) -> (r: bool)
        ensures
            r == self.joins(dir),
    {
        match self {
            Tile::Pipe(a, b) => *a == dir || *b == dir,
            Tile::Origin => true,
            Tile::Ground => false,
        }
    }
}


/// Why a grid could not be read, or has no loop.
#[derive(Debug, Clone, Copy, PartialEq, Eq, Structural)]
pub enum MazeError {
    /// A byte that is neither a tile symbol nor a newline.
    UnknownSymbol,
    /// No lines, or an empty first line.
    Empty,
    /// A line whose length differs from the first line's.
    NotRectangular,
    /// A side longer than `MAX_SIDE`, or a corner lattice that does not fit in memory.
    TooLarge,
    NoOrigin,
    SeveralOrigins,
    /// No walk from the origin comes back to it.
    NoLoop,
}

pub open spec fn known_symbols(b: Seq<u8>) -> bool {
    forall|i: int| 0 <= i < b.len() ==> #[trigger] b[i] == NEWLINE || symbol_tile(b[i]) is Some
}

/// The symbol of the cell with row-major index `i`, the lines being rows.
pub open spec fn cell(ls: Seq<Seq<u8>>, i: int) -> u8 {
    let w = ls[0].len() as int;
    ls[i / w][i % w]
}

/// The first thing wrong with `b` as a grid, if anything is.
pub open spec fn grid_error(b: Seq<u8>) -> Option<MazeError> {
    let ls = lines(b);
    let w = ls[0].len() as int;
    let h = ls.len() as int;
    if !known_symbols(b) {
        Some(MazeError::UnknownSymbol)
    } else if h == 0 || w == 0 {
        Some(MazeError::Empty)
    } else if exists|y: int| 0 <= y < h && #[trigger] ls[y].len() != w {
        Some(MazeError::NotRectangular)
    } else if w > MAX_SIDE || h > MAX_SIDE || (w + 1) * (h + 1) > usize::MAX {
        Some(MazeError::TooLarge)
    } else if forall|i: int| 0 <= i < w * h ==> #[trigger] cell(ls, i) != ORIGIN_SYMBOL {
        Some(MazeError::NoOrigin)
    } else if exists|i: int, j: int|
        0 <= i < j < w * h && #[trigger] cell(ls, i) == ORIGIN_SYMBOL && #[trigger] cell(ls, j)
            == ORIGIN_SYMBOL {
        Some(MazeError::SeveralOrigins)
    } else {
        None
    }
}

pub proof fn lemma_row_col(i: int, w: int, y: int, x: int)
    requires
        0 <= x < w,
        i == y * w + x,
    ensures
        i / w == y,
        i % w == x,
{
    lemma_fundamental_div_mod_converse(i, w, y, x);
}

pub proof fn lemma_div_below(k: int, w: int, h: int)
    requires
        0 <= k < h * w,
        0 < w,
    ensures
        0 <= k / w < h,
        0 <= k % w < w,
{
    vstd::arithmetic::div_mod::lemma_fundamental_div_mod(k, w);
    assert(0 <= k / w < h) by (nonlinear_arith)
        requires
            k == w * (k / w) + k % w,
            0 <= k % w < w,
            0 <= k < h * w,
            0 < w,
    ;
}

/// The end of a pipe by which a walk heading `heading` leaves it: the end that
/// does not lead back where the walk came from.
pub open spec fn turn(t: Tile, heading: Direction) -> Direction {
    match t {
        Tile::Pipe(a, b) => if a == heading.reverse() {
            b
        } else {
            a
        },
        _ => heading,
    }
}

/// A vector of `n` times `false`.
pub fn falses(n: usize) -> (r: Vec<bool>)
    ensures
        r@ == Seq::new(n as nat, |i: int| false),
{
    let mut r: Vec<bool> = Vec::new();
    while r.len() < n
        invariant
            r@.len() <= n,
            forall|i: int| 0 <= i < r@.len() ==> !r@[i],
        decreases n - r@.len(),
    {
        r.push(false);
    }
    assert(r@ =~= Seq::new(n as nat, |i: int| false));
    r
}

/// Number of the indices below `n` that satisfy `f`.
pub open spec fn count_where(n: nat, f: spec_fn(int) -> bool) -> nat
    decreases n,
{
    if n == 0 {
        0
    } else {
        count_where((n - 1) as nat, f) + if f(n - 1) {
            1nat
        } else {
            0nat
        }
    }
}

/// Number of `false` entries.
pub open spec fn count_false(s: Seq<bool>) -> nat
    decreases s.len(),
{
    if s.len() == 0 {
        0
    } else {
        count_false(s.drop_last()) + if s.last() {
            0nat
        } else {
            1nat
        }
    }
}

pub proof fn lemma_count_false_set(s: Seq<bool>, i: int)
    requires
        0 <= i < s.len(),
        !s[i],
    ensures
        count_false(s.update(i, true)) + 1 == count_false(s),
    decreases s.len(),
{
    let t = s.update(i, true);
    if i == s.len() - 1 {
        assert(t.drop_last() =~= s.drop_last());
    } else {
        assert(t.drop_last() =~= s.drop_last().update(i, true));
        lemma_count_false_set(s.drop_last(), i);
    }
}

/// The pair of cells that a move between corners in direction `dir` passes
/// between, given as the first cell and the way to the second. A corner
/// `(x, y)` is where cells `(x, y)`, `(x + 1, y)`, `(x, y + 1)` and
/// `(x + 1, y + 1)` meet.
pub open spec fn crossing(k: Pos, dir: Direction) -> (Pos, Direction) {
    match dir {
        Direction::North => (k, Direction::East),
        Direction::South => (k.next(Direction::South), Direction::East),
        Direction::East => (k.next(Direction::East), Direction::South),
        Direction::West => (k, Direction::South),
    }
}

/// The corner from which the flood fill starts, outside the grid.
pub open spec fn outer_corner() -> Pos {
    Pos { x: -1i32, y: -1i32 }
}

/// How the cells of a grid split: those the loop encloses, those on the loop,
/// and those outside it.
#[derive(Debug, Clone, Copy, PartialEq, Eq, Structural)]
pub struct AreaPartition {
    pub enclosed: usize,
    pub on_loop: usize,
    pub exterior: usize,
}

/// The end of a pipe other than `h`.
pub open spec fn other_end(t: Tile, h: Direction) -> Direction {
    match t {
        Tile::Pipe(a, b) => if a == h {
            b
        } else {
            a
        },
        _ => h,
    }
}

/// A rectangular grid of tiles stored row by row, with the position of its
/// single origin tile.
#[derive(Debug)]
pub struct PipeMap {
    width: usize,
    grid: Vec<Tile>,
    origin: Pos,
}

impl PipeMap {
    pub closed spec fn width(&self) -> int {
        self.width as int
    }

    pub closed spec fn tiles(&self) -> Seq<Tile> {
        self.grid@
    }

    pub closed spec fn origin(&self) -> Pos {
        self.origin
    }

    pub open spec fn height(&self) -> int {
        self.tiles().len() as int / self.width()
    }

    /// Row-major index of the cell at `p`.
    pub open spec fn index_of(&self, p: Pos) -> int {
        p.y * self.width() + p.x
    }

    pub open spec fn contains(&self, p: Pos) -> bool {
        0 <= p.x < self.width() && 0 <= p.y < self.height()
    }

    pub open spec fn tile(&self, p: Pos) -> Tile {
        self.tiles()[self.index_of(p)]
    }

    /// The grid is rectangular and non-empty, its sides are small enough
    /// for the flood fill's corner lattice, and it holds exactly one origin.
    pub open spec fn wf(&self) -> bool {
        &&& 0 < self.width() <= MAX_SIDE
        &&& 0 < self.height() <= MAX_SIDE
        &&& self.tiles().len() == self.width() * self.height()
        &&& (self.width() + 1) * (self.height() + 1) <= usize::MAX
        &&& self.contains(self.origin())
        &&& self.tile(self.origin()) == Tile::Origin
        &&& forall|p: Pos| #[trigger] self.contains(p) && self.tile(p) == Tile::Origin ==> p == self.origin()
        &&& forall|p: Pos| self.contains(p) ==> (#[trigger] self.tile(p)).distinct_ends()
    }

    pub open spec fn lookup(&self, p: Pos) -> Option<Tile> {
        if self.contains(p) {
            Some(self.tile(p))
        } else {
            None
        }
    }

    /// One step from `from` in `dir` is possible when both cells are in the
    /// grid, the first joins `dir` and the second joins the way back.
    pub open spec fn step(&self, from: Pos, dir: Direction) -> Option<(Pos, Tile)> {
        let to = from.next(dir);
        if self.contains(from) && self.contains(to) && self.tile(from).joins(dir) && self.tile(
            to,
        ).joins(dir.reverse()) {
            Some((to, self.tile(to)))
        } else {
            None
        }
    }

    pub proof fn lemma_index(&self, p: Pos)
        requires
            self.wf(),
            self.contains(p),
        ensures
            0 <= p.y * self.width() <= self.index_of(p) < self.tiles().len(),
    {
        let w = self.width();
        let h = self.height();
        assert(0 <= p.y * w <= p.y * w + p.x < w * h) by (nonlinear_arith)
            requires
                0 <= p.x < w,
                0 <= p.y < h,
        ;
    }

    /// The grid is the one that text `b` writes, line by line.
    pub open spec fn reads_from(&self, b: Seq<u8>) -> bool {
        let ls = lines(b);
        &&& self.wf()
        &&& self.width() == ls[0].len()
        &&& self.height() == ls.len()
        &&& forall|i: int|
            0 <= i < self.tiles().len() ==> symbol_tile(#[trigger] cell(ls, i)) == Some(
                self.tiles()[i],
            )
    }

    /// Reads a grid: one line per row, one symbol per cell.
    pub fn parse(input: &str) -> (r: Result<PipeMap, MazeError>)
        ensures
            r is Ok <==> grid_error(input.spec_bytes()) is None,
            r matches Err(e) ==> grid_error(input.spec_bytes()) == Some(e),
            r matches Ok(m) ==> m.reads_from(input.spec_bytes()),
    {
        Self::parse_bytes(input.as_bytes())
    }

    fn parse_bytes(b: &[u8]) -> (r: Result<PipeMap, MazeError>)
        ensures
            r matches Err(e) ==> grid_error(b@) == Some(e),
            r is Ok ==> grid_error(b@) is None,
            r matches Ok(m) ==> m.reads_from(b@),
    {
        let n = b.len();
        let mut i: usize = 0;
        while i < n
            invariant
                n == b@.len(),
                i <= n,
                forall|k: int| 0 <= k < i ==> #[trigger] b@[k] == NEWLINE || symbol_tile(b@[k]) is Some,
            decreases n - i,
        {
            if b[i] != NEWLINE && Tile::from_symbol(b[i]).is_none() {
                return Err(MazeError::UnknownSymbol);
            }
            i = i + 1;
        }
        assert(known_symbols(b@));
        let ghost ls = lines(b@);
        if n == 0 {
            return Err(MazeError::Empty);
        }
        let w = find_line_end(b, 0);
        proof {
            lemma_line_end_bounds(b@, 0);
            assert(ls[0] == b@.subrange(0, w as int));
        }
        if w == 0 {
            return Err(MazeError::Empty);
        }
        let mut grid: Vec<Tile> = Vec::new();
        let mut p: usize = 0;
        let mut h: usize = 0;
        let ghost mut done: Seq<Seq<u8>> = Seq::empty();
        while p < n
            invariant
                known_symbols(b@),
                n == b@.len(),
                ls == lines(b@),
                ls.len() > 0,
                0 < w <= n,
                w == ls[0].len(),
                h <= p <= n,
                ls == done + lines_from(b@, p as int),
                h == done.len(),
                h == 0 ==> p == 0,
                forall|y: int| 0 <= y < h ==> (#[trigger] done[y]).len() == w,
                grid@.len() == h * w,
                forall|k: int|
                    0 <= k < h * w ==> symbol_tile(#[trigger] done[k / w as int][k % w as int])
                        == Some(grid@[k]),
            decreases n - p,
        {
            let e = find_line_end(b, p);
            proof {
                lemma_line_end_bounds(b@, p as int);
                assert(lines_from(b@, p as int) == seq![b@.subrange(p as int, e as int)]
                    + lines_from(b@, e + 1));
            }
            let ghost line = b@.subrange(p as int, e as int);
            assert(ls[h as int] == line);
            if e - p != w {
                return Err(MazeError::NotRectangular);
            }
            let ghost rows = done.push(line);
            proof {
                assert forall|k: int| 0 <= k < h * w implies symbol_tile(
                    #[trigger] rows[k / w as int][k % w as int],
                ) == Some(grid@[k]) by {
                    lemma_div_below(k, w as int, h as int);
                    assert(rows[k / w as int] == done[k / w as int]);
                }
            }
            let mut x: usize = 0;
            while x < w
                invariant
                    known_symbols(b@),
                    n == b@.len(),
                    0 < w,
                    p + w == e <= n,
                    line == b@.subrange(p as int, e as int),
                    forall|j: int| p <= j < e ==> b@[j] != NEWLINE,
                    rows == done.push(line),
                    h == done.len(),
                    x <= w,
                    grid@.len() == h * w + x,
                    forall|k: int|
                        0 <= k < h * w + x ==> symbol_tile(
                            #[trigger] rows[k / w as int][k % w as int],
                        ) == Some(grid@[k]),
                decreases w - x,
            {
                assert(b@[p + x] != NEWLINE);
                let t = Tile::from_symbol(b[p + x]).unwrap();
                grid.push(t);
                proof {
                    lemma_row_col(h * w + x, w as int, h as int, x as int);
                    assert forall|k: int| 0 <= k < h * w + x + 1 implies symbol_tile(
                        #[trigger] rows[k / w as int][k % w as int],
                    ) == Some(grid@[k]) by {
                        if k == h * w + x {
                            assert(rows[h as int] == line);
                        }
                    }
                }
                x = x + 1;
            }
            proof {
                done = rows;
                assert((h + 1) * w == h * w + w) by (nonlinear_arith);
            }
            h = h + 1;
            p = if e < n { e + 1 } else { n };
        }
        assert(ls == done);
        if w > MAX_SIDE || h > MAX_SIDE {
            return Err(MazeError::TooLarge);
        }
        if (w + 1).checked_mul(h + 1).is_none() {
            return Err(MazeError::TooLarge);
        }
        assert(forall|k: int| 0 <= k < h * w ==> symbol_tile(#[trigger] cell(ls, k)) == Some(grid@[k]));
        assert(w * h == h * w) by (nonlinear_arith);
        let mut first: Option<usize> = None;
        let mut k: usize = 0;
        while k < grid.len()
            invariant
                grid@.len() == h * w,
                w * h == h * w,
                w == ls[0].len(),
                h == ls.len(),
                known_symbols(b@),
                ls == lines(b@),
                0 < w <= MAX_SIDE,
                0 < h <= MAX_SIDE,
                (w + 1) * (h + 1) <= usize::MAX,
                forall|y: int| 0 <= y < h ==> (#[trigger] ls[y]).len() == w,
                forall|j: int| 0 <= j < h * w ==> symbol_tile(#[trigger] cell(ls, j)) == Some(grid@[j]),
                k <= grid@.len(),
                match first {
                    None => forall|j: int| 0 <= j < k ==> grid@[j] != Tile::Origin,
                    Some(o) => o < k && grid@[o as int] == Tile::Origin && forall|j: int|
                        0 <= j < k && j != o ==> grid@[j] != Tile::Origin,
                },
            decreases grid@.len() - k,
        {
            if grid[k] == Tile::Origin {
                match first {
                    None => {
                        first = Some(k);
                    },
                    Some(o) => {
                        assert(cell(ls, o as int) == ORIGIN_SYMBOL);
                        assert(cell(ls, k as int) == ORIGIN_SYMBOL);
                        let ghost wi = ls[0].len() as int;
                        let ghost hi = ls.len() as int;
                        assert(0 <= o < k < wi * hi);
                        assert(!(forall|i: int| 0 <= i < wi * hi ==> #[trigger] cell(ls, i) != ORIGIN_SYMBOL));
                        assert(exists|i: int, j: int|
                            0 <= i < j < wi * hi && #[trigger] cell(ls, i) == ORIGIN_SYMBOL && #[trigger] cell(ls, j)
                            == ORIGIN_SYMBOL);
                        return Err(MazeError::SeveralOrigins);
                    },
                }
            }
            k = k + 1;
        }
        let o = match first {
            None => {
                assert forall|j: int| 0 <= j < w * h implies #[trigger] cell(ls, j) != ORIGIN_SYMBOL by {
                    assert(grid@[j] != Tile::Origin);
                }
                return Err(MazeError::NoOrigin);
            },
            Some(o) => o,
        };
        proof {
            lemma_div_below(o as int, w as int, h as int);
            assert(cell(ls, o as int) == ORIGIN_SYMBOL);
        }
        let origin = Pos { x: (o % w) as i32, y: (o / w) as i32 };
        let m = PipeMap { width: w, grid, origin };
        proof {
            assert(w * h == h * w) by (nonlinear_arith);
            lemma_row_col(h * w, w as int, h as int, 0);
            assert(m.height() == h);
            vstd::arithmetic::div_mod::lemma_fundamental_div_mod(o as int, w as int);
            let oi = o as int;
            let wi = w as int;
            assert(m.index_of(origin) == oi) by (nonlinear_arith)
                requires
                    m.index_of(origin) == origin.y * wi + origin.x,
                    origin.y == oi / wi,
                    origin.x == oi % wi,
                    oi == wi * (oi / wi) + oi % wi,
            ;
            assert forall|q: Pos| #[trigger] m.contains(q) && m.tile(q) == Tile::Origin implies q
                == m.origin() by {
                let j = q.y * w + q.x;
                assert(0 <= j < h * w) by (nonlinear_arith)
                    requires
                        0 <= q.x < w,
                        0 <= q.y < h,
                        j == q.y * w + q.x,
                ;
                assert(j == o);
                lemma_row_col(j, w as int, q.y as int, q.x as int);
            }
            assert(!exists|i: int, j: int|
                0 <= i < j < w * h && #[trigger] cell(ls, i) == ORIGIN_SYMBOL && #[trigger] cell(ls, j)
                    == ORIGIN_SYMBOL);
            assert forall|q: Pos| m.contains(q) implies (#[trigger] m.tile(q)).distinct_ends() by {
                let j = q.y * w + q.x;
                assert(0 <= j < h * w) by (nonlinear_arith)
                    requires
                        0 <= q.x < w,
                        0 <= q.y < h,
                        j == q.y * w + q.x,
                ;
                assert(symbol_tile(cell(ls, j)) == Some(m.tiles()[j]));
            }
        }
        Ok(m)
    }

    pub fn in_bounds(&self, pos: &Pos) -> (r: bool)
        requires
            self.wf(),
        ensures
            r == self.contains(*pos),
    {
        pos.x >= 0 && (pos.x as usize) < self.width && pos.y >= 0 && (pos.y as usize) < self.grid.len()
            / self.width
    }

    pub fn get(&self, pos: Pos) -> (r: Option<Tile>)
        requires
            self.wf(),
        ensures
            r == self.lookup(pos),
    {
        if self.in_bounds(&pos) {
            let cells = self.grid.len();
            proof {
                self.lemma_index(pos);
                assert(self.index_of(pos) < cells);
            }
            let i = pos.y as usize * self.width + pos.x as usize;
            Some(self.grid[i])
        } else {
            None
        }
    }

    pub fn walk(&self, from: Pos, dir: Direction) -> (r: Option<(Pos, Tile)>)
        requires
            self.wf(),
        ensures
            r == self.step(from, dir),
    {
        let from_tile = match self.get(from) {
            Some(t) => t,
            None => return None,
        };
        let to = from.advance(dir);
        let to_tile = match self.get(to) {
            Some(t) => t,
            None => return None,
        };
        if from_tile.has_direction(dir) && to_tile.has_direction(dir.opposite()) {
            Some((to, to_tile))
        } else {
            None
        }
    }

    /// Where a walk that leaves the origin heading `d` stands after `n` steps,
    /// and the way it heads next. A walk goes on through pipes only: it ends
    /// at a dead end, and on its return to the origin.
    pub open spec fn trail(&self, d: Direction, n: nat) -> Option<(Pos, Direction)>
        decreases n,
    {
        if n == 0 {
            Some((self.origin(), d))
        } else {
            match self.trail(d, (n - 1) as nat) {
                Some((p, h)) => match self.step(p, h) {
                    Some((q, Tile::Pipe(a, b))) => Some((q, turn(Tile::Pipe(a, b), h))),
                    _ => None,
                },
                None => None,
            }
        }
    }

    /// The walk that leaves the origin heading `d` comes back to it on its
    /// `n`th step.
    pub open spec fn closes_at(&self, d: Direction, n: nat) -> bool {
        n >= 1 && match self.trail(d, (n - 1) as nat) {
            Some((p, h)) => match self.step(p, h) {
                Some((_, Tile::Origin)) => true,
                _ => false,
            },
            None => false,
        }
    }

    /// `f` is the largest half loop length over the four starting directions.
    pub open spec fn is_farthest(&self, f: int) -> bool {
        &&& exists|d: Direction, n: nat| #[trigger] self.closes_at(d, n) && f == n / 2
        &&& forall|d: Direction, n: nat| #[trigger] self.closes_at(d, n) ==> n / 2 <= f
    }

    pub proof fn lemma_trail_ends(&self, d: Direction, k: nat, j: nat)
        requires
            self.trail(d, k) is None,
            k <= j,
        ensures
            self.trail(d, j) is None,
        decreases j - k,
    {
        if k < j {
            self.lemma_trail_ends(d, k, (j - 1) as nat);
        }
    }

    /// A step of a walk, read backwards: the cell and heading after it give
    /// the ones before it.
    proof fn lemma_trail_step(&self, d: Direction, k: nat)
        requires
            self.wf(),
            k >= 1,
            self.trail(d, k) is Some,
        ensures
            self.trail(d, (k - 1) as nat) is Some,
            ({
                let (p, h) = self.trail(d, k)->Some_0;
                let (q, g) = self.trail(d, (k - 1) as nat)->Some_0;
                &&& self.contains(p)
                &&& self.contains(q)
                &&& self.tile(p) is Pipe
                &&& p == q.next(g)
                &&& q == p.next(g.reverse())
                &&& h != g.reverse()
                &&& other_end(self.tile(p), h) == g.reverse()
                &&& other_end(self.tile(p), g.reverse()) == h
            }),
    {
        self.lemma_trail_inside(d, (k - 1) as nat);
        let (p, h) = self.trail(d, k)->Some_0;
        let (q, g) = self.trail(d, (k - 1) as nat)->Some_0;
        assert(self.tile(p).distinct_ends());
    }

    proof fn lemma_no_repeat_state(&self, d: Direction, i: nat, j: nat)
        requires
            self.wf(),
            i < j,
            self.trail(d, j) is Some,
        ensures
            self.trail(d, i) != self.trail(d, j),
        decreases i,
    {
        self.lemma_trail_step(d, j);
        if i == 0 {
            let p = self.trail(d, j)->Some_0.0;
            assert(self.tile(self.origin()) == Tile::Origin);
        } else if self.trail(d, i) == self.trail(d, j) {
            self.lemma_trail_step(d, i);
            let (q1, g1) = self.trail(d, (i - 1) as nat)->Some_0;
            let (q2, g2) = self.trail(d, (j - 1) as nat)->Some_0;
            assert(g1.reverse() == g2.reverse());
            assert(g1 == g2);
            self.lemma_no_repeat_state(d, (i - 1) as nat, (j - 1) as nat);
        }
    }

    /// A walk that reaches a cell again heading back the way it first came
    /// would have to turn round inside a pipe.
    proof fn lemma_no_mirror(&self, d: Direction, i: nat, j: nat)
        requires
            self.wf(),
            1 <= i < j,
            self.trail(d, j) is Some,
        ensures
            !(self.trail(d, i)->Some_0.0 == self.trail(d, j)->Some_0.0 && self.trail(d, j)->Some_0.1
                == self.trail(d, (i - 1) as nat)->Some_0.1.reverse() && self.trail(d, i)->Some_0.1
                == self.trail(d, (j - 1) as nat)->Some_0.1.reverse()),
        decreases j - i,
    {
        self.lemma_trail_ends_contra(d, i + 1, j);
        self.lemma_trail_step(d, i);
        self.lemma_trail_step(d, j);
        self.lemma_trail_step(d, i + 1);
        let (pi, hi) = self.trail(d, i)->Some_0;
        let (pj, hj) = self.trail(d, j)->Some_0;
        let (pa, ha) = self.trail(d, i + 1)->Some_0;
        let (pb, hb) = self.trail(d, (j - 1) as nat)->Some_0;
        if pi == pj && hj == self.trail(d, (i - 1) as nat)->Some_0.1.reverse() && hi == hb.reverse() {
            if i + 1 == j {
                assert(pa == pi.next(hi));
            } else {
                assert(pb == pa);
                if i + 1 < j - 1 {
                    self.lemma_trail_step(d, (j - 1) as nat);
                    self.lemma_no_mirror(d, i + 1, (j - 1) as nat);
                }
            }
        }
    }

    proof fn lemma_trail_ends_contra(&self, d: Direction, k: nat, j: nat)
        requires
            k <= j,
            self.trail(d, j) is Some,
        ensures
            self.trail(d, k) is Some,
    {
        if self.trail(d, k) is None {
            self.lemma_trail_ends(d, k, j);
        }
    }

    /// A walk never comes to a cell twice before it closes.
    proof fn lemma_cells_distinct(&self, d: Direction, i: nat, j: nat)
        requires
            self.wf(),
            i < j,
            self.trail(d, j) is Some,
        ensures
            self.trail(d, i)->Some_0.0 != self.trail(d, j)->Some_0.0,
    {
        self.lemma_trail_ends_contra(d, i, j);
        self.lemma_trail_step(d, j);
        let (pi, hi) = self.trail(d, i)->Some_0;
        let (pj, hj) = self.trail(d, j)->Some_0;
        if i == 0 {
            assert(self.tile(self.origin()) == Tile::Origin);
        } else if pi == pj {
            self.lemma_trail_step(d, i);
            if hi == hj {
                self.lemma_no_repeat_state(d, i, j);
            } else {
                self.lemma_no_mirror(d, i, j);
                self.lemma_trail_step(d, (j - 1) as nat);
            }
        }
    }

    /// A loop through the origin visits at most every cell once.
    pub proof fn lemma_loop_fits(&self, d: Direction, n: nat)
        requires
            self.wf(),
            self.closes_at(d, n),
        ensures
            n <= self.tiles().len(),
    {
        let cells = self.tiles().len() as int;
        let f = |k: int| self.index_of(self.trail(d, k as nat)->Some_0.0);
        let steps = set_int_range(0, n as int);
        let room = set_int_range(0, cells);
        lemma_int_range(0, n as int);
        lemma_int_range(0, cells);
        assert forall|a: int, b: int|
            steps.contains(a) && steps.contains(b) && #[trigger] f(a) == #[trigger] f(b) implies a == b by {
            if a != b {
                let (lo, hi) = if a < b { (a, b) } else { (b, a) };
                self.lemma_trail_ends_contra(d, hi as nat, (n - 1) as nat);
                self.lemma_trail_ends_contra(d, lo as nat, (n - 1) as nat);
                self.lemma_cells_distinct(d, lo as nat, hi as nat);
                self.lemma_trail_inside(d, lo as nat);
                self.lemma_trail_inside(d, hi as nat);
                let p = self.trail(d, lo as nat)->Some_0.0;
                let q = self.trail(d, hi as nat)->Some_0.0;
                lemma_row_col(self.index_of(p), self.width(), p.y as int, p.x as int);
                lemma_row_col(self.index_of(q), self.width(), q.y as int, q.x as int);
            }
        }
        lemma_map_size(steps, steps.map(f), f);
        assert forall|i: int| #[trigger] steps.map(f).contains(i) implies room.contains(i) by {
            let k = choose|k: int| steps.contains(k) && f(k) == i;
            self.lemma_trail_ends_contra(d, k as nat, (n - 1) as nat);
            self.lemma_trail_inside(d, k as nat);
            self.lemma_index(self.trail(d, k as nat)->Some_0.0);
        }
        lemma_len_subset(steps.map(f), room);
    }

    /// A walk comes back to the origin at most once.
    pub proof fn lemma_closes_once(&self, d: Direction, n1: nat, n2: nat)
        requires
            self.closes_at(d, n1),
            self.closes_at(d, n2),
        ensures
            n1 == n2,
    {
        if n1 < n2 {
            self.lemma_trail_ends(d, n1, (n2 - 1) as nat);
        } else if n2 < n1 {
            self.lemma_trail_ends(d, n2, (n1 - 1) as nat);
        }
    }

    /// Number of steps after which the walk heading `d` is back at the
    /// origin.
    pub fn loop_length(&self, d: Direction) -> (r: Option<usize>)
        requires
            self.wf(),
        ensures
            match r {
                Some(n) => self.closes_at(d, n as nat),
                None => forall|n: nat| !#[trigger] self.closes_at(d, n),
            },
            r matches Some(n) ==> n % 2 == 0,
    {
        let cells = self.grid.len();
        let mut cur = self.origin;
        let mut heading = d;
        let mut steps: usize = 0;
        while steps < cells
            invariant
                self.wf(),
                cells == self.tiles().len(),
                steps <= cells,
                self.trail(d, steps as nat) == Some((cur, heading)),
                forall|n: nat| 1 <= n <= steps ==> !#[trigger] self.closes_at(d, n),
            decreases cells - steps,
        {
            match self.walk(cur, heading) {
                Some((q, Tile::Origin)) => {
                    proof {
                        self.lemma_loop_length_even(d, steps as nat + 1);
                    }
                    return Some(steps + 1);
                },
                Some((q, Tile::Pipe(a, b))) => {
                    heading = if a == heading.opposite() {
                        b
                    } else {
                        a
                    };
                    cur = q;
                    steps = steps + 1;
                },
                _ => {
                    proof {
                        assert forall|n: nat| !#[trigger] self.closes_at(d, n) by {
                            if n > steps + 1 {
                                self.lemma_trail_ends(d, steps as nat + 1, (n - 1) as nat);
                            }
                        }
                    }
                    return None;
                },
            }
        }
        proof {
            assert forall|n: nat| !#[trigger] self.closes_at(d, n) by {
                if self.closes_at(d, n) {
                    self.lemma_loop_fits(d, n);
                }
            }
        }
        None
    }

    /// Half the length of the longest loop through the origin: the number of
    /// steps to the point of the loop farthest from it.
    pub fn farthest_distance(&self) -> (r: Result<usize, MazeError>)
        requires
            self.wf(),
        ensures
            r is Err <==> forall|d: Direction, n: nat| !#[trigger] self.closes_at(d, n),
            r matches Err(e) ==> e == MazeError::NoLoop,
            r matches Ok(f) ==> self.is_farthest(f as int),
    {
        let mut best: Option<usize> = None;
        let dirs = [Direction::North, Direction::South, Direction::West, Direction::East];
        let mut i: usize = 0;
        while i < 4
            invariant
                self.wf(),
                i <= 4,
                dirs@ == seq![Direction::North, Direction::South, Direction::West, Direction::East],
                match best {
                    None => forall|k: int, n: nat|
                        0 <= k < i ==> !#[trigger] self.closes_at(dirs@[k], n),
                    Some(f) => (exists|d: Direction, n: nat|
                        #[trigger] self.closes_at(d, n) && f == n / 2) && forall|k: int, n: nat|
                        0 <= k < i && #[trigger] self.closes_at(dirs@[k], n) ==> n / 2 <= f,
                },
            decreases 4 - i,
        {
            let d = dirs[i];
            match self.loop_length(d) {
                Some(n) => {
                    best = match best {
                        Some(f) if f >= n / 2 => Some(f),
                        _ => Some(n / 2),
                    };
                    proof {
                        assert forall|k: int, m: nat|
                            0 <= k < i + 1 && #[trigger] self.closes_at(dirs@[k], m) implies m
                            / 2 <= best->Some_0 by {
                            if k == i {
                                self.lemma_closes_once(d, n as nat, m);
                            }
                        }
                    }
                },
                None => {},
            }
            i = i + 1;
        }
        match best {
            Some(f) => Ok(f),
            None => {
                proof {
                    assert forall|d: Direction, n: nat| !#[trigger] self.closes_at(d, n) by {
                        let k: int = match d {
                            Direction::North => 0,
                            Direction::South => 1,
                            Direction::West => 2,
                            Direction::East => 3,
                        };
                        assert(dirs@[k] == d);
                    }
                }
                Err(MazeError::NoLoop)
            },
        }
    }

    proof fn lemma_trail_parity(&self, d: Direction, k: nat)
        requires
            self.wf(),
            self.trail(d, k) is Some,
        ensures
            (self.trail(d, k)->Some_0.0.x + self.trail(d, k)->Some_0.0.y - self.origin().x
                - self.origin().y - k) % 2 == 0,
        decreases k,
    {
        if k > 0 {
            self.lemma_trail_parity(d, (k - 1) as nat);
        }
    }

    /// Every loop through the origin has an even number of steps: each step
    /// changes the sum of the coordinates by one, and a loop ends where it
    /// began.
    pub proof fn lemma_loop_length_even(&self, d: Direction, n: nat)
        requires
            self.wf(),
            self.closes_at(d, n),
        ensures
            n % 2 == 0,
    {
        self.lemma_trail_parity(d, (n - 1) as nat);
        let (p, h) = self.trail(d, (n - 1) as nat)->Some_0;
        let q = p.next(h);
        assert(self.contains(q) && self.tile(q) == Tile::Origin);
        assert(q == self.origin());
    }

    /// Where all loops through the origin have length `n`, the farthest
    /// distance is exactly half of it.
    pub proof fn lemma_farthest_is_half(&self, f: int, d: Direction, n: nat)
        requires
            self.wf(),
            self.is_farthest(f),
            self.closes_at(d, n),
            forall|d2: Direction, n2: nat| #[trigger] self.closes_at(d2, n2) ==> n2 == n,
        ensures
            n % 2 == 0,
            2 * f == n,
    {
        self.lemma_loop_length_even(d, n);
        let (d1, n1) = choose|d1: Direction, n1: nat| #[trigger] self.closes_at(d1, n1) && f == n1 / 2;
        assert(n1 == n);
    }

    /// The first of North, South, West and East whose walk closes, with the
    /// loop's length.
    pub open spec fn loop_walk(&self) -> Option<(Direction, nat)> {
        if exists|n: nat| self.closes_at(Direction::North, n) {
            Some((Direction::North, choose|n: nat| self.closes_at(Direction::North, n)))
        } else if exists|n: nat| self.closes_at(Direction::South, n) {
            Some((Direction::South, choose|n: nat| self.closes_at(Direction::South, n)))
        } else if exists|n: nat| self.closes_at(Direction::West, n) {
            Some((Direction::West, choose|n: nat| self.closes_at(Direction::West, n)))
        } else if exists|n: nat| self.closes_at(Direction::East, n) {
            Some((Direction::East, choose|n: nat| self.closes_at(Direction::East, n)))
        } else {
            None
        }
    }

    /// The cell with index `i` is one of the first `n` cells of the walk heading `d`.
    pub open spec fn loop_cell(&self, d: Direction, n: nat, i: int) -> bool {
        exists|k: nat| k < n && #[trigger] self.index_of(self.trail(d, k)->Some_0.0) == i
    }

    /// For each cell, whether it lies on the loop.
    pub open spec fn loop_marks(&self) -> Seq<bool> {
        let (d, n) = self.loop_walk()->Some_0;
        Seq::new(self.tiles().len(), |i: int| self.loop_cell(d, n, i))
    }

    pub proof fn lemma_trail_inside(&self, d: Direction, k: nat)
        requires
            self.wf(),
            self.trail(d, k) is Some,
        ensures
            self.contains(self.trail(d, k)->Some_0.0),
    {
    }

    /// The walk that closes first, in the order North, South, West, East.
    fn find_loop(&self) -> (r: Option<(Direction, usize)>)
        requires
            self.wf(),
        ensures
            match r {
                Some((d, n)) => self.loop_walk() == Some((d, n as nat)),
                None => self.loop_walk() is None,
            },
    {
        let dirs = [Direction::North, Direction::South, Direction::West, Direction::East];
        let mut i: usize = 0;
        while i < 4
            invariant
                self.wf(),
                i <= 4,
                dirs@ == seq![Direction::North, Direction::South, Direction::West, Direction::East],
                forall|k: int, n: nat| 0 <= k < i ==> !#[trigger] self.closes_at(dirs@[k], n),
            decreases 4 - i,
        {
            let d = dirs[i];
            match self.loop_length(d) {
                Some(n) => {
                    proof {
                        let c = choose|m: nat| self.closes_at(d, m);
                        self.lemma_closes_once(d, n as nat, c);
                        if i > 0 {
                            assert(!exists|m: nat| self.closes_at(dirs@[0], m));
                        }
                        if i > 1 {
                            assert(!exists|m: nat| self.closes_at(dirs@[1], m));
                        }
                        if i > 2 {
                            assert(!exists|m: nat| self.closes_at(dirs@[2], m));
                        }
                    }
                    return Some((d, n));
                },
                None => {},
            }
            i = i + 1;
        }
        proof {
            assert(!exists|m: nat| self.closes_at(dirs@[0], m));
            assert(!exists|m: nat| self.closes_at(dirs@[1], m));
            assert(!exists|m: nat| self.closes_at(dirs@[2], m));
            assert(!exists|m: nat| self.closes_at(dirs@[3], m));
        }
        None
    }

    /// Marks the cells of the loop that `find_loop` picked.
    fn mark_loop(&self, d: Direction, n: usize) -> (marks: Vec<bool>)
        requires
            self.wf(),
            self.loop_walk() == Some((d, n as nat)),
        ensures
            marks@ == self.loop_marks(),
    {
        let cells = self.grid.len();
        let mut marks = falses(cells);
        let mut cur = self.origin;
        let mut heading = d;
        let mut k: usize = 0;
        assert(self.closes_at(d, n as nat));
        while k < n
            invariant
                self.wf(),
                cells == self.tiles().len(),
                self.closes_at(d, n as nat),
                k <= n,
                k < n ==> self.trail(d, k as nat) == Some((cur, heading)),
                marks@.len() == cells,
                forall|i: int|
                    0 <= i < cells ==> (marks@[i] <==> exists|j: nat|
                        j < k && #[trigger] self.index_of(self.trail(d, j)->Some_0.0) == i),
            decreases n - k,
        {
            proof {
                self.lemma_index(cur);
            }
            let idx = cur.y as usize * self.width + cur.x as usize;
            marks[idx] = true;
            proof {
                assert forall|i: int| 0 <= i < cells implies (marks@[i] <==> exists|j: nat|
                    j < k + 1 && #[trigger] self.index_of(self.trail(d, j)->Some_0.0) == i) by {
                    if i == idx {
                        assert(self.index_of(self.trail(d, k as nat)->Some_0.0) == i);
                    }
                }
            }
            if k + 1 < n {
                proof {
                    if self.trail(d, (k + 1) as nat) is None {
                        self.lemma_trail_ends(d, (k + 1) as nat, (n - 1) as nat);
                    }
                }
                match self.walk(cur, heading) {
                    Some((q, Tile::Pipe(a, b))) => {
                        heading = if a == heading.opposite() {
                            b
                        } else {
                            a
                        };
                        cur = q;
                    },
                    _ => {},
                }
            }
            k = k + 1;
        }
        assert(marks@ =~= self.loop_marks());
        marks
    }

    /// A corner of the lattice that the flood fill moves on: it covers the
    /// grid and a ring around it.
    pub open spec fn knot_ok(&self, k: Pos) -> bool {
        -1 <= k.x < self.width() && -1 <= k.y < self.height()
    }

    pub open spec fn knot_index(&self, k: Pos) -> int {
        (k.y + 1) * (self.width() + 1) + (k.x + 1)
    }

    pub open spec fn knot_count(&self) -> int {
        (self.width() + 1) * (self.height() + 1)
    }

    /// The cell at `p` is in the grid and marked.
    pub open spec fn marked(&self, marks: Seq<bool>, p: Pos) -> bool {
        self.contains(p) && marks[self.index_of(p)]
    }

    /// The loop itself stands between the two cells that a move crosses.
    pub open spec fn blocked(&self, marks: Seq<bool>, k: Pos, dir: Direction) -> bool {
        let (c, x) = crossing(k, dir);
        self.marked(marks, c) && self.marked(marks, c.next(x)) && self.step(c, x) is Some
    }

    pub open spec fn open_move(&self, marks: Seq<bool>, k: Pos, dir: Direction) -> bool {
        self.knot_ok(k.next(dir)) && !self.blocked(marks, k, dir)
    }

    /// No open move leads out of `s`.
    pub open spec fn closed_region(&self, marks: Seq<bool>, s: Set<Pos>) -> bool {
        forall|k: Pos, dir: Direction|
            s.contains(k) && self.knot_ok(k) && #[trigger] self.open_move(marks, k, dir) ==> s.contains(
                k.next(dir),
            )
    }

    /// `r` holds the corners that open moves reach from the outer corner:
    /// the least closed region that holds it.
    pub open spec fn is_outside(&self, marks: Seq<bool>, r: Set<Pos>) -> bool {
        &&& r.contains(outer_corner())
        &&& forall|k: Pos| #[trigger] r.contains(k) ==> self.knot_ok(k)
        &&& self.closed_region(marks, r)
        &&& forall|s: Set<Pos>|
            self.closed_region(marks, s) && s.contains(outer_corner()) ==> #[trigger] r.subset_of(s)
    }

    pub proof fn lemma_knot_index(&self, a: Pos, b: Pos)
        requires
            self.wf(),
            self.knot_ok(a),
            self.knot_ok(b),
        ensures
            0 <= self.knot_index(a) < self.knot_count(),
            self.knot_index(a) == self.knot_index(b) ==> a == b,
    {
        let w = self.width() + 1;
        let h = self.height() + 1;
        assert(0 <= (a.y + 1) * w + (a.x + 1) < w * h) by (nonlinear_arith)
            requires
                0 <= a.x + 1 < w,
                0 <= a.y + 1 < h,
        ;
        if self.knot_index(a) == self.knot_index(b) {
            lemma_row_col(self.knot_index(a), w, a.y + 1, a.x + 1);
            lemma_row_col(self.knot_index(b), w, b.y + 1, b.x + 1);
        }
    }

    /// The corners that `seen` marks.
    pub open spec fn seen_set(&self, seen: Seq<bool>) -> Set<Pos> {
        Set::new(|k: Pos| self.knot_ok(k) && seen[self.knot_index(k)])
    }

    fn is_marked(&self, marks: &Vec<bool>, p: Pos) -> (r: bool)
        requires
            self.wf(),
            marks@.len() == self.tiles().len(),
        ensures
            r == self.marked(marks@, p),
    {
        if self.in_bounds(&p) {
            let cells = marks.len();
            proof {
                self.lemma_index(p);
                assert(self.index_of(p) < cells);
            }
            marks[p.y as usize * self.width + p.x as usize]
        } else {
            false
        }
    }

    fn is_blocked(&self, marks: &Vec<bool>, k: Pos, dir: Direction) -> (r: bool)
        requires
            self.wf(),
            marks@.len() == self.tiles().len(),
            self.knot_ok(k),
        ensures
            r == self.blocked(marks@, k, dir),
    {
        let (c, x) = match dir {
            Direction::North => (k, Direction::East),
            Direction::South => (k.advance(Direction::South), Direction::East),
            Direction::East => (k.advance(Direction::East), Direction::South),
            Direction::West => (k, Direction::South),
        };
        self.is_marked(marks, c) && self.is_marked(marks, c.advance(x)) && self.walk(c, x).is_some()
    }

    fn knot_idx(&self, k: Pos) -> (r: usize)
        requires
            self.wf(),
            self.knot_ok(k),
        ensures
            r == self.knot_index(k),
            r < self.knot_count(),
    {
        proof {
            self.lemma_knot_index(k, k);
        }
        (k.y + 1) as usize * (self.width + 1) + (k.x + 1) as usize
    }

    /// Flood fill from the outer corner over the corner lattice: a move is
    /// stopped only where the loop's own pipe runs between the two cells it
    /// passes.
    fn flood(&self, marks: &Vec<bool>) -> (seen: Vec<bool>)
        requires
            self.wf(),
            marks@.len() == self.tiles().len(),
        ensures
            seen@.len() == self.knot_count(),
            self.is_outside(marks@, self.seen_set(seen@)),
    {
        let total = (self.width + 1) * (self.grid.len() / self.width + 1);
        let mut seen = falses(total);
        let start = Pos { x: -1, y: -1 };
        let si = self.knot_idx(start);
        seen[si] = true;
        let mut stack: Vec<Pos> = Vec::new();
        stack.push(start);
        proof {
            assert(stack@[0] == start);
            assert forall|m: Pos| self.knot_ok(m) && seen@[self.knot_index(m)] implies m == start by {
                self.lemma_knot_index(m, start);
            }
            assert forall|t: Set<Pos>|
                self.closed_region(marks@, t) && t.contains(outer_corner()) implies #[trigger] self.seen_set(
                seen@,
            ).subset_of(t) by {
                assert forall|m: Pos| self.seen_set(seen@).contains(m) implies t.contains(m) by {
                    self.lemma_knot_index(m, start);
                }
            }
        }
        while stack.len() > 0
            invariant
                self.wf(),
                marks@.len() == self.tiles().len(),
                seen@.len() == self.knot_count(),
                seen@[self.knot_index(outer_corner())],
                forall|i: int| 0 <= i < stack@.len() ==> self.knot_ok(#[trigger] stack@[i]),
                forall|i: int| 0 <= i < stack@.len() ==> seen@[self.knot_index(#[trigger] stack@[i])],
                forall|m: Pos, dir: Direction|
                    self.knot_ok(m) && seen@[self.knot_index(m)] && !stack@.contains(m)
                        && #[trigger] self.open_move(marks@, m, dir) ==> seen@[self.knot_index(
                        m.next(dir),
                    )],
                forall|t: Set<Pos>|
                    self.closed_region(marks@, t) && t.contains(outer_corner()) ==> #[trigger] self.seen_set(
                        seen@,
                    ).subset_of(t),
            decreases 5 * count_false(seen@) + stack@.len(),
        {
            let ghost pre = stack@;
            let k = stack.pop().unwrap();
            proof {
                assert(pre == stack@.push(k));
                assert(self.knot_ok(pre[pre.len() - 1]));
                assert forall|i: int| 0 <= i < stack@.len() implies seen@[self.knot_index(#[trigger] stack@[i])] && self.knot_ok(stack@[i]) by {
                    assert(stack@[i] == pre[i]);
                }
                assert forall|m: Pos| m != k && !stack@.contains(m) implies !pre.contains(m) by {
                    if pre.contains(m) {
                        let i = choose|i: int| 0 <= i < pre.len() && pre[i] == m;
                        assert(stack@[i] == m);
                    }
                }
            }
            let ghost bound = 5 * count_false(seen@) + stack@.len();
            let dirs = [Direction::North, Direction::South, Direction::West, Direction::East];
            let mut j: usize = 0;
            while j < 4
                invariant
                    self.wf(),
                    marks@.len() == self.tiles().len(),
                    seen@.len() == self.knot_count(),
                    dirs@ == seq![Direction::North, Direction::South, Direction::West, Direction::East],
                    j <= 4,
                    self.knot_ok(k),
                    seen@[self.knot_index(k)],
                    seen@[self.knot_index(outer_corner())],
                    5 * count_false(seen@) + stack@.len() <= bound,
                    forall|i: int| 0 <= i < stack@.len() ==> self.knot_ok(#[trigger] stack@[i]),
                    forall|i: int| 0 <= i < stack@.len() ==> seen@[self.knot_index(#[trigger] stack@[i])],
                    forall|m: Pos, dir: Direction|
                        self.knot_ok(m) && seen@[self.knot_index(m)] && m != k && !stack@.contains(m)
                            && #[trigger] self.open_move(marks@, m, dir) ==> seen@[self.knot_index(
                            m.next(dir),
                        )],
                    forall|i: int|
                        0 <= i < j && #[trigger] self.open_move(marks@, k, dirs@[i]) ==> seen@[self.knot_index(
                            k.next(dirs@[i]),
                        )],
                    forall|t: Set<Pos>|
                        self.closed_region(marks@, t) && t.contains(outer_corner()) ==> #[trigger] self.seen_set(
                            seen@,
                        ).subset_of(t),
                decreases 4 - j,
            {
                let dir = dirs[j];
                let n = k.advance(dir);
                if n.x >= -1 && (n.x as i64) < self.width as i64 && n.y >= -1 && (n.y as i64) < (
                self.grid.len() / self.width) as i64 {
                    let ni = self.knot_idx(n);
                    if !seen[ni] && !self.is_blocked(marks, k, dir) {
                        let ghost old_seen = seen@;
                        let ghost old_stack = stack@;
                        proof {
                            lemma_count_false_set(seen@, ni as int);
                        }
                        seen[ni] = true;
                        stack.push(n);
                        proof {
                            assert(seen@ == old_seen.update(ni as int, true));
                            self.lemma_knot_index(outer_corner(), n);
                            self.lemma_knot_index(k, n);
                            assert(seen@[self.knot_index(outer_corner())]);
                            assert(seen@[self.knot_index(k)]);
                            assert forall|i: int| 0 <= i < stack@.len() implies seen@[self.knot_index(#[trigger] stack@[i])] by {
                                if i < old_stack.len() {
                                    assert(stack@[i] == old_stack[i]);
                                    self.lemma_knot_index(old_stack[i], n);
                                }
                            }
                            assert forall|m: Pos| self.knot_ok(m) && m != n implies seen@[self.knot_index(m)] == old_seen[self.knot_index(m)] by {
                                self.lemma_knot_index(m, n);
                            }
                            assert forall|m: Pos| self.knot_ok(m) && !stack@.contains(m) && m != n implies !old_stack.contains(m) by {
                                if old_stack.contains(m) {
                                    let i = choose|i: int| 0 <= i < old_stack.len() && old_stack[i] == m;
                                    assert(stack@[i] == m);
                                }
                            }
                            assert(stack@[stack@.len() - 1] == n);
                            assert forall|t: Set<Pos>|
                                self.closed_region(marks@, t) && t.contains(outer_corner()) implies #[trigger] self.seen_set(seen@).subset_of(t) by {
                                assert(self.seen_set(old_seen).subset_of(t));
                                assert(self.seen_set(old_seen).contains(k));
                                assert(self.open_move(marks@, k, dir));
                                assert forall|m: Pos| self.seen_set(seen@).contains(m) implies t.contains(m) by {
                                    if m != n {
                                        assert(self.seen_set(old_seen).contains(m));
                                    }
                                }
                            }
                        }
                    }
                }
                j = j + 1;
            }
            proof {
                assert forall|m: Pos, dir: Direction|
                    self.knot_ok(m) && seen@[self.knot_index(m)] && !stack@.contains(m)
                        && #[trigger] self.open_move(marks@, m, dir) implies seen@[self.knot_index(
                        m.next(dir),
                    )] by {
                    if m == k {
                        let i: int = match dir {
                            Direction::North => 0,
                            Direction::South => 1,
                            Direction::West => 2,
                            Direction::East => 3,
                        };
                        assert(dirs@[i] == dir);
                    }
                }
            }
        }
        proof {
            let r = self.seen_set(seen@);
            assert(r.contains(outer_corner()));
            assert forall|k: Pos, dir: Direction|
                r.contains(k) && self.knot_ok(k) && #[trigger] self.open_move(marks@, k, dir) implies r.contains(k.next(dir)) by {
                assert(!stack@.contains(k));
            }
        }
        seen
    }

    /// One of the four corners of the cell with index `i` is in `r`.
    pub open spec fn touches(&self, r: Set<Pos>, i: int) -> bool {
        let x = i % self.width();
        let y = i / self.width();
        ||| r.contains(Pos { x: (x - 1) as i32, y: (y - 1) as i32 })
        ||| r.contains(Pos { x: x as i32, y: (y - 1) as i32 })
        ||| r.contains(Pos { x: (x - 1) as i32, y: y as i32 })
        ||| r.contains(Pos { x: x as i32, y: y as i32 })
    }

    pub open spec fn loop_pred(&self, marks: Seq<bool>) -> spec_fn(int) -> bool {
        |i: int| marks[i]
    }

    /// Off the loop, and reached from outside.
    pub open spec fn exterior_pred(&self, marks: Seq<bool>, r: Set<Pos>) -> spec_fn(int) -> bool {
        |i: int| !marks[i] && self.touches(r, i)
    }

    /// Off the loop, and not reached from outside.
    pub open spec fn enclosed_pred(&self, marks: Seq<bool>, r: Set<Pos>) -> spec_fn(int) -> bool {
        |i: int| !marks[i] && !self.touches(r, i)
    }

    /// The partition of the cells when the loop is `marks` and `r` is what
    /// the flood fill from outside reaches.
    pub open spec fn partition_of(&self, a: AreaPartition, marks: Seq<bool>, r: Set<Pos>) -> bool {
        let n = self.tiles().len();
        &&& a.on_loop == count_where(n, self.loop_pred(marks))
        &&& a.exterior == count_where(n, self.exterior_pred(marks, r))
        &&& a.enclosed == count_where(n, self.enclosed_pred(marks, r))
    }

    /// Splits the cells into enclosed, loop and exterior cells.
    pub fn partition(&self) -> (r: Result<AreaPartition, MazeError>)
        requires
            self.wf(),
        ensures
            r is Err <==> self.loop_walk() is None,
            r matches Err(e) ==> e == MazeError::NoLoop,
            r matches Ok(a) ==> exists|reach: Set<Pos>|
                #[trigger] self.is_outside(self.loop_marks(), reach) && self.partition_of(
                    a,
                    self.loop_marks(),
                    reach,
                ),
            r matches Ok(a) ==> a.enclosed + a.on_loop + a.exterior == self.tiles().len(),
    {
        let (d, n) = match self.find_loop() {
            Some(found) => found,
            None => return Err(MazeError::NoLoop),
        };
        let marks = self.mark_loop(d, n);
        let seen = self.flood(&marks);
        let ghost reach = self.seen_set(seen@);
        let ghost lm = marks@;
        let cells = self.grid.len();
        let w = self.width;
        let mut a = AreaPartition { enclosed: 0, on_loop: 0, exterior: 0 };
        let mut i: usize = 0;
        while i < cells
            invariant
                self.wf(),
                cells == self.tiles().len(),
                w == self.width(),
                lm == marks@,
                marks@.len() == cells,
                seen@.len() == self.knot_count(),
                reach == self.seen_set(seen@),
                i <= cells,
                a.on_loop == count_where(i as nat, self.loop_pred(lm)),
                a.exterior == count_where(i as nat, self.exterior_pred(lm, reach)),
                a.enclosed == count_where(i as nat, self.enclosed_pred(lm, reach)),
                a.enclosed + a.on_loop + a.exterior == i,
            decreases cells - i,
        {
            if marks[i] {
                a.on_loop = a.on_loop + 1;
            } else {
                proof {
                    lemma_div_below(i as int, w as int, self.height());
                }
                let x = (i % w) as i32;
                let y = (i / w) as i32;
                let c1 = Pos { x: x - 1, y: y - 1 };
                let c2 = Pos { x, y: y - 1 };
                let c3 = Pos { x: x - 1, y };
                let c4 = Pos { x, y };
                if seen[self.knot_idx(c1)] || seen[self.knot_idx(c2)] || seen[self.knot_idx(c3)]
                    || seen[self.knot_idx(c4)] {
                    a.exterior = a.exterior + 1;
                } else {
                    a.enclosed = a.enclosed + 1;
                }
            }
            i = i + 1;
        }
        Ok(a)
    }

    pub proof fn lemma_no_loop_walk(&self)
        requires
            forall|d: Direction, n: nat| !#[trigger] self.closes_at(d, n),
        ensures
            self.loop_walk() is None,
    {
        assert(!exists|n: nat| self.closes_at(Direction::North, n));
        assert(!exists|n: nat| self.closes_at(Direction::South, n));
        assert(!exists|n: nat| self.closes_at(Direction::West, n));
        assert(!exists|n: nat| self.closes_at(Direction::East, n));
    }

    /// A step is possible one way exactly when the step back is possible.
    pub proof fn lemma_walk_symmetric(&self, a: Pos, dir: Direction)
        requires
            self.wf(),
            a.can_advance(dir),
        ensures
            self.step(a, dir) is Some <==> self.step(a.next(dir), dir.reverse()) is Some,
    {
        let b = a.next(dir);
        assert(b.next(dir.reverse()) == a);
        assert(dir.reverse().reverse() == dir);
    }
}

/// The number of steps from the origin to the farthest point of its loop.
pub fn solve_part1(input: &str) -> (r: Result<usize, MazeError>)
    ensures
        grid_error(input.spec_bytes()) is Some ==> r == Err::<usize, MazeError>(
            grid_error(input.spec_bytes())->Some_0,
        ),
        r matches Err(e) ==> grid_error(input.spec_bytes()) == Some(e) || (e == MazeError::NoLoop
            && exists|m: PipeMap| #[trigger] m.reads_from(input.spec_bytes()) && m.loop_walk() is None),
        r matches Ok(f) ==> exists|m: PipeMap|
            #[trigger] m.reads_from(input.spec_bytes()) && m.is_farthest(f as int),
{
    let m = PipeMap::parse(input)?;
    let r = m.farthest_distance();
    proof {
        if r is Err {
            m.lemma_no_loop_walk();
        }
    }
    r
}

/// The number of cells that the loop through the origin encloses.
pub fn solve_part2(input: &str) -> (r: Result<usize, MazeError>)
    ensures
        grid_error(input.spec_bytes()) is Some ==> r == Err::<usize, MazeError>(
            grid_error(input.spec_bytes())->Some_0,
        ),
        r matches Err(e) ==> grid_error(input.spec_bytes()) == Some(e) || (e == MazeError::NoLoop
            && exists|m: PipeMap| #[trigger] m.reads_from(input.spec_bytes()) && m.loop_walk() is None),
        r matches Ok(c) ==> exists|m: PipeMap, reach: Set<Pos>, a: AreaPartition|
            #[trigger] m.reads_from(input.spec_bytes()) && #[trigger] m.is_outside(
                m.loop_marks(),
                reach,
            ) && #[trigger] m.partition_of(a, m.loop_marks(), reach) && c == a.enclosed,
{
    let m = PipeMap::parse(input)?;
    match m.partition() {
        Ok(a) => Ok(a.enclosed),
        Err(e) => Err(e),
    }
}

} // verus!
