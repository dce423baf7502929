//! The board: a 10x10 grid of cells whose outer ring is wall, with the
//! legality scan (how many opponent stones a placement would flip) and the
//! placement itself, which flips every captured run.

use vstd::prelude::*;

verus! {

/// One cell of the grid: empty, holding a stone, or part of the wall ring.
#[derive(Debug, Clone, Copy, PartialEq, Eq, Structural)]
pub enum Cell {
    Empty,
    Stone(Stone),
    Wall,
}

/// A player's color.
#[derive(Debug, Clone, Copy, PartialEq, Eq, Structural)]
pub enum Stone {
    Black,
    White,
}

/// The opposing color.
pub open spec fn flipped(s: Stone) -> Stone {
    match s {
        Stone::Black => Stone::White,
        Stone::White => Stone::Black,
    }
}

impl Stone {
    /// The opposing color.
    pub fn reversed(&self) -> (r: Stone)
        ensures
            r == flipped(*self),
    {
        match self {
            Stone::Black => Stone::White,
            Stone::White => Stone::Black,
        }
    }
}

/// One of the eight rays a flip scan can travel along.
#[derive(Debug, Clone, Copy, PartialEq, Eq, Structural)]
pub enum Direction {
    Up,
    Down,
    Left,
    Right,
    LeftUp,
    RightUp,
    LeftDown,
    RightDown,
}

impl Direction {
    /// Row offset of one step along this direction.
    pub open spec fn di(self) -> int {
        match self {
            Direction::Up => -1,
            Direction::Down => 1,
            Direction::Left => 0,
            Direction::Right => 0,
            Direction::LeftUp => -1,
            Direction::RightUp => -1,
            Direction::LeftDown => 1,
            Direction::RightDown => 1,
        }
    }

    /// Column offset of one step along this direction.
    pub open spec fn dj(self) -> int {
        match self {
            Direction::Up => 0,
            Direction::Down => 0,
            Direction::Left => -1,
            Direction::Right => 1,
            Direction::LeftUp => -1,
            Direction::RightUp => 1,
            Direction::LeftDown => -1,
            Direction::RightDown => 1,
        }
    }

    /// All eight directions, in the order the scans visit them.
    pub fn all() -> (dirs: Vec<Direction>)
        ensures
            dirs@ == all_dirs(),
    {
        let dirs = vec![
            Direction::Up,
            Direction::Down,
            Direction::Left,
            Direction::Right,
            Direction::LeftUp,
            Direction::RightUp,
            Direction::LeftDown,
            Direction::RightDown,
        ];
        proof {
            assert(dirs@ =~= all_dirs());
        }
        dirs
    }

    /// The cell one step away from `(i, j)` along this direction.
    pub fn moved(&self, i: usize, j: usize) -> (r: (usize, usize))
        requires
            1 <= i <= 8,
            1 <= j <= 8,
        ensures
            r.0 == i + self.di(),
            r.1 == j + self.dj(),
    {
        match self {
            Direction::Left => (i, j - 1),
            Direction::Right => (i, j + 1),
            Direction::Up => (i - 1, j),
            Direction::Down => (i + 1, j),
            Direction::LeftUp => (i - 1, j - 1),
            Direction::RightUp => (i - 1, j + 1),
            Direction::LeftDown => (i + 1, j - 1),
            Direction::RightDown => (i + 1, j + 1),
        }
    }
}

/// The eight directions in scan order.
pub open spec fn all_dirs() -> Seq<Direction> {
    seq![
        Direction::Up,
        Direction::Down,
        Direction::Left,
        Direction::Right,
        Direction::LeftUp,
        Direction::RightUp,
        Direction::LeftDown,
        Direction::RightDown,
    ]
}

/// `(di, dj)` is a unit offset: both components in `{-1, 0, 1}`, not both zero.
pub open spec fn is_dir(di: int, dj: int) -> bool {
    -1 <= di <= 1 && -1 <= dj <= 1 && (di != 0 || dj != 0)
}

/// `(i, j)` indexes the 10x10 grid.
pub open spec fn in_grid(i: int, j: int) -> bool {
    0 <= i <= 9 && 0 <= j <= 9
}

/// `(i, j)` lies on the wall ring of the grid.
pub open spec fn border(i: int, j: int) -> bool {
    i == 0 || i == 9 || j == 0 || j == 9
}

/// `(i, j)` lies in the playable 8x8 area.
pub open spec fn playable(i: int, j: int) -> bool {
    1 <= i <= 8 && 1 <= j <= 8
}

/// The grid is 10 rows of 10 cells each.
pub open spec fn dims_ok(b: Seq<Seq<Cell>>) -> bool {
    &&& b.len() == 10
    &&& forall|r: int| 0 <= r <= 9 ==> (#[trigger] b[r]).len() == 10
}

/// A cell is wall exactly on the border ring; every playable cell is empty
/// or holds a stone.
pub open spec fn walls_ok(b: Seq<Seq<Cell>>) -> bool {
    forall|r: int, c: int| in_grid(r, c) ==> ((#[trigger] b[r][c] == Cell::Wall) <==> border(r, c))
}

/// A well-formed board grid.
pub open spec fn wf_grid(b: Seq<Seq<Cell>>) -> bool {
    dims_ok(b) && walls_ok(b)
}

/// The grid with cell `(i, j)` replaced by `c`.
pub open spec fn grid_set(b: Seq<Seq<Cell>>, i: int, j: int, c: Cell) -> Seq<Seq<Cell>> {
    b.update(i, b[i].update(j, c))
}

/// The cell of the standard initial layout at `(r, c)`: the wall ring, the
/// four center stones, and empty cells elsewhere.
pub open spec fn init_cell(r: int, c: int) -> Cell {
    if border(r, c) {
        Cell::Wall
    } else if (r == 4 && c == 4) || (r == 5 && c == 5) {
        Cell::Stone(Stone::White)
    } else if (r == 4 && c == 5) || (r == 5 && c == 4) {
        Cell::Stone(Stone::Black)
    } else {
        Cell::Empty
    }
}

/// The standard initial board grid.
pub open spec fn init_board() -> Seq<Seq<Cell>> {
    Seq::new(10, |r: int| Seq::new(10, |c: int| init_cell(r, c)))
}

/// How many of the first `n` cells of `row` hold a stone of color `s`.
pub open spec fn row_count(row: Seq<Cell>, s: Stone, n: int) -> nat
    decreases n,
{
    if n <= 0 {
        0
    } else {
        row_count(row, s, n - 1) + if row[n - 1] == Cell::Stone(s) {
            1nat
        } else {
            0nat
        }
    }
}

/// How many cells of the first `rows` rows of `b` hold a stone of color `s`.
pub open spec fn grid_count(b: Seq<Seq<Cell>>, s: Stone, rows: int) -> nat
    decreases rows,
{
    if rows <= 0 {
        0
    } else {
        grid_count(b, s, rows - 1) + row_count(b[rows - 1], s, 10)
    }
}

/// How many cells of the whole grid hold a stone of color `s`.
pub open spec fn count_stones(b: Seq<Seq<Cell>>, s: Stone) -> nat {
    grid_count(b, s, 10)
}

proof fn lemma_row_count_le(row: Seq<Cell>, s: Stone, n: int)
    ensures
        row_count(row, s, n) <= if n <= 0 {
            0int
        } else {
            n
        },
    decreases n,
{
    if n > 0 {
        lemma_row_count_le(row, s, n - 1);
    }
}

proof fn lemma_grid_count_le(b: Seq<Seq<Cell>>, s: Stone, rows: int)
    ensures
        grid_count(b, s, rows) <= if rows <= 0 {
            0int
        } else {
            10 * rows
        },
    decreases rows,
{
    if rows > 0 {
        lemma_grid_count_le(b, s, rows - 1);
        lemma_row_count_le(b[rows - 1], s, 10);
    }
}

proof fn lemma_row_count_update(row: Seq<Cell>, s: Stone, n: int, j: int, c: Cell)
    requires
        0 <= j < n <= row.len(),
    ensures
        row_count(row.update(j, c), s, n) + (if row[j] == Cell::Stone(s) {
            1int
        } else {
            0int
        }) == row_count(row, s, n) + (if c == Cell::Stone(s) {
            1int
        } else {
            0int
        }),
    decreases n,
{
    let upd = row.update(j, c);
    if j == n - 1 {
        assert(forall|k: int| 0 <= k < n - 1 ==> upd[k] == row[k]);
        lemma_row_count_frame(row, upd, s, n - 1);
    } else {
        lemma_row_count_update(row, s, n - 1, j, c);
        assert(upd[n - 1] == row[n - 1]);
    }
}

proof fn lemma_row_count_frame(r1: Seq<Cell>, r2: Seq<Cell>, s: Stone, n: int)
    requires
        forall|k: int| 0 <= k < n ==> r1[k] == r2[k],
    ensures
        row_count(r1, s, n) == row_count(r2, s, n),
    decreases n,
{
    if n > 0 {
        lemma_row_count_frame(r1, r2, s, n - 1);
    }
}

proof fn lemma_grid_count_frame(b1: Seq<Seq<Cell>>, b2: Seq<Seq<Cell>>, s: Stone, rows: int)
    requires
        forall|r: int, c: int| 0 <= r < rows && 0 <= c <= 9 ==> #[trigger] b1[r][c] == b2[r][c],
    ensures
        grid_count(b1, s, rows) == grid_count(b2, s, rows),
    decreases rows,
{
    if rows > 0 {
        lemma_grid_count_frame(b1, b2, s, rows - 1);
        lemma_row_count_frame(b1[rows - 1], b2[rows - 1], s, 10);
    }
}

/// Changing one cell changes the count by the difference the two cell values
/// contribute.
proof fn lemma_grid_count_set(b: Seq<Seq<Cell>>, s: Stone, i: int, j: int, c: Cell, rows: int)
    requires
        dims_ok(b),
        in_grid(i, j),
        i < rows <= 10,
    ensures
        grid_count(grid_set(b, i, j, c), s, rows) + (if b[i][j] == Cell::Stone(s) {
            1int
        } else {
            0int
        }) == grid_count(b, s, rows) + (if c == Cell::Stone(s) {
            1int
        } else {
            0int
        }),
    decreases rows,
{
    let b2 = grid_set(b, i, j, c);
    if rows - 1 == i {
        assert(forall|r: int, cc: int| 0 <= r < rows - 1 && 0 <= cc <= 9 ==> #[trigger] b2[r][cc] == b[r][cc]);
        lemma_grid_count_frame(b2, b, s, rows - 1);
        assert(b2[i] == b[i].update(j, c));
        assert(b[i].len() == 10);
        lemma_row_count_update(b[i], s, 10, j, c);
    } else {
        lemma_grid_count_set(b, s, i, j, c, rows - 1);
        assert(b2[rows - 1] == b[rows - 1]);
    }
}

/// A termination measure for walks along `(di, dj)`: how many steps fit in
/// the grid along one axis the walk moves on.
pub open spec fn steps_left(i: int, j: int, di: int, dj: int) -> int {
    if di == 1 {
        9 - i
    } else if di == -1 {
        i
    } else if dj == 1 {
        9 - j
    } else {
        j
    }
}

/// The length of the run of opponent stones met when walking from `(i, j)`
/// along `(di, dj)`, starting one step out.
pub open spec fn run_len(b: Seq<Seq<Cell>>, s: Stone, i: int, j: int, di: int, dj: int) -> nat
    decreases steps_left(i, j, di, dj),
{
    let ni = i + di;
    let nj = j + dj;
    if is_dir(di, dj) && in_grid(ni, nj) && b[ni][nj] == Cell::Stone(flipped(s)) {
        1 + run_len(b, s, ni, nj, di, dj)
    } else {
        0
    }
}

/// Whether the run of opponent stones from `(i, j)` along `(di, dj)` ends on
/// a stone of the placer's own color, which makes the run capturable.
pub open spec fn dir_closed(b: Seq<Seq<Cell>>, s: Stone, i: int, j: int, di: int, dj: int) -> bool
    decreases steps_left(i, j, di, dj),
{
    let ni = i + di;
    let nj = j + dj;
    if !(is_dir(di, dj) && in_grid(ni, nj)) {
        false
    } else if b[ni][nj] == Cell::Stone(flipped(s)) {
        dir_closed(b, s, ni, nj, di, dj)
    } else {
        b[ni][nj] == Cell::Stone(s)
    }
}

/// How many stones a placement at `(i, j)` would flip along direction `d`:
/// the run length if the run is capturable, otherwise zero.
pub open spec fn dir_count(b: Seq<Seq<Cell>>, s: Stone, i: int, j: int, d: Direction) -> nat {
    if dir_closed(b, s, i, j, d.di(), d.dj()) {
        run_len(b, s, i, j, d.di(), d.dj())
    } else {
        0
    }
}

/// The flip counts of `dirs`, summed.
pub open spec fn dirs_count(b: Seq<Seq<Cell>>, s: Stone, i: int, j: int, dirs: Seq<Direction>) -> nat
    decreases dirs.len(),
{
    if dirs.len() == 0 {
        0
    } else {
        dir_count(b, s, i, j, dirs[0]) + dirs_count(b, s, i, j, dirs.drop_first())
    }
}

/// How many opponent stones a stone of color `s` placed at `(i, j)` would
/// flip, over all eight directions. Zero when the cell is not empty: placing
/// over an existing stone or on the wall ring is never legal.
pub open spec fn spec_reversible_n(b: Seq<Seq<Cell>>, s: Stone, i: int, j: int) -> nat {
    if b[i][j] == Cell::Empty {
        dirs_count(b, s, i, j, all_dirs())
    } else {
        0
    }
}

/// `(r, c)` is one of the cells strictly beyond `(i, j)` along `(di, dj)`,
/// within the grid.
pub open spec fn on_ray(i: int, j: int, di: int, dj: int, r: int, c: int) -> bool
    decreases steps_left(i, j, di, dj),
{
    let ni = i + di;
    let nj = j + dj;
    if is_dir(di, dj) && in_grid(ni, nj) {
        (r == ni && c == nj) || on_ray(ni, nj, di, dj, r, c)
    } else {
        false
    }
}

/// The grid after flipping every opponent stone on the run from `(i, j)`
/// along `(di, dj)` to the placer's color, whether or not the run is
/// capturable. Callers guard with `dir_closed`.
pub open spec fn flip_ray(b: Seq<Seq<Cell>>, s: Stone, i: int, j: int, di: int, dj: int) -> Seq<
    Seq<Cell>,
>
    decreases steps_left(i, j, di, dj),
{
    let ni = i + di;
    let nj = j + dj;
    if is_dir(di, dj) && in_grid(ni, nj) && b[ni][nj] == Cell::Stone(flipped(s)) {
        flip_ray(grid_set(b, ni, nj, Cell::Stone(s)), s, ni, nj, di, dj)
    } else {
        b
    }
}

/// The grid after applying direction `d` of a placement at `(i, j)`: the run
/// along `d` is flipped when capturable, otherwise nothing changes.
pub open spec fn apply_dir(b: Seq<Seq<Cell>>, s: Stone, i: int, j: int, d: Direction) -> Seq<
    Seq<Cell>,
> {
    if dir_closed(b, s, i, j, d.di(), d.dj()) {
        flip_ray(b, s, i, j, d.di(), d.dj())
    } else {
        b
    }
}

/// The grid after applying the directions of `dirs` in order, each scanned
/// against the grid the earlier ones produced.
pub open spec fn apply_dirs(
    b: Seq<Seq<Cell>>,
    s: Stone,
    i: int,
    j: int,
    dirs: Seq<Direction>,
) -> Seq<Seq<Cell>>
    decreases dirs.len(),
{
    if dirs.len() == 0 {
        b
    } else {
        apply_dirs(apply_dir(b, s, i, j, dirs[0]), s, i, j, dirs.drop_first())
    }
}

/// The grid after a placement of `s` at `(i, j)`: the cell taken by the
/// placer's stone, then every capturable run flipped.
pub open spec fn place_spec(b: Seq<Seq<Cell>>, s: Stone, i: int, j: int) -> Seq<Seq<Cell>> {
    apply_dirs(grid_set(b, i, j, Cell::Stone(s)), s, i, j, all_dirs())
}

proof fn lemma_grid_set_dims(b: Seq<Seq<Cell>>, i: int, j: int, c: Cell)
    requires
        dims_ok(b),
        in_grid(i, j),
    ensures
        dims_ok(grid_set(b, i, j, c)),
{
    let b2 = grid_set(b, i, j, c);
    assert forall|r: int| 0 <= r <= 9 implies (#[trigger] b2[r]).len() == 10 by {
        if r == i {
            assert(b2[r] == b[i].update(j, c));
        } else {
            assert(b2[r] == b[r]);
        }
    }
}

proof fn lemma_grid_set_walls(b: Seq<Seq<Cell>>, i: int, j: int, c: Cell)
    requires
        dims_ok(b),
        walls_ok(b),
        in_grid(i, j),
        !border(i, j),
        c != Cell::Wall,
    ensures
        walls_ok(grid_set(b, i, j, c)),
{
    let b2 = grid_set(b, i, j, c);
    assert forall|r: int, cc: int| in_grid(r, cc) implies ((#[trigger] b2[r][cc] == Cell::Wall)
        <==> border(r, cc)) by {
        assert(b[i].len() == 10);
        if r == i && cc == j {
            assert(b2[r][cc] == c);
        } else if r == i {
            assert(b2[r] == b[i].update(j, c));
            assert(b2[r][cc] == b[r][cc]);
        } else {
            assert(b2[r][cc] == b[r][cc]);
        }
    }
}

/// A run is never longer than the walk's termination measure, so at most 9.
proof fn lemma_run_len_bound(b: Seq<Seq<Cell>>, s: Stone, i: int, j: int, di: int, dj: int)
    requires
        is_dir(di, dj),
        in_grid(i, j),
    ensures
        run_len(b, s, i, j, di, dj) <= steps_left(i, j, di, dj) <= 9,
    decreases steps_left(i, j, di, dj),
{
    let ni = i + di;
    let nj = j + dj;
    if in_grid(ni, nj) && b[ni][nj] == Cell::Stone(flipped(s)) {
        lemma_run_len_bound(b, s, ni, nj, di, dj);
    }
}

/// A ray runs strictly away from its origin along each axis its direction
/// moves on, and stays in the grid.
proof fn lemma_on_ray_props(i: int, j: int, di: int, dj: int, r: int, c: int)
    requires
        on_ray(i, j, di, dj, r, c),
    ensures
        is_dir(di, dj),
        in_grid(r, c),
        di == 1 ==> r > i,
        di == -1 ==> r < i,
        di == 0 ==> r == i,
        dj == 1 ==> c > j,
        dj == -1 ==> c < j,
        dj == 0 ==> c == j,
    decreases steps_left(i, j, di, dj),
{
    let ni = i + di;
    let nj = j + dj;
    if !(r == ni && c == nj) {
        lemma_on_ray_props(ni, nj, di, dj, r, c);
    }
}

/// Rays of two different directions from one origin share no cell.
proof fn lemma_ray_disjoint(i: int, j: int, d1i: int, d1j: int, d2i: int, d2j: int, r: int, c: int)
    requires
        on_ray(i, j, d1i, d1j, r, c),
        on_ray(i, j, d2i, d2j, r, c),
    ensures
        d1i == d2i,
        d1j == d2j,
{
    lemma_on_ray_props(i, j, d1i, d1j, r, c);
    lemma_on_ray_props(i, j, d2i, d2j, r, c);
}

/// A ray does not pass through its own origin.
proof fn lemma_not_on_own_ray(i: int, j: int, di: int, dj: int)
    ensures
        !on_ray(i, j, di, dj, i, j),
{
    if on_ray(i, j, di, dj, i, j) {
        lemma_on_ray_props(i, j, di, dj, i, j);
    }
}

/// The scan along a ray reads only the cells of that ray: two grids that
/// agree there give the same run length and the same capturability.
proof fn lemma_scan_agree(
    b: Seq<Seq<Cell>>,
    b2: Seq<Seq<Cell>>,
    s: Stone,
    i: int,
    j: int,
    di: int,
    dj: int,
)
    requires
        forall|r: int, c: int| #[trigger] on_ray(i, j, di, dj, r, c) ==> b2[r][c] == b[r][c],
    ensures
        run_len(b2, s, i, j, di, dj) == run_len(b, s, i, j, di, dj),
        dir_closed(b2, s, i, j, di, dj) == dir_closed(b, s, i, j, di, dj),
    decreases steps_left(i, j, di, dj),
{
    let ni = i + di;
    let nj = j + dj;
    if is_dir(di, dj) && in_grid(ni, nj) {
        assert(on_ray(i, j, di, dj, ni, nj));
        assert forall|r: int, c: int| #[trigger] on_ray(ni, nj, di, dj, r, c) implies b2[r][c]
            == b[r][c] by {
            assert(on_ray(i, j, di, dj, r, c));
        }
        if b[ni][nj] == Cell::Stone(flipped(s)) {
            lemma_scan_agree(b, b2, s, ni, nj, di, dj);
        }
    }
}

/// Flipping a run changes cells of that ray only, each from the opponent's
/// stone to the placer's.
proof fn lemma_flip_ray_cells(b: Seq<Seq<Cell>>, s: Stone, i: int, j: int, di: int, dj: int)
    requires
        dims_ok(b),
    ensures
        dims_ok(flip_ray(b, s, i, j, di, dj)),
        forall|r: int, c: int|
            in_grid(r, c) ==> (#[trigger] flip_ray(b, s, i, j, di, dj)[r][c] == b[r][c] || (on_ray(
                i,
                j,
                di,
                dj,
                r,
                c,
            ) && b[r][c] == Cell::Stone(flipped(s)) && flip_ray(b, s, i, j, di, dj)[r][c]
                == Cell::Stone(s))),
    decreases steps_left(i, j, di, dj),
{
    let ni = i + di;
    let nj = j + dj;
    if is_dir(di, dj) && in_grid(ni, nj) && b[ni][nj] == Cell::Stone(flipped(s)) {
        let b1 = grid_set(b, ni, nj, Cell::Stone(s));
        lemma_grid_set_dims(b, ni, nj, Cell::Stone(s));
        lemma_flip_ray_cells(b1, s, ni, nj, di, dj);
        let res = flip_ray(b, s, i, j, di, dj);
        assert(res == flip_ray(b1, s, ni, nj, di, dj));
        assert(on_ray(i, j, di, dj, ni, nj));
        assert forall|r: int, c: int| in_grid(r, c) implies (#[trigger] res[r][c] == b[r][c] || (
        on_ray(i, j, di, dj, r, c) && b[r][c] == Cell::Stone(flipped(s)) && res[r][c]
            == Cell::Stone(s))) by {
            assert(b[r].len() == 10);
            if r == ni && c == nj {
                assert(b1[r][c] == Cell::Stone(s));
            } else {
                assert(b1[r][c] == b[r][c]);
                if on_ray(ni, nj, di, dj, r, c) {
                    assert(on_ray(i, j, di, dj, r, c));
                }
            }
        }
    }
}

/// Flipping a run turns exactly `run_len` stones from the opponent's color
/// to the placer's.
proof fn lemma_flip_ray_counts(b: Seq<Seq<Cell>>, s: Stone, i: int, j: int, di: int, dj: int)
    requires
        dims_ok(b),
    ensures
        count_stones(flip_ray(b, s, i, j, di, dj), s) == count_stones(b, s) + run_len(
            b,
            s,
            i,
            j,
            di,
            dj,
        ),
        count_stones(flip_ray(b, s, i, j, di, dj), flipped(s)) + run_len(b, s, i, j, di, dj)
            == count_stones(b, flipped(s)),
    decreases steps_left(i, j, di, dj),
{
    let ni = i + di;
    let nj = j + dj;
    if is_dir(di, dj) && in_grid(ni, nj) && b[ni][nj] == Cell::Stone(flipped(s)) {
        let b1 = grid_set(b, ni, nj, Cell::Stone(s));
        lemma_grid_set_dims(b, ni, nj, Cell::Stone(s));
        lemma_grid_count_set(b, s, ni, nj, Cell::Stone(s), 10);
        lemma_grid_count_set(b, flipped(s), ni, nj, Cell::Stone(s), 10);
        lemma_flip_ray_counts(b1, s, ni, nj, di, dj);
        lemma_not_on_own_ray(ni, nj, di, dj);
        assert forall|r: int, c: int| #[trigger] on_ray(ni, nj, di, dj, r, c) implies b1[r][c]
            == b[r][c] by {
            lemma_on_ray_props(ni, nj, di, dj, r, c);
            assert(b[r].len() == 10);
        }
        lemma_scan_agree(b, b1, s, ni, nj, di, dj);
    }
}

/// Applying one direction changes cells of its ray only, opponent's stone to
/// placer's, and flips exactly its flip count.
proof fn lemma_apply_dir_props(b: Seq<Seq<Cell>>, s: Stone, i: int, j: int, d: Direction)
    requires
        dims_ok(b),
    ensures
        dims_ok(apply_dir(b, s, i, j, d)),
        forall|r: int, c: int|
            in_grid(r, c) ==> (#[trigger] apply_dir(b, s, i, j, d)[r][c] == b[r][c] || (on_ray(
                i,
                j,
                d.di(),
                d.dj(),
                r,
                c,
            ) && b[r][c] == Cell::Stone(flipped(s)) && apply_dir(b, s, i, j, d)[r][c]
                == Cell::Stone(s))),
        count_stones(apply_dir(b, s, i, j, d), s) == count_stones(b, s) + dir_count(b, s, i, j, d),
        count_stones(apply_dir(b, s, i, j, d), flipped(s)) + dir_count(b, s, i, j, d)
            == count_stones(b, flipped(s)),
{
    if dir_closed(b, s, i, j, d.di(), d.dj()) {
        lemma_flip_ray_cells(b, s, i, j, d.di(), d.dj());
        lemma_flip_ray_counts(b, s, i, j, d.di(), d.dj());
    }
}

/// `d`'s offsets differ from those of every direction of `dirs`.
pub open spec fn offsets_fresh(d: Direction, dirs: Seq<Direction>) -> bool
    decreases dirs.len(),
{
    dirs.len() == 0 || ((d.di() != dirs[0].di() || d.dj() != dirs[0].dj()) && offsets_fresh(
        d,
        dirs.drop_first(),
    ))
}

/// The directions of `dirs` have pairwise different offsets.
pub open spec fn distinct_dirs(dirs: Seq<Direction>) -> bool
    decreases dirs.len(),
{
    dirs.len() == 0 || (offsets_fresh(dirs[0], dirs.drop_first()) && distinct_dirs(
        dirs.drop_first(),
    ))
}

proof fn lemma_offsets_fresh_at(d: Direction, dirs: Seq<Direction>, k: int)
    requires
        offsets_fresh(d, dirs),
        0 <= k < dirs.len(),
    ensures
        d.di() != dirs[k].di() || d.dj() != dirs[k].dj(),
    decreases dirs.len(),
{
    if k > 0 {
        lemma_offsets_fresh_at(d, dirs.drop_first(), k - 1);
    }
}

/// Two grids that agree on every ray of `dirs` have the same flip counts for
/// all of `dirs`.
proof fn lemma_dirs_count_agree(
    b: Seq<Seq<Cell>>,
    b2: Seq<Seq<Cell>>,
    s: Stone,
    i: int,
    j: int,
    dirs: Seq<Direction>,
)
    requires
        forall|k: int, r: int, c: int|
            0 <= k < dirs.len() && #[trigger] on_ray(i, j, dirs[k].di(), dirs[k].dj(), r, c)
                ==> b2[r][c] == b[r][c],
    ensures
        dirs_count(b2, s, i, j, dirs) == dirs_count(b, s, i, j, dirs),
    decreases dirs.len(),
{
    if dirs.len() > 0 {
        let d = dirs[0];
        assert forall|r: int, c: int| #[trigger] on_ray(i, j, d.di(), d.dj(), r, c) implies b2[r][c]
            == b[r][c] by {
            assert(on_ray(i, j, dirs[0].di(), dirs[0].dj(), r, c));
        }
        lemma_scan_agree(b, b2, s, i, j, d.di(), d.dj());
        let rest = dirs.drop_first();
        assert forall|k: int, r: int, c: int|
            0 <= k < rest.len() && #[trigger] on_ray(
                i,
                j,
                rest[k].di(),
                rest[k].dj(),
                r,
                c,
            ) implies b2[r][c] == b[r][c] by {
            assert(rest[k] == dirs[k + 1]);
            assert(on_ray(i, j, dirs[k + 1].di(), dirs[k + 1].dj(), r, c));
        }
        lemma_dirs_count_agree(b, b2, s, i, j, rest);
    }
}

/// Applying a sequence of pairwise different directions changes stones from
/// the opponent's color to the placer's only, and flips exactly the summed
/// flip counts of the starting grid.
proof fn lemma_apply_dirs_props(b: Seq<Seq<Cell>>, s: Stone, i: int, j: int, dirs: Seq<Direction>)
    requires
        dims_ok(b),
        distinct_dirs(dirs),
    ensures
        dims_ok(apply_dirs(b, s, i, j, dirs)),
        forall|r: int, c: int|
            in_grid(r, c) ==> (#[trigger] apply_dirs(b, s, i, j, dirs)[r][c] == b[r][c] || (b[r][c]
                == Cell::Stone(flipped(s)) && apply_dirs(b, s, i, j, dirs)[r][c] == Cell::Stone(
                s,
            ))),
        count_stones(apply_dirs(b, s, i, j, dirs), s) == count_stones(b, s) + dirs_count(
            b,
            s,
            i,
            j,
            dirs,
        ),
        count_stones(apply_dirs(b, s, i, j, dirs), flipped(s)) + dirs_count(b, s, i, j, dirs)
            == count_stones(b, flipped(s)),
    decreases dirs.len(),
{
    if dirs.len() > 0 {
        let d = dirs[0];
        let b1 = apply_dir(b, s, i, j, d);
        let rest = dirs.drop_first();
        lemma_apply_dir_props(b, s, i, j, d);
        assert forall|k: int, r: int, c: int|
            0 <= k < rest.len() && #[trigger] on_ray(
                i,
                j,
                rest[k].di(),
                rest[k].dj(),
                r,
                c,
            ) implies b1[r][c] == b[r][c] by {
            lemma_on_ray_props(i, j, rest[k].di(), rest[k].dj(), r, c);
            if b1[r][c] != b[r][c] {
                assert(on_ray(i, j, d.di(), d.dj(), r, c));
                lemma_ray_disjoint(i, j, d.di(), d.dj(), rest[k].di(), rest[k].dj(), r, c);
                assert(rest[k] == dirs[k + 1]);
                lemma_offsets_fresh_at(d, rest, k);
            }
        }
        lemma_dirs_count_agree(b, b1, s, i, j, rest);
        lemma_apply_dirs_props(b1, s, i, j, rest);
    }
}

/// The eight scan directions have pairwise different offsets.
proof fn lemma_all_dirs_distinct()
    ensures
        distinct_dirs(all_dirs()),
{
    reveal_with_fuel(distinct_dirs, 10);
    reveal_with_fuel(offsets_fresh, 10);
}

/// A placement never touches the wall ring: a well-formed board stays
/// well-formed, and every border cell is still wall afterwards. Since this
/// holds of one placement on any well-formed board, it holds along any
/// sequence of placements from the initial board.
pub proof fn lemma_place_preserves_walls(b: Seq<Seq<Cell>>, s: Stone, i: int, j: int)
    requires
        wf_grid(b),
        playable(i, j),
    ensures
        wf_grid(place_spec(b, s, i, j)),
        forall|r: int, c: int|
            in_grid(r, c) && border(r, c) ==> #[trigger] place_spec(b, s, i, j)[r][c] == Cell::Wall,
{
    let b1 = grid_set(b, i, j, Cell::Stone(s));
    lemma_grid_set_dims(b, i, j, Cell::Stone(s));
    lemma_grid_set_walls(b, i, j, Cell::Stone(s));
    lemma_all_dirs_distinct();
    lemma_apply_dirs_props(b1, s, i, j, all_dirs());
    let res = place_spec(b, s, i, j);
    assert forall|r: int, c: int| in_grid(r, c) implies ((#[trigger] res[r][c] == Cell::Wall)
        <==> border(r, c)) by {
        assert(res[r][c] == b1[r][c] || (b1[r][c] == Cell::Stone(flipped(s)) && res[r][c]
            == Cell::Stone(s)));
    }
}

/// Placing on an occupied cell is never legal: its reversible count is zero.
pub proof fn lemma_occupied_zero(b: Seq<Seq<Cell>>, s: Stone, i: int, j: int)
    requires
        b[i][j] matches Cell::Stone(_),
    ensures
        spec_reversible_n(b, s, i, j) == 0,
{
}

/// A placement with reversible count `k > 0` flips exactly `k` stones from
/// the opponent's color to the placer's, and the target cell holds the
/// placer's stone: the placer gains `k + 1` stones, the opponent loses `k`.
pub proof fn lemma_place_flip_count(b: Seq<Seq<Cell>>, s: Stone, i: int, j: int)
    requires
        wf_grid(b),
        playable(i, j),
        spec_reversible_n(b, s, i, j) > 0,
    ensures
        place_spec(b, s, i, j)[i][j] == Cell::Stone(s),
        count_stones(place_spec(b, s, i, j), s) == count_stones(b, s) + spec_reversible_n(
            b,
            s,
            i,
            j,
        ) + 1,
        count_stones(place_spec(b, s, i, j), flipped(s)) + spec_reversible_n(b, s, i, j)
            == count_stones(b, flipped(s)),
{
    assert(b[i][j] == Cell::Empty);
    let b1 = grid_set(b, i, j, Cell::Stone(s));
    lemma_grid_set_dims(b, i, j, Cell::Stone(s));
    lemma_grid_count_set(b, s, i, j, Cell::Stone(s), 10);
    lemma_grid_count_set(b, flipped(s), i, j, Cell::Stone(s), 10);
    assert forall|k: int, r: int, c: int|
        0 <= k < all_dirs().len() && #[trigger] on_ray(
            i,
            j,
            all_dirs()[k].di(),
            all_dirs()[k].dj(),
            r,
            c,
        ) implies b1[r][c] == b[r][c] by {
        lemma_on_ray_props(i, j, all_dirs()[k].di(), all_dirs()[k].dj(), r, c);
        lemma_not_on_own_ray(i, j, all_dirs()[k].di(), all_dirs()[k].dj());
        assert(b[r].len() == 10);
    }
    lemma_dirs_count_agree(b, b1, s, i, j, all_dirs());
    lemma_all_dirs_distinct();
    lemma_apply_dirs_props(b1, s, i, j, all_dirs());
    let res = place_spec(b, s, i, j);
    assert(res[i][j] == b1[i][j] || (b1[i][j] == Cell::Stone(flipped(s)) && res[i][j]
        == Cell::Stone(s)));
    assert(b1[i][j] == Cell::Stone(s));
}

/// The board: a 10x10 grid of cells. The outer ring stays wall for the whole
/// lifetime of the board; placements only touch the playable 8x8 area.
pub struct Board {
    inner: Vec<Vec<Cell>>,
}

impl View for Board {
    type V = Seq<Seq<Cell>>;

    closed spec fn view(&self) -> Seq<Seq<Cell>> {
        Seq::new(self.inner@.len(), |r: int| self.inner@[r]@)
    }
}

impl Board {
    /// The board invariant: correct dimensions and the wall ring in place.
    pub open spec fn wf(&self) -> bool {
        wf_grid(self@)
    }

    /// The standard initial board: wall ring, four center stones.
    pub fn new() -> (b: Self)
        ensures
            b.wf(),
            b@ == init_board(),
    {
        let mut inner: Vec<Vec<Cell>> = Vec::new();
        let mut r: usize = 0;
        while r < 10
            invariant
                r <= 10,
                inner@.len() == r,
                forall|k: int| 0 <= k < r ==> (#[trigger] inner@[k])@ =~= init_board()[k],
            decreases 10 - r,
        {
            let mut row: Vec<Cell> = Vec::new();
            let mut c: usize = 0;
            while c < 10
                invariant
                    c <= 10,
                    r < 10,
                    row@.len() == c,
                    forall|l: int| 0 <= l < c ==> row@[l] == init_cell(r as int, l),
                decreases 10 - c,
            {
                let cell = if r == 0 || r == 9 || c == 0 || c == 9 {
                    Cell::Wall
                } else if (r == 4 && c == 4) || (r == 5 && c == 5) {
                    Cell::Stone(Stone::White)
                } else if (r == 4 && c == 5) || (r == 5 && c == 4) {
                    Cell::Stone(Stone::Black)
                } else {
                    Cell::Empty
                };
                row.push(cell);
                c = c + 1;
            }
            proof {
                assert(row@ =~= init_board()[r as int]);
            }
            inner.push(row);
            r = r + 1;
        }
        let b = Board { inner };
        proof {
            assert(b@ =~= init_board());
        }
        b
    }

    /// The cell at `(i, j)`.
    pub fn cell_at(&self, i: usize, j: usize) -> (c: Cell)
        requires
            self.wf(),
            i <= 9,
            j <= 9,
        ensures
            c == self@[i as int][j as int],
    {
        self.inner[i][j]
    }

    fn set_cell(&mut self, i: usize, j: usize, c: Cell)
        requires
            dims_ok(old(self)@),
            i <= 9,
            j <= 9,
        ensures
            final(self)@ == grid_set(old(self)@, i as int, j as int, c),
    {
        proof {
            assert(self@[i as int] == self.inner@[i as int]@);
            assert(self@[i as int].len() == 10);
        }
        let row: &mut Vec<Cell> = &mut self.inner[i];
        row[j] = c;
        proof {
            assert(self@ =~= grid_set(old(self)@, i as int, j as int, c));
        }
    }

    fn stone_n(&self, stone: Stone) -> (n: usize)
        requires
            self.wf(),
        ensures
            n == count_stones(self@, stone),
    {
        let mut n: usize = 0;
        let mut r: usize = 0;
        while r < 10
            invariant
                self.wf(),
                r <= 10,
                n == grid_count(self@, stone, r as int),
                n <= 10 * r,
            decreases 10 - r,
        {
            let mut c: usize = 0;
            while c < 10
                invariant
                    self.wf(),
                    r < 10,
                    c <= 10,
                    n == grid_count(self@, stone, r as int) + row_count(self@[r as int], stone, c as int),
                    n <= 10 * r + c,
                decreases 10 - c,
            {
                proof {
                    lemma_grid_count_le(self@, stone, r as int);
                    lemma_row_count_le(self@[r as int], stone, c as int);
                }
                let cell = self.inner[r][c];
                if cell == Cell::Stone(stone) {
                    n = n + 1;
                }
                c = c + 1;
            }
            r = r + 1;
        }
        n
    }

    /// How many black stones are on the board.
    pub fn black_n(&self) -> (n: usize)
        requires
            self.wf(),
        ensures
            n == count_stones(self@, Stone::Black),
    {
        self.stone_n(Stone::Black)
    }

    /// How many white stones are on the board.
    pub fn white_n(&self) -> (n: usize)
        requires
            self.wf(),
        ensures
            n == count_stones(self@, Stone::White),
    {
        self.stone_n(Stone::White)
    }

    /// How many opponent stones placing `stone` at `(i, j)` would flip along
    /// `dir`: walk outward while the cells hold the opponent's stones; the
    /// run counts only if it ends on one of the placer's own stones.
    pub fn reversible_n_sub(&self, stone: Stone, i: usize, j: usize, dir: Direction) -> (n: usize)
        requires
            self.wf(),
            1 <= i <= 8,
            1 <= j <= 8,
        ensures
            n == dir_count(self@, stone, i as int, j as int, dir),
            n <= 9,
    {
        let ghost di = dir.di();
        let ghost dj = dir.dj();
        proof {
            lemma_run_len_bound(self@, stone, i as int, j as int, di, dj);
        }
        let mut ci: usize = i;
        let mut cj: usize = j;
        let mut n: usize = 0;
        loop
            invariant
                self.wf(),
                di == dir.di(),
                dj == dir.dj(),
                is_dir(di, dj),
                1 <= ci <= 8,
                1 <= cj <= 8,
                1 <= i <= 8,
                1 <= j <= 8,
                run_len(self@, stone, i as int, j as int, di, dj) == n + run_len(
                    self@,
                    stone,
                    ci as int,
                    cj as int,
                    di,
                    dj,
                ),
                dir_closed(self@, stone, i as int, j as int, di, dj) == dir_closed(
                    self@,
                    stone,
                    ci as int,
                    cj as int,
                    di,
                    dj,
                ),
                run_len(self@, stone, i as int, j as int, di, dj) <= 9,
            decreases steps_left(ci as int, cj as int, di, dj),
        {
            let (ni, nj) = dir.moved(ci, cj);
            let cell = self.cell_at(ni, nj);
            match cell {
                Cell::Stone(st) => {
                    if st == stone.reversed() {
                        n = n + 1;
                        ci = ni;
                        cj = nj;
                    } else {
                        return n;
                    }
                },
                _ => {
                    return 0;
                },
            }
        }
    }

    /// How many opponent stones placing `stone` at `(i, j)` would flip in
    /// all, over the eight directions. Zero when the cell is not empty.
    pub fn reversible_n(&self, stone: Stone, i: usize, j: usize) -> (n: usize)
        requires
            self.wf(),
            1 <= i <= 8,
            1 <= j <= 8,
        ensures
            n == spec_reversible_n(self@, stone, i as int, j as int),
            n <= 72,
    {
        let cell = self.cell_at(i, j);
        if cell != Cell::Empty {
            return 0;
        }
        let dirs = Direction::all();
        let mut n: usize = 0;
        let mut k: usize = 0;
        proof {
            assert(all_dirs().skip(0) =~= all_dirs());
        }
        while k < 8
            invariant
                self.wf(),
                1 <= i <= 8,
                1 <= j <= 8,
                k <= 8,
                dirs@ == all_dirs(),
                n <= 9 * k,
                n + dirs_count(self@, stone, i as int, j as int, all_dirs().skip(k as int))
                    == dirs_count(self@, stone, i as int, j as int, all_dirs()),
            decreases 8 - k,
        {
            let d = dirs[k];
            let m = self.reversible_n_sub(stone, i, j, d);
            proof {
                assert(all_dirs().skip(k as int).drop_first() =~= all_dirs().skip(k as int + 1));
                assert(all_dirs().skip(k as int)[0] == all_dirs()[k as int]);
            }
            n = n + m;
            k = k + 1;
        }
        proof {
            assert(all_dirs().skip(8) =~= Seq::<Direction>::empty());
        }
        n
    }

    fn flip_run(&mut self, stone: Stone, i: usize, j: usize, dir: Direction)
        requires
            old(self).wf(),
            1 <= i <= 8,
            1 <= j <= 8,
        ensures
            final(self).wf(),
            final(self)@ == flip_ray(
                old(self)@,
                stone,
                i as int,
                j as int,
                dir.di(),
                dir.dj(),
            ),
    {
        let ghost di = dir.di();
        let ghost dj = dir.dj();
        let mut ci: usize = i;
        let mut cj: usize = j;
        loop
            invariant
                self.wf(),
                di == dir.di(),
                dj == dir.dj(),
                is_dir(di, dj),
                1 <= ci <= 8,
                1 <= cj <= 8,
                flip_ray(old(self)@, stone, i as int, j as int, di, dj) == flip_ray(
                    self@,
                    stone,
                    ci as int,
                    cj as int,
                    di,
                    dj,
                ),
            decreases steps_left(ci as int, cj as int, di, dj),
        {
            let (ni, nj) = dir.moved(ci, cj);
            let cell = self.cell_at(ni, nj);
            match cell {
                Cell::Stone(st) => {
                    if st == stone.reversed() {
                        proof {
                            lemma_grid_set_dims(self@, ni as int, nj as int, Cell::Stone(stone));
                            lemma_grid_set_walls(self@, ni as int, nj as int, Cell::Stone(stone));
                        }
                        self.set_cell(ni, nj, Cell::Stone(stone));
                        ci = ni;
                        cj = nj;
                    } else {
                        return;
                    }
                },
                _ => {
                    return;
                },
            }
        }
    }

    /// Place a stone of color `stone` at `(i, j)` if that is legal: the cell
    /// is taken and every capturable run of opponent stones is flipped.
    /// When the placement flips nothing it is illegal and the board is left
    /// unchanged.
    pub fn place(&mut self, stone: Stone, i: usize, j: usize) -> (placed: bool)
        requires
            old(self).wf(),
            1 <= i <= 8,
            1 <= j <= 8,
        ensures
            final(self).wf(),
            placed == (spec_reversible_n(old(self)@, stone, i as int, j as int) > 0),
            placed ==> final(self)@ == place_spec(old(self)@, stone, i as int, j as int),
            !placed ==> final(self)@ == old(self)@,
    {
        let n = self.reversible_n(stone, i, j);
        if n == 0 {
            return false;
        }
        let ghost b0 = self@;
        proof {
            lemma_grid_set_dims(b0, i as int, j as int, Cell::Stone(stone));
            lemma_grid_set_walls(b0, i as int, j as int, Cell::Stone(stone));
            assert(all_dirs().skip(0) =~= all_dirs());
        }
        self.set_cell(i, j, Cell::Stone(stone));
        let dirs = Direction::all();
        let mut k: usize = 0;
        while k < 8
            invariant
                self.wf(),
                1 <= i <= 8,
                1 <= j <= 8,
                k <= 8,
                dirs@ == all_dirs(),
                apply_dirs(self@, stone, i as int, j as int, all_dirs().skip(k as int))
                    == place_spec(b0, stone, i as int, j as int),
            decreases 8 - k,
        {
            let d = dirs[k];
            let ghost prev = self@;
            let m = self.reversible_n_sub(stone, i, j, d);
            if m > 0 {
                self.flip_run(stone, i, j, d);
            }
            proof {
                assert(all_dirs().skip(k as int).drop_first() =~= all_dirs().skip(k as int + 1));
                assert(all_dirs().skip(k as int)[0] == all_dirs()[k as int]);
                assert(self@ == apply_dir(prev, stone, i as int, j as int, d));
            }
            k = k + 1;
        }
        proof {
            assert(all_dirs().skip(8) =~= Seq::<Direction>::empty());
        }
        true
    }
}

} // verus!
