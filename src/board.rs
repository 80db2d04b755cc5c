//! Positions of the game and its rules, each stated as a spec function over
//! the grid and implemented against it.
use vstd::prelude::*;
use vstd::array::spec_array_update;
use vstd::string::StringExecFns;

verus! {

broadcast use vstd::array::group_array_axioms;

pub const ROWS: i32 = 6;

pub const COLS: i32 = 7;

/// The two sides; `Red` moves first.
#[derive(Clone, Copy, PartialEq, Eq, Structural, Hash, Debug)]
pub enum Player {
    Red,
    Yellow,
}

/// One cell of the grid.
#[derive(Clone, Copy, PartialEq, Eq, Structural, Hash, Debug)]
pub enum Tile {
    Empty,
    Piece(Player),
}

/// A position: six rows of seven cells, row 0 at the bottom.
#[derive(Clone, Copy, Eq, Hash, Debug)]
pub struct Board {
    pub tiles: [[Tile; 7]; 6],
}

/// Why a move was refused.
#[derive(Clone, Copy, PartialEq, Eq, Structural, Hash, Debug)]
pub enum MoveRejected {
    WrongTurn,
    ColumnOutOfRange,
    ColumnFull,
}

/// The value of a won position for Red; its negation is Yellow's.
pub const TERMINAL: i32 = 1000000000;

/// A tile seen from one side.
#[derive(Clone, Copy, PartialEq, Eq, Structural, Debug)]
pub enum AnalyzedTile {
    Empty,
    You,
    Enemy,
}

/// Whether `(row, col)` names a cell of the grid.
pub open spec fn in_grid(row: int, col: int) -> bool {
    0 <= row < 6 && 0 <= col < 7
}

/// The tile at `(row, col)`.
#[verifier::inline]
pub open spec fn tile(b: Board, row: int, col: int) -> Tile {
    b.tiles[row][col]
}

/// The board with `t` written at `(row, col)`.
pub open spec fn with_tile(b: Board, row: int, col: int, t: Tile) -> Board {
    Board { tiles: spec_array_update(b.tiles, row, spec_array_update(b.tiles[row], col, t)) }
}

/// Start row of line `k` of the 25 lines that can hold four in a row:
/// six rows, seven columns, six rising and six falling diagonals.
pub open spec fn start_row(k: int) -> int {
    if k < 6 { k } else if k < 13 { 0 } else if k < 16 { k - 10 } else if k < 19 { 5 }
    else if k < 22 { k - 16 } else { 5 }
}

/// Start column of line `k`.
pub open spec fn start_col(k: int) -> int {
    if k < 6 { 0 } else if k < 13 { k - 6 } else if k < 16 { 0 } else if k < 19 { k - 15 }
    else if k < 22 { 6 } else { 27 - k }
}

/// Row step of line `k`.
pub open spec fn step_row(k: int) -> int {
    if k < 6 { 0 } else if k < 13 { 1 } else { -1 }
}

/// Column step of line `k`.
pub open spec fn step_col(k: int) -> int {
    if k < 6 { 1 } else if k < 13 { 0 } else if k < 19 { 1 } else { -1 }
}

/// Number of cells on line `k`.
pub open spec fn line_len(k: int) -> int {
    if k < 6 { 7 } else if k < 13 { 6 } else if k == 13 || k == 18 || k == 19 || k == 24 { 4 }
    else if k == 14 || k == 17 || k == 20 || k == 23 { 5 } else { 6 }
}

/// Row of the `i`-th cell of line `k`.
pub open spec fn line_row(k: int, i: int) -> int {
    if k < 6 { k } else if k < 13 { i } else { start_row(k) - i }
}

/// Column of the `i`-th cell of line `k`.
pub open spec fn line_col(k: int, i: int) -> int {
    if k < 6 { i } else if k < 13 { k - 6 } else if k < 19 { start_col(k) + i } else { start_col(k) - i }
}

/// The `i`-th tile of line `k`.
pub open spec fn line_tile(b: Board, k: int, i: int) -> Tile {
    tile(b, line_row(k, i), line_col(k, i))
}

/// The four cells of line `k` ending at its `j`-th cell all hold a piece of `p`.
pub open spec fn four_at(b: Board, k: int, j: int, p: Player) -> bool {
    &&& 3 <= j < line_len(k)
    &&& line_tile(b, k, j) == Tile::Piece(p)
    &&& line_tile(b, k, j - 1) == Tile::Piece(p)
    &&& line_tile(b, k, j - 2) == Tile::Piece(p)
    &&& line_tile(b, k, j - 3) == Tile::Piece(p)
}

/// The first four in a row on line `k`, looking from its `j`-th cell on.
pub open spec fn line_winner_from(b: Board, k: int, j: int) -> Option<Player>
    decreases 7 - j,
{
    if j < 0 || j >= line_len(k) || j >= 7 {
        None
    } else if four_at(b, k, j, Player::Red) {
        Some(Player::Red)
    } else if four_at(b, k, j, Player::Yellow) {
        Some(Player::Yellow)
    } else {
        line_winner_from(b, k, j + 1)
    }
}

/// The first four in a row over lines `k` to 24, in that order.
pub open spec fn winner_from(b: Board, k: int) -> Option<Player>
    decreases 25 - k,
{
    if k < 0 || k >= 25 {
        None
    } else if line_winner_from(b, k, 0) is Some {
        line_winner_from(b, k, 0)
    } else {
        winner_from(b, k + 1)
    }
}

/// The winner of the board: the owner of the first four in a row found.
pub open spec fn winner_of(b: Board) -> Option<Player> {
    winner_from(b, 0)
}

/// Coordinate `x` moved `i` unit steps in direction `d` (-1, 0 or 1).
pub open spec fn ray_step(x: int, d: int, i: int) -> int {
    if d > 0 { x + i } else if d < 0 { x - i } else { x }
}

/// The `i`-th cell of the ray from `(row, col)` stepping by `(dr, dc)` is on the grid.
pub open spec fn on_ray(row: int, col: int, dr: int, dc: int, i: int) -> bool {
    in_grid(ray_step(row, dr, i), ray_step(col, dc, i))
}

/// The `i`-th tile of the ray from `(row, col)` stepping by `(dr, dc)`.
pub open spec fn ray_tile(b: Board, row: int, col: int, dr: int, dc: int, i: int) -> Tile {
    tile(b, ray_step(row, dr, i), ray_step(col, dc, i))
}

/// The first cell of the ray at or after `i` that is off the grid (at most 7).
pub open spec fn ray_len_from(row: int, col: int, dr: int, dc: int, i: int) -> int
    decreases 7 - i,
{
    if i >= 7 || !on_ray(row, col, dr, dc, i) {
        i
    } else {
        ray_len_from(row, col, dr, dc, i + 1)
    }
}

/// How many cells the ray keeps on the grid before it first leaves it.
pub open spec fn ray_len(row: int, col: int, dr: int, dc: int) -> int {
    ray_len_from(row, col, dr, dc, 0)
}

/// The four cells of the ray ending at its `j`-th cell are on the grid and
/// all hold a piece of `p`.
pub open spec fn ray_four_at(b: Board, row: int, col: int, dr: int, dc: int, j: int, p: Player) -> bool {
    &&& 3 <= j < ray_len(row, col, dr, dc)
    &&& ray_tile(b, row, col, dr, dc, j) == Tile::Piece(p)
    &&& ray_tile(b, row, col, dr, dc, j - 1) == Tile::Piece(p)
    &&& ray_tile(b, row, col, dr, dc, j - 2) == Tile::Piece(p)
    &&& ray_tile(b, row, col, dr, dc, j - 3) == Tile::Piece(p)
}

/// The owner of the first run of four on the ray, looking from its `j`-th cell on.
pub open spec fn ray_winner_from(b: Board, row: int, col: int, dr: int, dc: int, j: int) -> Option<Player>
    decreases 7 - j,
{
    if j < 0 || j >= ray_len(row, col, dr, dc) || j >= 7 {
        None
    } else if ray_four_at(b, row, col, dr, dc, j, Player::Red) {
        Some(Player::Red)
    } else if ray_four_at(b, row, col, dr, dc, j, Player::Yellow) {
        Some(Player::Yellow)
    } else {
        ray_winner_from(b, row, col, dr, dc, j + 1)
    }
}

/// Length of the run of `p`'s pieces on the ray that ends just before its `j`-th cell.
pub open spec fn ray_run(b: Board, row: int, col: int, dr: int, dc: int, j: int, p: Player) -> int
    decreases j,
{
    if j <= 0 {
        0
    } else if ray_tile(b, row, col, dr, dc, j - 1) == Tile::Piece(p) {
        ray_run(b, row, col, dr, dc, j - 1, p) + 1
    } else {
        0
    }
}

proof fn lemma_ray_len_from(row: int, col: int, dr: int, dc: int, i: int)
    requires
        -1 <= dr <= 1,
        -1 <= dc <= 1,
        !(dr == 0 && dc == 0),
        0 <= i <= 7,
        forall|l: int| 0 <= l < i ==> on_ray(row, col, dr, dc, l),
    ensures
        i <= ray_len_from(row, col, dr, dc, i) <= 7,
        forall|l: int| 0 <= l < ray_len_from(row, col, dr, dc, i) ==> on_ray(row, col, dr, dc, l),
        !on_ray(row, col, dr, dc, ray_len_from(row, col, dr, dc, i)),
    decreases 7 - i,
{
    if i < 7 && on_ray(row, col, dr, dc, i) {
        lemma_ray_len_from(row, col, dr, dc, i + 1);
    } else if i == 7 {
        assert(on_ray(row, col, dr, dc, 0));
        assert(on_ray(row, col, dr, dc, 6));
    }
}

/// A ray with a unit step leaves the 6 by 7 grid within 7 cells: its cells
/// before `ray_len` are on the grid and the cell at `ray_len` is not.
pub proof fn lemma_ray_len(row: int, col: int, dr: int, dc: int)
    requires
        -1 <= dr <= 1,
        -1 <= dc <= 1,
        !(dr == 0 && dc == 0),
    ensures
        0 <= ray_len(row, col, dr, dc) <= 7,
        forall|l: int| 0 <= l < ray_len(row, col, dr, dc) ==> on_ray(row, col, dr, dc, l),
        !on_ray(row, col, dr, dc, ray_len(row, col, dr, dc)),
{
    lemma_ray_len_from(row, col, dr, dc, 0);
}

proof fn lemma_ray_run_four(b: Board, row: int, col: int, dr: int, dc: int, j: int, p: Player)
    requires
        0 <= j,
    ensures
        ray_run(b, row, col, dr, dc, j + 1, p) <= j + 1,
        3 <= j < ray_len(row, col, dr, dc) ==> (ray_four_at(b, row, col, dr, dc, j, p)
            <==> ray_run(b, row, col, dr, dc, j + 1, p) >= 4),
    decreases j,
{
    reveal_with_fuel(ray_run, 5);
    if j > 0 {
        lemma_ray_run_four(b, row, col, dr, dc, j - 1, p);
    }
}

proof fn lemma_ray_len_is(row: int, col: int, dr: int, dc: int, i: int, len: int)
    requires
        0 <= i <= len <= 7,
        forall|l: int| i <= l < len ==> on_ray(row, col, dr, dc, l),
        len < 7 ==> !on_ray(row, col, dr, dc, len),
    ensures
        ray_len_from(row, col, dr, dc, i) == len,
    decreases len - i,
{
    if i < len {
        lemma_ray_len_is(row, col, dr, dc, i + 1, len);
    }
}

/// Line `k` is the ray from its start by its step: the same cells, and the
/// same first run of four from any cell on.
pub proof fn lemma_line_is_ray(b: Board, k: int, j: int)
    requires
        0 <= k < 25,
        0 <= j,
    ensures
        ray_len(start_row(k), start_col(k), step_row(k), step_col(k)) == line_len(k),
        line_winner_from(b, k, j) == ray_winner_from(b, start_row(k), start_col(k), step_row(k), step_col(k), j),
    decreases 7 - j,
{
    let (r, c, dr, dc) = (start_row(k), start_col(k), step_row(k), step_col(k));
    assert forall|l: int| 0 <= l < line_len(k) implies on_ray(r, c, dr, dc, l) by {
        lemma_line_cells(k, l);
    }
    lemma_line_cells(k, line_len(k));
    lemma_ray_len_is(r, c, dr, dc, 0, line_len(k));
    if j < line_len(k) && j < 7 {
        lemma_line_is_ray(b, k, j + 1);
        assert(four_at(b, k, j, Player::Red) == ray_four_at(b, r, c, dr, dc, j, Player::Red));
        assert(four_at(b, k, j, Player::Yellow) == ray_four_at(b, r, c, dr, dc, j, Player::Yellow));
    }
}

proof fn lemma_line_cells(k: int, i: int)
    requires
        0 <= k < 25,
    ensures
        (0 <= i < line_len(k)) <==> (i >= 0 && in_grid(line_row(k, i), line_col(k, i))),
        line_row(k, i + 1) == line_row(k, i) + step_row(k),
        line_col(k, i + 1) == line_col(k, i) + step_col(k),
        line_row(k, 0) == start_row(k),
        line_col(k, 0) == start_col(k),
        line_len(k) <= 7,
{
}

/// The number of cells of row `row` left of column `col` that hold `t`.
pub open spec fn row_count(b: Board, t: Tile, row: int, col: int) -> int
    decreases col,
{
    if col <= 0 {
        0
    } else {
        row_count(b, t, row, col - 1) + if tile(b, row, col - 1) == t { 1int } else { 0int }
    }
}

/// The number of cells below row `row` that hold `t`.
pub open spec fn rows_count(b: Board, t: Tile, row: int) -> int
    decreases row,
{
    if row <= 0 {
        0
    } else {
        rows_count(b, t, row - 1) + row_count(b, t, row - 1, 7)
    }
}

/// The number of cells of the grid that hold `t`.
pub open spec fn count(b: Board, t: Tile) -> int {
    rows_count(b, t, 6)
}

/// The number of pieces on the board.
pub open spec fn pieces(b: Board) -> int {
    count(b, Tile::Piece(Player::Red)) + count(b, Tile::Piece(Player::Yellow))
}

/// Red has played as often as Yellow, or once more.
pub open spec fn parity_ok(b: Board) -> bool {
    let red = count(b, Tile::Piece(Player::Red));
    let yellow = count(b, Tile::Piece(Player::Yellow));
    red == yellow || red == yellow + 1
}

/// The side to move can be told: the game is over, or the counts are in order.
pub open spec fn turn_defined(b: Board) -> bool {
    winner_of(b) is Some || pieces(b) == 42 || parity_ok(b)
}

/// Who moves next; `None` once the game is won or the grid is full.
pub open spec fn next_mover(b: Board) -> Option<Player> {
    if winner_of(b) is Some || pieces(b) == 42 {
        None
    } else if count(b, Tile::Piece(Player::Red)) == count(b, Tile::Piece(Player::Yellow)) {
        Some(Player::Red)
    } else {
        Some(Player::Yellow)
    }
}

/// One above the highest occupied cell of column `col` at or below row `row`.
pub open spec fn height_from(b: Board, col: int, row: int) -> int
    decreases row + 1,
{
    if row < 0 {
        0
    } else if tile(b, row, col) != Tile::Empty {
        row + 1
    } else {
        height_from(b, col, row - 1)
    }
}

/// The row a piece dropped into column `col` comes to rest in.
pub open spec fn height(b: Board, col: int) -> int {
    height_from(b, col, 5)
}

/// What playing column `col` as `p` gives.
pub open spec fn play_result(b: Board, col: int, p: Player) -> Result<Board, MoveRejected> {
    if next_mover(b) != Some(p) {
        Err(MoveRejected::WrongTurn)
    } else if !(0 <= col < 7) {
        Err(MoveRejected::ColumnOutOfRange)
    } else if height(b, col) >= 6 {
        Err(MoveRejected::ColumnFull)
    } else {
        Ok(with_tile(b, height(b, col), col, Tile::Piece(p)))
    }
}

proof fn lemma_row_count_bounds(b: Board, t: Tile, row: int, col: int)
    requires
        0 <= col,
    ensures
        0 <= row_count(b, t, row, col) <= col,
    decreases col,
{
    if col > 0 {
        lemma_row_count_bounds(b, t, row, col - 1);
    }
}

proof fn lemma_rows_count_bounds(b: Board, t: Tile, row: int)
    requires
        0 <= row,
    ensures
        0 <= rows_count(b, t, row) <= 7 * row,
    decreases row,
{
    if row > 0 {
        lemma_rows_count_bounds(b, t, row - 1);
        lemma_row_count_bounds(b, t, row - 1, 7);
    }
}

proof fn lemma_row_count_sum(b: Board, row: int, col: int)
    requires
        0 <= col,
    ensures
        row_count(b, Tile::Piece(Player::Red), row, col) + row_count(b, Tile::Piece(Player::Yellow), row, col)
            <= col,
    decreases col,
{
    if col > 0 {
        lemma_row_count_sum(b, row, col - 1);
    }
}

proof fn lemma_rows_count_sum(b: Board, row: int)
    requires
        0 <= row,
    ensures
        rows_count(b, Tile::Piece(Player::Red), row) + rows_count(b, Tile::Piece(Player::Yellow), row)
            <= 7 * row,
    decreases row,
{
    if row > 0 {
        lemma_rows_count_sum(b, row - 1);
        lemma_row_count_sum(b, row - 1, 7);
    }
}

/// Counts lie between 0 and the 42 cells.
pub proof fn lemma_count_bounds(b: Board)
    ensures
        0 <= count(b, Tile::Piece(Player::Red)) <= 42,
        0 <= count(b, Tile::Piece(Player::Yellow)) <= 42,
        0 <= pieces(b) <= 42,
{
    lemma_rows_count_bounds(b, Tile::Piece(Player::Red), 6);
    lemma_rows_count_bounds(b, Tile::Piece(Player::Yellow), 6);
    lemma_rows_count_sum(b, 6);
}

proof fn lemma_count_absent(b: Board, t: Tile)
    requires
        forall|row: int, col: int| in_grid(row, col) ==> tile(b, row, col) != t,
    ensures
        count(b, t) == 0,
{
    assert forall|row: int, col: int| 0 <= row < 6 && 0 <= col <= 7 implies row_count(b, t, row, col) == 0 by {
        lemma_row_absent(b, t, row, col);
    }
    reveal_with_fuel(rows_count, 7);
}

proof fn lemma_row_absent(b: Board, t: Tile, row: int, col: int)
    requires
        0 <= row < 6,
        0 <= col <= 7,
        forall|r: int, c: int| in_grid(r, c) ==> tile(b, r, c) != t,
    ensures
        row_count(b, t, row, col) == 0,
    decreases col,
{
    if col > 0 {
        assert(in_grid(row, col - 1));
        assert(tile(b, row, col - 1) != t);
        lemma_row_absent(b, t, row, col - 1);
    }
}

/// Every cell of column `col` from row `row` up to the top is empty.
pub open spec fn empty_above(b: Board, col: int, row: int) -> bool {
    forall|i: int| row <= i < 6 ==> #[trigger] tile(b, i, col) == Tile::Empty
}

proof fn lemma_height_from(b: Board, col: int, row: int)
    requires
        -1 <= row <= 5,
        0 <= col < 7,
        empty_above(b, col, row + 1),
    ensures
        0 <= height_from(b, col, row) <= row + 1,
        empty_above(b, col, height_from(b, col, row)),
        height_from(b, col, row) > 0 ==> tile(b, height_from(b, col, row) - 1, col) != Tile::Empty,
    decreases row + 1,
{
    if row >= 0 && tile(b, row, col) == Tile::Empty {
        lemma_height_from(b, col, row - 1);
    }
}

/// The top of column `col`: every cell from `height` up is empty, and the
/// cell just below it, if any, is taken.
pub proof fn lemma_height(b: Board, col: int)
    requires
        0 <= col < 7,
    ensures
        0 <= height(b, col) <= 6,
        empty_above(b, col, height(b, col)),
        height(b, col) > 0 ==> tile(b, height(b, col) - 1, col) != Tile::Empty,
{
    lemma_height_from(b, col, 5);
}

/// A column whose cells from `h` up are empty and whose cell below `h` is
/// taken has height `h`.
proof fn lemma_height_is(b: Board, col: int, h: int, row: int)
    requires
        0 <= col < 7,
        0 < h <= row + 1,
        row <= 5,
        empty_above(b, col, h),
        tile(b, h - 1, col) != Tile::Empty,
    ensures
        height_from(b, col, row) == h,
    decreases row + 1,
{
    if row >= h {
        lemma_height_is(b, col, h, row - 1);
    }
}

proof fn lemma_row_count_with_tile(b: Board, row: int, col: int, t: Tile, u: Tile, i: int, j: int)
    requires
        in_grid(row, col),
        0 <= i < 6,
        0 <= j <= 7,
    ensures
        row_count(with_tile(b, row, col, t), u, i, j) == row_count(b, u, i, j) + if i == row && col < j {
            (if t == u { 1int } else { 0int }) - (if tile(b, row, col) == u { 1int } else { 0int })
        } else {
            0int
        },
    decreases j,
{
    if j > 0 {
        lemma_row_count_with_tile(b, row, col, t, u, i, j - 1);
    }
}

proof fn lemma_rows_count_with_tile(b: Board, row: int, col: int, t: Tile, u: Tile, i: int)
    requires
        in_grid(row, col),
        0 <= i <= 6,
    ensures
        rows_count(with_tile(b, row, col, t), u, i) == rows_count(b, u, i) + if row < i {
            (if t == u { 1int } else { 0int }) - (if tile(b, row, col) == u { 1int } else { 0int })
        } else {
            0int
        },
    decreases i,
{
    if i > 0 {
        lemma_rows_count_with_tile(b, row, col, t, u, i - 1);
        lemma_row_count_with_tile(b, row, col, t, u, i - 1, 7);
    }
}

/// Writing `t` over a cell moves one unit of count from its old tile to `t`.
pub proof fn lemma_count_with_tile(b: Board, row: int, col: int, t: Tile, u: Tile)
    requires
        in_grid(row, col),
    ensures
        count(with_tile(b, row, col, t), u) == count(b, u) + (if t == u { 1int } else { 0int }) - (
        if tile(b, row, col) == u { 1int } else { 0int }),
{
    lemma_rows_count_with_tile(b, row, col, t, u, 6);
}

/// A move adds exactly one piece, of the mover, on an empty cell.
pub proof fn lemma_play_counts(b: Board, col: int, p: Player)
    requires
        play_result(b, col, p) is Ok,
    ensures
        tile(b, height(b, col), col) == Tile::Empty,
        count(play_result(b, col, p)->Ok_0, Tile::Piece(p)) == count(b, Tile::Piece(p)) + 1,
        forall|q: Player| q != p ==> count(play_result(b, col, p)->Ok_0, Tile::Piece(q)) == count(b, Tile::Piece(q)),
        pieces(play_result(b, col, p)->Ok_0) == pieces(b) + 1,
{
    lemma_height(b, col);
    let h = height(b, col);
    assert(tile(b, h, col) == Tile::Empty);
    lemma_count_with_tile(b, h, col, Tile::Piece(p), Tile::Piece(Player::Red));
    lemma_count_with_tile(b, h, col, Tile::Piece(p), Tile::Piece(Player::Yellow));
}

/// A move from a board whose counts are in order keeps them in order.
pub proof fn lemma_play_keeps_parity(b: Board, col: int, p: Player)
    requires
        parity_ok(b),
        play_result(b, col, p) is Ok,
    ensures
        parity_ok(play_result(b, col, p)->Ok_0),
{
    lemma_play_counts(b, col, p);
}

/// The board reached from `start` by playing `moves` (column, player) in
/// order, or `None` if one of them is refused.
pub open spec fn replay(start: Board, moves: Seq<(int, Player)>) -> Option<Board>
    decreases moves.len(),
{
    if moves.len() == 0 {
        Some(start)
    } else {
        match replay(start, moves.drop_last()) {
            Some(b) => {
                if turn_defined(b) && play_result(b, moves.last().0, moves.last().1) is Ok {
                    Some(play_result(b, moves.last().0, moves.last().1)->Ok_0)
                } else {
                    None
                }
            },
            None => None,
        }
    }
}

/// Every board reached from the empty board by legal moves has Red's count
/// equal to Yellow's or one above it.
pub proof fn lemma_reachable_parity(start: Board, moves: Seq<(int, Player)>)
    requires
        forall|row: int, col: int| in_grid(row, col) ==> tile(start, row, col) == Tile::Empty,
    ensures
        replay(start, moves) is Some ==> parity_ok(replay(start, moves)->0),
    decreases moves.len(),
{
    if moves.len() == 0 {
        lemma_count_absent(start, Tile::Piece(Player::Red));
        lemma_count_absent(start, Tile::Piece(Player::Yellow));
    } else {
        lemma_reachable_parity(start, moves.drop_last());
        if let Some(b) = replay(start, moves.drop_last()) {
            if turn_defined(b) && play_result(b, moves.last().0, moves.last().1) is Ok {
                lemma_play_keeps_parity(b, moves.last().0, moves.last().1);
            }
        }
    }
}

/// The boards that playing columns `0..col` as `p` gives, in column order.
pub open spec fn children_upto(b: Board, p: Player, col: int) -> Seq<Board>
    decreases col,
{
    if col <= 0 {
        Seq::empty()
    } else if play_result(b, col - 1, p) is Ok {
        children_upto(b, p, col - 1).push(play_result(b, col - 1, p)->Ok_0)
    } else {
        children_upto(b, p, col - 1)
    }
}

/// The boards one legal move away, in column order; none once the game is over.
pub open spec fn children(b: Board) -> Seq<Board> {
    match next_mover(b) {
        Some(p) => children_upto(b, p, 7),
        None => Seq::empty(),
    }
}

/// `p` leads to `b` by playing column `col`.
pub open spec fn is_parent_via(p: Board, b: Board, col: int) -> bool {
    turn_defined(p) && play_result(p, col, next_mover(p)->0) == Ok::<Board, MoveRejected>(b)
}

/// `p` leads to `b` by one legal move.
pub open spec fn is_parent(p: Board, b: Board) -> bool {
    exists|col: int| 0 <= col < 7 && is_parent_via(p, b, col)
}

/// The board with the top piece of column `col` taken away.
pub open spec fn without_top(b: Board, col: int) -> Board {
    with_tile(b, height(b, col) - 1, col, Tile::Empty)
}

proof fn lemma_children_upto(b: Board, p: Player, col: int, c: Board)
    requires
        0 <= col <= 7,
    ensures
        children_upto(b, p, col).contains(c) <==> exists|i: int| 0 <= i < col && play_result(b, i, p) == Ok::<Board, MoveRejected>(c),
    decreases col,
{
    if col > 0 {
        lemma_children_upto(b, p, col - 1, c);
        if play_result(b, col - 1, p) is Ok {
            assert(children_upto(b, p, col)[children_upto(b, p, col).len() - 1] == play_result(b, col - 1, p)->Ok_0);
        }
        if children_upto(b, p, col).contains(c) && !children_upto(b, p, col - 1).contains(c) {
            assert(play_result(b, col - 1, p) == Ok::<Board, MoveRejected>(c));
        }
        if exists|i: int| 0 <= i < col && play_result(b, i, p) == Ok::<Board, MoveRejected>(c) {
            let i = choose|i: int| 0 <= i < col && play_result(b, i, p) == Ok::<Board, MoveRejected>(c);
            if i == col - 1 {
                assert(children_upto(b, p, col)[children_upto(b, p, col).len() - 1] == c);
            } else {
                let j = choose|j: int| 0 <= j < children_upto(b, p, col - 1).len() && #[trigger] children_upto(b, p, col - 1)[j] == c;
                assert(children_upto(b, p, col)[j] == c);
            }
        }
    }
}

/// A board is among the children of `p` exactly when `p` leads to it.
pub proof fn lemma_children_are_moves(p: Board, c: Board)
    requires
        turn_defined(p),
    ensures
        children(p).contains(c) <==> is_parent(p, c),
{
    if let Some(q) = next_mover(p) {
        lemma_children_upto(p, q, 7, c);
        if children(p).contains(c) {
            let i = choose|i: int| 0 <= i < 7 && play_result(p, i, q) == Ok::<Board, MoveRejected>(c);
            assert(is_parent_via(p, c, i));
        }
        if is_parent(p, c) {
            let i = choose|i: int| 0 <= i < 7 && is_parent_via(p, c, i);
            assert(play_result(p, i, q) == Ok::<Board, MoveRejected>(c));
        }
    } else {
        if is_parent(p, c) {
            let i = choose|i: int| 0 <= i < 7 && is_parent_via(p, c, i);
            assert(play_result(p, i, next_mover(p)->0) is Err);
        }
    }
}

/// Taking the piece that a move dropped gives back the board it was played on.
pub proof fn lemma_undo_move(p: Board, b: Board, col: int)
    requires
        is_parent_via(p, b, col),
    ensures
        p == without_top(b, col),
        0 <= col < 7,
        pieces(p) + 1 == pieces(b),
{
    let q = next_mover(p)->0;
    lemma_play_counts(p, col, q);
    lemma_height(p, col);
    let h = height(p, col);
    assert(b == with_tile(p, h, col, Tile::Piece(q)));
    assert(empty_above(b, col, h + 1));
    lemma_height_is(b, col, h + 1, 5);
    let u = without_top(b, col);
    assert forall|i: int| 0 <= i < 6 implies u.tiles[i] == p.tiles[i] by {
        assert(u.tiles[i] =~= p.tiles[i]);
    }
    assert(u.tiles =~= p.tiles);
}

/// `t` seen from `p`'s side.
pub open spec fn seen_by(t: Tile, p: Player) -> AnalyzedTile {
    match t {
        Tile::Empty => AnalyzedTile::Empty,
        Tile::Piece(q) => if q == p { AnalyzedTile::You } else { AnalyzedTile::Enemy },
    }
}

/// Line `k` seen from `p`'s side.
pub open spec fn line_seen(b: Board, k: int, p: Player) -> Seq<AnalyzedTile> {
    Seq::new(line_len(k) as nat, |i: int| seen_by(line_tile(b, k, i), p))
}

/// 1 when `a` is `x`, else 0.
pub open spec fn one_if(a: AnalyzedTile, x: AnalyzedTile) -> int {
    if a == x { 1 } else { 0 }
}

/// How many of the four tiles from `i` on are `x`.
pub open spec fn window_count(s: Seq<AnalyzedTile>, i: int, x: AnalyzedTile) -> int {
    one_if(s[i], x) + one_if(s[i + 1], x) + one_if(s[i + 2], x) + one_if(s[i + 3], x)
}

/// How many of the tiles from `lo` up to `hi` are `x`.
pub open spec fn seg_count(s: Seq<AnalyzedTile>, lo: int, hi: int, x: AnalyzedTile) -> int
    decreases hi - lo,
{
    if hi <= lo {
        0
    } else {
        seg_count(s, lo, hi - 1, x) + one_if(s[hi - 1], x)
    }
}

/// The four tiles from `i` on score 0 if one is the opponent's, else
/// 0, 5, 50 or 500 for 0, 1, 2 or 3 of one's own.
pub open spec fn window_value(s: Seq<AnalyzedTile>, i: int) -> int {
    let yours = window_count(s, i, AnalyzedTile::You);
    if window_count(s, i, AnalyzedTile::Enemy) > 0 {
        0
    } else if yours == 1 {
        5
    } else if yours == 2 {
        50
    } else if yours == 3 {
        500
    } else {
        0
    }
}

/// The sum of the windows starting before `n`.
pub open spec fn windows_sum(s: Seq<AnalyzedTile>, n: int) -> int
    decreases n,
{
    if n <= 0 {
        0
    } else {
        windows_sum(s, n - 1) + window_value(s, n - 1)
    }
}

/// `p`'s score along line `k`: the sum over its windows of four.
pub open spec fn line_score(b: Board, k: int, p: Player) -> int {
    windows_sum(line_seen(b, k, p), line_len(k) - 3)
}

/// Red's minus Yellow's score over lines `0..k`.
pub open spec fn heuristic_upto(b: Board, k: int) -> int
    decreases k,
{
    if k <= 0 {
        0
    } else {
        heuristic_upto(b, k - 1) + line_score(b, k - 1, Player::Red) - line_score(b, k - 1, Player::Yellow)
    }
}

/// The value of a position: the terminal constant, positive for Red and
/// negative for Yellow, once won; 0 for a draw; else the line heuristic.
pub open spec fn score_of(b: Board) -> int {
    match winner_of(b) {
        Some(Player::Red) => TERMINAL as int,
        Some(Player::Yellow) => -TERMINAL,
        None => if next_mover(b) is None { 0 } else { heuristic_upto(b, 25) },
    }
}

proof fn lemma_windows_sum_bounds(s: Seq<AnalyzedTile>, n: int)
    requires
        0 <= n,
    ensures
        0 <= windows_sum(s, n) <= 500 * n,
    decreases n,
{
    if n > 0 {
        lemma_windows_sum_bounds(s, n - 1);
    }
}

proof fn lemma_heuristic_bounds(b: Board, k: int)
    requires
        0 <= k <= 25,
    ensures
        -2000 * k <= heuristic_upto(b, k) <= 2000 * k,
    decreases k,
{
    if k > 0 {
        lemma_heuristic_bounds(b, k - 1);
        lemma_line_cells(k - 1, 0);
        lemma_windows_sum_bounds(line_seen(b, k - 1, Player::Red), line_len(k - 1) - 3);
        lemma_windows_sum_bounds(line_seen(b, k - 1, Player::Yellow), line_len(k - 1) - 3);
    }
}

/// The line heuristic stays within 50000 either way, far from the terminal constant.
pub proof fn lemma_heuristic_small(b: Board)
    ensures
        -50000 <= heuristic_upto(b, 25) <= 50000,
{
    lemma_heuristic_bounds(b, 25);
}

/// How a tile is drawn.
pub open spec fn tile_text(t: Tile) -> Seq<char> {
    match t {
        Tile::Empty => " . "@,
        Tile::Piece(Player::Red) => " R "@,
        Tile::Piece(Player::Yellow) => " Y "@,
    }
}

/// The first `col` cells of row `row`, drawn.
pub open spec fn cells_text(b: Board, row: int, col: int) -> Seq<char>
    decreases col,
{
    if col <= 0 {
        Seq::empty()
    } else {
        cells_text(b, row, col - 1) + tile_text(tile(b, row, col - 1))
    }
}

/// Row `row`, drawn between bars.
pub open spec fn row_text(b: Board, row: int) -> Seq<char> {
    "|"@ + cells_text(b, row, 7) + "|\n"@
}

/// Rows 5 down to `row`, drawn top first.
pub open spec fn rows_text(b: Board, row: int) -> Seq<char>
    decreases 6 - row,
{
    if row >= 6 || row < 0 {
        Seq::empty()
    } else {
        rows_text(b, row + 1) + row_text(b, row)
    }
}

/// The whole board, top row first, framed, with column labels 1 to 7 below.
pub open spec fn board_text(b: Board) -> Seq<char> {
    "+ -  -  -  -  -  -  - +\n"@ + rows_text(b, 0) + "+ -  -  -  -  -  -  - +\n"@
        + "  1  2  3  4  5  6  7  "@
}

/// The score is `TERMINAL` exactly when Red has won, `-TERMINAL` exactly
/// when Yellow has, and 0 on a full grid with no winner.
pub proof fn lemma_score_terminal(b: Board)
    ensures
        score_of(b) == TERMINAL <==> winner_of(b) == Some(Player::Red),
        score_of(b) == -TERMINAL <==> winner_of(b) == Some(Player::Yellow),
        pieces(b) == 42 && winner_of(b) is None ==> score_of(b) == 0,
{
    lemma_heuristic_small(b);
}

/// `p` has four in a row somewhere on `b`.
pub open spec fn has_four(b: Board, p: Player) -> bool {
    exists|k: int, j: int| 0 <= k < 25 && #[trigger] four_at(b, k, j, p)
}

/// `m` is `b` reflected left to right.
pub open spec fn is_mirror(m: Board, b: Board) -> bool {
    forall|row: int, col: int| in_grid(row, col) ==> #[trigger] tile(m, row, col) == tile(b, row, 6 - col)
}

/// The line that line `k` becomes under reflection.
pub open spec fn mirror_line(k: int) -> int {
    if k < 6 { k } else if k < 13 { 18 - k } else if k < 19 { k + 6 } else { k - 6 }
}

/// The cell of the reflected line that cell `j` of line `k` becomes.
pub open spec fn mirror_pos(k: int, j: int) -> int {
    if k < 6 { 9 - j } else { j }
}

proof fn lemma_line_winner_some(b: Board, k: int, j: int)
    requires
        0 <= j,
    ensures
        line_winner_from(b, k, j) matches Some(p) ==> exists|i: int| #[trigger] four_at(b, k, i, p),
        line_winner_from(b, k, j) is None ==> forall|i: int, p: Player| j <= i ==> !#[trigger] four_at(b, k, i, p),
    decreases 7 - j,
{
    if j < line_len(k) && j < 7 {
        lemma_line_winner_some(b, k, j + 1);
        if line_winner_from(b, k, j) is None {
            assert forall|i: int, p: Player| j <= i implies !#[trigger] four_at(b, k, i, p) by {
                if i == j {
                    match p {
                        Player::Red => {},
                        Player::Yellow => {},
                    }
                }
            }
        }
    }
}

proof fn lemma_winner_from_some(b: Board, k: int)
    requires
        0 <= k,
    ensures
        winner_from(b, k) matches Some(p) ==> has_four(b, p),
        winner_from(b, k) is None ==> forall|l: int, i: int, p: Player| k <= l < 25 ==> !#[trigger] four_at(b, l, i, p),
    decreases 25 - k,
{
    if k < 25 {
        lemma_winner_from_some(b, k + 1);
        lemma_line_winner_some(b, k, 0);
        if let Some(p) = line_winner_from(b, k, 0) {
            let i = choose|i: int| #[trigger] four_at(b, k, i, p);
            assert(four_at(b, k, i, p));
        }
        if winner_from(b, k) is None {
            assert forall|l: int, i: int, p: Player| k <= l < 25 implies !#[trigger] four_at(b, l, i, p) by {
                if l == k && four_at(b, l, i, p) {
                    assert(i >= 0);
                }
            }
        }
    }
}

/// The winner found is a player with four in a row, and there is none
/// exactly when neither player has four in a row.
pub proof fn lemma_winner_has_four(b: Board)
    ensures
        winner_of(b) matches Some(p) ==> has_four(b, p),
        winner_of(b) is None <==> !has_four(b, Player::Red) && !has_four(b, Player::Yellow),
{
    lemma_winner_from_some(b, 0);
}

proof fn lemma_mirror_four(m: Board, b: Board, k: int, j: int, p: Player)
    requires
        is_mirror(m, b),
        0 <= k < 25,
        four_at(b, k, j, p),
    ensures
        four_at(m, mirror_line(k), mirror_pos(k, j), p),
{
    let mk = mirror_line(k);
    let mj = mirror_pos(k, j);
    assert(in_grid(line_row(mk, mj), line_col(mk, mj)));
    assert(in_grid(line_row(mk, mj - 1), line_col(mk, mj - 1)));
    assert(in_grid(line_row(mk, mj - 2), line_col(mk, mj - 2)));
    assert(in_grid(line_row(mk, mj - 3), line_col(mk, mj - 3)));
}

/// Reflecting the board left to right does not change who has four in a row.
pub proof fn lemma_mirror_has_four(m: Board, b: Board, p: Player)
    requires
        is_mirror(m, b),
    ensures
        has_four(m, p) <==> has_four(b, p),
{
    assert(is_mirror(b, m)) by {
        assert forall|row: int, col: int| in_grid(row, col) implies #[trigger] tile(b, row, col) == tile(m, row, 6 - col) by {
            assert(tile(m, row, 6 - col) == tile(b, row, 6 - (6 - col)));
        }
    }
    if has_four(b, p) {
        let (k, j) = choose|k: int, j: int| 0 <= k < 25 && #[trigger] four_at(b, k, j, p);
        lemma_mirror_four(m, b, k, j, p);
    }
    if has_four(m, p) {
        let (k, j) = choose|k: int, j: int| 0 <= k < 25 && #[trigger] four_at(m, k, j, p);
        lemma_mirror_four(b, m, k, j, p);
    }
}

/// Reflecting the board left to right keeps its winner, on every board where
/// at most one player has four in a row (as on every board of a game).
pub proof fn lemma_winner_mirror(m: Board, b: Board)
    requires
        is_mirror(m, b),
        !(has_four(b, Player::Red) && has_four(b, Player::Yellow)),
    ensures
        winner_of(m) == winner_of(b),
{
    lemma_mirror_has_four(m, b, Player::Red);
    lemma_mirror_has_four(m, b, Player::Yellow);
    lemma_winner_has_four(m);
    lemma_winner_has_four(b);
}

fn in_bounds(row: i32, col: i32) -> (r: bool)
    ensures
        r == in_grid(row as int, col as int),
{
    row >= 0 && col >= 0 && row < ROWS && col < COLS
}

fn set_tile(b: &mut Board, row: usize, col: usize, t: Tile)
    requires
        in_grid(row as int, col as int),
    ensures
        *final(b) == with_tile(*old(b), row as int, col as int, t),
{
    b.tiles[row][col] = t;
    assert(b.tiles =~= with_tile(*old(b), row as int, col as int, t).tiles);
}

impl Board {
    /// The 25 lines as (start row, start column, row step, column step).
    fn win_chains() -> (r: [(i32, i32, i32, i32); 25])
        ensures
            forall|k: int|
                0 <= k < 25 ==> (#[trigger] r@[k]).0 == start_row(k) && r@[k].1 == start_col(k)
                    && r@[k].2 == step_row(k) && r@[k].3 == step_col(k),
    {
        [ (0, 0, 0, 1), (1, 0, 0, 1), (2, 0, 0, 1), (3, 0, 0, 1), (4, 0, 0, 1), (5, 0, 0, 1)
        , (0, 0, 1, 0), (0, 1, 1, 0), (0, 2, 1, 0), (0, 3, 1, 0), (0, 4, 1, 0), (0, 5, 1, 0), (0, 6, 1, 0)
        , (3, 0, -1, 1), (4, 0, -1, 1), (5, 0, -1, 1), (5, 1, -1, 1), (5, 2, -1, 1), (5, 3, -1, 1)
        , (3, 6, -1, -1), (4, 6, -1, -1), (5, 6, -1, -1), (5, 5, -1, -1), (5, 4, -1, -1), (5, 3, -1, -1)
        ]
    }

    /// Scans the ray from `(row, col)` stepping by `(d_r, d_c)` while it is
    /// on the grid, counting the run of each colour; the first run of four
    /// decides.
    fn win_on_chain(&self, row: i32, col: i32, d_r: i32, d_c: i32) -> (r: Option<Player>)
        requires
            -1 <= d_r <= 1,
            -1 <= d_c <= 1,
            !(d_r == 0 && d_c == 0),
        ensures
            r == ray_winner_from(*self, row as int, col as int, d_r as int, d_c as int, 0),
    {
        let ghost (r0, c0, dr, dc) = (row as int, col as int, d_r as int, d_c as int);
        let mut at_row = row;
        let mut at_col = col;
        let mut red: i32 = 0;
        let mut yellow: i32 = 0;
        let ghost mut j: int = 0;
        proof {
            lemma_ray_len(r0, c0, dr, dc);
        }
        while in_bounds(at_row, at_col)
            invariant
                -1 <= dr <= 1,
                -1 <= dc <= 1,
                !(dr == 0 && dc == 0),
                d_r == dr,
                d_c == dc,
                r0 == row as int,
                c0 == col as int,
                0 <= ray_len(r0, c0, dr, dc) <= 7,
                forall|l: int| 0 <= l < ray_len(r0, c0, dr, dc) ==> on_ray(r0, c0, dr, dc, l),
                !on_ray(r0, c0, dr, dc, ray_len(r0, c0, dr, dc)),
                0 <= j <= ray_len(r0, c0, dr, dc),
                at_row == ray_step(r0, dr, j),
                at_col == ray_step(c0, dc, j),
                red == ray_run(*self, r0, c0, dr, dc, j, Player::Red),
                yellow == ray_run(*self, r0, c0, dr, dc, j, Player::Yellow),
                red < 4,
                yellow < 4,
                ray_winner_from(*self, r0, c0, dr, dc, 0) == ray_winner_from(*self, r0, c0, dr, dc, j),
            decreases ray_len(r0, c0, dr, dc) - j,
        {
            proof {
                lemma_ray_run_four(*self, r0, c0, dr, dc, j, Player::Red);
                lemma_ray_run_four(*self, r0, c0, dr, dc, j, Player::Yellow);
                if j == ray_len(r0, c0, dr, dc) {
                    assert(!on_ray(r0, c0, dr, dc, j));
                }
                assert(j < ray_len(r0, c0, dr, dc));
                assert(ray_tile(*self, r0, c0, dr, dc, j) == self.tiles[at_row as int][at_col as int]);
            }
            match self.tiles[at_row as usize][at_col as usize] {
                Tile::Empty => {
                    red = 0;
                    yellow = 0;
                },
                Tile::Piece(Player::Red) => {
                    red = red + 1;
                    yellow = 0;
                    if red == 4 {
                        assert(ray_four_at(*self, r0, c0, dr, dc, j, Player::Red));
                        return Some(Player::Red);
                    }
                },
                Tile::Piece(Player::Yellow) => {
                    red = 0;
                    yellow = yellow + 1;
                    if yellow == 4 {
                        assert(ray_four_at(*self, r0, c0, dr, dc, j, Player::Yellow));
                        return Some(Player::Yellow);
                    }
                },
            }
            at_row = at_row + d_r;
            at_col = at_col + d_c;
            proof {
                j = j + 1;
            }
        }
        proof {
            if j < ray_len(r0, c0, dr, dc) {
                assert(on_ray(r0, c0, dr, dc, j));
            }
        }
        None
    }

    /// The empty board.
    pub fn new() -> (r: Board)
        ensures
            forall|row: int, col: int| in_grid(row, col) ==> tile(r, row, col) == Tile::Empty,
            count(r, Tile::Piece(Player::Red)) == 0,
            count(r, Tile::Piece(Player::Yellow)) == 0,
    {
        let r = Board { tiles: [[Tile::Empty; 7]; 6] };
        proof {
            lemma_count_absent(r, Tile::Piece(Player::Red));
            lemma_count_absent(r, Tile::Piece(Player::Yellow));
        }
        r
    }

    /// The number of Red and of Yellow pieces.
    fn piece_counts(&self) -> (r: (i32, i32))
        ensures
            r.0 == count(*self, Tile::Piece(Player::Red)),
            r.1 == count(*self, Tile::Piece(Player::Yellow)),
    {
        let mut red: i32 = 0;
        let mut yellow: i32 = 0;
        let mut row: usize = 0;
        while row < 6
            invariant
                row <= 6,
                red == rows_count(*self, Tile::Piece(Player::Red), row as int),
                yellow == rows_count(*self, Tile::Piece(Player::Yellow), row as int),
                0 <= red <= 7 * row,
                0 <= yellow <= 7 * row,
            decreases 6 - row,
        {
            let mut col: usize = 0;
            while col < 7
                invariant
                    row < 6,
                    col <= 7,
                    red == rows_count(*self, Tile::Piece(Player::Red), row as int)
                        + row_count(*self, Tile::Piece(Player::Red), row as int, col as int),
                    yellow == rows_count(*self, Tile::Piece(Player::Yellow), row as int)
                        + row_count(*self, Tile::Piece(Player::Yellow), row as int, col as int),
                    0 <= red <= 7 * row + col,
                    0 <= yellow <= 7 * row + col,
                decreases 7 - col,
            {
                match self.tiles[row][col] {
                    Tile::Piece(Player::Red) => red = red + 1,
                    Tile::Piece(Player::Yellow) => yellow = yellow + 1,
                    Tile::Empty => {},
                }
                col = col + 1;
            }
            row = row + 1;
        }
        (red, yellow)
    }

    /// The number of pieces on the board.
    pub fn pieces_played(&self) -> (r: i32)
        ensures
            r == pieces(*self),
            0 <= r <= 42,
    {
        proof {
            lemma_count_bounds(*self);
        }
        let (red, yellow) = self.piece_counts();
        red + yellow
    }

    /// Who moves next: `None` once the game is won or the grid is full,
    /// else Red when the counts are equal and Yellow when Red leads by one.
    pub fn next_to_move(&self) -> (r: Option<Player>)
        requires
            turn_defined(*self),
        ensures
            r == next_mover(*self),
    {
        if self.winner().is_some() {
            None
        } else {
            proof {
                lemma_count_bounds(*self);
            }
            let (red, yellow) = self.piece_counts();
            if red + yellow == 6 * 7 {
                None
            } else if red == yellow {
                Some(Player::Red)
            } else {
                Some(Player::Yellow)
            }
        }
    }

    /// Drops a piece of `player` into column `col`; it settles on top of the
    /// column. Fails when `player` is not to move, `col` is not a column, or
    /// the column is full. The board itself is left as it is.
    pub fn play(&self, col: i32, player: Player) -> (r: Result<Board, MoveRejected>)
        requires
            turn_defined(*self),
        ensures
            r == play_result(*self, col as int, player),
    {
        if Some(player) != self.next_to_move() {
            return Err(MoveRejected::WrongTurn);
        }
        if !in_bounds(0, col) {
            return Err(MoveRejected::ColumnOutOfRange);
        }
        let mut i: i32 = 5;
        while in_bounds(i, col) && self.tiles[i as usize][col as usize] == Tile::Empty
            invariant
                0 <= col < 7,
                -1 <= i <= 5,
                height(*self, col as int) == height_from(*self, col as int, i as int),
            decreases i + 1,
        {
            i = i - 1;
        }
        i = i + 1;
        if i > 5 {
            return Err(MoveRejected::ColumnFull);
        }
        let mut new_board = Board { tiles: self.tiles };
        set_tile(&mut new_board, i as usize, col as usize, Tile::Piece(player));
        Ok(new_board)
    }

    /// The boards one legal move away, in column order; empty once the game
    /// is over.
    pub fn next_boards(&self) -> (r: Vec<Board>)
        requires
            turn_defined(*self),
        ensures
            r@ == children(*self),
    {
        let mut boards: Vec<Board> = Vec::new();
        let player = match self.next_to_move() {
            Some(p) => p,
            None => {
                return boards;
            },
        };
        let mut i: i32 = 0;
        while i < 7
            invariant
                0 <= i <= 7,
                turn_defined(*self),
                next_mover(*self) == Some(player),
                boards@ == children_upto(*self, player, i as int),
            decreases 7 - i,
        {
            if let Ok(next) = self.play(i, player) {
                boards.push(next);
            }
            i = i + 1;
        }
        boards
    }

    /// The number of pieces in column `col`.
    fn column_height(&self, col: usize) -> (r: usize)
        requires
            col < 7,
        ensures
            r == height(*self, col as int),
    {
        let mut i: usize = 6;
        while i > 0 && self.tiles[i - 1][col] == Tile::Empty
            invariant
                col < 7,
                i <= 6,
                height(*self, col as int) == height_from(*self, col as int, i - 1),
            decreases i,
        {
            i = i - 1;
        }
        i
    }

    /// Whether Red has played as often as Yellow or once more: the counts of
    /// every board of a game.
    pub fn parity_holds(&self) -> (r: bool)
        ensures
            r == parity_ok(*self),
    {
        proof {
            lemma_count_bounds(*self);
        }
        let (red, yellow) = self.piece_counts();
        red == yellow || red == yellow + 1
    }

    /// Whether the side to move can be told (see `turn_defined`).
    pub fn turn_is_defined(&self) -> (r: bool)
        ensures
            r == turn_defined(*self),
    {
        proof {
            lemma_count_bounds(*self);
        }
        let (red, yellow) = self.piece_counts();
        self.winner().is_some() || red + yellow == 42 || red == yellow || red == yellow + 1
    }

    /// The boards that lead to this one by one legal move: for each column
    /// with a piece, the board without that column's top piece, kept when its
    /// mover playing that column gives this board back.
    pub fn prev_boards(&self) -> (r: Vec<Board>)
        ensures
            forall|i: int| 0 <= i < r@.len() ==> is_parent(#[trigger] r@[i], *self),
            forall|p: Board| is_parent(p, *self) ==> r@.contains(p),
    {
        let mut boards: Vec<Board> = Vec::new();
        let mut col: usize = 0;
        while col < 7
            invariant
                col <= 7,
                forall|i: int| 0 <= i < boards@.len() ==> is_parent(#[trigger] boards@[i], *self),
                forall|p: Board, c: int| 0 <= c < col && is_parent_via(p, *self, c) ==> boards@.contains(p),
            decreases 7 - col,
        {
            let h = self.column_height(col);
            let ghost before = boards@;
            proof {
                lemma_height(*self, col as int);
            }
            if h > 0 {
                let mut prev = *self;
                set_tile(&mut prev, h - 1, col, Tile::Empty);
                if prev.turn_is_defined() {
                    if let Some(mover) = prev.next_to_move() {
                        if let Ok(next) = prev.play(col as i32, mover) {
                            if next == *self {
                                assert(is_parent_via(prev, *self, col as int));
                                boards.push(prev);
                                assert(boards@[boards@.len() - 1] == prev);
                            }
                        }
                    }
                }
                proof {
                    assert forall|p: Board| is_parent_via(p, *self, col as int) implies boards@.contains(p) by {
                        lemma_undo_move(p, *self, col as int);
                        assert(p == prev);
                        assert(boards@[boards@.len() - 1] == prev);
                    }
                }
            } else {
                proof {
                    assert forall|p: Board| !is_parent_via(p, *self, col as int) by {
                        if is_parent_via(p, *self, col as int) {
                            lemma_undo_move(p, *self, col as int);
                            lemma_play_counts(p, col as int, next_mover(p)->0);
                            lemma_height(p, col as int);
                            assert(tile(*self, height(p, col as int), col as int) != Tile::Empty);
                        }
                    }
                }
            }
            proof {
                assert forall|p: Board| before.contains(p) implies boards@.contains(p) by {
                    let j = choose|j: int| 0 <= j < before.len() && before[j] == p;
                    assert(boards@[j] == p);
                }
            }
            col = col + 1;
        }
        boards
    }

    /// Scores the four tiles of `line` from `start` on.
    fn score_window(line: &Vec<AnalyzedTile>, start: usize) -> (r: i32)
        requires
            start + 4 <= line@.len() <= 7,
        ensures
            r == window_value(line@, start as int),
    {
        let mut yours: i32 = 0;
        let mut enemies: i32 = 0;
        let mut i: usize = start;
        while i < start + 4
            invariant
                start <= i <= start + 4,
                start + 4 <= line@.len() <= 7,
                yours == seg_count(line@, start as int, i as int, AnalyzedTile::You),
                enemies == seg_count(line@, start as int, i as int, AnalyzedTile::Enemy),
                0 <= yours <= i - start,
                0 <= enemies <= i - start,
            decreases start + 4 - i,
        {
            if line[i] == AnalyzedTile::You {
                yours = yours + 1;
            } else if line[i] == AnalyzedTile::Enemy {
                enemies = enemies + 1;
            }
            i = i + 1;
        }
        proof {
            reveal_with_fuel(seg_count, 5);
        }
        if enemies > 0 {
            0
        } else if yours == 1 {
            5
        } else if yours == 2 {
            50
        } else if yours == 3 {
            500
        } else {
            0
        }
    }

    /// `player`'s score along line `k`, given as (start row, start column,
    /// row step, column step): the sum of the scores of its windows of four.
    fn player_score_on_chain(&self, chain: (i32, i32, i32, i32), player: Player, Ghost(k): Ghost<int>) -> (r: i32)
        requires
            0 <= k < 25,
            chain.0 == start_row(k),
            chain.1 == start_col(k),
            chain.2 == step_row(k),
            chain.3 == step_col(k),
        ensures
            r == line_score(*self, k, player),
    {
        let (mut row, mut col, d_r, d_c) = chain;
        let mut line: Vec<AnalyzedTile> = Vec::new();
        proof {
            lemma_line_cells(k, 0);
        }
        while in_bounds(row, col)
            invariant
                0 <= k < 25,
                d_r == step_row(k),
                d_c == step_col(k),
                0 <= line@.len() <= line_len(k),
                row == line_row(k, line@.len() as int),
                col == line_col(k, line@.len() as int),
                forall|i: int| 0 <= i < line@.len() ==> line@[i] == seen_by(line_tile(*self, k, i), player),
            decreases line_len(k) - line@.len(),
        {
            proof {
                lemma_line_cells(k, line@.len() as int);
            }
            let t = match self.tiles[row as usize][col as usize] {
                Tile::Empty => AnalyzedTile::Empty,
                Tile::Piece(p) => if p == player { AnalyzedTile::You } else { AnalyzedTile::Enemy },
            };
            line.push(t);
            row = row + d_r;
            col = col + d_c;
        }
        proof {
            lemma_line_cells(k, line@.len() as int);
            assert(line@ =~= line_seen(*self, k, player));
        }
        let mut score: i32 = 0;
        let mut i: usize = 0;
        while i + 3 < line.len()
            invariant
                line@ == line_seen(*self, k, player),
                4 <= line@.len() <= 7,
                i <= line@.len() - 3,
                score == windows_sum(line@, i as int),
                0 <= score <= 500 * i,
            decreases line@.len() - i,
        {
            score = score + Self::score_window(&line, i);
            i = i + 1;
        }
        score
    }

    /// The value of the position for Red: `TERMINAL` once Red has won,
    /// `-TERMINAL` once Yellow has, 0 for a draw, else Red's line scores
    /// minus Yellow's.
    pub fn get_score(&self) -> (r: i32)
        requires
            turn_defined(*self),
        ensures
            r == score_of(*self),
    {
        match self.winner() {
            Some(Player::Red) => return TERMINAL,
            Some(Player::Yellow) => return -TERMINAL,
            None => {},
        }
        if self.next_to_move().is_none() {
            return 0;
        }
        let chains = Self::win_chains();
        let mut score: i32 = 0;
        let mut k: usize = 0;
        while k < 25
            invariant
                k <= 25,
                forall|i: int|
                    0 <= i < 25 ==> (#[trigger] chains@[i]).0 == start_row(i) && chains@[i].1 == start_col(i)
                        && chains@[i].2 == step_row(i) && chains@[i].3 == step_col(i),
                score == heuristic_upto(*self, k as int),
            decreases 25 - k,
        {
            proof {
                lemma_heuristic_bounds(*self, k as int + 1);
            }
            let red = self.player_score_on_chain(chains[k], Player::Red, Ghost(k as int));
            let yellow = self.player_score_on_chain(chains[k], Player::Yellow, Ghost(k as int));
            proof {
                lemma_line_cells(k as int, 0);
                lemma_windows_sum_bounds(line_seen(*self, k as int, Player::Red), line_len(k as int) - 3);
                lemma_windows_sum_bounds(line_seen(*self, k as int, Player::Yellow), line_len(k as int) - 3);
            }
            score = score + (red - yellow);
            k = k + 1;
        }
        score
    }

    /// Draws row `row`.
    fn display_row(&self, row: usize) -> (r: String)
        requires
            row < 6,
        ensures
            r@ == row_text(*self, row as int),
    {
        let mut string = String::from_str("|");
        let mut i: usize = 0;
        while i < 7
            invariant
                row < 6,
                i <= 7,
                string@ == "|"@ + cells_text(*self, row as int, i as int),
            decreases 7 - i,
        {
            let text = match self.tiles[row][i] {
                Tile::Empty => " . ",
                Tile::Piece(Player::Red) => " R ",
                Tile::Piece(Player::Yellow) => " Y ",
            };
            string.append(text);
            proof {
                assert(string@ =~= "|"@ + cells_text(*self, row as int, i + 1));
            }
            i = i + 1;
        }
        string.append("|\n");
        string
    }

    /// Draws the board: a frame, the rows top first, and column labels 1 to 7.
    pub fn display(&self) -> (r: String)
        ensures
            r@ == board_text(*self),
    {
        let mut string = String::from_str("+ -  -  -  -  -  -  - +\n");
        let mut i: usize = 6;
        while i > 0
            invariant
                i <= 6,
                string@ == "+ -  -  -  -  -  -  - +\n"@ + rows_text(*self, i as int),
            decreases i,
        {
            i = i - 1;
            let row = self.display_row(i);
            string.append(row.as_str());
            proof {
                assert(string@ =~= "+ -  -  -  -  -  -  - +\n"@ + rows_text(*self, i as int));
            }
        }
        string.append("+ -  -  -  -  -  -  - +\n");
        string.append("  1  2  3  4  5  6  7  ");
        proof {
            assert(string@ =~= board_text(*self));
        }
        string
    }

    /// The owner of the first four in a row over the 25 lines, if any.
    pub fn winner(&self) -> (r: Option<Player>)
        ensures
            r == winner_of(*self),
    {
        let chains = Self::win_chains();
        let mut k: usize = 0;
        while k < 25
            invariant
                k <= 25,
                forall|i: int|
                    0 <= i < 25 ==> (#[trigger] chains@[i]).0 == start_row(i) && chains@[i].1 == start_col(i)
                        && chains@[i].2 == step_row(i) && chains@[i].3 == step_col(i),
                winner_of(*self) == winner_from(*self, k as int),
            decreases 25 - k,
        {
            let (row, col, d_r, d_c) = chains[k];
            let w = self.win_on_chain(row, col, d_r, d_c);
            proof {
                lemma_line_is_ray(*self, k as int, 0);
            }
            if w.is_some() {
                return w;
            }
            k = k + 1;
        }
        None
    }
}

/// Two boards are equal when every cell holds the same tile.
impl PartialEq for Board {
    fn eq(&self, other: &Board) -> (r: bool) {
        let mut row: usize = 0;
        while row < 6
            invariant
                row <= 6,
                forall|i: int, j: int| 0 <= i < row && 0 <= j < 7 ==> tile(*self, i, j) == tile(*other, i, j),
            decreases 6 - row,
        {
            let mut col: usize = 0;
            while col < 7
                invariant
                    row < 6,
                    col <= 7,
                    forall|i: int, j: int| 0 <= i < row && 0 <= j < 7 ==> tile(*self, i, j) == tile(*other, i, j),
                    forall|j: int| 0 <= j < col ==> tile(*self, row as int, j) == tile(*other, row as int, j),
                decreases 7 - col,
            {
                if self.tiles[row][col] != other.tiles[row][col] {
                    return false;
                }
                col = col + 1;
            }
            row = row + 1;
        }
        proof {
            assert forall|i: int| 0 <= i < 6 implies self.tiles[i] == other.tiles[i] by {
                assert(self.tiles[i] =~= other.tiles[i]);
            }
            assert(self.tiles =~= other.tiles);
        }
        true
    }
}

impl vstd::std_specs::cmp::PartialEqSpecImpl for Board {
    open spec fn obeys_eq_spec() -> bool {
        true
    }

    open spec fn eq_spec(&self, other: &Board) -> bool {
        *self == *other
    }
}

} // verus!
