//! The analysis engine: a table from board keys to values, the boards
//! waiting for evaluation, and retrograde propagation of changed values.
use vstd::prelude::*;
use std::collections::HashMap;
use std::collections::VecDeque;
use crate::board::{Board, Player, Tile, tile, in_grid, parity_ok, children, is_parent, next_mover, pieces,
    play_result, score_of, winner_of, turn_defined, lemma_children_are_moves, lemma_play_keeps_parity,
    lemma_undo_move};

verus! {

broadcast use vstd::std_specs::hash::group_hash_axioms;

/// The digit a tile contributes to a board's key.
pub open spec fn code(t: Tile) -> int {
    match t {
        Tile::Empty => 0,
        Tile::Piece(Player::Red) => 1,
        Tile::Piece(Player::Yellow) => 2,
    }
}

/// Row `row` from column `col` on, read as base-4 digits, lowest first.
pub open spec fn row_key(b: Board, row: int, col: int) -> int
    decreases 7 - col,
{
    if col >= 7 {
        0
    } else {
        code(tile(b, row, col)) + 4 * row_key(b, row, col + 1)
    }
}

/// Rows from `row` on, each a digit of 14 bits, lowest first.
pub open spec fn rows_key(b: Board, row: int) -> int
    decreases 6 - row,
{
    if row >= 6 {
        0
    } else {
        row_key(b, row, 0) + 16384 * rows_key(b, row + 1)
    }
}

/// The key under which a board is stored: two bits per cell.
pub open spec fn key_of(b: Board) -> u128 {
    rows_key(b, 0) as u128
}

/// `4` to the power `7 - col`.
pub open spec fn row_bound(col: int) -> int
    decreases 7 - col,
{
    if col >= 7 { 1 } else { 4 * row_bound(col + 1) }
}

/// `16384` to the power `6 - row`.
pub open spec fn rows_bound(row: int) -> int
    decreases 6 - row,
{
    if row >= 6 { 1 } else { 16384 * rows_bound(row + 1) }
}

proof fn lemma_row_key(b1: Board, b2: Board, row: int, col: int)
    requires
        0 <= col <= 7,
    ensures
        0 <= row_key(b1, row, col) < row_bound(col),
        row_key(b1, row, col) == row_key(b2, row, col) ==> forall|c: int|
            col <= c < 7 ==> #[trigger] tile(b1, row, c) == tile(b2, row, c),
    decreases 7 - col,
{
    if col < 7 {
        lemma_row_key(b1, b2, row, col + 1);
        lemma_row_key(b2, b1, row, col + 1);
    }
}

proof fn lemma_rows_key(b1: Board, b2: Board, row: int)
    requires
        0 <= row <= 6,
    ensures
        0 <= rows_key(b1, row) < rows_bound(row),
        rows_key(b1, row) == rows_key(b2, row) ==> forall|r: int, c: int|
            row <= r < 6 && 0 <= c < 7 ==> #[trigger] tile(b1, r, c) == tile(b2, r, c),
    decreases 6 - row,
{
    if row < 6 {
        lemma_rows_key(b1, b2, row + 1);
        lemma_rows_key(b2, b1, row + 1);
        lemma_row_key(b1, b2, row, 0);
        lemma_row_key(b2, b1, row, 0);
        assert(row_bound(0) == 16384) by {
            reveal_with_fuel(row_bound, 8);
        }
    }
}

proof fn lemma_bounds(col: int, row: int)
    requires
        0 <= col <= 7,
        0 <= row <= 6,
    ensures
        1 <= row_bound(col) <= 16384,
        1 <= rows_bound(row) <= 0x1000000000000000000000,
    decreases 7 - col + 6 - row,
{
    reveal_with_fuel(row_bound, 8);
    reveal_with_fuel(rows_bound, 7);
}

/// Keys fit in 84 bits.
pub proof fn lemma_key_bound(b: Board)
    ensures
        0 <= rows_key(b, 0) < 0x1000000000000000000000,
{
    lemma_rows_key(b, b, 0);
    assert(rows_bound(0) == 0x1000000000000000000000) by {
        reveal_with_fuel(rows_bound, 7);
    }
}

/// Distinct boards have distinct keys.
pub proof fn lemma_key_injective(b1: Board, b2: Board)
    ensures
        key_of(b1) == key_of(b2) <==> b1 == b2,
{
    lemma_key_bound(b1);
    lemma_key_bound(b2);
    lemma_rows_key(b1, b2, 0);
    if key_of(b1) == key_of(b2) {
        assert forall|i: int| 0 <= i < 6 implies b1.tiles[i] == b2.tiles[i] by {
            assert forall|j: int| 0 <= j < 7 implies b1.tiles[i][j] == b2.tiles[i][j] by {
                assert(tile(b1, i, j) == tile(b2, i, j));
            }
            assert(b1.tiles[i] =~= b2.tiles[i]);
        }
        assert(b1.tiles =~= b2.tiles);
    }
}

/// The key of a board.
pub fn board_key(b: &Board) -> (r: u128)
    ensures
        r == key_of(*b),
{
    proof {
        lemma_key_bound(*b);
    }
    let mut key: u128 = 0;
    let mut row: usize = 6;
    while row > 0
        invariant
            row <= 6,
            key == rows_key(*b, row as int),
            0 <= rows_key(*b, row as int) < rows_bound(row as int),
        decreases row,
    {
        row = row - 1;
        let mut digits: u128 = 0;
        let mut col: usize = 7;
        proof {
            lemma_rows_key(*b, *b, row as int);
        }
        while col > 0
            invariant
                row < 6,
                col <= 7,
                digits == row_key(*b, row as int, col as int),
                0 <= row_key(*b, row as int, col as int) < row_bound(col as int),
            decreases col,
        {
            col = col - 1;
            proof {
                lemma_row_key(*b, *b, row as int, col as int);
                lemma_bounds(col as int, 0);
            }
            let c: u128 = match b.tiles[row][col] {
                Tile::Empty => 0,
                Tile::Piece(Player::Red) => 1,
                Tile::Piece(Player::Yellow) => 2,
            };
            digits = c + 4 * digits;
        }
        proof {
            lemma_bounds(0, row as int);
            lemma_row_key(*b, *b, row as int, 0);
        }
        key = digits + 16384 * key;
    }
    key
}

/// The value that the table holds for `b`, if any.
pub open spec fn lookup(t: Map<u128, i32>, b: Board) -> Option<i32> {
    if t.contains_key(key_of(b)) { Some(t[key_of(b)]) } else { None }
}

/// The better of two values for the side that moves: the larger for Red,
/// the smaller for Yellow.
pub open spec fn better(red: bool, a: i32, v: i32) -> i32 {
    if red { if a >= v { a } else { v } } else { if a <= v { a } else { v } }
}

/// The best value among the first `n` boards of `cs` that the table holds.
pub open spec fn best_known(t: Map<u128, i32>, cs: Seq<Board>, n: int, red: bool) -> Option<i32>
    decreases n,
{
    if n <= 0 {
        None
    } else {
        let prev = best_known(t, cs, n - 1, red);
        match lookup(t, cs[n - 1]) {
            Some(v) => match prev {
                Some(a) => Some(better(red, a, v)),
                None => Some(v),
            },
            None => prev,
        }
    }
}

/// The best value, for the side to move, among the children of `b` that the
/// table holds; `None` when it holds none of them.
pub open spec fn known_children_value(t: Map<u128, i32>, b: Board) -> Option<i32> {
    best_known(t, children(b), children(b).len() as int, next_mover(b) == Some(Player::Red))
}

/// The value that `b` should have in the table: the best of its known
/// children, or its own score while none of them is known.
pub open spec fn expected_value(t: Map<u128, i32>, b: Board) -> int {
    match known_children_value(t, b) {
        Some(v) => v as int,
        None => score_of(b),
    }
}

/// The table's value for `b` agrees with its known children.
pub open spec fn consistent_at(t: Map<u128, i32>, b: Board) -> bool {
    t.contains_key(key_of(b)) && t[key_of(b)] == expected_value(t, b)
}

/// The column recommended from `b` for value `v`: the lowest column from
/// `col` on whose child the table holds with value `v`, or -1.
pub open spec fn recommended_from(t: Map<u128, i32>, b: Board, v: i32, col: int) -> int
    decreases 7 - col,
{
    if col >= 7 || col < 0 {
        -1
    } else if play_result(b, col, next_mover(b)->0) is Ok && lookup(t, play_result(b, col, next_mover(b)->0)->Ok_0)
        == Some(v) {
        col
    } else {
        recommended_from(t, b, v, col + 1)
    }
}

/// What is reported of a root: its value, `None` until it is evaluated, and
/// the column recommended there, -1 while there is none.
#[derive(Clone, Copy, PartialEq, Eq, Structural, Debug)]
pub struct RootReport {
    pub score: Option<i32>,
    pub column: i32,
}

/// The report for `root`: no value and no column until the table holds it.
pub open spec fn report_of(t: Map<u128, i32>, root: Board) -> RootReport {
    match lookup(t, root) {
        Some(v) => RootReport { score: Some(v), column: recommended_from(t, root, v, 0) as i32 },
        None => RootReport { score: None, column: -1i32 },
    }
}

proof fn lemma_best_known_frame(t: Map<u128, i32>, cs: Seq<Board>, n: int, red: bool, x: Board, v: i32)
    requires
        0 <= n <= cs.len(),
        forall|i: int| 0 <= i < n ==> cs[i] != x,
    ensures
        best_known(t.insert(key_of(x), v), cs, n, red) == best_known(t, cs, n, red),
    decreases n,
{
    if n > 0 {
        lemma_best_known_frame(t, cs, n - 1, red, x, v);
        lemma_key_injective(cs[n - 1], x);
    }
}

/// Writing a value for `x` leaves the expected value of every board that
/// does not lead to `x` as it was.
pub proof fn lemma_expected_frame(t: Map<u128, i32>, b: Board, x: Board, v: i32)
    requires
        turn_defined(b),
        !is_parent(b, x),
    ensures
        expected_value(t.insert(key_of(x), v), b) == expected_value(t, b),
{
    lemma_children_are_moves(b, x);
    let cs = children(b);
    assert forall|i: int| 0 <= i < cs.len() implies cs[i] != x by {
        assert(cs.contains(cs[i]));
    }
    lemma_best_known_frame(t, cs, cs.len() as int, next_mover(b) == Some(Player::Red), x, v);
}

/// Writing a value for another board `x` that `b` does not lead to leaves
/// `b` consistent or not as it was.
pub proof fn lemma_consistent_frame(t: Map<u128, i32>, b: Board, x: Board, v: i32)
    requires
        turn_defined(b),
        !is_parent(b, x),
        b != x,
    ensures
        consistent_at(t.insert(key_of(x), v), b) == consistent_at(t, b),
{
    lemma_expected_frame(t, b, x, v);
    lemma_key_injective(b, x);
}

/// No board leads to itself.
pub proof fn lemma_not_own_parent(b: Board)
    ensures
        !is_parent(b, b),
{
    if is_parent(b, b) {
        let col = choose|col: int| 0 <= col < 7 && crate::board::is_parent_via(b, b, col);
        lemma_undo_move(b, b, col);
    }
}

/// A known child makes the best known value of its parent defined.
proof fn lemma_best_known_some(t: Map<u128, i32>, cs: Seq<Board>, n: int, red: bool, j: int)
    requires
        0 <= j < n <= cs.len(),
        t.contains_key(key_of(cs[j])),
    ensures
        best_known(t, cs, n, red) is Some,
    decreases n,
{
    if j < n - 1 {
        lemma_best_known_some(t, cs, n - 1, red, j);
    }
}

/// Every child of a legal board is legal.
pub proof fn lemma_children_parity(b: Board)
    requires
        parity_ok(b),
    ensures
        forall|i: int| 0 <= i < children(b).len() ==> parity_ok(#[trigger] children(b)[i]),
{
    assert forall|i: int| 0 <= i < children(b).len() implies parity_ok(#[trigger] children(b)[i]) by {
        let c = children(b)[i];
        lemma_children_are_moves(b, c);
        assert(children(b).contains(c));
        let col = choose|col: int| 0 <= col < 7 && crate::board::is_parent_via(b, c, col);
        lemma_play_keeps_parity(b, col, next_mover(b)->0);
    }
}

/// The larger of two values for Red, the smaller for Yellow.
pub open spec fn pick(red: bool, a: int, v: int) -> int {
    if red { if a >= v { a } else { v } } else { if a <= v { a } else { v } }
}

/// The minimax value of `b` looking `d` moves ahead: the score where the
/// game ends or the horizon is reached, else the best value among the
/// children for the side to move.
pub open spec fn minimax(b: Board, d: int) -> int
    decreases d, 0int,
{
    if d <= 0 || children(b).len() == 0 {
        score_of(b)
    } else {
        best_minimax(children(b), children(b).len() as int, next_mover(b) == Some(Player::Red), d - 1)
    }
}

/// The best minimax value among the first `n` boards of `cs`.
pub open spec fn best_minimax(cs: Seq<Board>, n: int, red: bool, d: int) -> int
    decreases d, n + 1,
{
    if n <= 0 {
        0
    } else if n == 1 {
        minimax(cs[0], d)
    } else {
        pick(red, best_minimax(cs, n - 1, red, d), minimax(cs[n - 1], d))
    }
}

/// The table holds `b` and every board reachable from it, and every game
/// from `b` ends within `d` moves.
pub open spec fn fully_known(t: Map<u128, i32>, b: Board, d: int) -> bool
    decreases d,
{
    &&& t.contains_key(key_of(b))
    &&& children(b).len() > 0 ==> d > 0 && forall|i: int|
        0 <= i < children(b).len() ==> fully_known(t, #[trigger] children(b)[i], d - 1)
}

proof fn lemma_best_known_exact(t: Map<u128, i32>, cs: Seq<Board>, n: int, red: bool, d: int)
    requires
        1 <= n <= cs.len(),
        forall|i: int| 0 <= i < n ==> t.contains_key(key_of(#[trigger] cs[i])) && t[key_of(cs[i])] == minimax(cs[i], d),
    ensures
        best_known(t, cs, n, red) == Some(best_minimax(cs, n, red, d) as i32),
        best_minimax(cs, n, red, d) == best_known(t, cs, n, red)->0 as int,
    decreases n,
{
    if n > 1 {
        lemma_best_known_exact(t, cs, n - 1, red, d);
    } else {
        reveal_with_fuel(best_known, 2);
    }
}

/// The analysis engine: a table of values for the boards seen so far, the
/// boards waiting for their first evaluation in breadth-first order, and the
/// position currently on the board.
pub struct Analysis {
    table: HashMap<u128, i32>,
    frontier: VecDeque<Board>,
    root: Board,
    stored: Ghost<Map<u128, Board>>,
}

impl Analysis {
    /// The table's contents.
    pub closed spec fn values(&self) -> Map<u128, i32> {
        self.table@
    }

    /// The boards waiting for evaluation, first in line first.
    pub closed spec fn pending(&self) -> Seq<Board> {
        self.frontier@
    }

    /// The current position.
    pub closed spec fn root_board(&self) -> Board {
        self.root
    }

    /// The board stored under each key of the table.
    pub closed spec fn boards(&self) -> Map<u128, Board> {
        self.stored@
    }

    /// The engine's invariant: each key is the key of its board, every board
    /// is legal, and every stored value agrees with the known children.
    pub open spec fn wf(&self) -> bool {
        &&& self.well_keyed()
        &&& forall|k: u128| #[trigger] self.boards().contains_key(k) ==> consistent_at(self.values(), self.boards()[k])
    }

    /// The invariant without the agreement of values: each key is the key of
    /// its board, and every board is legal.
    pub open spec fn well_keyed(&self) -> bool {
        &&& self.values().dom() == self.boards().dom()
        &&& forall|k: u128| #[trigger] self.boards().contains_key(k) ==> key_of(self.boards()[k]) == k
            && parity_ok(self.boards()[k])
        &&& forall|i: int| 0 <= i < self.pending().len() ==> parity_ok(#[trigger] self.pending()[i])
        &&& parity_ok(self.root_board())
    }

    /// Starts an analysis of `root` with an empty table.
    pub fn new(root: Board) -> (r: Analysis)
        requires
            parity_ok(root),
        ensures
            r.wf(),
            r.values() == Map::<u128, i32>::empty(),
            r.pending() == seq![root],
            r.root_board() == root,
    {
        let mut frontier: VecDeque<Board> = VecDeque::new();
        frontier.push_back(root);
        let r = Analysis { table: HashMap::new(), frontier, root, stored: Ghost(Map::empty()) };
        assert(r.frontier@ =~= seq![root]);
        r
    }

    /// The number of boards evaluated so far.
    pub fn node_count(&self) -> (r: usize)
        ensures
            r == self.values().len(),
    {
        self.table.len()
    }

    /// The current position.
    pub fn root(&self) -> (r: &Board)
        ensures
            *r == self.root_board(),
    {
        &self.root
    }

    /// The table's value for `b`, if it has been evaluated.
    pub fn value_of(&self, b: &Board) -> (r: Option<i32>)
        ensures
            r == lookup(self.values(), *b),
    {
        let k = board_key(b);
        match self.table.get(&k) {
            Some(v) => Some(*v),
            None => None,
        }
    }

    /// The best value among the children of `b` that the table holds.
    fn best_known_child(&self, b: &Board) -> (r: Option<i32>)
        requires
            turn_defined(*b),
        ensures
            r == known_children_value(self.values(), *b),
    {
        let red = b.next_to_move() == Some(Player::Red);
        let kids = b.next_boards();
        let mut best: Option<i32> = None;
        let mut i: usize = 0;
        while i < kids.len()
            invariant
                i <= kids@.len(),
                kids@ == children(*b),
                red == (next_mover(*b) == Some(Player::Red)),
                best == best_known(self.values(), kids@, i as int, red),
            decreases kids@.len() - i,
        {
            match self.value_of(&kids[i]) {
                Some(v) => {
                    best = match best {
                        Some(a) => Some(
                            if red {
                                if a >= v { a } else { v }
                            } else {
                                if a <= v { a } else { v }
                            },
                        ),
                        None => Some(v),
                    };
                },
                None => {},
            }
            i = i + 1;
        }
        best
    }

    /// Every stored value is the best value among the board's known
    /// children for the side to move, or the board's own score while none
    /// of them is known.
    pub proof fn lemma_values_agree(&self, b: Board)
        requires
            self.wf(),
            self.values().contains_key(key_of(b)),
        ensures
            self.values()[key_of(b)] == expected_value(self.values(), b),
    {
        let k = key_of(b);
        assert(self.boards().contains_key(k));
        lemma_key_injective(self.boards()[k], b);
    }

    /// Once the table holds a board and everything reachable from it, its
    /// value is the exact minimax value of that subtree.
    pub proof fn lemma_known_subtree_exact(&self, b: Board, d: int)
        requires
            self.wf(),
            fully_known(self.values(), b, d),
        ensures
            self.values()[key_of(b)] == minimax(b, d),
        decreases d,
    {
        let t = self.values();
        let k = key_of(b);
        assert(self.boards().contains_key(k));
        lemma_key_injective(self.boards()[k], b);
        let cs = children(b);
        if cs.len() > 0 {
            assert forall|i: int| 0 <= i < cs.len() implies t.contains_key(key_of(#[trigger] cs[i]))
                && t[key_of(cs[i])] == minimax(cs[i], d - 1) by {
                self.lemma_known_subtree_exact(cs[i], d - 1);
            }
            lemma_best_known_exact(t, cs, cs.len() as int, next_mover(b) == Some(Player::Red), d - 1);
        }
    }

    /// Makes `root` the current position: the waiting boards are dropped
    /// and `root` alone waits; the table is kept as it is. Returns the
    /// report for the new root.
    pub fn set_root(&mut self, root: Board) -> (r: RootReport)
        requires
            old(self).wf(),
            parity_ok(root),
        ensures
            final(self).wf(),
            final(self).values() == old(self).values(),
            final(self).boards() == old(self).boards(),
            final(self).root_board() == root,
            final(self).pending() == seq![root],
            r == report_of(final(self).values(), root),
    {
        self.root = root;
        let mut frontier: VecDeque<Board> = VecDeque::new();
        frontier.push_back(root);
        self.frontier = frontier;
        assert(self.frontier@ =~= seq![root]);
        self.root_report()
    }

    /// Evaluates the first waiting board. A board not in the table yet gets
    /// the best value among its known children, or its own score while none
    /// is known, and propagation runs from it; a board already in the table
    /// is left as it is. Unless the board is won, its children join the end
    /// of the line. Returns the root's report when the root's value changed.
    pub fn step(&mut self) -> (r: Option<RootReport>)
        requires
            old(self).wf(),
        ensures
            final(self).wf(),
            final(self).root_board() == old(self).root_board(),
            forall|k: u128| old(self).values().contains_key(k) ==> #[trigger] final(self).values().contains_key(k),
            old(self).pending().len() == 0 ==> final(self).values() == old(self).values()
                && final(self).pending() == old(self).pending(),
            old(self).pending().len() > 0 ==> {
                let b = old(self).pending()[0];
                &&& final(self).values().contains_key(key_of(b))
                &&& lookup(old(self).values(), b) is Some ==> final(self).values() == old(self).values()
                &&& lookup(old(self).values(), b) is None ==> final(self).values().dom()
                    == old(self).values().dom().insert(key_of(b))
                &&& final(self).pending() == old(self).pending().drop_first() + if winner_of(b) is None {
                    children(b)
                } else {
                    Seq::empty()
                }
            },
            r == if lookup(final(self).values(), final(self).root_board()) != lookup(
                old(self).values(),
                old(self).root_board(),
            ) {
                Some(report_of(final(self).values(), final(self).root_board()))
            } else {
                None
            },
    {
        let before = self.value_of(&self.root);
        let b = match self.frontier.pop_front() {
            Some(b) => b,
            None => {
                return None;
            },
        };
        let ghost t0 = self.table@;
        let ghost s0 = self.stored@;
        let ghost q0 = self.frontier@;
        assert(parity_ok(b)) by {
            assert(parity_ok(old(self).pending()[0]));
        }
        let k = board_key(&b);
        if !self.table.contains_key(&k) {
            let v = match self.best_known_child(&b) {
                Some(v) => v,
                None => b.get_score(),
            };
            self.table.insert(k, v);
            self.stored = Ghost(s0.insert(k, b));
            proof {
                lemma_not_own_parent(b);
                lemma_expected_frame(t0, b, b, v);
                assert(self.table@.dom() =~= self.stored@.dom());
                assert forall|k2: u128| #[trigger] self.boards().contains_key(k2) implies
                    consistent_at(self.values(), self.boards()[k2]) || is_parent(self.boards()[k2], b) by {
                    if k2 != k {
                        let b2 = s0[k2];
                        lemma_key_injective(b2, b);
                        if !is_parent(b2, b) {
                            lemma_consistent_frame(t0, b2, b, v);
                        }
                    }
                }
            }
            self.update_parents(&b);
        }
        let ghost t1 = self.table@;
        let ghost s1 = self.stored@;
        if b.winner().is_none() {
            let kids = b.next_boards();
            proof {
                lemma_children_parity(b);
            }
            let mut i: usize = 0;
            while i < kids.len()
                invariant
                    i <= kids@.len(),
                    kids@ == children(b),
                    forall|j: int| 0 <= j < kids@.len() ==> parity_ok(#[trigger] kids@[j]),
                    self.frontier@ == q0 + kids@.take(i as int),
                    self.table@ == t1,
                    self.stored@ == s1,
                    s1.dom() == t1.dom(),
                    forall|k2: u128| #[trigger] s1.contains_key(k2) ==> key_of(s1[k2]) == k2
                        && parity_ok(s1[k2]) && consistent_at(t1, s1[k2]),
                    forall|j: int| 0 <= j < q0.len() ==> parity_ok(#[trigger] q0[j]),
                    parity_ok(self.root_board()),
                    self.root_board() == old(self).root_board(),
                decreases kids@.len() - i,
            {
                self.frontier.push_back(kids[i]);
                i = i + 1;
                assert(self.frontier@ =~= q0 + kids@.take(i as int));
            }
            assert(kids@.take(kids@.len() as int) =~= kids@);
        } else {
            assert(q0 =~= q0 + Seq::<Board>::empty());
        }
        let after = self.value_of(&self.root);
        if after != before {
            Some(self.root_report())
        } else {
            None
        }
    }

    /// Retrograde propagation from `x`, whose value has just been written,
    /// when every stored board agrees with its known children except those
    /// that lead to `x`: afterwards every stored board agrees. Only boards
    /// with fewer pieces than `x` change value, and no key is added.
    pub fn update_parents(&mut self, x: &Board)
        requires
            old(self).well_keyed(),
            old(self).values().contains_key(key_of(*x)),
            parity_ok(*x),
            forall|k: u128| #[trigger]
                old(self).boards().contains_key(k) ==> consistent_at(old(self).values(), old(self).boards()[k])
                    || is_parent(old(self).boards()[k], *x),
        ensures
            final(self).wf(),
            final(self).boards() == old(self).boards(),
            final(self).values().dom() == old(self).values().dom(),
            final(self).pending() == old(self).pending(),
            final(self).root_board() == old(self).root_board(),
            forall|k: u128| #[trigger]
                final(self).boards().contains_key(k) && pieces(final(self).boards()[k]) >= pieces(*x)
                    ==> final(self).values()[k] == old(self).values()[k],
    {
        self.propagate(x, Ghost(Set::empty()));
    }

    /// Retrograde propagation from `x`, whose value has just been written:
    /// each stored board that leads to `x` gets the best value among its
    /// known children, and where that changes its value, propagation goes
    /// on from it. Boards in `dirty` may be left out of agreement; they all
    /// hold at least as many pieces as `x`. Propagation does not stop at the
    /// current root: the positions played before it keep values that agree
    /// with their children, so going back to one of them finds it current.
    fn propagate(&mut self, x: &Board, Ghost(dirty): Ghost<Set<Board>>)
        requires
            old(self).well_keyed(),
            old(self).values().contains_key(key_of(*x)),
            parity_ok(*x),
            forall|k: u128| #[trigger]
                old(self).boards().contains_key(k) ==> consistent_at(old(self).values(), old(self).boards()[k])
                    || is_parent(old(self).boards()[k], *x) || dirty.contains(old(self).boards()[k]),
            forall|d: Board| #[trigger] dirty.contains(d) ==> pieces(d) >= pieces(*x),
        ensures
            final(self).well_keyed(),
            final(self).boards() == old(self).boards(),
            final(self).values().dom() == old(self).values().dom(),
            final(self).pending() == old(self).pending(),
            final(self).root_board() == old(self).root_board(),
            forall|k: u128| #[trigger]
                final(self).boards().contains_key(k) ==> consistent_at(final(self).values(), final(self).boards()[k])
                    || dirty.contains(final(self).boards()[k]),
            forall|k: u128| #[trigger]
                final(self).boards().contains_key(k) && pieces(final(self).boards()[k]) >= pieces(*x)
                    ==> final(self).values()[k] == old(self).values()[k],
        decreases pieces(*x),
    {
        let parents = x.prev_boards();
        let ghost t0 = self.table@;
        let ghost stored = self.stored@;
        let mut i: usize = 0;
        while i < parents.len()
            invariant
                self.well_keyed(),
                self.boards() == stored,
                self.values().dom() == t0.dom(),
                self.pending() == old(self).pending(),
                self.root_board() == old(self).root_board(),
                stored == old(self).boards(),
                t0 == old(self).values(),
                t0.contains_key(key_of(*x)),
                parity_ok(*x),
                i <= parents@.len(),
                forall|j: int| 0 <= j < parents@.len() ==> is_parent(#[trigger] parents@[j], *x),
                forall|d: Board| #[trigger] dirty.contains(d) ==> pieces(d) >= pieces(*x),
                forall|k: u128| #[trigger]
                    stored.contains_key(k) ==> consistent_at(self.values(), stored[k]) || dirty.contains(stored[k])
                        || exists|j: int| i <= j < parents@.len() && parents@[j] == stored[k],
                forall|k: u128| #[trigger]
                    stored.contains_key(k) && pieces(stored[k]) >= pieces(*x) ==> self.values()[k] == t0[k],
            decreases parents@.len() - i,
        {
            let p = parents[i];
            let kp = board_key(&p);
            proof {
                let col = choose|col: int| 0 <= col < 7 && crate::board::is_parent_via(p, *x, col);
                lemma_undo_move(p, *x, col);
                crate::board::lemma_count_bounds(p);
            }
            if self.table.contains_key(&kp) {
                proof {
                    lemma_key_injective(stored[kp], p);
                    lemma_children_are_moves(p, *x);
                    let j = choose|j: int| 0 <= j < children(p).len() && children(p)[j] == *x;
                    lemma_best_known_some(self.values(), children(p), children(p).len() as int,
                        next_mover(p) == Some(Player::Red), j);
                }
                let best = self.best_known_child(&p);
                let current = self.value_of(&p);
                if let Some(v) = best {
                    if current != Some(v) {
                        let ghost t1 = self.table@;
                        self.table.insert(kp, v);
                        let ghost dirty2 = Set::new(
                            |b: Board| dirty.contains(b) || exists|j: int| i < j < parents@.len() && parents@[j] == b,
                        );
                        proof {
                            assert(self.table@ == t1.insert(key_of(p), v));
                            assert(self.table@.dom() =~= t1.dom());
                            lemma_not_own_parent(p);
                            lemma_expected_frame(t1, p, p, v);
                            assert forall|k: u128| #[trigger] self.boards().contains_key(k) implies
                                consistent_at(self.values(), self.boards()[k]) || is_parent(self.boards()[k], p)
                                    || dirty2.contains(self.boards()[k]) by {
                                let b = stored[k];
                                if b != p && !is_parent(b, p) {
                                    lemma_consistent_frame(t1, b, p, v);
                                    if !consistent_at(t1, b) && !dirty.contains(b) {
                                        let j = choose|j: int| i <= j < parents@.len() && parents@[j] == b;
                                        assert(j != i);
                                        assert(dirty2.contains(b));
                                    }
                                }
                            }
                            assert forall|d: Board| #[trigger] dirty2.contains(d) implies pieces(d) >= pieces(p) by {
                                if !dirty.contains(d) {
                                    let j = choose|j: int| i < j < parents@.len() && parents@[j] == d;
                                    let col = choose|col: int| 0 <= col < 7 && crate::board::is_parent_via(d, *x, col);
                                    lemma_undo_move(d, *x, col);
                                }
                            }
                        }
                        self.propagate(&p, Ghost(dirty2));
                        proof {
                            assert forall|k: u128| #[trigger] stored.contains_key(k) implies
                                consistent_at(self.values(), stored[k]) || dirty.contains(stored[k])
                                    || exists|j: int| i + 1 <= j < parents@.len() && parents@[j] == stored[k] by {
                                if dirty2.contains(stored[k]) && !dirty.contains(stored[k]) {
                                    let j = choose|j: int| i < j < parents@.len() && parents@[j] == stored[k];
                                    assert(i + 1 <= j < parents@.len() && parents@[j] == stored[k]);
                                }
                            }
                        }
                    } else {
                        proof {
                            assert forall|k: u128| #[trigger] stored.contains_key(k) implies
                                consistent_at(self.values(), stored[k]) || dirty.contains(stored[k])
                                    || exists|j: int| i + 1 <= j < parents@.len() && parents@[j] == stored[k] by {
                                if !consistent_at(self.values(), stored[k]) && !dirty.contains(stored[k]) {
                                    let j = choose|j: int| i <= j < parents@.len() && parents@[j] == stored[k];
                                    assert(j != i);
                                }
                            }
                        }
                    }
                }
            } else {
                proof {
                    assert forall|k: u128| #[trigger] stored.contains_key(k) implies
                        consistent_at(self.values(), stored[k]) || dirty.contains(stored[k])
                            || exists|j: int| i + 1 <= j < parents@.len() && parents@[j] == stored[k] by {
                        if !consistent_at(self.values(), stored[k]) && !dirty.contains(stored[k]) {
                            let j = choose|j: int| i <= j < parents@.len() && parents@[j] == stored[k];
                            assert(j != i);
                        }
                    }
                }
            }
            i = i + 1;
        }
    }

    /// The root's value and recommended column: the lowest column whose
    /// child the table holds with the root's value, or -1; no value and -1
    /// while the table does not hold the root.
    pub fn root_report(&self) -> (r: RootReport)
        requires
            self.wf(),
        ensures
            r == report_of(self.values(), self.root_board()),
    {
        let v = match self.value_of(&self.root) {
            Some(v) => v,
            None => {
                return RootReport { score: None, column: -1 };
            },
        };
        let mover = self.root.next_to_move();
        let mut column: i32 = -1;
        if let Some(player) = mover {
            let mut col: i32 = 7;
            while col > 0
                invariant
                    0 <= col <= 7,
                    parity_ok(self.root_board()),
                    next_mover(self.root_board()) == Some(player),
                    column == recommended_from(self.values(), self.root_board(), v, col as int),
                    -1 <= column < 7,
                decreases col,
            {
                col = col - 1;
                if let Ok(child) = self.root.play(col, player) {
                    if self.value_of(&child) == Some(v) {
                        column = col;
                    }
                }
            }
        } else {
            proof {
                reveal_with_fuel(recommended_from, 8);
            }
        }
        RootReport { score: Some(v), column }
    }
}

} // verus!
