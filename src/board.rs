use crate::player::{symbol_chars, Player};
use crate::server::game_query::GameQuery;
use crate::size::{dimension, is_valid_dimension, Size};
use vstd::arithmetic::div_mod::lemma_fundamental_div_mod_converse;
use vstd::prelude::*;
use vstd::string::StringExecFns;

verus! {

/// A cell of the board, as (row, column).
pub type Position = (usize, usize);

/// A player's mark at a position.
#[derive(Clone, Copy, PartialEq, Eq, Debug)]
pub struct Move {
    pub player: Player,
    pub position: Position,
}

/// What a board's state says of the game.
#[derive(Clone, Copy, PartialEq, Eq, Structural, Debug)]
pub enum GameResult {
    Won(Player),
    Tie,
    Pending,
}

/// Why a move could not be placed, or a board could not be built.
#[derive(Clone, Copy, PartialEq, Eq, Structural, Debug)]
pub enum BoardError {
    OutOfBounds,
    CellOccupied,
    UnsupportedSize,
}

/// A square grid of cells, each empty or holding one player's mark.
/// Cell (row, col) is stored at index `row * size + col`.
#[derive(Clone, Debug)]
pub struct Board {
    pub cells: Vec<Option<Player>>,
    pub size: usize,
}

impl View for Board {
    type V = Seq<Option<Player>>;

    open spec fn view(&self) -> Seq<Option<Player>> {
        self.cells@
    }
}

/// The number of marks in a row that wins on a board of dimension `n`.
pub open spec fn win_length(n: int) -> int {
    if n == 3 {
        3
    } else {
        4
    }
}

/// Where cell (row, col) is stored on a board of dimension `n`.
pub open spec fn cell_index(n: int, row: int, col: int) -> int {
    row * n + col
}

pub open spec fn in_grid(n: int, row: int, col: int) -> bool {
    0 <= row < n && 0 <= col < n
}

/// The row of the `i`-th cell of a run that starts at row `r` in direction `d`.
/// Directions: 0 along a row, 1 down a column, 2 down and to the right,
/// 3 down and to the left.
pub open spec fn step_row(r: int, d: int, i: int) -> int {
    if d == 0 {
        r
    } else {
        r + i
    }
}

/// The column of the `i`-th cell of a run that starts at column `c` in direction `d`.
pub open spec fn step_col(c: int, d: int, i: int) -> int {
    if d == 1 {
        c
    } else if d == 3 {
        c - i
    } else {
        c + i
    }
}

/// A run of `k` cells from (r, c) in direction `d` lies inside the grid.
pub open spec fn run_fits(n: int, k: int, r: int, c: int, d: int) -> bool {
    &&& 0 <= d < 4
    &&& in_grid(n, r, c)
    &&& in_grid(n, step_row(r, d, k - 1), step_col(c, d, k - 1))
}

/// All `k` cells of the run from (r, c) in direction `d` hold `p`'s mark.
pub open spec fn run_of(
    cells: Seq<Option<Player>>,
    n: int,
    k: int,
    r: int,
    c: int,
    d: int,
    p: Player,
) -> bool {
    &&& run_fits(n, k, r, c, d)
    &&& forall|i: int|
        0 <= i < k ==> #[trigger] cells[cell_index(n, step_row(r, d, i), step_col(c, d, i))]
            == Some(p)
}

/// Player `p` has a winning run somewhere on the board.
pub open spec fn has_line(cells: Seq<Option<Player>>, n: int, p: Player) -> bool {
    exists|r: int, c: int, d: int| #[trigger] run_of(cells, n, win_length(n), r, c, d, p)
}

pub open spec fn is_full(cells: Seq<Option<Player>>) -> bool {
    forall|i: int| 0 <= i < cells.len() ==> (#[trigger] cells[i]) is Some
}

pub open spec fn is_blank(cells: Seq<Option<Player>>) -> bool {
    forall|i: int| 0 <= i < cells.len() ==> (#[trigger] cells[i]) is None
}

/// The outcome of a board: a win (X's runs are looked at first), else a tie
/// when every cell is taken, else the game goes on.
pub open spec fn outcome(cells: Seq<Option<Player>>, n: int) -> GameResult {
    if has_line(cells, n, Player::X) {
        GameResult::Won(Player::X)
    } else if has_line(cells, n, Player::O) {
        GameResult::Won(Player::O)
    } else if is_full(cells) {
        GameResult::Tie
    } else {
        GameResult::Pending
    }
}

/// A grid of `len` empty cells.
pub open spec fn empty_cells(len: int) -> Seq<Option<Player>> {
    Seq::new(len as nat, |i: int| None)
}

/// The number of occupied cells among the first `i`.
pub open spec fn occupied_upto(cells: Seq<Option<Player>>, i: int) -> nat
    decreases i,
{
    if i <= 0 {
        0
    } else {
        occupied_upto(cells, i - 1) + if cells[i - 1] is Some {
            1nat
        } else {
            0nat
        }
    }
}

pub open spec fn occupied_count(cells: Seq<Option<Player>>) -> nat {
    occupied_upto(cells, cells.len() as int)
}

/// The empty positions among the first `i` cells, in row-major order.
pub open spec fn empties_upto(cells: Seq<Option<Player>>, n: int, i: int) -> Seq<Position>
    decreases i,
{
    if i <= 0 {
        seq![]
    } else if cells[i - 1] is None {
        empties_upto(cells, n, i - 1).push((((i - 1) / n) as usize, ((i - 1) % n) as usize))
    } else {
        empties_upto(cells, n, i - 1)
    }
}

/// All empty positions of a board of dimension `n`, in row-major order.
pub open spec fn empties(cells: Seq<Option<Player>>, n: int) -> Seq<Position> {
    empties_upto(cells, n, n * n)
}

/// The cells after `player` moves to `position`, or why the move is refused.
pub open spec fn placed(
    cells: Seq<Option<Player>>,
    n: int,
    player: Player,
    position: Position,
) -> Result<Seq<Option<Player>>, BoardError> {
    if position.0 >= n || position.1 >= n {
        Err(BoardError::OutOfBounds)
    } else if cells[cell_index(n, position.0 as int, position.1 as int)] is Some {
        Err(BoardError::CellOccupied)
    } else {
        Ok(cells.update(cell_index(n, position.0 as int, position.1 as int), Some(player)))
    }
}

/// The cells after replaying `moves` in order on an empty board of dimension
/// `n`, or the first refusal.
pub open spec fn replay(n: int, moves: Seq<Move>) -> Result<Seq<Option<Player>>, BoardError>
    decreases moves.len(),
{
    if moves.len() == 0 {
        Ok(empty_cells(n * n))
    } else {
        match replay(n, moves.drop_last()) {
            Ok(cells) => placed(cells, n, moves.last().player, moves.last().position),
            Err(e) => Err(e),
        }
    }
}

proof fn lemma_index_in_grid(n: int, row: int, col: int)
    requires
        in_grid(n, row, col),
        is_valid_dimension(n),
    ensures
        0 <= row * n <= cell_index(n, row, col) < n * n <= 49,
{
    assert(row * n + col < n * n) by (nonlinear_arith)
        requires
            0 <= row < n,
            0 <= col < n,
    ;
    assert(row * n >= 0) by (nonlinear_arith)
        requires
            0 <= row,
            0 <= n,
    ;
}

proof fn lemma_position_of_index(n: int, row: int, col: int)
    requires
        in_grid(n, row, col),
    ensures
        cell_index(n, row, col) / n == row,
        cell_index(n, row, col) % n == col,
{
    lemma_fundamental_div_mod_converse(row * n + col, n, row, col);
}

/// Every listed empty position lies in the grid and names an empty cell.
pub proof fn lemma_empties_are_empty(cells: Seq<Option<Player>>, n: int, i: int, j: int)
    requires
        is_valid_dimension(n),
        0 <= i <= n * n,
        n * n <= cells.len(),
        0 <= j < empties_upto(cells, n, i).len(),
    ensures
        ({
            let p = empties_upto(cells, n, i)[j];
            &&& in_grid(n, p.0 as int, p.1 as int)
            &&& cells[cell_index(n, p.0 as int, p.1 as int)] is None
        }),
    decreases i,
{
    if i > 0 {
        let prev = empties_upto(cells, n, i - 1);
        if j < prev.len() {
            lemma_empties_are_empty(cells, n, i - 1, j);
        } else {
            let x = i - 1;
            let q = x / n;
            let r = x % n;
            assert(x == n * q + r && 0 <= r < n) by {
                vstd::arithmetic::div_mod::lemma_fundamental_div_mod(x, n);
                vstd::arithmetic::div_mod::lemma_mod_bound(x, n);
            }
            assert(0 <= q < n) by (nonlinear_arith)
                requires
                    x == n * q + r,
                    0 <= r < n,
                    0 <= x < n * n,
            ;
            assert(cell_index(n, q, r) == x) by (nonlinear_arith)
                requires
                    x == n * q + r,
            ;
            assert(empties_upto(cells, n, i)[j] == (q as usize, r as usize));
        }
    }
}

/// The count of occupied cells is at most the number of cells looked at.
proof fn lemma_occupied_bound(cells: Seq<Option<Player>>, i: int)
    requires
        0 <= i,
    ensures
        occupied_upto(cells, i) <= i,
    decreases i,
{
    if i > 0 {
        lemma_occupied_bound(cells, i - 1);
    }
}

/// Once a replay is refused, later moves leave the refusal as it is.
proof fn lemma_replay_refusal_stays(n: int, moves: Seq<Move>, i: int)
    requires
        0 <= i <= moves.len(),
        replay(n, moves.take(i)) is Err,
    ensures
        replay(n, moves) == replay(n, moves.take(i)),
    decreases moves.len(),
{
    if i == moves.len() {
        assert(moves.take(i) =~= moves);
    } else {
        assert(moves.drop_last().take(i) =~= moves.take(i));
        lemma_replay_refusal_stays(n, moves.drop_last(), i);
    }
}

/// How a cell is drawn: the player's symbol, or `.` when empty.
pub open spec fn glyph(cell: Option<Player>) -> Seq<char> {
    match cell {
        Some(p) => symbol_chars(p),
        None => seq!['.'],
    }
}

/// The drawing of the first `i` cells: one line of `n` glyphs per row.
pub open spec fn drawn_upto(cells: Seq<Option<Player>>, n: int, i: int) -> Seq<char>
    decreases i,
{
    if i <= 0 {
        seq![]
    } else {
        drawn_upto(cells, n, i - 1) + glyph(cells[i - 1]) + if i % n == 0 {
            seq!['\n']
        } else {
            seq![]
        }
    }
}

/// With no occupied cell among the first `i`, all of them are empty.
proof fn lemma_no_occupied_is_blank(cells: Seq<Option<Player>>, i: int)
    requires
        0 <= i <= cells.len(),
        occupied_upto(cells, i) == 0,
    ensures
        forall|j: int| 0 <= j < i ==> (#[trigger] cells[j]) is None,
    decreases i,
{
    if i > 0 {
        lemma_no_occupied_is_blank(cells, i - 1);
    }
}

/// On a board with no marks, the first `i` cells are all listed as empty
/// positions, in order.
proof fn lemma_blank_empties(cells: Seq<Option<Player>>, n: int, i: int)
    requires
        0 <= i <= cells.len(),
        forall|j: int| 0 <= j < i ==> (#[trigger] cells[j]) is None,
    ensures
        empties_upto(cells, n, i).len() == i,
        forall|x: int|
            0 <= x < i ==> #[trigger] empties_upto(cells, n, i)[x] == ((x / n) as usize, (x
                % n) as usize),
    decreases i,
{
    if i > 0 {
        lemma_blank_empties(cells, n, i - 1);
    }
}

/// Every position of a board that holds no mark is an empty position.
pub proof fn lemma_unplayed_board_empties(cells: Seq<Option<Player>>, n: int)
    requires
        is_valid_dimension(n),
        cells.len() == n * n,
        occupied_count(cells) == 0,
    ensures
        empties(cells, n).len() == n * n,
        forall|x: int|
            0 <= x < n * n ==> #[trigger] empties(cells, n)[x] == ((x / n) as usize, (x
                % n) as usize),
{
    lemma_no_occupied_is_blank(cells, cells.len() as int);
    lemma_blank_empties(cells, n, n * n);
}

/// The number of marks on a grid of `len` empty cells is zero.
proof fn lemma_empty_cells_unplayed(len: int, i: int)
    requires
        0 <= i <= len,
    ensures
        occupied_upto(empty_cells(len), i) == 0,
    decreases i,
{
    if i > 0 {
        lemma_empty_cells_unplayed(len, i - 1);
    }
}

/// A fresh board of any supported size has every position empty and its
/// game pending.
pub proof fn lemma_fresh_board(size: Size)
    ensures
        ({
            let n = dimension(size) as int;
            let cells = empty_cells(n * n);
            &&& empties(cells, n).len() == n * n
            &&& outcome(cells, n) == GameResult::Pending
        }),
{
    let n = dimension(size) as int;
    let cells = empty_cells(n * n);
    lemma_empty_cells_unplayed(n * n, n * n);
    lemma_unplayed_board_empties(cells, n);
    assert forall|p: Player| !has_line(cells, n, p) by {
        if has_line(cells, n, p) {
            let (r, c, d) = choose|r: int, c: int, d: int|
                #[trigger] run_of(cells, n, win_length(n), r, c, d, p);
            lemma_index_in_grid(n, r, c);
            assert(cells[cell_index(n, step_row(r, d, 0), step_col(c, d, 0))] == Some(p));
        }
    }
    assert(cells[0] is None);
}

/// The outcome depends on the board's cells and size alone: evaluating a board
/// again, or a board with the same cells and size, gives the same result.
pub proof fn lemma_result_is_stable(a: Board, b: Board)
    requires
        a@ == b@,
        a.size == b.size,
    ensures
        a.game_result() == b.game_result(),
{
}

impl Board {
    /// The board holds one cell per position of a grid of a supported size.
    pub open spec fn wf(&self) -> bool {
        &&& is_valid_dimension(self.size as int)
        &&& self@.len() == self.size * self.size
    }

    /// The outcome of the game on this board.
    pub open spec fn game_result(&self) -> GameResult {
        outcome(self@, self.size as int)
    }

    /// The mark at (row, col).
    pub open spec fn cell(&self, row: int, col: int) -> Option<Player> {
        self@[cell_index(self.size as int, row, col)]
    }

    /// An empty board of the given size.
    pub fn new(size: Size) -> (r: Board)
        ensures
            r.wf(),
            r.size == dimension(size),
            r@ == empty_cells(dimension(size) * dimension(size)),
    {
        let n = size.as_usize();
        let total = n * n;
        let mut cells: Vec<Option<Player>> = Vec::new();
        for i in 0..total
            invariant
                cells@ == empty_cells(i as int),
        {
            cells.push(None);
            assert(cells@ =~= empty_cells(i + 1));
        }
        Board { cells, size: n }
    }

    /// No cell holds a mark.
    pub fn is_empty(&self) -> (r: bool)
        ensures
            r == is_blank(self@),
    {
        let mut i: usize = 0;
        while i < self.cells.len()
            invariant
                i <= self@.len(),
                forall|j: int| 0 <= j < i ==> (#[trigger] self@[j]) is None,
            decreases self@.len() - i,
        {
            if self.cells[i].is_some() {
                return false;
            }
            i = i + 1;
        }
        true
    }

    /// Every cell holds a mark.
    fn is_filled(&self) -> (r: bool)
        ensures
            r == is_full(self@),
    {
        let mut i: usize = 0;
        while i < self.cells.len()
            invariant
                i <= self@.len(),
                forall|j: int| 0 <= j < i ==> (#[trigger] self@[j]) is Some,
            decreases self@.len() - i,
        {
            if self.cells[i].is_none() {
                return false;
            }
            i = i + 1;
        }
        true
    }

    /// How many cells hold a mark.
    pub fn number_of_moves(&self) -> (r: usize)
        ensures
            r == occupied_count(self@),
    {
        let mut count: usize = 0;
        let mut i: usize = 0;
        while i < self.cells.len()
            invariant
                i <= self@.len(),
                count == occupied_upto(self@, i as int),
            decreases self@.len() - i,
        {
            proof {
                lemma_occupied_bound(self@, i as int);
            }
            if self.cells[i].is_some() {
                count = count + 1;
            }
            i = i + 1;
        }
        count
    }

    /// The empty positions, in row-major order.
    pub fn empty_positions(&self) -> (r: Vec<Position>)
        requires
            self.wf(),
        ensures
            r@ == empties(self@, self.size as int),
    {
        let n = self.size;
        let mut positions: Vec<Position> = Vec::new();
        assert(0 * n == 0);
        for row in 0..n
            invariant
                self.wf(),
                n == self.size,
                row <= n,
                positions@ == empties_upto(self@, n as int, row * n),
        {
            for col in 0..n
                invariant
                    self.wf(),
                    n == self.size,
                    row < n,
                    positions@ == empties_upto(self@, n as int, row * n + col),
            {
                proof {
                    lemma_index_in_grid(n as int, row as int, col as int);
                    lemma_position_of_index(n as int, row as int, col as int);
                }
                let idx = row * n + col;
                if self.cells[idx].is_none() {
                    positions.push((row, col));
                }
            }
            assert(row * n + n == (row + 1) * n) by (nonlinear_arith);
        }
        positions
    }

    /// Puts `player`'s mark at `position`. Refused, and nothing changes, when
    /// the position is off the board or already taken.
    pub fn add_move(&mut self, player: Player, position: Position) -> (r: Result<(), BoardError>)
        requires
            old(self).wf(),
        ensures
            final(self).wf(),
            final(self).size == old(self).size,
            position.0 >= old(self).size || position.1 >= old(self).size ==> r == Err::<
                (),
                BoardError,
            >(BoardError::OutOfBounds),
            position.0 < old(self).size && position.1 < old(self).size && old(self).cell(
                position.0 as int,
                position.1 as int,
            ) is Some ==> r == Err::<(), BoardError>(BoardError::CellOccupied),
            r is Err ==> *final(self) == *old(self),
            match placed(old(self)@, old(self).size as int, player, position) {
                Ok(cells) => r is Ok && final(self)@ == cells,
                Err(e) => r == Err::<(), BoardError>(e),
            },
    {
        let (row, col) = position;
        if row >= self.size || col >= self.size {
            return Err(BoardError::OutOfBounds);
        }
        proof {
            lemma_index_in_grid(self.size as int, row as int, col as int);
        }
        let idx = row * self.size + col;
        if self.cells[idx].is_some() {
            return Err(BoardError::CellOccupied);
        }
        self.cells[idx] = Some(player);
        Ok(())
    }

    /// Applies a move; see `add_move`.
    pub fn add_a_move(&mut self, a_move: Move) -> (r: Result<(), BoardError>)
        requires
            old(self).wf(),
        ensures
            final(self).wf(),
            final(self).size == old(self).size,
            r is Err ==> *final(self) == *old(self),
            match placed(old(self)@, old(self).size as int, a_move.player, a_move.position) {
                Ok(cells) => r is Ok && final(self)@ == cells,
                Err(e) => r == Err::<(), BoardError>(e),
            },
    {
        self.add_move(a_move.player, a_move.position)
    }

    /// Whether the `k` cells from (row, col) in direction `d` all hold `p`.
    fn run_at(&self, p: Player, row: usize, col: usize, d: usize, k: usize) -> (r: bool)
        requires
            self.wf(),
            d < 4,
            k == 3 || k == 4,
        ensures
            r == run_of(self@, self.size as int, k as int, row as int, col as int, d as int, p),
    {
        let n = self.size;
        if row >= n || col >= n {
            return false;
        }
        let last_row = if d == 0 {
            row
        } else {
            row + (k - 1)
        };
        if last_row >= n {
            return false;
        }
        if d == 3 {
            if col < k - 1 {
                return false;
            }
        } else if d != 1 {
            if col + (k - 1) >= n {
                return false;
            }
        }
        assert(run_fits(n as int, k as int, row as int, col as int, d as int));
        let mut i: usize = 0;
        while i < k
            invariant
                self.wf(),
                n == self.size,
                d < 4,
                k == 3 || k == 4,
                i <= k,
                run_fits(n as int, k as int, row as int, col as int, d as int),
                forall|j: int|
                    0 <= j < i ==> #[trigger] self@[cell_index(
                        n as int,
                        step_row(row as int, d as int, j),
                        step_col(col as int, d as int, j),
                    )] == Some(p),
            decreases k - i,
        {
            let r_i = if d == 0 {
                row
            } else {
                row + i
            };
            let c_i = if d == 1 {
                col
            } else if d == 3 {
                col - i
            } else {
                col + i
            };
            proof {
                lemma_index_in_grid(n as int, r_i as int, c_i as int);
            }
            let ghost at = cell_index(
                n as int,
                step_row(row as int, d as int, i as int),
                step_col(col as int, d as int, i as int),
            );
            assert(r_i * n + c_i == at);
            match self.cells[r_i * n + c_i] {
                Some(q) => {
                    if q != p {
                        assert(self@[at] != Some(p));
                        return false;
                    }
                },
                None => {
                    assert(self@[at] != Some(p));
                    return false;
                },
            }
            i = i + 1;
        }
        true
    }

    /// Whether `p` has a winning run anywhere on the board. An anchor and
    /// direction whose run would leave the grid is dismissed before any cell
    /// is read, so the scan stays within a constant times `size * size` reads.
    fn has_winning_run(&self, p: Player) -> (r: bool)
        requires
            self.wf(),
        ensures
            r == has_line(self@, self.size as int, p),
    {
        let n = self.size;
        let k: usize = if n == 3 {
            3
        } else {
            4
        };
        for row in 0..n
            invariant
                self.wf(),
                n == self.size,
                k == win_length(n as int),
                forall|r2: int, c2: int, d2: int|
                    r2 < row ==> !#[trigger] run_of(self@, n as int, k as int, r2, c2, d2, p),
        {
            for col in 0..n
                invariant
                    self.wf(),
                    n == self.size,
                    k == win_length(n as int),
                    row < n,
                    forall|r2: int, c2: int, d2: int|
                        r2 < row ==> !#[trigger] run_of(self@, n as int, k as int, r2, c2, d2, p),
                    forall|c2: int, d2: int|
                        c2 < col ==> !#[trigger] run_of(
                            self@,
                            n as int,
                            k as int,
                            row as int,
                            c2,
                            d2,
                            p,
                        ),
            {
                for d in 0..4usize
                    invariant
                        self.wf(),
                        n == self.size,
                        k == win_length(n as int),
                        row < n,
                        col < n,
                        forall|r2: int, c2: int, d2: int|
                            r2 < row ==> !#[trigger] run_of(
                                self@,
                                n as int,
                                k as int,
                                r2,
                                c2,
                                d2,
                                p,
                            ),
                        forall|c2: int, d2: int|
                            c2 < col ==> !#[trigger] run_of(
                                self@,
                                n as int,
                                k as int,
                                row as int,
                                c2,
                                d2,
                                p,
                            ),
                        forall|d2: int|
                            d2 < d ==> !#[trigger] run_of(
                                self@,
                                n as int,
                                k as int,
                                row as int,
                                col as int,
                                d2,
                                p,
                            ),
                {
                    if self.run_at(p, row, col, d, k) {
                        return true;
                    }
                }
            }
        }
        false
    }

    /// Whether the board holds one cell per position of a grid of a
    /// supported size.
    pub fn is_well_formed(&self) -> (r: bool)
        ensures
            r == self.wf(),
    {
        let n = self.size;
        if !(n == 3 || n == 5 || n == 7) {
            return false;
        }
        assert(n * n <= 49) by (nonlinear_arith)
            requires
                n <= 7,
        ;
        self.cells.len() == n * n
    }

    /// Replays the query's moves, in order, on an empty board of the query's
    /// size. Refused when the size is not 3, 5 or 7, or at the first move that
    /// is off the board or on a taken cell.
    pub fn try_from(game_query: GameQuery) -> (r: Result<Board, BoardError>)
        ensures
            !is_valid_dimension(game_query.size as int) ==> r == Err::<Board, BoardError>(
                BoardError::UnsupportedSize,
            ),
            is_valid_dimension(game_query.size as int) ==> match replay(
                game_query.size as int,
                game_query.moves@,
            ) {
                Ok(cells) => r is Ok && r->Ok_0.wf() && r->Ok_0.size == game_query.size
                    && r->Ok_0@ == cells,
                Err(e) => r == Err::<Board, BoardError>(e),
            },
    {
        let size = if game_query.size == 3 {
            Size::Size3
        } else if game_query.size == 5 {
            Size::Size5
        } else if game_query.size == 7 {
            Size::Size7
        } else {
            return Err(BoardError::UnsupportedSize);
        };
        let n = game_query.size;
        let moves = &game_query.moves;
        let mut board = Board::new(size);
        assert(moves@.take(0) =~= seq![]);
        let mut i: usize = 0;
        while i < moves.len()
            invariant
                i <= moves@.len(),
                board.wf(),
                board.size == n,
                n == game_query.size,
                moves@ == game_query.moves@,
                replay(n as int, moves@.take(i as int)) == Ok::<
                    Seq<Option<Player>>,
                    BoardError,
                >(board@),
            decreases moves@.len() - i,
        {
            assert(moves@.take(i + 1).drop_last() =~= moves@.take(i as int));
            let step = board.add_a_move(moves[i]);
            if let Err(e) = step {
                proof {
                    lemma_replay_refusal_stays(n as int, moves@, i + 1);
                }
                return Err(e);
            }
            i = i + 1;
        }
        assert(moves@.take(i as int) =~= moves@);
        Ok(board)
    }

    /// The board as text: one line per row, each cell drawn as its player's
    /// symbol or `.` when empty.
    pub fn render(&self) -> (r: String)
        requires
            self.wf(),
        ensures
            r@ == drawn_upto(self@, self.size as int, self.size * self.size),
    {
        let n = self.size;
        let mut text = String::new();
        assert(0 * n == 0);
        for row in 0..n
            invariant
                self.wf(),
                n == self.size,
                text@ == drawn_upto(self@, n as int, row * n),
        {
            for col in 0..n
                invariant
                    self.wf(),
                    n == self.size,
                    row < n,
                    text@ == drawn_upto(self@, n as int, row * n + col),
            {
                proof {
                    lemma_index_in_grid(n as int, row as int, col as int);
                }
                let ghost i = row * n + col + 1;
                let ghost before = text@;
                match self.cells[row * n + col] {
                    Some(p) => text.append(p.symbol()),
                    None => {
                        proof {
                            reveal_strlit(".");
                        }
                        text.append(".");
                    },
                }
                if col + 1 == n {
                    proof {
                        reveal_strlit("\n");
                        assert(i == (row + 1) * n + 0) by (nonlinear_arith)
                            requires
                                i == row * n + col + 1,
                                col + 1 == n,
                        ;
                        lemma_fundamental_div_mod_converse(i, n as int, row + 1, 0);
                    }
                    text.append("\n");
                } else {
                    proof {
                        lemma_fundamental_div_mod_converse(i, n as int, row as int, col + 1);
                    }
                }
                assert(text@ =~= drawn_upto(self@, n as int, i));
            }
            assert(row * n + n == (row + 1) * n) by (nonlinear_arith);
        }
        text
    }

    /// The outcome of the game: a win when a player has a winning run, else
    /// a tie when the board is full, else pending.
    pub fn result(&self) -> (r: GameResult)
        requires
            self.wf(),
        ensures
            r == self.game_result(),
    {
        if self.has_winning_run(Player::X) {
            GameResult::Won(Player::X)
        } else if self.has_winning_run(Player::O) {
            GameResult::Won(Player::O)
        } else if self.is_filled() {
            GameResult::Tie
        } else {
            GameResult::Pending
        }
    }
}

} // verus!
