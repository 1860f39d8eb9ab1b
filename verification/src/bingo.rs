//! Tournament-style grid-matching simulator.
//!
//! A set of rectangular boards is raced against an ordered sequence of
//! called values.  A board wins at step `k` when, among the first `k`
//! calls, some full row or column of the board has every cell called.
//! The module answers two questions: which board wins first, and which
//! board wins last when winners are removed from play as they win.
use vstd::prelude::*;

verus! {

/// One value on a board, and one announced call.
pub type Cell = u8;

/// A rectangular grid of cells, stored row by row.
pub type Board = Vec<Vec<Cell>>;

// ------------------------------------------------------------------
// Mathematical model
// ------------------------------------------------------------------

/// The rows of a board as mathematical sequences.
pub open spec fn view_board(b: Seq<Vec<Cell>>) -> Seq<Seq<Cell>> {
    Seq::new(b.len(), |i: int| b[i]@)
}

/// The boards of a collection as mathematical sequences of rows.
pub open spec fn view_boards(bs: Seq<Board>) -> Seq<Seq<Seq<Cell>>> {
    Seq::new(bs.len(), |i: int| view_board(bs[i]@))
}

/// Every row of the board has the same length as the first row.
pub open spec fn is_rect(b: Seq<Seq<Cell>>) -> bool {
    forall|r: int| 0 <= r < b.len() ==> #[trigger] b[r].len() == b[0].len()
}

/// Column `c` of board `b`, read top to bottom.
pub open spec fn col_seq(b: Seq<Seq<Cell>>, c: int) -> Seq<Cell> {
    Seq::new(b.len(), |r: int| b[r][c])
}

/// A line wins when it is non-empty and every one of its cells has been
/// called.  Zero-length lines never win.
pub open spec fn line_won(line: Seq<Cell>, called: Seq<Cell>) -> bool {
    line.len() > 0 && forall|j: int| 0 <= j < line.len() ==> called.contains(#[trigger] line[j])
}

/// A board wins when some row or some column is fully called.
pub open spec fn board_wins(b: Seq<Seq<Cell>>, called: Seq<Cell>) -> bool {
    (exists|r: int| 0 <= r < b.len() && line_won(#[trigger] b[r], called)) || (b.len() > 0
        && exists|c: int| 0 <= c < b[0].len() && line_won(#[trigger] col_seq(b, c), called))
}

/// `line` is one of the rows or columns of `b`.
pub open spec fn is_line_of(b: Seq<Seq<Cell>>, line: Seq<Cell>) -> bool {
    (exists|r: int| 0 <= r < b.len() && line == b[r]) || (b.len() > 0 && exists|c: int|
        0 <= c < b[0].len() && line == col_seq(b, c))
}

/// Sum of the first `j` cells of a row that have not been called.
pub open spec fn row_unused_upto(row: Seq<Cell>, called: Seq<Cell>, j: int) -> int
    decreases j,
{
    if j <= 0 {
        0
    } else {
        row_unused_upto(row, called, j - 1) + if called.contains(row[j - 1]) {
            0
        } else {
            row[j - 1] as int
        }
    }
}

/// Sum of the uncalled cells of one row.
pub open spec fn row_unused(row: Seq<Cell>, called: Seq<Cell>) -> int {
    row_unused_upto(row, called, row.len() as int)
}

/// Sum of the uncalled cells of the first `r` rows.
pub open spec fn unused_upto(b: Seq<Seq<Cell>>, called: Seq<Cell>, r: int) -> int
    decreases r,
{
    if r <= 0 {
        0
    } else {
        unused_upto(b, called, r - 1) + row_unused(b[r - 1], called)
    }
}

/// Sum of every cell of the board not among the called values.
pub open spec fn unused_sum(b: Seq<Seq<Cell>>, called: Seq<Cell>) -> int {
    unused_upto(b, called, b.len() as int)
}

/// Sum of the first `j` cells of a row.
pub open spec fn row_sum_upto(row: Seq<Cell>, j: int) -> int
    decreases j,
{
    if j <= 0 {
        0
    } else {
        row_sum_upto(row, j - 1) + row[j - 1] as int
    }
}

/// Sum of all cells of one row.
pub open spec fn row_sum(row: Seq<Cell>) -> int {
    row_sum_upto(row, row.len() as int)
}

/// Sum of all cells of the first `r` rows.
pub open spec fn cell_sum_upto(b: Seq<Seq<Cell>>, r: int) -> int
    decreases r,
{
    if r <= 0 {
        0
    } else {
        cell_sum_upto(b, r - 1) + row_sum(b[r - 1])
    }
}

/// Sum of every cell of the board.
pub open spec fn cell_sum(b: Seq<Seq<Cell>>) -> int {
    cell_sum_upto(b, b.len() as int)
}

/// Score of a board against a called prefix: the last call times the sum
/// of the board's uncalled cells.  Defined for any non-empty prefix,
/// whether or not the board has won.
pub open spec fn score_spec(calls: Seq<Cell>, b: Seq<Seq<Cell>>) -> int {
    calls[calls.len() - 1] * unused_sum(b, calls)
}

// ------------------------------------------------------------------
// Facts about the model
// ------------------------------------------------------------------

/// Partial row sums are non-negative and the uncalled part never
/// exceeds the full part.
pub proof fn lemma_row_sums(row: Seq<Cell>, called: Seq<Cell>, j: int)
    ensures
        0 <= row_unused_upto(row, called, j) <= row_sum_upto(row, j),
    decreases j,
{
    if j > 0 {
        lemma_row_sums(row, called, j - 1);
    }
}

/// Row sums grow as more cells are included.
pub proof fn lemma_row_sum_upto_mono(row: Seq<Cell>, j1: int, j2: int)
    requires
        j1 <= j2,
    ensures
        row_sum_upto(row, j1) <= row_sum_upto(row, j2),
    decreases j2 - j1,
{
    if j1 < j2 {
        lemma_row_sum_upto_mono(row, j1, j2 - 1);
    }
}

/// Partial board sums are non-negative and the uncalled part never
/// exceeds the full part.
pub proof fn lemma_board_sums(b: Seq<Seq<Cell>>, called: Seq<Cell>, r: int)
    ensures
        0 <= unused_upto(b, called, r) <= cell_sum_upto(b, r),
    decreases r,
{
    if r > 0 {
        lemma_board_sums(b, called, r - 1);
        lemma_row_sums(b[r - 1], called, b[r - 1].len() as int);
    }
}

/// Board sums grow as more rows are included.
pub proof fn lemma_cell_sum_upto_mono(b: Seq<Seq<Cell>>, r1: int, r2: int)
    requires
        r1 <= r2,
    ensures
        cell_sum_upto(b, r1) <= cell_sum_upto(b, r2),
    decreases r2 - r1,
{
    if r1 < r2 {
        lemma_cell_sum_upto_mono(b, r1, r2 - 1);
        lemma_row_sums(b[r2 - 1], Seq::empty(), b[r2 - 1].len() as int);
        lemma_row_sum_upto_mono(b[r2 - 1], 0, b[r2 - 1].len() as int);
    }
}

/// Winning is monotonic: a board that wins under a prefix of the calls
/// still wins once more calls have been made.
pub proof fn lemma_win_monotonic(b: Seq<Seq<Cell>>, p1: Seq<Cell>, p2: Seq<Cell>)
    requires
        p1.len() <= p2.len(),
        p1 == p2.take(p1.len() as int),
        board_wins(b, p1),
    ensures
        board_wins(b, p2),
{
    assert forall|line: Seq<Cell>| line_won(line, p1) implies line_won(line, p2) by {
        assert forall|j: int| 0 <= j < line.len() implies p2.contains(#[trigger] line[j]) by {
            let idx = choose|idx: int| 0 <= idx < p1.len() && p1[idx] == line[j];
            assert(p2[idx] == line[j]);
        }
    }
}

/// No board wins before any call has been made.
pub proof fn lemma_no_win_empty(b: Seq<Seq<Cell>>, called: Seq<Cell>)
    requires
        called.len() == 0,
    ensures
        !board_wins(b, called),
{
    assert forall|line: Seq<Cell>| line.len() > 0 implies !line_won(line, called) by {
        assert(!called.contains(line[0]));
    }
}

// ------------------------------------------------------------------
// Tournament model
// ------------------------------------------------------------------

/// The board wins exactly at step `k`: it wins with the first `k` calls
/// and not with the first `k - 1`.
pub open spec fn wins_at_step(b: Seq<Seq<Cell>>, calls: Seq<Cell>, k: int) -> bool {
    &&& 1 <= k <= calls.len()
    &&& board_wins(b, calls.take(k))
    &&& !board_wins(b, calls.take(k - 1))
}

/// No board of the collection wins with the first `k` calls.
pub open spec fn no_winner_at(bs: Seq<Seq<Seq<Cell>>>, calls: Seq<Cell>, k: int) -> bool {
    forall|i: int| 0 <= i < bs.len() ==> !board_wins(#[trigger] bs[i], calls.take(k))
}

/// Every board of the collection wins with the first `k` calls.
pub open spec fn all_win_at(bs: Seq<Seq<Seq<Cell>>>, calls: Seq<Cell>, k: int) -> bool {
    forall|i: int| 0 <= i < bs.len() ==> board_wins(#[trigger] bs[i], calls.take(k))
}

/// `(i, k, s)` is the first-winner result: board `i` wins at step `k`,
/// no board wins earlier, no board of smaller index wins at the same
/// step, and `s` is board `i`'s score at step `k`.
pub open spec fn first_winner_ok(
    calls: Seq<Cell>,
    bs: Seq<Seq<Seq<Cell>>>,
    i: int,
    k: int,
    s: int,
) -> bool {
    &&& 0 <= i < bs.len()
    &&& wins_at_step(bs[i], calls, k)
    &&& no_winner_at(bs, calls, k - 1)
    &&& forall|j: int| 0 <= j < i ==> !board_wins(#[trigger] bs[j], calls.take(k))
    &&& s == calls[k - 1] * unused_sum(bs[i], calls.take(k))
}

/// `(i, k, s)` is the last-winner result: board `i` wins at step `k`,
/// by step `k` every board has won, every board of larger index won
/// strictly earlier, and `s` is board `i`'s score at step `k`.
pub open spec fn last_winner_ok(
    calls: Seq<Cell>,
    bs: Seq<Seq<Seq<Cell>>>,
    i: int,
    k: int,
    s: int,
) -> bool {
    &&& 0 <= i < bs.len()
    &&& wins_at_step(bs[i], calls, k)
    &&& all_win_at(bs, calls, k)
    &&& forall|j: int| i < j < bs.len() ==> board_wins(#[trigger] bs[j], calls.take(k - 1))
    &&& s == calls[k - 1] * unused_sum(bs[i], calls.take(k))
}

/// Boards are well-shaped for a tournament: each board is non-empty,
/// rectangular, and of the same shape as the first board.
pub open spec fn valid_boards(bs: Seq<Seq<Seq<Cell>>>) -> bool {
    forall|i: int|
        0 <= i < bs.len() ==> {
            &&& (#[trigger] bs[i]).len() > 0
            &&& bs[i][0].len() > 0
            &&& is_rect(bs[i])
            &&& bs[i].len() == bs[0].len()
            &&& bs[i][0].len() == bs[0][0].len()
        }
}

/// A board cannot win and also not win: its exact winning step is unique.
pub proof fn lemma_win_step_unique(b: Seq<Seq<Cell>>, calls: Seq<Cell>, k1: int, k2: int)
    requires
        wins_at_step(b, calls, k1),
        wins_at_step(b, calls, k2),
    ensures
        k1 == k2,
{
    if k1 < k2 {
        assert(calls.take(k2 - 1).take(k1) =~= calls.take(k1));
        lemma_win_monotonic(b, calls.take(k1), calls.take(k2 - 1));
    }
    if k2 < k1 {
        assert(calls.take(k1 - 1).take(k2) =~= calls.take(k2));
        lemma_win_monotonic(b, calls.take(k2), calls.take(k1 - 1));
    }
}

// ------------------------------------------------------------------
// Executable win detection
// ------------------------------------------------------------------

/// Linear membership test over the called values.
fn contains_cell(calls: &[Cell], v: Cell) -> (r: bool)
    ensures
        r == calls@.contains(v),
{
    let mut i: usize = 0;
    while i < calls.len()
        invariant
            0 <= i <= calls@.len(),
            forall|k: int| 0 <= k < i ==> calls@[k] != v,
        decreases calls@.len() - i,
    {
        if calls[i] == v {
            return true;
        }
        i += 1;
    }
    false
}

/// True when every cell of the line has been called.
fn line_all_called(calls: &[Cell], line: &Vec<Cell>) -> (r: bool)
    ensures
        r == forall|j: int| 0 <= j < line@.len() ==> calls@.contains(#[trigger] line@[j]),
{
    let mut j: usize = 0;
    while j < line.len()
        invariant
            0 <= j <= line@.len(),
            forall|k: int| 0 <= k < j ==> calls@.contains(#[trigger] line@[k]),
        decreases line@.len() - j,
    {
        if !contains_cell(calls, line[j]) {
            return false;
        }
        j += 1;
    }
    true
}

/// An owned copy of a line of cells.
fn copy_cells(line: &Vec<Cell>) -> (r: Vec<Cell>)
    ensures
        r@ == line@,
{
    let mut out: Vec<Cell> = Vec::new();
    let mut j: usize = 0;
    while j < line.len()
        invariant
            0 <= j <= line@.len(),
            out@ == line@.take(j as int),
        decreases line@.len() - j,
    {
        out.push(line[j]);
        proof {
            assert(out@ =~= line@.take(j as int + 1));
        }
        j += 1;
    }
    proof {
        assert(out@ =~= line@);
    }
    out
}

/// Swaps rows and columns of a rectangular, non-empty board.
pub fn cols(board: &Board) -> (r: Board)
    requires
        board@.len() > 0,
        is_rect(view_board(board@)),
    ensures
        r@.len() == board@[0]@.len(),
        forall|c: int|
            0 <= c < r@.len() ==> #[trigger] r@[c]@ == col_seq(view_board(board@), c),
{
    let ghost b = view_board(board@);
    let width = board[0].len();
    let mut out: Board = Vec::new();
    let mut c: usize = 0;
    while c < width
        invariant
            0 <= c <= width,
            board@.len() > 0,
            is_rect(b),
            b == view_board(board@),
            width == b[0].len(),
            out@.len() == c,
            forall|cc: int| 0 <= cc < c ==> #[trigger] out@[cc]@ == col_seq(b, cc),
        decreases width - c,
    {
        let mut col: Vec<Cell> = Vec::new();
        let mut rr: usize = 0;
        while rr < board.len()
            invariant
                0 <= rr <= board@.len(),
                is_rect(b),
                b == view_board(board@),
                c < width,
                width == b[0].len(),
                col@.len() == rr,
                forall|k: int| 0 <= k < rr ==> col@[k] == b[k][c as int],
            decreases board@.len() - rr,
        {
            assert(b[rr as int].len() == width);
            col.push(board[rr][c]);
            rr += 1;
        }
        proof {
            assert(col@ =~= col_seq(b, c as int));
        }
        out.push(col);
        c += 1;
    }
    out
}

/// Whether the board wins with the given calls; on a win, one winning
/// row or column is returned.
pub fn win(calls: &[Cell], board: &Board) -> (r: Option<Vec<Cell>>)
    requires
        is_rect(view_board(board@)),
    ensures
        (r is Some) == board_wins(view_board(board@), calls@),
        r matches Some(line) ==> line_won(line@, calls@) && is_line_of(view_board(board@), line@),
{
    let ghost b = view_board(board@);
    let mut rr: usize = 0;
    while rr < board.len()
        invariant
            0 <= rr <= board@.len(),
            b == view_board(board@),
            forall|k: int| 0 <= k < rr ==> !line_won(#[trigger] b[k], calls@),
        decreases board@.len() - rr,
    {
        let row = &board[rr];
        if row.len() > 0 && line_all_called(calls, row) {
            proof {
                assert(line_won(b[rr as int], calls@));
                assert(board_wins(b, calls@));
                assert(is_line_of(b, b[rr as int]));
            }
            return Some(copy_cells(row));
        }
        rr += 1;
    }
    if board.len() == 0 {
        return None;
    }
    let cs = cols(board);
    let mut c: usize = 0;
    while c < cs.len()
        invariant
            0 <= c <= cs@.len(),
            b == view_board(board@),
            b.len() > 0,
            cs@.len() == b[0].len(),
            forall|cc: int| 0 <= cc < cs@.len() ==> #[trigger] cs@[cc]@ == col_seq(b, cc),
            forall|k: int| 0 <= k < b.len() ==> !line_won(#[trigger] b[k], calls@),
            forall|k: int| 0 <= k < c ==> !line_won(col_seq(b, k), calls@),
        decreases cs@.len() - c,
    {
        let col = &cs[c];
        if col.len() > 0 && line_all_called(calls, col) {
            proof {
                assert(col@ == col_seq(b, c as int));
                assert(line_won(col_seq(b, c as int), calls@));
                assert(board_wins(b, calls@));
                assert(is_line_of(b, col_seq(b, c as int)));
            }
            return Some(copy_cells(col));
        }
        c += 1;
    }
    None
}

/// Score of the board against the calls made so far: the sum of the
/// board's uncalled cells times the last call.
pub fn score(calls: &[Cell], board: &Board) -> (s: usize)
    requires
        calls@.len() > 0,
        cell_sum(view_board(board@)) <= usize::MAX as int,
        calls@[calls@.len() - 1] * cell_sum(view_board(board@)) <= usize::MAX as int,
    ensures
        s as int == score_spec(calls@, view_board(board@)),
{
    let ghost b = view_board(board@);
    let last_call = calls[calls.len() - 1] as usize;
    let mut sum: usize = 0;
    let mut rr: usize = 0;
    while rr < board.len()
        invariant
            0 <= rr <= board@.len(),
            b == view_board(board@),
            cell_sum(b) <= usize::MAX as int,
            sum as int == unused_upto(b, calls@, rr as int),
            sum as int <= cell_sum_upto(b, rr as int),
        decreases board@.len() - rr,
    {
        let row = &board[rr];
        let mut j: usize = 0;
        while j < row.len()
            invariant
                0 <= j <= row@.len(),
                b == view_board(board@),
                rr < b.len(),
                row@ == b[rr as int],
                cell_sum(b) <= usize::MAX as int,
                sum as int == unused_upto(b, calls@, rr as int) + row_unused_upto(
                    row@,
                    calls@,
                    j as int,
                ),
                sum as int <= cell_sum_upto(b, rr as int) + row_sum_upto(row@, j as int),
            decreases row@.len() - j,
        {
            proof {
                lemma_row_sum_upto_mono(row@, j + 1, row@.len() as int);
                lemma_cell_sum_upto_mono(b, rr + 1, b.len() as int);
                lemma_board_sums(b, calls@, rr as int);
                lemma_row_sums(row@, calls@, j as int);
            }
            if !contains_cell(calls, row[j]) {
                assert(sum + row@[j as int] <= cell_sum(b));
                sum = sum + row[j] as usize;
            }
            j += 1;
        }
        proof {
            assert(unused_upto(b, calls@, rr as int + 1) == unused_upto(b, calls@, rr as int)
                + row_unused(b[rr as int], calls@));
            assert(cell_sum_upto(b, rr as int + 1) == cell_sum_upto(b, rr as int) + row_sum(
                b[rr as int],
            ));
        }
        rr += 1;
    }
    proof {
        lemma_board_sums(b, calls@, b.len() as int);
        vstd::arithmetic::mul::lemma_mul_inequality(
            unused_sum(b, calls@),
            cell_sum(b),
            calls@[calls@.len() - 1] as int,
        );
        vstd::arithmetic::mul::lemma_mul_is_commutative(
            cell_sum(b),
            calls@[calls@.len() - 1] as int,
        );
        vstd::arithmetic::mul::lemma_mul_is_commutative(
            unused_sum(b, calls@),
            calls@[calls@.len() - 1] as int,
        );
    }
    sum * last_call
}

// ------------------------------------------------------------------
// Tournament runner
// ------------------------------------------------------------------

/// Why a tournament produced no result.
#[derive(Clone, Copy, Debug, PartialEq, Eq, Structural)]
pub enum GameError {
    /// The call sequence was exhausted before the termination condition
    /// was met.
    NoWinner,
    /// A board is empty, ragged, or shaped unlike the others.
    InvalidBoard,
}

/// True when every board is non-empty, rectangular, and shaped like the
/// first one.
fn check_boards(boards: &Vec<Board>) -> (r: bool)
    ensures
        r == valid_boards(view_boards(boards@)),
{
    let ghost bs = view_boards(boards@);
    if boards.len() == 0 {
        return true;
    }
    let rows0 = boards[0].len();
    proof {
        assert(bs[0].len() == rows0);
    }
    if rows0 == 0 {
        return false;
    }
    let cols0 = boards[0][0].len();
    proof {
        assert(bs[0][0].len() == cols0);
    }
    if cols0 == 0 {
        return false;
    }
    let mut i: usize = 0;
    while i < boards.len()
        invariant
            bs == view_boards(boards@),
            0 <= i <= boards@.len(),
            boards@.len() > 0,
            rows0 == bs[0].len(),
            rows0 > 0,
            cols0 == bs[0][0].len(),
            cols0 > 0,
            forall|ii: int|
                0 <= ii < i ==> (#[trigger] bs[ii]).len() == rows0 && forall|rr: int|
                    0 <= rr < bs[ii].len() ==> #[trigger] bs[ii][rr].len() == cols0,
        decreases boards@.len() - i,
    {
        let bd = &boards[i];
        proof {
            assert(bs[i as int].len() == bd@.len());
            assert(forall|k: int| 0 <= k < bd@.len() ==> bs[i as int][k] == bd@[k]@);
        }
        if bd.len() != rows0 {
            return false;
        }
        let mut r: usize = 0;
        while r < bd.len()
            invariant
                bs == view_boards(boards@),
                0 <= i < boards@.len(),
                0 <= r <= bd@.len(),
                bd@.len() == bs[i as int].len(),
                rows0 == bs[0].len(),
                cols0 == bs[0][0].len(),
                forall|k: int| 0 <= k < bd@.len() ==> bd@[k]@ == bs[i as int][k],
                forall|rr: int| 0 <= rr < r ==> #[trigger] bs[i as int][rr].len() == cols0,
        decreases bd@.len() - r,
        {
            if bd[r].len() != cols0 {
                proof {
                    if valid_boards(bs) {
                        assert(bs[i as int][r as int].len() == bs[i as int][0].len());
                        assert(bs[i as int][0].len() == bs[0][0].len());
                        assert(false);
                    }
                }
                return false;
            }
            r += 1;
        }
        i += 1;
    }
    true
}

/// The board of lowest index that wins with the given calls, if any.
fn first_winner_at(calls: &[Cell], boards: &Vec<Board>) -> (r: Option<usize>)
    requires
        forall|i: int|
            0 <= i < boards@.len() ==> is_rect(#[trigger] view_boards(boards@)[i]),
    ensures
        match r {
            Some(i) => 0 <= i < boards@.len() && board_wins(
                view_boards(boards@)[i as int],
                calls@,
            ) && forall|j: int|
                0 <= j < i ==> !board_wins(#[trigger] view_boards(boards@)[j], calls@),
            None => forall|i: int|
                0 <= i < boards@.len() ==> !board_wins(#[trigger] view_boards(boards@)[i], calls@),
        },
{
    let ghost bs = view_boards(boards@);
    let mut i: usize = 0;
    while i < boards.len()
        invariant
            bs == view_boards(boards@),
            0 <= i <= boards@.len(),
            forall|i2: int| 0 <= i2 < bs.len() ==> is_rect(#[trigger] bs[i2]),
            forall|j: int| 0 <= j < i ==> !board_wins(#[trigger] bs[j], calls@),
        decreases boards@.len() - i,
    {
        proof {
            assert(view_board(boards@[i as int]@) == bs[i as int]);
        }
        if win(calls, &boards[i]).is_some() {
            return Some(i);
        }
        i += 1;
    }
    None
}

/// A win event: which board won, at which step, on which call, and with
/// what score.
pub struct Win {
    /// Index of the winning board in the input collection.
    pub index: usize,
    /// Number of calls made when the win first held.
    pub step: usize,
    /// The call that completed the winning line.
    pub winning_number: Cell,
    /// The board's score at the winning step.
    pub score: usize,
}

/// A game in progress: the full call sequence, the boards, and how many
/// calls have been revealed so far.
pub struct Game {
    call_pointer: usize,
    calls: Vec<Cell>,
    boards: Vec<Board>,
}

impl Game {
    /// The full call sequence.
    pub closed spec fn calls_seq(&self) -> Seq<Cell> {
        self.calls@
    }

    /// The boards as mathematical grids.
    pub closed spec fn boards_seq(&self) -> Seq<Seq<Seq<Cell>>> {
        view_boards(self.boards@)
    }

    /// How many calls have been revealed.
    pub closed spec fn pointer(&self) -> int {
        self.call_pointer as int
    }

    /// The game can be played safely: the pointer is within the calls,
    /// every board is rectangular, and scores cannot overflow.
    pub open spec fn wf(&self) -> bool {
        &&& 0 <= self.pointer() <= self.calls_seq().len()
        &&& forall|i: int|
            0 <= i < self.boards_seq().len() ==> is_rect(#[trigger] self.boards_seq()[i])
        &&& forall|i: int|
            0 <= i < self.boards_seq().len() ==> 255 * cell_sum(#[trigger] self.boards_seq()[i])
                <= usize::MAX as int
    }

    /// A fresh game with no calls revealed yet.
    pub fn new(calls: Vec<Cell>, boards: Vec<Board>) -> (g: Game)
        requires
            forall|i: int|
                0 <= i < boards@.len() ==> is_rect(#[trigger] view_boards(boards@)[i]),
            forall|i: int|
                0 <= i < boards@.len() ==> 255 * cell_sum(#[trigger] view_boards(boards@)[i])
                    <= usize::MAX as int,
        ensures
            g.wf(),
            g.calls_seq() == calls@,
            g.boards_seq() == view_boards(boards@),
            g.pointer() == 0,
    {
        Game { call_pointer: 0, calls, boards }
    }

    /// The calls revealed so far: the prefix of the call sequence up to
    /// the pointer.
    pub fn called(&self) -> (r: &[Cell])
        requires
            self.wf(),
        ensures
            r@ == self.calls_seq().take(self.pointer()),
    {
        let r = vstd::slice::slice_subrange(self.calls.as_slice(), 0, self.call_pointer);
        proof {
            assert(r@ =~= self.calls_seq().take(self.pointer()));
        }
        r
    }

    /// Reveals calls one at a time until some board wins, and reports
    /// the win of the lowest-indexed winning board at that step; `None`
    /// when the calls run out with no board winning.  Resumes from the
    /// current pointer, so after a win the same game can be searched for
    /// later wins.
    pub fn play(&mut self) -> (r: Option<Win>)
        requires
            old(self).wf(),
        ensures
            final(self).wf(),
            final(self).calls_seq() == old(self).calls_seq(),
            final(self).boards_seq() == old(self).boards_seq(),
            old(self).pointer() <= final(self).pointer() <= final(self).calls_seq().len(),
            forall|k: int|
                old(self).pointer() <= k < final(self).pointer() ==> no_winner_at(
                    final(self).boards_seq(),
                    final(self).calls_seq(),
                    k,
                ),
            match r {
                Some(w) => {
                    &&& w.step == final(self).pointer()
                    &&& 1 <= w.step
                    &&& 0 <= w.index < final(self).boards_seq().len()
                    &&& board_wins(
                        final(self).boards_seq()[w.index as int],
                        final(self).calls_seq().take(w.step as int),
                    )
                    &&& forall|j: int|
                        0 <= j < w.index ==> !board_wins(
                            #[trigger] final(self).boards_seq()[j],
                            final(self).calls_seq().take(w.step as int),
                        )
                    &&& w.winning_number == final(self).calls_seq()[w.step - 1]
                    &&& w.score as int == score_spec(
                        final(self).calls_seq().take(w.step as int),
                        final(self).boards_seq()[w.index as int],
                    )
                },
                None => {
                    &&& final(self).pointer() == final(self).calls_seq().len()
                    &&& no_winner_at(
                        final(self).boards_seq(),
                        final(self).calls_seq(),
                        final(self).pointer(),
                    )
                },
            },
    {
        let ghost bs = self.boards_seq();
        let ghost cseq = self.calls_seq();
        let ghost p0 = self.pointer();
        while self.call_pointer < self.calls.len()
            invariant
                self.wf(),
                cseq == old(self).calls_seq(),
                bs == old(self).boards_seq(),
                p0 == old(self).pointer(),
                self.calls_seq() == cseq,
                self.boards_seq() == bs,
                p0 <= self.pointer() <= cseq.len(),
                forall|k: int| p0 <= k < self.pointer() ==> no_winner_at(bs, cseq, k),
            decreases cseq.len() - self.pointer(),
        {
            let called = vstd::slice::slice_subrange(
                self.calls.as_slice(),
                0,
                self.call_pointer,
            );
            proof {
                assert(called@ =~= cseq.take(self.pointer()));
            }
            if let Some(i) = first_winner_at(called, &self.boards) {
                return Some(self.win_here(i, called));
            }
            self.call_pointer += 1;
        }
        let called = vstd::slice::slice_subrange(self.calls.as_slice(), 0, self.call_pointer);
        proof {
            assert(called@ =~= cseq.take(self.pointer()));
        }
        if let Some(i) = first_winner_at(called, &self.boards) {
            return Some(self.win_here(i, called));
        }
        None
    }

    /// Builds the win event for board `i`, which wins with the calls
    /// revealed so far.
    fn win_here(&self, i: usize, called: &[Cell]) -> (w: Win)
        requires
            self.wf(),
            0 <= (i as int) < self.boards_seq().len(),
            called@ == self.calls_seq().take(self.pointer()),
            board_wins(self.boards_seq()[i as int], called@),
        ensures
            w.step == self.pointer(),
            1 <= w.step,
            w.index == i,
            w.winning_number == self.calls_seq()[w.step - 1],
            w.score as int == score_spec(
                self.calls_seq().take(w.step as int),
                self.boards_seq()[i as int],
            ),
    {
        let ghost bs = self.boards_seq();
        proof {
            if self.call_pointer == 0 {
                lemma_no_win_empty(bs[i as int], called@);
                assert(false);
            }
            lemma_board_sums(bs[i as int], Seq::<Cell>::empty(), bs[i as int].len() as int);
            vstd::arithmetic::mul::lemma_mul_inequality(
                called@[called@.len() - 1] as int,
                255,
                cell_sum(bs[i as int]),
            );
        }
        let s = score(called, &self.boards[i]);
        Win {
            index: i,
            step: self.call_pointer,
            winning_number: self.calls[self.call_pointer - 1],
            score: s,
        }
    }
}

/// Runs the calls in order and reports the first board to win: its
/// index, the step of the win, and its score at that step.  Ties at one
/// step go to the lowest board index.
pub fn run_first_winner(calls: &Vec<Cell>, boards: &Vec<Board>) -> (r: Result<
    (usize, usize, usize),
    GameError,
>)
    requires
        forall|i: int|
            0 <= i < boards@.len() ==> 255 * cell_sum(#[trigger] view_boards(boards@)[i])
                <= usize::MAX as int,
    ensures
        (r == Err::<(usize, usize, usize), GameError>(GameError::InvalidBoard)) <==> !valid_boards(
            view_boards(boards@),
        ),
        (r == Err::<(usize, usize, usize), GameError>(GameError::NoWinner)) <==> (valid_boards(
            view_boards(boards@),
        ) && no_winner_at(view_boards(boards@), calls@, calls@.len() as int)),
        r matches Ok(t) ==> first_winner_ok(
            calls@,
            view_boards(boards@),
            t.0 as int,
            t.1 as int,
            t.2 as int,
        ),
        (r is Ok) <==> (valid_boards(view_boards(boards@)) && !no_winner_at(
            view_boards(boards@),
            calls@,
            calls@.len() as int,
        )),
{
    let ghost bs = view_boards(boards@);
    if !check_boards(boards) {
        return Err(GameError::InvalidBoard);
    }
    proof {
        assert forall|i: int| 0 <= i < bs.len() implies !board_wins(
            #[trigger] bs[i],
            calls@.take(0),
        ) by {
            lemma_no_win_empty(bs[i], calls@.take(0));
        }
        assert(calls@.take(calls@.len() as int) =~= calls@);
    }
    let mut k: usize = 0;
    while k < calls.len()
        invariant
            bs == view_boards(boards@),
            valid_boards(bs),
            forall|i: int| 0 <= i < bs.len() ==> is_rect(#[trigger] bs[i]),
            forall|i: int|
                0 <= i < bs.len() ==> 255 * cell_sum(#[trigger] bs[i]) <= usize::MAX as int,
            0 <= k <= calls@.len(),
            calls@.take(calls@.len() as int) == calls@,
            forall|k2: int| 0 <= k2 <= k ==> no_winner_at(bs, calls@, k2),
        decreases calls@.len() - k,
    {
        let prefix = vstd::slice::slice_subrange(calls.as_slice(), 0, k + 1);
        proof {
            assert(prefix@ =~= calls@.take(k as int + 1));
        }
        if let Some(i) = first_winner_at(prefix, boards) {
            proof {
                assert(view_board(boards@[i as int]@) == bs[i as int]);
                lemma_board_sums(bs[i as int], Seq::<Cell>::empty(), bs[i as int].len() as int);
                vstd::arithmetic::mul::lemma_mul_inequality(
                    prefix@[prefix@.len() - 1] as int,
                    255,
                    cell_sum(bs[i as int]),
                );
            }
            let s = score(prefix, &boards[i]);
            proof {
                lemma_win_monotonic(bs[i as int], calls@.take(k as int + 1), calls@);
                assert(no_winner_at(bs, calls@, k as int));
                assert(first_winner_ok(calls@, bs, i as int, k as int + 1, s as int));
            }
            return Ok((i, k + 1, s));
        }
        k += 1;
    }
    Err(GameError::NoWinner)
}

/// True when some entry of the vector is `true`.
fn any_true(v: &Vec<bool>) -> (r: bool)
    ensures
        r == exists|i: int| 0 <= i < v@.len() && v@[i],
{
    let mut i: usize = 0;
    while i < v.len()
        invariant
            0 <= i <= v@.len(),
            forall|k: int| 0 <= k < i ==> !v@[k],
        decreases v@.len() - i,
    {
        if v[i] {
            return true;
        }
        i += 1;
    }
    false
}

/// Runs the calls in order, removing every board from play as it wins,
/// and reports the last board removed: its index, the step of its win,
/// and its score at that step.  When several boards win at the step that
/// empties the field, the one with the highest index is reported.
pub fn run_last_winner(calls: &Vec<Cell>, boards: &Vec<Board>) -> (r: Result<
    (usize, usize, usize),
    GameError,
>)
    requires
        forall|i: int|
            0 <= i < boards@.len() ==> 255 * cell_sum(#[trigger] view_boards(boards@)[i])
                <= usize::MAX as int,
    ensures
        (r == Err::<(usize, usize, usize), GameError>(GameError::InvalidBoard)) <==> !valid_boards(
            view_boards(boards@),
        ),
        (r == Err::<(usize, usize, usize), GameError>(GameError::NoWinner)) <==> (valid_boards(
            view_boards(boards@),
        ) && (boards@.len() == 0 || !all_win_at(view_boards(boards@), calls@, calls@.len() as int))),
        r matches Ok(t) ==> last_winner_ok(
            calls@,
            view_boards(boards@),
            t.0 as int,
            t.1 as int,
            t.2 as int,
        ),
        (r is Ok) <==> (valid_boards(view_boards(boards@)) && boards@.len() > 0 && all_win_at(
            view_boards(boards@),
            calls@,
            calls@.len() as int,
        )),
{
    let ghost bs = view_boards(boards@);
    if !check_boards(boards) {
        return Err(GameError::InvalidBoard);
    }
    let n = boards.len();
    if n == 0 {
        return Err(GameError::NoWinner);
    }
    proof {
        assert forall|i: int| 0 <= i < bs.len() implies !board_wins(
            #[trigger] bs[i],
            calls@.take(0),
        ) by {
            lemma_no_win_empty(bs[i], calls@.take(0));
        }
        assert(calls@.take(calls@.len() as int) =~= calls@);
    }
    let mut remaining: Vec<bool> = vec![true; n];
    proof {
        assert(forall|j: int| 0 <= j < n ==> remaining@[j]);
        assert(remaining@[0]);
    }
    let mut last: Option<(usize, usize, usize)> = None;
    let mut k: usize = 0;
    while k < calls.len()
        invariant
            bs == view_boards(boards@),
            valid_boards(bs),
            n == boards@.len(),
            n > 0,
            forall|i: int| 0 <= i < bs.len() ==> is_rect(#[trigger] bs[i]),
            forall|i: int|
                0 <= i < bs.len() ==> 255 * cell_sum(#[trigger] bs[i]) <= usize::MAX as int,
            0 <= k <= calls@.len(),
            calls@.take(calls@.len() as int) == calls@,
            remaining@.len() == n,
            forall|j: int|
                0 <= j < n ==> (remaining@[j] <==> !board_wins(
                    #[trigger] bs[j],
                    calls@.take(k as int),
                )),
            exists|j: int| 0 <= j < n && remaining@[j],
            match last {
                None => forall|j: int|
                    0 <= j < n ==> !board_wins(#[trigger] bs[j], calls@.take(k as int)),
                Some(t) => {
                    &&& 0 <= t.0 < n
                    &&& wins_at_step(bs[t.0 as int], calls@, t.1 as int)
                    &&& 1 <= t.1 <= k
                    &&& t.2 as int == calls@[t.1 - 1] * unused_sum(
                        bs[t.0 as int],
                        calls@.take(t.1 as int),
                    )
                    &&& forall|j: int|
                        0 <= j < n && board_wins(#[trigger] bs[j], calls@.take(k as int))
                            ==> board_wins(bs[j], calls@.take(t.1 as int))
                    &&& forall|j: int|
                        t.0 < j < n && board_wins(#[trigger] bs[j], calls@.take(k as int))
                            ==> board_wins(bs[j], calls@.take(t.1 as int - 1))
                },
            },
        decreases calls@.len() - k,
    {
        let prefix = vstd::slice::slice_subrange(calls.as_slice(), 0, k + 1);
        proof {
            assert(prefix@ =~= calls@.take(k as int + 1));
        }
        let mut i: usize = 0;
        while i < n
            invariant
                bs == view_boards(boards@),
                valid_boards(bs),
                n == boards@.len(),
                n > 0,
                forall|i2: int| 0 <= i2 < bs.len() ==> is_rect(#[trigger] bs[i2]),
                forall|i2: int|
                    0 <= i2 < bs.len() ==> 255 * cell_sum(#[trigger] bs[i2]) <= usize::MAX as int,
                0 <= k < calls@.len(),
                calls@.len() <= usize::MAX as int,
                0 <= i <= n,
                calls@.take(calls@.len() as int) == calls@,
                prefix@ == calls@.take(k as int + 1),
                remaining@.len() == n,
                forall|j: int|
                    0 <= j < i ==> (remaining@[j] <==> !board_wins(
                        #[trigger] bs[j],
                        calls@.take(k as int + 1),
                    )),
                forall|j: int|
                    i <= j < n ==> (remaining@[j] <==> !board_wins(
                        #[trigger] bs[j],
                        calls@.take(k as int),
                    )),
                match last {
                    None => forall|j: int|
                        0 <= j < n ==> !board_wins(
                            #[trigger] bs[j],
                            calls@.take(if j < i {
                                k as int + 1
                            } else {
                                k as int
                            }),
                        ),
                    Some(t) => {
                        &&& 0 <= t.0 < n
                        &&& wins_at_step(bs[t.0 as int], calls@, t.1 as int)
                        &&& 1 <= t.1 <= k + 1
                        &&& t.2 as int == calls@[t.1 - 1] * unused_sum(
                            bs[t.0 as int],
                            calls@.take(t.1 as int),
                        )
                        &&& forall|j: int|
                            0 <= j < n && board_wins(
                                #[trigger] bs[j],
                                calls@.take(if j < i {
                                    k as int + 1
                                } else {
                                    k as int
                                }),
                            ) ==> board_wins(bs[j], calls@.take(t.1 as int))
                        &&& forall|j: int|
                            t.0 < j < n && board_wins(
                                #[trigger] bs[j],
                                calls@.take(if j < i {
                                    k as int + 1
                                } else {
                                    k as int
                                }),
                            ) ==> board_wins(bs[j], calls@.take(t.1 as int - 1))
                    },
                },
            decreases n - i,
        {
            proof {
                assert(view_board(boards@[i as int]@) == bs[i as int]);
            }
            if remaining[i] && win(prefix, &boards[i]).is_some() {
                remaining.set(i, false);
                proof {
                    lemma_board_sums(bs[i as int], Seq::<Cell>::empty(), bs[i as int].len() as int);
                    vstd::arithmetic::mul::lemma_mul_inequality(
                        prefix@[prefix@.len() - 1] as int,
                        255,
                        cell_sum(bs[i as int]),
                    );
                    assert forall|j: int|
                        0 <= j < n && board_wins(#[trigger] bs[j], calls@.take(k as int)) implies
                        board_wins(bs[j], calls@.take(k as int + 1)) by {
                        assert(calls@.take(k as int + 1).take(k as int) =~= calls@.take(k as int));
                        lemma_win_monotonic(
                            bs[j],
                            calls@.take(k as int),
                            calls@.take(k as int + 1),
                        );
                    }
                }
                let s = score(prefix, &boards[i]);
                last = Some((i, k + 1, s));
            } else {
                proof {
                    if !remaining@[i as int] {
                        assert(board_wins(bs[i as int], calls@.take(k as int)));
                        assert(calls@.take(k as int + 1).take(k as int) =~= calls@.take(k as int));
                        lemma_win_monotonic(
                            bs[i as int],
                            calls@.take(k as int),
                            calls@.take(k as int + 1),
                        );
                    }
                }
            }
            i += 1;
        }
        if !any_true(&remaining) {
            match last {
                Some(t) => {
                    proof {
                        assert forall|j: int| 0 <= j < n implies board_wins(
                            #[trigger] bs[j],
                            calls@,
                        ) by {
                            assert(board_wins(bs[j], calls@.take(k as int + 1)));
                            lemma_win_monotonic(bs[j], calls@.take(k as int + 1), calls@);
                        }
                        assert(last_winner_ok(calls@, bs, t.0 as int, t.1 as int, t.2 as int));
                    }
                    return Ok(t);
                },
                None => {
                    proof {
                        assert(remaining@[0] <==> !board_wins(bs[0], calls@.take(k as int + 1)));
                        assert(false);
                    }
                    return Err(GameError::NoWinner);
                },
            }
        }
        k += 1;
    }
    proof {
        let j = choose|j: int| 0 <= j < n && remaining@[j];
        assert(!board_wins(bs[j], calls@));
    }
    Err(GameError::NoWinner)
}

// ------------------------------------------------------------------
// Laws of the tournament
// ------------------------------------------------------------------

/// The first-winner result is determined by the inputs alone: any two
/// triples that satisfy the first-winner contract are equal.
pub proof fn lemma_first_winner_unique(
    calls: Seq<Cell>,
    bs: Seq<Seq<Seq<Cell>>>,
    i1: int,
    k1: int,
    s1: int,
    i2: int,
    k2: int,
    s2: int,
)
    requires
        first_winner_ok(calls, bs, i1, k1, s1),
        first_winner_ok(calls, bs, i2, k2, s2),
    ensures
        i1 == i2,
        k1 == k2,
        s1 == s2,
{
    lemma_win_step_unique(bs[i1], calls, k1, k2);
    if i1 < i2 {
        assert(board_wins(bs[i1], calls.take(k1)));
    }
    if i2 < i1 {
        assert(board_wins(bs[i2], calls.take(k2)));
    }
}

/// The last-winner result is determined by the inputs alone: any two
/// triples that satisfy the last-winner contract are equal.
pub proof fn lemma_last_winner_unique(
    calls: Seq<Cell>,
    bs: Seq<Seq<Seq<Cell>>>,
    i1: int,
    k1: int,
    s1: int,
    i2: int,
    k2: int,
    s2: int,
)
    requires
        last_winner_ok(calls, bs, i1, k1, s1),
        last_winner_ok(calls, bs, i2, k2, s2),
    ensures
        i1 == i2,
        k1 == k2,
        s1 == s2,
{
    if k1 < k2 {
        assert(board_wins(bs[i2], calls.take(k1)));
        assert(calls.take(k2 - 1).take(k1) =~= calls.take(k1));
        lemma_win_monotonic(bs[i2], calls.take(k1), calls.take(k2 - 1));
    }
    if k2 < k1 {
        assert(board_wins(bs[i1], calls.take(k2)));
        assert(calls.take(k1 - 1).take(k2) =~= calls.take(k2));
        lemma_win_monotonic(bs[i1], calls.take(k2), calls.take(k1 - 1));
    }
    if i1 < i2 {
        assert(board_wins(bs[i2], calls.take(k1 - 1)));
    }
    if i2 < i1 {
        assert(board_wins(bs[i1], calls.take(k2 - 1)));
    }
}

/// With exactly one board, the first-winner and last-winner results
/// coincide.
pub proof fn lemma_single_board_first_eq_last(
    calls: Seq<Cell>,
    bs: Seq<Seq<Seq<Cell>>>,
    i1: int,
    k1: int,
    s1: int,
    i2: int,
    k2: int,
    s2: int,
)
    requires
        bs.len() == 1,
        first_winner_ok(calls, bs, i1, k1, s1),
        last_winner_ok(calls, bs, i2, k2, s2),
    ensures
        i1 == i2,
        k1 == k2,
        s1 == s2,
{
    lemma_win_step_unique(bs[0], calls, k1, k2);
}

// ------------------------------------------------------------------
// Formatting
// ------------------------------------------------------------------

/// The character for one decimal digit.
pub open spec fn digit_char(d: int) -> char {
    if d == 0 {
        '0'
    } else if d == 1 {
        '1'
    } else if d == 2 {
        '2'
    } else if d == 3 {
        '3'
    } else if d == 4 {
        '4'
    } else if d == 5 {
        '5'
    } else if d == 6 {
        '6'
    } else if d == 7 {
        '7'
    } else if d == 8 {
        '8'
    } else {
        '9'
    }
}

/// The decimal digits of a cell value (cells fit in three digits).
pub open spec fn dec_chars(n: int) -> Seq<char> {
    if n >= 100 {
        seq![digit_char(n / 100), digit_char((n / 10) % 10), digit_char(n % 10)]
    } else if n >= 10 {
        seq![digit_char(n / 10), digit_char(n % 10)]
    } else {
        seq![digit_char(n)]
    }
}

/// A cell rendered right-aligned in a field of width two.
pub open spec fn padded_cell(n: int) -> Seq<char> {
    if n < 10 {
        seq![' '] + dec_chars(n)
    } else {
        dec_chars(n)
    }
}

/// The first `j` cells rendered and joined with single spaces.
pub open spec fn fmt_cells_spec(cells: Seq<Cell>, j: int) -> Seq<char>
    decreases j,
{
    if j <= 0 {
        Seq::empty()
    } else if j == 1 {
        padded_cell(cells[0] as int)
    } else {
        fmt_cells_spec(cells, j - 1) + seq![' '] + padded_cell(cells[j - 1] as int)
    }
}

/// The first `r` rows rendered and joined with newlines.
pub open spec fn fmt_board_spec(b: Seq<Seq<Cell>>, r: int) -> Seq<char>
    decreases r,
{
    if r <= 0 {
        Seq::empty()
    } else if r == 1 {
        fmt_cells_spec(b[0], b[0].len() as int)
    } else {
        fmt_board_spec(b, r - 1) + seq!['\n'] + fmt_cells_spec(b[r - 1], b[r - 1].len() as int)
    }
}

/// The string for one decimal digit.
fn digit_str(d: u8) -> (r: &'static str)
    requires
        d < 10,
    ensures
        r@ == seq![digit_char(d as int)],
{
    proof {
        reveal_strlit("0");
        reveal_strlit("1");
        reveal_strlit("2");
        reveal_strlit("3");
        reveal_strlit("4");
        reveal_strlit("5");
        reveal_strlit("6");
        reveal_strlit("7");
        reveal_strlit("8");
        reveal_strlit("9");
    }
    match d {
        0 => "0",
        1 => "1",
        2 => "2",
        3 => "3",
        4 => "4",
        5 => "5",
        6 => "6",
        7 => "7",
        8 => "8",
        _ => "9",
    }
}

/// Renders cells right-aligned in fields of width two, separated by
/// single spaces.
pub fn fmt_cells(cells: &[Cell]) -> (r: String)
    ensures
        r@ == fmt_cells_spec(cells@, cells@.len() as int),
{
    proof {
        reveal_strlit(" ");
    }
    let mut out = String::new();
    let mut i: usize = 0;
    while i < cells.len()
        invariant
            0 <= i <= cells@.len(),
            out@ == fmt_cells_spec(cells@, i as int),
        decreases cells@.len() - i,
    {
        proof {
            reveal_strlit(" ");
        }
        if i > 0 {
            out.append(" ");
        }
        let n = cells[i];
        if n >= 100 {
            out.append(digit_str(n / 100));
            out.append(digit_str((n / 10) % 10));
            out.append(digit_str(n % 10));
        } else if n >= 10 {
            out.append(digit_str(n / 10));
            out.append(digit_str(n % 10));
        } else {
            out.append(" ");
            out.append(digit_str(n));
        }
        proof {
            assert(out@ =~= fmt_cells_spec(cells@, i as int + 1));
        }
        i += 1;
    }
    out
}

/// Renders a board as one line of cells per row, separated by newlines.
pub fn fmt_board(board: &Board) -> (r: String)
    ensures
        r@ == fmt_board_spec(view_board(board@), board@.len() as int),
{
    proof {
        reveal_strlit("\n");
    }
    let ghost b = view_board(board@);
    let mut out = String::new();
    let mut rr: usize = 0;
    while rr < board.len()
        invariant
            0 <= rr <= board@.len(),
            b == view_board(board@),
            out@ == fmt_board_spec(b, rr as int),
        decreases board@.len() - rr,
    {
        proof {
            reveal_strlit("\n");
        }
        if rr > 0 {
            out.append("\n");
        }
        let line = fmt_cells(board[rr].as_slice());
        out.append(line.as_str());
        proof {
            assert(out@ =~= fmt_board_spec(b, rr as int + 1));
        }
        rr += 1;
    }
    out
}

} // verus!
