//! Bingo board bookkeeping: called numbers are marked by setting the high
//! bit of a cell, a board wins on a fully marked row or column, and a
//! winning board is scored by its unmarked cells.

use vstd::prelude::*;

verus! {

/// Whether a cell carries the "called" mark (its high bit).
pub open spec fn marked(c: u8) -> bool {
    c & 128 == 128
}

/// The value an unmarked cell contributes to the score.
pub open spec fn cell_value(c: u8) -> int {
    if marked(c) {
        0
    } else {
        c as int
    }
}

/// Every row has the width of the first.
pub open spec fn rectangular(board: Seq<Vec<u8>>) -> bool {
    forall|i: int| 0 <= i < board.len() ==> (#[trigger] board[i])@.len() == board[0]@.len()
}

/// Row `i` is fully marked.
pub open spec fn row_won(board: Seq<Vec<u8>>, i: int) -> bool {
    forall|j: int| 0 <= j < board[i]@.len() ==> marked(#[trigger] board[i]@[j])
}

/// Column `j` is fully marked.
pub open spec fn col_won(board: Seq<Vec<u8>>, j: int) -> bool {
    forall|i: int| 0 <= i < board.len() ==> marked(#[trigger] board[i]@[j])
}

/// The unmarked-cell sum of the first `j` cells of a row.
pub open spec fn row_sum(row: Seq<u8>, j: int) -> int
    decreases j,
{
    if j <= 0 {
        0
    } else {
        row_sum(row, j - 1) + cell_value(row[j - 1])
    }
}

/// The unmarked-cell sum of the first `i` full rows.
pub open spec fn board_sum(board: Seq<Vec<u8>>, i: int) -> int
    decreases i,
{
    if i <= 0 {
        0
    } else {
        board_sum(board, i - 1) + row_sum(board[i - 1]@, board[i - 1]@.len() as int)
    }
}

/// Row sums grow with the prefix and never drop below zero.
proof fn lemma_row_sum_monotone(row: Seq<u8>, j1: int, j2: int)
    requires
        j1 <= j2,
    ensures
        row_sum(row, j1) <= row_sum(row, j2),
        0 <= row_sum(row, j2) - row_sum(row, j1),
    decreases j2 - j1,
{
    if j1 < j2 {
        lemma_row_sum_monotone(row, j1, j2 - 1);
    }
}

/// Board sums grow with the prefix.
proof fn lemma_board_sum_monotone(board: Seq<Vec<u8>>, i1: int, i2: int)
    requires
        0 <= i1 <= i2,
    ensures
        board_sum(board, i1) <= board_sum(board, i2),
    decreases i2 - i1,
{
    if i1 < i2 {
        lemma_board_sum_monotone(board, i1, i2 - 1);
        lemma_row_sum_monotone(board[i2 - 1]@, 0, board[i2 - 1]@.len() as int);
    }
}

/// Whether the board has a fully marked row or column.
pub fn is_winning_board(board: &Vec<Vec<u8>>) -> (r: bool)
    requires
        board@.len() > 0,
        rectangular(board@),
    ensures
        r == ((exists|i: int| 0 <= i < board@.len() && row_won(board@, i)) || (exists|j: int|
            0 <= j < board@[0]@.len() && col_won(board@, j))),
{
    let nrows = board.len();
    let ncols = board[0].len();
    let mut i: usize = 0;
    while i < nrows
        invariant
            nrows == board@.len(),
            ncols == board@[0]@.len(),
            rectangular(board@),
            i <= nrows,
            forall|x: int| 0 <= x < i as int ==> !row_won(board@, x),
        decreases nrows - i,
    {
        let row = &board[i];
        let mut j: usize = 0;
        let mut all = true;
        while j < ncols
            invariant_except_break
                nrows == board@.len(),
                ncols == board@[0]@.len(),
                rectangular(board@),
                i < nrows,
                j <= ncols,
                row == &board@[i as int],
                row@.len() == ncols,
                all,
                forall|y: int| 0 <= y < j as int ==> marked(#[trigger] row@[y]),
            ensures
                row == &board@[i as int],
                all == row_won(board@, i as int),
            decreases ncols - j,
        {
            if row[j] & 128 != 128 {
                all = false;
                assert(!row_won(board@, i as int));
                break ;
            }
            j = j + 1;
        }
        if all {
            return true;
        }
        i = i + 1;
    }
    let mut j: usize = 0;
    while j < ncols
        invariant
            nrows == board@.len(),
            ncols == board@[0]@.len(),
            rectangular(board@),
            nrows > 0,
            j <= ncols,
            forall|x: int| 0 <= x < nrows as int ==> !row_won(board@, x),
            forall|y: int| 0 <= y < j as int ==> !col_won(board@, y),
        decreases ncols - j,
    {
        let mut i: usize = 0;
        let mut all = true;
        while i < nrows
            invariant_except_break
                nrows == board@.len(),
                ncols == board@[0]@.len(),
                rectangular(board@),
                j < ncols,
                i <= nrows,
                all,
                forall|x: int| 0 <= x < i as int ==> marked(#[trigger] board@[x]@[j as int]),
            ensures
                all == col_won(board@, j as int),
            decreases nrows - i,
        {
            if board[i][j] & 128 != 128 {
                all = false;
                assert(!col_won(board@, j as int));
                break ;
            }
            i = i + 1;
        }
        if all {
            return true;
        }
        j = j + 1;
    }
    false
}

/// The board's score: the sum of its unmarked cells.
pub fn board_score(board: &Vec<Vec<u8>>) -> (r: u32)
    requires
        board_sum(board@, board@.len() as int) <= u32::MAX,
    ensures
        r == board_sum(board@, board@.len() as int),
{
    let nrows = board.len();
    let mut acc: u32 = 0;
    let mut i: usize = 0;
    while i < nrows
        invariant
            nrows == board@.len(),
            i <= nrows,
            board_sum(board@, board@.len() as int) <= u32::MAX,
            acc == board_sum(board@, i as int),
        decreases nrows - i,
    {
        let row = &board[i];
        let ncols = row.len();
        let mut j: usize = 0;
        while j < ncols
            invariant
                nrows == board@.len(),
                i < nrows,
                row == &board@[i as int],
                ncols == row@.len(),
                j <= ncols,
                board_sum(board@, board@.len() as int) <= u32::MAX,
                acc == board_sum(board@, i as int) + row_sum(row@, j as int),
            decreases ncols - j,
        {
            proof {
                lemma_row_sum_monotone(row@, j as int + 1, ncols as int);
                lemma_board_sum_monotone(board@, i as int + 1, board@.len() as int);
                lemma_row_sum_monotone(row@, 0, j as int + 1);
            }
            let c = row[j];
            if c & 128 == 0 {
                assert(!marked(c)) by (bit_vector)
                    requires
                        c & 128 == 0,
                ;
                acc = acc + c as u32;
            } else {
                assert(c & 128 == 128) by (bit_vector)
                    requires
                        c & 128 != 0,
                ;
            }
            j = j + 1;
        }
        i = i + 1;
    }
    acc
}

} // verus!
