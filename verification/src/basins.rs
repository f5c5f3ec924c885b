//! Basin labelling on a height map: a recursive flood fill that paints one
//! connected region of non-wall cells with a label, walls being cells of
//! height nine.

use vstd::prelude::*;

verus! {

/// The height that acts as a wall between basins.
pub const WALL: u8 = 9;

/// How many cells of the label table are still unlabelled.
pub open spec fn zeros(v: Seq<u8>) -> int
    decreases v.len(),
{
    if v.len() == 0 {
        0
    } else {
        zeros(v.drop_last()) + if v.last() == 0 {
            1int
        } else {
            0int
        }
    }
}

proof fn lemma_zeros_nonneg(v: Seq<u8>)
    ensures
        zeros(v) >= 0,
    decreases v.len(),
{
    if v.len() > 0 {
        lemma_zeros_nonneg(v.drop_last());
    }
}

proof fn lemma_zeros_update(v: Seq<u8>, i: int, x: u8)
    requires
        0 <= i < v.len(),
        v[i] == 0,
        x != 0,
    ensures
        zeros(v.update(i, x)) == zeros(v) - 1,
    decreases v.len(),
{
    let updated = v.update(i, x);
    if i == v.len() - 1 {
        assert(updated.drop_last() =~= v.drop_last());
    } else {
        lemma_zeros_update(v.drop_last(), i, x);
        assert(updated.drop_last() =~= v.drop_last().update(i, x));
        assert(updated.last() == v.last());
    }
}

/// The height grid is rectangular and non-empty, and the flat label table
/// has one cell per grid cell.
pub open spec fn grids_match(v: Seq<u8>, grid: Seq<Vec<u8>>) -> bool {
    &&& grid.len() > 0
    &&& grid[0]@.len() > 0
    &&& grid.len() * grid[0]@.len() <= usize::MAX
    &&& forall|i: int| 0 <= i < grid.len() ==> (#[trigger] grid[i])@.len() == grid[0]@.len()
    &&& v.len() == grid.len() * grid[0]@.len()
}

/// Paints the connected basin of `(row, col)` with `fill_with`: walls are
/// never painted, already-labelled cells are left alone, and any cell the
/// fill changes was unlabelled and becomes `fill_with`.
pub fn fill(v: &mut Vec<u8>, grid: &Vec<Vec<u8>>, row: usize, col: usize, fill_with: u8)
    requires
        grids_match(old(v)@, grid@),
        row < grid@.len(),
        col < grid@[0]@.len(),
        fill_with != 0,
    ensures
        final(v)@.len() == old(v)@.len(),
        zeros(final(v)@) <= zeros(old(v)@),
        forall|idx: int|
            0 <= idx < old(v)@.len() ==> final(v)@[idx] == old(v)@[idx] || (old(v)@[idx] == 0
                && final(v)@[idx] == fill_with && grid@[idx / grid@[0]@.len() as int]@[idx % grid@[
            0]@.len() as int] != WALL),
        old(v)@[row as int * grid@[0]@.len() as int + col] == 0 && grid@[row as int]@[col as int]
            != WALL ==> final(v)@[row as int * grid@[0]@.len() as int + col] == fill_with,
    decreases zeros(v@),
{
    let h = grid.len();
    let w = grid[0].len();
    let ghost wi = w as int;
    proof {
        assert(row as int * wi + col < h as int * wi && row as int * wi >= 0 && (row as int * wi
            + col) / wi == row as int && (row as int * wi + col) % wi == col as int)
            by (nonlinear_arith)
            requires
                (row as int) < h as int,
                (col as int) < wi,
                row as int >= 0,
                col as int >= 0,
                wi >= 1,
        ;
    }
    if grid[row][col] == WALL {
        return ;
    }
    let idx = row * w + col;
    if v[idx] != 0 {
        return ;
    }
    let ghost v0 = v@;
    v[idx] = fill_with;
    proof {
        lemma_zeros_update(v0, idx as int, fill_with);
        lemma_zeros_nonneg(v@);
    }
    if row > 0 {
        fill(v, grid, row - 1, col, fill_with);
    }
    proof {
        lemma_zeros_nonneg(v@);
    }
    if row < h - 1 {
        fill(v, grid, row + 1, col, fill_with);
    }
    proof {
        lemma_zeros_nonneg(v@);
    }
    if col > 0 {
        fill(v, grid, row, col - 1, fill_with);
    }
    proof {
        lemma_zeros_nonneg(v@);
    }
    if col < w - 1 {
        fill(v, grid, row, col + 1, fill_with);
    }
}

} // verus!
