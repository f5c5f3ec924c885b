//! Lowest-risk pathfinding through a cave of chitons: a grid of per-cell
//! risks, a cost table relaxed from the top-left corner until no candidate
//! cell improves, and the five-fold expanded grid of the second part.

use vstd::prelude::*;

verus! {

/// The sum of all cost cells, the potential that relaxation drains.
pub open spec fn total(costs: Seq<u64>) -> int
    decreases costs.len(),
{
    if costs.len() == 0 {
        0
    } else {
        total(costs.drop_last()) + costs.last()
    }
}

proof fn lemma_total_nonneg(costs: Seq<u64>)
    ensures
        total(costs) >= 0,
    decreases costs.len(),
{
    if costs.len() > 0 {
        lemma_total_nonneg(costs.drop_last());
    }
}

proof fn lemma_total_update(costs: Seq<u64>, i: int, v: u64)
    requires
        0 <= i < costs.len(),
    ensures
        total(costs.update(i, v)) == total(costs) - costs[i] + v,
    decreases costs.len(),
{
    let updated = costs.update(i, v);
    if i == costs.len() - 1 {
        assert(updated.drop_last() =~= costs.drop_last());
    } else {
        lemma_total_update(costs.drop_last(), i, v);
        assert(updated.drop_last() =~= costs.drop_last().update(i, v));
        assert(updated.last() == costs.last());
    }
}

/// The cave: a rectangular risk grid, a flat cost table in row-major order,
/// and the work list of cells whose cost just improved.
pub struct Cave {
    pub risks: Vec<Vec<u8>>,
    pub costs: Vec<u64>,
    pub to_consider: Vec<(usize, usize)>,
}

impl Cave {
    /// The grid's height in spec terms.
    pub open spec fn spec_height(self) -> int {
        self.risks@.len() as int
    }

    /// The grid's width in spec terms.
    pub open spec fn spec_width(self) -> int {
        self.risks@[0]@.len() as int
    }

    /// Well-formed: a non-empty rectangular grid whose cell count fits the
    /// machine, a cost cell per grid cell, and only in-bounds work-list
    /// entries.
    pub open spec fn wf(self) -> bool {
        &&& self.spec_height() > 0
        &&& self.spec_width() > 0
        &&& self.spec_height() * self.spec_width() <= usize::MAX
        &&& forall|i: int| 0 <= i < self.spec_height() ==> (#[trigger] self.risks@[i])@.len()
            == self.spec_width()
        &&& self.costs@.len() == self.spec_height() * self.spec_width()
        &&& forall|k: int| 0 <= k < self.to_consider@.len() ==> (#[trigger] self.to_consider@[
        k]).0 < self.spec_height() && self.to_consider@[k].1 < self.spec_width()
    }

    /// A fresh cave: every cost unknown (the maximum) except the top-left
    /// corner at zero, which is the one cell to consider.
    pub fn new(risks: Vec<Vec<u8>>) -> (r: Cave)
        requires
            risks@.len() > 0,
            risks@[0]@.len() > 0,
            risks@.len() * risks@[0]@.len() <= usize::MAX,
            forall|i: int| 0 <= i < risks@.len() ==> (#[trigger] risks@[i])@.len()
                == risks@[0]@.len(),
        ensures
            r.wf(),
            r.risks == risks,
            r.costs@.len() == risks@.len() * risks@[0]@.len(),
            r.costs@[0] == 0,
            forall|k: int| 0 < k < r.costs@.len() ==> r.costs@[k] == u64::MAX,
            r.to_consider@ =~= seq![(0usize, 0usize)],
    {
        let h = risks.len();
        let w = risks[0].len();
        proof {
            assert(h * w >= 1 * w && h as int * w as int >= 1) by (nonlinear_arith)
                requires
                    h >= 1,
                    w >= 1,
            ;
        }
        let n = h * w;
        let mut costs: Vec<u64> = Vec::new();
        let mut k: usize = 0;
        while k < n
            invariant
                k <= n,
                costs@.len() == k,
                forall|m: int| 0 <= m < k as int ==> costs@[m] == u64::MAX,
            decreases n - k,
        {
            costs.push(u64::MAX);
            k = k + 1;
        }
        costs[0] = 0;
        let to_consider = vec![(0usize, 0usize)];
        Cave { risks, costs, to_consider }
    }

    pub fn width(&self) -> (r: usize)
        requires
            self.wf(),
        ensures
            r == self.spec_width(),
    {
        self.risks[0].len()
    }

    pub fn height(&self) -> (r: usize)
        requires
            self.wf(),
        ensures
            r == self.spec_height(),
    {
        self.risks.len()
    }

    /// Records a candidate cost for a cell: if it beats the known cost, the
    /// cost table improves and the cell joins the work list; otherwise
    /// nothing changes.
    pub fn consider(&mut self, row: usize, col: usize, cost: u64)
        requires
            old(self).wf(),
            row < old(self).spec_height(),
            col < old(self).spec_width(),
        ensures
            final(self).wf(),
            final(self).risks == old(self).risks,
            ({
                let idx = row as int * old(self).spec_width() + col;
                if old(self).costs@[idx] > cost {
                    final(self).costs@ == old(self).costs@.update(idx, cost)
                        && final(self).to_consider@ == old(self).to_consider@.push((row, col))
                } else {
                    final(self).costs@ == old(self).costs@
                        && final(self).to_consider@ == old(self).to_consider@
                }
            }),
    {
        let w = self.risks[0].len();
        proof {
            assert(row as int * w as int + col < self.spec_height() * w as int)
                by (nonlinear_arith)
                requires
                    (row as int) < self.spec_height(),
                    (col as int) < w as int,
                    w as int == self.spec_width(),
            ;
            assert(row as int * w as int >= 0) by (nonlinear_arith)
                requires
                    row as int >= 0,
                    w as int >= 0,
            ;
        }
        let idx = row * w + col;
        if self.costs[idx] > cost {
            self.costs[idx] = cost;
            self.to_consider.push((row, col));
        }
    }

    /// The cost recorded for the bottom-right corner.
    pub fn answer(&self) -> (r: u64)
        requires
            self.wf(),
        ensures
            r == self.costs@.last(),
    {
        proof {
            assert(self.spec_height() * self.spec_width() >= 1) by (nonlinear_arith)
                requires
                    self.spec_height() >= 1,
                    self.spec_width() >= 1,
            ;
        }
        self.costs[self.costs.len() - 1]
    }

    /// Drains the work list, relaxing each popped cell's four neighbours
    /// with the popped cell's cost plus the neighbour's risk.  Costs only
    /// ever improve; the walk stops when no improvement is pending.  A
    /// relaxation whose candidate cost would not fit a `u64` is not taken.
    #[verifier::rlimit(100)]
    pub fn walk(&mut self)
        requires
            old(self).wf(),
        ensures
            final(self).wf(),
            final(self).risks == old(self).risks,
            final(self).to_consider@.len() == 0,
            final(self).costs@.len() == old(self).costs@.len(),
            forall|k: int| 0 <= k < old(self).costs@.len()
                ==> final(self).costs@[k] <= old(self).costs@[k],
    {
        proof {
            lemma_total_nonneg(self.costs@);
        }
        while self.to_consider.len() > 0
            invariant
                self.wf(),
                self.risks == old(self).risks,
                self.costs@.len() == old(self).costs@.len(),
                forall|k: int| 0 <= k < old(self).costs@.len()
                    ==> self.costs@[k] <= old(self).costs@[k],
            decreases total(self.costs@), self.to_consider@.len(),
        {
            let ghost t0 = total(self.costs@);
            let ghost c0 = self.costs@;
            let ghost l0 = self.to_consider@.len();
            proof {
                lemma_total_nonneg(self.costs@);
            }
            let (row, col) = self.to_consider[self.to_consider.len() - 1];
            self.to_consider.pop();
            let w = self.risks[0].len();
            let h = self.risks.len();
            let ghost wi = w as int;
            proof {
                assert(row as int * wi + col < h as int * wi && row as int * wi >= 0)
                    by (nonlinear_arith)
                    requires
                        (row as int) < h as int,
                        (col as int) < wi,
                        row as int >= 0,
                        col as int >= 0,
                        wi >= 1,
                ;
            }
            let cost = self.costs[row * w + col];
            if row > 0 {
                let risk = self.risks[row - 1][col] as u64;
                if cost <= u64::MAX - risk {
                    let ghost cb = self.costs@;
                    self.consider(row - 1, col, cost + risk);
                    proof {
                        let idx = (row - 1) as int * wi + col as int;
                        assert(0 <= idx && idx < h as int * wi) by (nonlinear_arith)
                            requires
                                1 <= row as int,
                                (row as int) <= h as int,
                                0 <= col as int,
                                (col as int) < wi,
                                idx == (row - 1) as int * wi + col as int,
                                wi >= 1,
                        ;
                        if cb[idx] > cost + risk {
                            lemma_total_update(cb, idx, (cost + risk) as u64);
                        }
                        assert(total(self.costs@) <= t0 && (total(self.costs@) == t0
                            ==> self.costs@ == c0 && self.to_consider@.len() == l0 - 1));
                    }
                }
            }
            if row < h - 1 {
                let risk = self.risks[row + 1][col] as u64;
                if cost <= u64::MAX - risk {
                    let ghost cb = self.costs@;
                    self.consider(row + 1, col, cost + risk);
                    proof {
                        let idx = (row + 1) as int * wi + col as int;
                        assert(0 <= idx && idx < h as int * wi) by (nonlinear_arith)
                            requires
                                0 <= row as int,
                                row as int + 1 < h as int,
                                0 <= col as int,
                                (col as int) < wi,
                                idx == (row + 1) as int * wi + col as int,
                                wi >= 1,
                        ;
                        if cb[idx] > cost + risk {
                            lemma_total_update(cb, idx, (cost + risk) as u64);
                        }
                        assert(total(self.costs@) <= t0 && (total(self.costs@) == t0
                            ==> self.costs@ == c0 && self.to_consider@.len() == l0 - 1));
                    }
                }
            }
            if col > 0 {
                let risk = self.risks[row][col - 1] as u64;
                if cost <= u64::MAX - risk {
                    let ghost cb = self.costs@;
                    self.consider(row, col - 1, cost + risk);
                    proof {
                        let idx = row as int * wi + col as int - 1;
                        assert(0 <= idx && idx < h as int * wi) by (nonlinear_arith)
                            requires
                                0 <= row as int,
                                (row as int) < h as int,
                                1 <= col as int,
                                (col as int) < wi,
                                idx == row as int * wi + col as int - 1,
                                wi >= 1,
                        ;
                        if cb[idx] > cost + risk {
                            lemma_total_update(cb, idx, (cost + risk) as u64);
                        }
                        assert(total(self.costs@) <= t0 && (total(self.costs@) == t0
                            ==> self.costs@ == c0 && self.to_consider@.len() == l0 - 1));
                    }
                }
            }
            if col < w - 1 {
                let risk = self.risks[row][col + 1] as u64;
                if cost <= u64::MAX - risk {
                    let ghost cb = self.costs@;
                    self.consider(row, col + 1, cost + risk);
                    proof {
                        let idx = row as int * wi + col as int + 1;
                        assert(0 <= idx && idx < h as int * wi) by (nonlinear_arith)
                            requires
                                0 <= row as int,
                                (row as int) < h as int,
                                0 <= col as int,
                                col as int + 1 < wi,
                                idx == row as int * wi + col as int + 1,
                                wi >= 1,
                        ;
                        if cb[idx] > cost + risk {
                            lemma_total_update(cb, idx, (cost + risk) as u64);
                        }
                        assert(total(self.costs@) <= t0 && (total(self.costs@) == t0
                            ==> self.costs@ == c0 && self.to_consider@.len() == l0 - 1));
                    }
                }
            }
            proof {
                lemma_total_nonneg(self.costs@);
                assert(total(self.costs@) < t0 || (total(self.costs@) == t0 && self.to_consider@.len()
                    < l0));
            }
        }
    }
}


/// A risk value bumped by one, wrapping from nine back to one.
pub open spec fn wrapped(c: u8) -> u8 {
    (c % 9 + 1) as u8
}

impl Cave {
    /// The five-by-five expanded cave: the base grid tiles a square,
    /// each step right or down bumping every risk by one and wrapping nine
    /// to one.  The cost state starts fresh.
    pub fn into_part2_cave(self) -> (r: Cave)
        requires
            self.wf(),
            25 * (self.spec_height() * self.spec_width()) <= usize::MAX,
        ensures
            r.wf(),
            r.spec_height() == 5 * self.spec_height(),
            r.spec_width() == 5 * self.spec_width(),
            forall|i: int, j: int|
                0 <= i < self.spec_height() && 0 <= j < self.spec_width()
                    ==> (#[trigger] r.risks@[i]@[j]) == self.risks@[i]@[j],
            forall|i: int, j: int|
                0 <= i < self.spec_height() && self.spec_width() <= j < 5 * self.spec_width()
                    ==> (#[trigger] r.risks@[i]@[j]) == wrapped(r.risks@[i]@[j - self.spec_width()]),
            forall|i: int, j: int|
                self.spec_height() <= i < 5 * self.spec_height() && 0 <= j < 5 * self.spec_width()
                    ==> (#[trigger] r.risks@[i]@[j]) == wrapped(
                    r.risks@[i - self.spec_height()]@[j]),
            r.costs@.len() == r.spec_height() * r.spec_width(),
            r.costs@[0] == 0,
            forall|k: int| 0 < k < r.costs@.len() ==> r.costs@[k] == u64::MAX,
            r.to_consider@ =~= seq![(0usize, 0usize)],
    {
        let h = self.risks.len();
        let w = self.risks[0].len();
        proof {
            assert(5 * (h as int) * (5 * (w as int)) == 25 * (h as int * w as int) && h as int * (
            w as int) >= 1 && 5 * (w as int) <= 25 * (h as int * w as int) && 5 * (h as int) <= 25
                * (h as int * w as int)) by (nonlinear_arith)
                requires
                    h as int >= 1,
                    w as int >= 1,
            ;
        }
        let wide = 5 * w;
        let tall = 5 * h;
        let mut grid: Vec<Vec<u8>> = Vec::new();
        let mut i: usize = 0;
        while i < h
            invariant
                self.wf(),
                h == self.spec_height(),
                w == self.spec_width(),
                wide == 5 * w,
                i <= h,
                grid@.len() == i,
                forall|a: int| 0 <= a < i as int ==> (#[trigger] grid@[a])@.len() == wide as int,
                forall|a: int, b: int|
                    0 <= a < i as int && 0 <= b < w as int ==> (#[trigger] grid@[a]@[b])
                        == self.risks@[a]@[b],
                forall|a: int, b: int|
                    0 <= a < i as int && w as int <= b < wide as int ==> (#[trigger] grid@[a]@[b])
                        == wrapped(grid@[a]@[b - w as int]),
            decreases h - i,
        {
            let mut row: Vec<u8> = Vec::new();
            let mut j: usize = 0;
            while j < w
                invariant
                    self.wf(),
                    h == self.spec_height(),
                    w == self.spec_width(),
                    i < h,
                    j <= w,
                    row@.len() == j,
                    forall|b: int| 0 <= b < j as int ==> (#[trigger] row@[b])
                        == self.risks@[i as int]@[b],
                decreases w - j,
            {
                let v = self.risks[i][j];
                row.push(v);
                j = j + 1;
            }
            while j < wide
                invariant
                    self.wf(),
                    h == self.spec_height(),
                    w == self.spec_width(),
                    wide == 5 * w,
                    i < h,
                    w <= j <= wide,
                    row@.len() == j,
                    forall|b: int| 0 <= b < w as int ==> (#[trigger] row@[b])
                        == self.risks@[i as int]@[b],
                    forall|b: int| w as int <= b < j as int ==> (#[trigger] row@[b]) == wrapped(
                        row@[b - w as int],
                    ),
                decreases wide - j,
            {
                let v = row[j - w];
                row.push(v % 9 + 1);
                j = j + 1;
            }
            grid.push(row);
            i = i + 1;
        }
        while i < tall
            invariant
                self.wf(),
                h == self.spec_height(),
                w == self.spec_width(),
                wide == 5 * w,
                tall == 5 * h,
                h <= i <= tall,
                grid@.len() == i,
                forall|a: int| 0 <= a < i as int ==> (#[trigger] grid@[a])@.len() == wide as int,
                forall|a: int, b: int|
                    0 <= a < h as int && 0 <= b < w as int ==> (#[trigger] grid@[a]@[b])
                        == self.risks@[a]@[b],
                forall|a: int, b: int|
                    0 <= a < h as int && w as int <= b < wide as int ==> (#[trigger] grid@[a]@[b])
                        == wrapped(grid@[a]@[b - w as int]),
                forall|a: int, b: int|
                    h as int <= a < i as int && 0 <= b < wide as int ==> (#[trigger] grid@[a]@[b])
                        == wrapped(grid@[a - h as int]@[b]),
            decreases tall - i,
        {
            let mut row: Vec<u8> = Vec::new();
            let mut j: usize = 0;
            while j < wide
                invariant
                    i < tall,
                    h <= i,
                    wide == 5 * w,
                    grid@.len() == i,
                    forall|a: int| 0 <= a < i as int ==> (#[trigger] grid@[a])@.len()
                        == wide as int,
                    j <= wide,
                    row@.len() == j,
                    forall|b: int| 0 <= b < j as int ==> (#[trigger] row@[b]) == wrapped(
                        grid@[i as int - h as int][b],
                    ),
                    h >= 1,
                decreases wide - j,
            {
                let v = grid[i - h][j];
                row.push(v % 9 + 1);
                j = j + 1;
            }
            grid.push(row);
            i = i + 1;
        }
        proof {
            assert(tall as int * (wide as int) == 25 * (h as int * w as int))
                by (nonlinear_arith)
                requires
                    wide == 5 * (w as int),
                    tall == 5 * (h as int),
            ;
        }
        Cave::new(grid)
    }
}

} // verus!
