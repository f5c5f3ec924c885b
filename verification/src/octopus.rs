//! One step of the flashing-octopus simulation: every energy level rises by
//! one, every cell that passes nine flashes and feeds its neighbours, chain
//! reactions run until quiet, and the flashed cells reset to zero.

use vstd::prelude::*;

verus! {

/// The grid's edge length; the grid is stored flat, row-major.
pub const EDGE: usize = 10;

/// How many cells hold the value `x`.
pub open spec fn count_val(v: Seq<i8>, x: i8) -> int
    decreases v.len(),
{
    if v.len() == 0 {
        0
    } else {
        count_val(v.drop_last(), x) + if v.last() == x {
            1int
        } else {
            0int
        }
    }
}

/// The sum of all cells.
pub open spec fn grid_sum(v: Seq<i8>) -> int
    decreases v.len(),
{
    if v.len() == 0 {
        0
    } else {
        grid_sum(v.drop_last()) + v.last() as int
    }
}

proof fn lemma_count_update(v: Seq<i8>, i: int, x: i8, y: i8)
    requires
        0 <= i < v.len(),
    ensures
        count_val(v.update(i, x), y) == count_val(v, y) - (if v[i] == y {
            1int
        } else {
            0int
        }) + (if x == y {
            1int
        } else {
            0int
        }),
    decreases v.len(),
{
    let updated = v.update(i, x);
    if i == v.len() - 1 {
        assert(updated.drop_last() =~= v.drop_last());
    } else {
        lemma_count_update(v.drop_last(), i, x, y);
        assert(updated.drop_last() =~= v.drop_last().update(i, x));
        assert(updated.last() == v.last());
    }
}

proof fn lemma_count_absent(v: Seq<i8>, x: i8)
    requires
        forall|k: int| 0 <= k < v.len() ==> v[k] != x,
    ensures
        count_val(v, x) == 0,
    decreases v.len(),
{
    if v.len() > 0 {
        lemma_count_absent(v.drop_last(), x);
    }
}

proof fn lemma_count_bound(v: Seq<i8>, x: i8)
    ensures
        0 <= count_val(v, x) <= v.len(),
    decreases v.len(),
{
    if v.len() > 0 {
        lemma_count_bound(v.drop_last(), x);
    }
}

proof fn lemma_sum_update(v: Seq<i8>, i: int, x: i8)
    requires
        0 <= i < v.len(),
    ensures
        grid_sum(v.update(i, x)) == grid_sum(v) - v[i] + x,
    decreases v.len(),
{
    let updated = v.update(i, x);
    if i == v.len() - 1 {
        assert(updated.drop_last() =~= v.drop_last());
    } else {
        lemma_sum_update(v.drop_last(), i, x);
        assert(updated.drop_last() =~= v.drop_last().update(i, x));
        assert(updated.last() == v.last());
    }
}

proof fn lemma_sum_bound(v: Seq<i8>, cap: i8)
    requires
        forall|k: int| 0 <= k < v.len() ==> v[k] <= cap,
    ensures
        grid_sum(v) <= cap as int * v.len(),
    decreases v.len(),
{
    if v.len() > 0 {
        lemma_sum_bound(v.drop_last(), cap);
        assert(cap as int * v.len() == cap as int * (v.len() - 1) + cap) by (nonlinear_arith);
    }
}

/// Two sequences whose zeros and elevens correspond hold as many of each.
proof fn lemma_count_matched(a: Seq<i8>, b: Seq<i8>)
    requires
        a.len() == b.len(),
        forall|k: int| 0 <= k < a.len() ==> ((#[trigger] a[k] == 0) <==> b[k] == 11),
    ensures
        count_val(a, 0) == count_val(b, 11),
    decreases a.len(),
{
    if a.len() > 0 {
        assert(forall|k: int| 0 <= k < a.len() - 1 ==> a.drop_last()[k] == a[k]
            && b.drop_last()[k] == b[k]);
        lemma_count_matched(a.drop_last(), b.drop_last());
    }
}

/// One simulation step.  Returns how many cells flashed; those cells end at
/// zero and every cell ends between zero and nine.  A step of a grid with no
/// nines flashes nothing: every cell just rises by one.
pub fn step(grid: &mut Vec<i8>) -> (flashes: u64)
    requires
        old(grid)@.len() == 100,
        forall|k: int| 0 <= k < 100 ==> 0 <= #[trigger] old(grid)@[k] <= 9,
    ensures
        final(grid)@.len() == 100,
        forall|k: int| 0 <= k < 100 ==> 0 <= #[trigger] final(grid)@[k] <= 9,
        flashes == count_val(final(grid)@, 0),
        forall|k: int| 0 <= k < 100 && old(grid)@[k] == 9 ==> #[trigger] final(grid)@[k] == 0,
        (forall|k: int| 0 <= k < 100 ==> #[trigger] old(grid)@[k] < 9) ==> flashes == 0 && forall|
            k: int,
        | 0 <= k < 100 ==> #[trigger] final(grid)@[k] == old(grid)@[k] + 1,
{
    let mut k: usize = 0;
    while k < 100
        invariant
            grid@.len() == 100,
            k <= 100,
            forall|m: int| 0 <= m < 100 ==> 0 <= #[trigger] old(grid)@[m] <= 9,
            forall|m: int| 0 <= m < k as int ==> #[trigger] grid@[m] == old(grid)@[m] + 1,
            forall|m: int| k as int <= m < 100 ==> #[trigger] grid@[m] == old(grid)@[m],
        decreases 100 - k,
    {
        let v = grid[k];
        grid[k] = v + 1;
        k = k + 1;
    }
    let ghost base = grid@;
    let ghost hyp = forall|m: int| 0 <= m < 100 ==> #[trigger] old(grid)@[m] < 9;
    proof {
        lemma_count_absent(grid@, 11);
    }
    let mut total: u64 = 0;
    loop
        invariant_except_break
            grid@.len() == 100,
            forall|m: int| 0 <= m < 100 ==> 1 <= #[trigger] grid@[m] <= 11,
            forall|m: int| 0 <= m < 100 ==> #[trigger] grid@[m] >= base[m],
            total == count_val(grid@, 11),
            0 <= total <= 100,
            hyp ==> grid@ == base,
            hyp == (forall|m2: int| 0 <= m2 < 100 ==> #[trigger] old(grid)@[m2] < 9),
            forall|m: int| 0 <= m < 100 ==> 1 <= #[trigger] base[m] <= 10,
            forall|m: int| 0 <= m < 100 ==> #[trigger] base[m] == old(grid)@[m] + 1,
        ensures
            grid@.len() == 100,
            forall|m: int| 0 <= m < 100 ==> 1 <= #[trigger] grid@[m] <= 11,
            forall|m: int| 0 <= m < 100 ==> #[trigger] grid@[m] >= base[m],
            forall|m: int| 0 <= m < 100 ==> #[trigger] grid@[m] != 10,
            total == count_val(grid@, 11),
            0 <= total <= 100,
            hyp ==> grid@ == base,
        decreases 1200 - grid_sum(grid@),
    {
        proof {
            lemma_sum_bound(grid@, 11);
        }
        let ghost pass0 = grid@;
        let ghost sum0 = grid_sum(grid@);
        let mut flashes: u64 = 0;
        let mut r: usize = 0;
        while r < 10
            invariant
                grid@.len() == 100,
                r <= 10,
                forall|m: int| 0 <= m < 100 ==> 1 <= #[trigger] grid@[m] <= 11,
                forall|m: int| 0 <= m < 100 ==> #[trigger] grid@[m] >= pass0[m],
                forall|m: int| 0 <= m < 100 ==> #[trigger] pass0[m] >= base[m],
                count_val(grid@, 11) == count_val(pass0, 11) + flashes,
                grid_sum(grid@) >= sum0 + flashes,
                flashes <= count_val(grid@, 11),
                count_val(grid@, 11) <= 100,
                flashes == 0 ==> grid@ == pass0 && forall|m: int|
                    0 <= m < r as int * 10 ==> #[trigger] grid@[m] != 10,
                hyp ==> flashes == 0 && grid@ == base && pass0 == base,
                hyp == (forall|m2: int| 0 <= m2 < 100 ==> #[trigger] old(grid)@[m2] < 9),
                forall|m: int| 0 <= m < 100 ==> 1 <= #[trigger] base[m] <= 10,
                forall|m: int| 0 <= m < 100 ==> #[trigger] base[m] == old(grid)@[m] + 1,
            decreases 10 - r,
        {
            let mut c: usize = 0;
            while c < 10
                invariant
                    grid@.len() == 100,
                    r < 10,
                    c <= 10,
                    forall|m: int| 0 <= m < 100 ==> 1 <= #[trigger] grid@[m] <= 11,
                    forall|m: int| 0 <= m < 100 ==> #[trigger] grid@[m] >= pass0[m],
                    forall|m: int| 0 <= m < 100 ==> #[trigger] pass0[m] >= base[m],
                    count_val(grid@, 11) == count_val(pass0, 11) + flashes,
                    grid_sum(grid@) >= sum0 + flashes,
                    flashes <= count_val(grid@, 11),
                    count_val(grid@, 11) <= 100,
                    flashes == 0 ==> grid@ == pass0 && forall|m: int|
                        0 <= m < r as int * 10 + c as int ==> #[trigger] grid@[m] != 10,
                    hyp ==> flashes == 0 && grid@ == base && pass0 == base,
                    hyp == (forall|m2: int| 0 <= m2 < 100 ==> #[trigger] old(grid)@[m2] < 9),
                    forall|m: int| 0 <= m < 100 ==> 1 <= #[trigger] base[m] <= 10,
                    forall|m: int| 0 <= m < 100 ==> #[trigger] base[m] == old(grid)@[m] + 1,
                decreases 10 - c,
            {
                let idx = r * 10 + c;
                if grid[idx] == 10 {
                    proof {
                        if hyp {
                            assert(grid@[idx as int] == base[idx as int]);
                            assert(old(grid)@[idx as int] < 9);
                            assert(false);
                        }
                        lemma_count_update(grid@, idx as int, 11, 11);
                        lemma_sum_update(grid@, idx as int, 11);
                        lemma_count_bound(grid@.update(idx as int, 11), 11);
                    }
                    grid[idx] = 11;
                    flashes = flashes + 1;
                    let mut dr: usize = 0;
                    while dr < 3
                        invariant
                            grid@.len() == 100,
                            r < 10,
                            c < 10,
                            dr <= 3,
                            forall|m: int| 0 <= m < 100 ==> 1 <= #[trigger] grid@[m] <= 11,
                            forall|m: int| 0 <= m < 100 ==> #[trigger] grid@[m] >= pass0[m],
                            count_val(grid@, 11) == count_val(pass0, 11) + flashes,
                            grid_sum(grid@) >= sum0 + flashes,
                            flashes <= count_val(grid@, 11),
                            count_val(grid@, 11) <= 100,
                        decreases 3 - dr,
                    {
                        let mut dc: usize = 0;
                        while dc < 3
                            invariant
                                grid@.len() == 100,
                                r < 10,
                                c < 10,
                                dr < 3,
                                dc <= 3,
                                forall|m: int| 0 <= m < 100 ==> 1 <= #[trigger] grid@[m] <= 11,
                                forall|m: int| 0 <= m < 100 ==> #[trigger] grid@[m] >= pass0[m],
                                count_val(grid@, 11) == count_val(pass0, 11) + flashes,
                                grid_sum(grid@) >= sum0 + flashes,
                                flashes <= count_val(grid@, 11),
                                count_val(grid@, 11) <= 100,
                            decreases 3 - dc,
                        {
                            let tr = r + dr;
                            let tc = c + dc;
                            if tr >= 1 && tr <= 10 && tc >= 1 && tc <= 10 {
                                let nidx = (tr - 1) * 10 + (tc - 1);
                                if grid[nidx] < 10 {
                                    proof {
                                        let old_v = grid@[nidx as int];
                                        lemma_count_update(
                                            grid@,
                                            nidx as int,
                                            (old_v + 1) as i8,
                                            11,
                                        );
                                        lemma_sum_update(grid@, nidx as int, (old_v + 1) as i8);
                                    }
                                    let v = grid[nidx];
                                    grid[nidx] = v + 1;
                                }
                            }
                            dc = dc + 1;
                        }
                        dr = dr + 1;
                    }
                }
                c = c + 1;
            }
            r = r + 1;
        }
        if flashes == 0 {
            assert(forall|m: int| 0 <= m < 100 ==> #[trigger] grid@[m] != 10);
            break ;
        }
        proof {
            lemma_count_bound(grid@, 11);
        }
        total = total + flashes;
        proof {
            lemma_sum_bound(grid@, 11);
            assert(grid_sum(grid@) >= sum0 + 1);
        }
    }
    let ghost pre = grid@;
    let mut k2: usize = 0;
    while k2 < 100
        invariant
            grid@.len() == 100,
            k2 <= 100,
            pre.len() == 100,
            forall|m: int| 0 <= m < 100 ==> 1 <= #[trigger] pre[m] <= 11 && pre[m] != 10,
            forall|m: int| 0 <= m < k2 as int ==> #[trigger] grid@[m] == (if pre[m] == 11 {
                0int
            } else {
                pre[m] as int
            }),
            forall|m: int| k2 as int <= m < 100 ==> #[trigger] grid@[m] == pre[m],
        decreases 100 - k2,
    {
        if grid[k2] == 11 {
            grid[k2] = 0;
        }
        k2 = k2 + 1;
    }
    proof {
        assert(total == count_val(grid@, 0)) by {
            lemma_count_matched(grid@, pre);
        }
        assert forall|k3: int| 0 <= k3 < 100 && old(grid)@[k3] == 9 implies #[trigger] grid@[k3]
            == 0 by {
            assert(base[k3] == 10);
            assert(pre[k3] >= 10 && pre[k3] != 10);
        }
        if hyp {
            assert(pre == base);
            lemma_count_absent(pre, 11);
        }
    }
    total
}

} // verus!
