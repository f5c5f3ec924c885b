//! The pairwise aligner: given two scanner reports, finds beacon
//! correspondences through fingerprint overlap, then searches the orientation
//! catalog for the transform and translation that make every correspondence
//! agree.  "No overlap" is an expected, non-fatal outcome.

use vstd::prelude::*;
use crate::geom::{Beacon, MAX_COORD, mag, pt_add, pt_sub};
use crate::orient::{
    Flip, Transform, catalog_len, flip_catalog, flips, inverse, lemma_inverse, orient,
    orientation_at, transform_catalog, transforms,
};
use crate::fingerprint::{Scanner, fingerprint, overlap, overlap_count, val_set};

verus! {

/// Overlapping scanners are guaranteed 12 beacons in common, so a genuinely
/// matching beacon pair shares at least 11 squared distances to its
/// neighbours; the same count is the least number of correspondence
/// candidates worth an orientation search.
pub const MIN_OVERLAP: usize = 11;

/// Whether beacons `i` of `a` and `j` of `b` are a correspondence candidate:
/// their fingerprints share at least `MIN_OVERLAP` squared distances.
pub open spec fn is_candidate(
    a: Seq<(int, int, int)>,
    b: Seq<(int, int, int)>,
    i: int,
    j: int,
) -> bool {
    overlap(a, i, b, j) >= MIN_OVERLAP
}

/// The candidate pairs of row `i` with column below `j`, in column order.
pub open spec fn row_upto(
    a: Seq<(int, int, int)>,
    b: Seq<(int, int, int)>,
    i: int,
    j: int,
) -> Seq<((int, int, int), (int, int, int))>
    decreases j,
{
    if j <= 0 {
        Seq::empty()
    } else {
        row_upto(a, b, i, j - 1) + if is_candidate(a, b, i, j - 1) {
            seq![(a[i], b[j - 1])]
        } else {
            Seq::empty()
        }
    }
}

/// All candidate pairs of rows below `i`, row-major.
pub open spec fn upto_row(
    a: Seq<(int, int, int)>,
    b: Seq<(int, int, int)>,
    i: int,
) -> Seq<((int, int, int), (int, int, int))>
    decreases i,
{
    if i <= 0 {
        Seq::empty()
    } else {
        upto_row(a, b, i - 1) + row_upto(a, b, i - 1, b.len() as int)
    }
}

/// Every correspondence candidate between the two point sequences, in the
/// deterministic row-major scan order.
pub open spec fn candidates(
    a: Seq<(int, int, int)>,
    b: Seq<(int, int, int)>,
) -> Seq<((int, int, int), (int, int, int))> {
    upto_row(a, b, a.len() as int)
}

/// The trial translation a candidate pair implies under an orientation.
pub open spec fn pair_diff(
    c: ((int, int, int), (int, int, int)),
    t: Transform,
    f: Flip,
) -> (int, int, int) {
    pt_sub(c.0, orient(t, f, c.1))
}

/// A beacon-value pair seen as a pair of mathematical points.
pub open spec fn pair_views(p: (Beacon, Beacon)) -> ((int, int, int), (int, int, int)) {
    (p.0@, p.1@)
}

/// A sequence of beacon-value pairs seen as mathematical point pairs.
pub open spec fn views_of_pairs(
    s: Seq<(Beacon, Beacon)>,
) -> Seq<((int, int, int), (int, int, int))> {
    s.map_values(|p: (Beacon, Beacon)| pair_views(p))
}

/// Whether every candidate pair implies the same translation under the
/// orientation — the agreement test that confirms or rejects a catalog entry.
pub open spec fn consistent(
    c: Seq<((int, int, int), (int, int, int))>,
    t: Transform,
    f: Flip,
) -> bool {
    forall|k: int| 0 <= k < c.len() ==> pair_diff(#[trigger] c[k], t, f) == pair_diff(c[0], t, f)
}

/// `consistent` at catalog position `m`.
pub open spec fn consistent_at(c: Seq<((int, int, int), (int, int, int))>, m: int) -> bool {
    consistent(c, orientation_at(m).0, orientation_at(m).1)
}

/// The first catalog orientation, at or after position `m`, that all
/// candidates agree on.
pub open spec fn first_consistent_from(
    c: Seq<((int, int, int), (int, int, int))>,
    m: int,
) -> Option<(Transform, Flip)>
    decreases catalog_len() - m,
{
    if m < 0 || m >= catalog_len() {
        None
    } else if consistent_at(c, m) {
        Some(orientation_at(m))
    } else {
        first_consistent_from(c, m + 1)
    }
}

/// What aligning `b` against `a` yields: `None` when there are too few
/// candidates or no catalog orientation satisfies them all; otherwise the
/// translation implied by the first candidate under the first agreeing
/// orientation, with that orientation.  Catalog order breaks ties, so the
/// result is deterministic.
pub open spec fn align_spec(
    a: Seq<(int, int, int)>,
    b: Seq<(int, int, int)>,
) -> Option<((int, int, int), Transform, Flip)> {
    let c = candidates(a, b);
    if c.len() < MIN_OVERLAP {
        None
    } else {
        match first_consistent_from(c, 0) {
            None => None,
            Some((t, f)) => Some((pair_diff(c[0], t, f), t, f)),
        }
    }
}

/// A beacon held by a well-formed scanner is itself well-formed.
pub proof fn lemma_scanner_contains_wf(s: &Scanner, b: Beacon)
    requires
        s.wf(),
        s.beacons@.contains(b),
    ensures
        b.wf(),
{
    let idx = choose|idx: int| 0 <= idx < s.beacons@.len() && s.beacons@[idx] == b;
    assert(s@[idx] == b@);
}

/// Skipping catalog positions that no candidate set agrees on does not change
/// the search result.
proof fn lemma_first_consistent_skip(
    c: Seq<((int, int, int), (int, int, int))>,
    m: int,
    upper: int,
)
    requires
        0 <= m <= upper <= catalog_len(),
        forall|x: int| m <= x < upper ==> !consistent_at(c, x),
    ensures
        first_consistent_from(c, m) == first_consistent_from(c, upper),
    decreases upper - m,
{
    if m < upper {
        lemma_first_consistent_skip(c, m + 1, upper);
    }
}

/// The correspondence candidates between two scanners, as beacon value
/// pairs, in the deterministic scan order.
pub fn find_beacons_in_common(s1: &Scanner, s2: &Scanner) -> (r: Vec<(Beacon, Beacon)>)
    requires
        s1.wf(),
        s2.wf(),
    ensures
        views_of_pairs(r@) == candidates(s1@, s2@),
        forall|k: int| 0 <= k < r@.len() ==> (#[trigger] r@[k]).0.wf() && r@[k].1.wf(),
{
    let d1 = s1.beacon_distances();
    let d2 = s2.beacon_distances();
    let n1 = s1.beacons.len();
    let n2 = s2.beacons.len();
    let mut r: Vec<(Beacon, Beacon)> = Vec::new();
    let mut i: usize = 0;
    while i < n1
        invariant
            s1.wf(),
            s2.wf(),
            n1 == s1.beacons.len(),
            n2 == s2.beacons.len(),
            n1 == s1@.len(),
            n2 == s2@.len(),
            i <= n1,
            d1@.len() == n1,
            d2@.len() == n2,
            forall|m: int| 0 <= m < n1 as int
                ==> crate::fingerprint::enumerates(#[trigger] d1@[m]@, fingerprint(s1@, m)),
            forall|m: int| 0 <= m < n2 as int
                ==> crate::fingerprint::enumerates(#[trigger] d2@[m]@, fingerprint(s2@, m)),
            views_of_pairs(r@) == upto_row(s1@, s2@, i as int),
            forall|k: int| 0 <= k < r@.len() ==> s1.beacons@.contains(#[trigger] r@[k].0)
                && s2.beacons@.contains(r@[k].1),
        decreases n1 - i,
    {
        let mut j: usize = 0;
        while j < n2
            invariant
                s1.wf(),
                s2.wf(),
                n1 == s1.beacons.len(),
                n2 == s2.beacons.len(),
                n1 == s1@.len(),
                n2 == s2@.len(),
                i < n1,
                j <= n2,
                d1@.len() == n1,
                d2@.len() == n2,
                forall|m: int| 0 <= m < n1 as int
                    ==> crate::fingerprint::enumerates(#[trigger] d1@[m]@, fingerprint(s1@, m)),
                forall|m: int| 0 <= m < n2 as int
                    ==> crate::fingerprint::enumerates(#[trigger] d2@[m]@, fingerprint(s2@, m)),
                views_of_pairs(r@) == upto_row(s1@, s2@, i as int) + row_upto(
                    s1@,
                    s2@,
                    i as int,
                    j as int,
                ),
                forall|k: int| 0 <= k < r@.len() ==> s1.beacons@.contains(#[trigger] r@[k].0)
                    && s2.beacons@.contains(r@[k].1),
            decreases n2 - j,
        {
            let n = overlap_count(&d1[i], &d2[j]);
            proof {
                assert(val_set(d1@[i as int]@) =~= fingerprint(s1@, i as int));
                assert(val_set(d2@[j as int]@) =~= fingerprint(s2@, j as int));
            }
            let ghost old_r = r@;
            if n >= MIN_OVERLAP {
                assert(is_candidate(s1@, s2@, i as int, j as int));
                let pair = (s1.beacons[i], s2.beacons[j]);
                r.push(pair);
                proof {
                    assert(s1@[i as int] == s1.beacons@[i as int]@);
                    assert(s2@[j as int] == s2.beacons@[j as int]@);
                    assert(views_of_pairs(r@) =~= views_of_pairs(old_r) + seq![
                        (s1@[i as int], s2@[j as int]),
                    ]);
                }
            } else {
                assert(!is_candidate(s1@, s2@, i as int, j as int));
            }
            proof {
                assert(views_of_pairs(r@) =~= upto_row(s1@, s2@, i as int) + row_upto(
                    s1@,
                    s2@,
                    i as int,
                    (j + 1) as int,
                ));
            }
            j = j + 1;
        }
        proof {
            assert(views_of_pairs(r@) =~= upto_row(s1@, s2@, (i + 1) as int));
        }
        i = i + 1;
    }
    proof {
        assert(views_of_pairs(r@) =~= candidates(s1@, s2@));
        assert forall|k: int| 0 <= k < r@.len() implies (#[trigger] r@[k]).0.wf()
            && r@[k].1.wf() by {
            lemma_scanner_contains_wf(s1, r@[k].0);
            lemma_scanner_contains_wf(s2, r@[k].1);
        }
    }
    r
}

/// Searches the catalog for the first orientation and translation on which
/// every correspondence candidate agrees.  `None` is the routine "no overlap"
/// answer; it is exactly `align_spec` that says which pairs get it.
pub fn find_transform(base: &Scanner, target: &Scanner) -> (r: Option<(Beacon, Transform, Flip)>)
    requires
        base.wf(),
        target.wf(),
    ensures
        match r {
            None => align_spec(base@, target@) is None,
            Some((off, t, f)) => {
                &&& align_spec(base@, target@) == Some((off@, t, f))
                &&& mag(off@.0) <= 2 * MAX_COORD
                &&& mag(off@.1) <= 2 * MAX_COORD
                &&& mag(off@.2) <= 2 * MAX_COORD
            },
        },
{
    let beacons = find_beacons_in_common(base, target);
    let ghost c = candidates(base@, target@);
    assert(c.len() == beacons@.len());
    if beacons.len() < MIN_OVERLAP {
        return None;
    }
    let ts = transforms();
    let fs = flips();
    let nc = beacons.len();
    let mut ti: usize = 0;
    while ti < 6
        invariant
            base.wf(),
            target.wf(),
            ts@ == transform_catalog(),
            fs@ == flip_catalog(),
            ti <= 6,
            nc == beacons@.len(),
            nc == c.len(),
            nc >= MIN_OVERLAP,
            c == candidates(base@, target@),
            views_of_pairs(beacons@) == c,
            forall|k: int| 0 <= k < beacons@.len() ==> (#[trigger] beacons@[k]).0.wf()
                && beacons@[k].1.wf(),
            forall|m: int| 0 <= m < ti as int * 8 ==> !consistent_at(c, m),
        decreases 6 - ti,
    {
        let mut fi: usize = 0;
        while fi < 8
            invariant
                base.wf(),
                target.wf(),
                ts@ == transform_catalog(),
                fs@ == flip_catalog(),
                ti < 6,
                fi <= 8,
                nc == beacons@.len(),
                nc == c.len(),
                nc >= MIN_OVERLAP,
                c == candidates(base@, target@),
                views_of_pairs(beacons@) == c,
                forall|k: int| 0 <= k < beacons@.len() ==> (#[trigger] beacons@[k]).0.wf()
                    && beacons@[k].1.wf(),
                forall|m: int| 0 <= m < ti as int * 8 + fi as int ==> !consistent_at(c, m),
            decreases 8 - fi,
        {
            let t = ts[ti];
            let f = fs[fi];
            let ghost m = ti as int * 8 + fi as int;
            proof {
                assert(m / 8 == ti as int && m % 8 == fi as int) by (nonlinear_arith)
                    requires
                        m == ti as int * 8 + fi as int,
                        0 <= ti as int,
                        (ti as int) < 6,
                        0 <= fi as int,
                        (fi as int) < 8,
                ;
                assert(orientation_at(m) == (t, f));
            }
            let (b0, t0) = (beacons[0].0, beacons[0].1);
            proof {
                assert(c[0] == pair_views(beacons@[0]));
            }
            let first_target = t0.transformed(t, f);
            let offset = b0.minus(&first_target);
            assert(offset@ == pair_diff(c[0], t, f));
            let mut matched = true;
            let mut k: usize = 1;
            while k < nc
                invariant_except_break
                    base.wf(),
                    target.wf(),
                    1 <= k <= nc,
                    nc == beacons@.len(),
                    nc == c.len(),
                    views_of_pairs(beacons@) == c,
                    forall|kk: int| 0 <= kk < beacons@.len() ==> (#[trigger] beacons@[kk]).0.wf()
                        && beacons@[kk].1.wf(),
                    offset@ == pair_diff(c[0], t, f),
                    matched,
                    forall|kk: int| 0 <= kk < k as int ==> pair_diff(#[trigger] c[kk], t, f)
                        == pair_diff(c[0], t, f),
                ensures
                    matched == consistent(c, t, f),
                decreases nc - k,
            {
                let (bk, tk) = (beacons[k].0, beacons[k].1);
                proof {
                    assert(c[k as int] == pair_views(beacons@[k as int]));
                }
                let tkt = tk.transformed(t, f);
                let d = bk.minus(&tkt);
                assert(d@ == pair_diff(c[k as int], t, f));
                if d != offset {
                    matched = false;
                    assert(pair_diff(c[k as int], t, f) != pair_diff(c[0], t, f));
                    assert(!consistent(c, t, f));
                    break ;
                }
                k = k + 1;
            }
            if matched {
                proof {
                    lemma_first_consistent_skip(c, 0, m);
                    assert(first_consistent_from(c, m) == Some((t, f)));
                    assert(align_spec(base@, target@) == Some((offset@, t, f)));
                }
                return Some((offset, t, f));
            }
            assert(!consistent_at(c, m));
            assert(forall|mm: int| 0 <= mm < ti as int * 8 + (fi + 1) as int ==> !consistent_at(
                c,
                mm,
            ));
            fi = fi + 1;
        }
        proof {
            assert(forall|mm: int| 0 <= mm < (ti + 1) as int * 8 ==> !consistent_at(c, mm));
        }
        ti = ti + 1;
    }
    proof {
        lemma_first_consistent_skip(c, 0, catalog_len());
        assert(first_consistent_from(c, 0) is None);
    }
    None
}


/// Candidate counts over a partial grid: rows below `r`, columns below `c`.
spec fn grid_cnt(a: Seq<(int, int, int)>, b: Seq<(int, int, int)>, r: int, c: int) -> int
    decreases r,
{
    if r <= 0 {
        0
    } else {
        grid_cnt(a, b, r - 1, c) + row_upto(a, b, r - 1, c).len()
    }
}

/// How many rows below `r` make a candidate with column `j`.
spec fn col_cnt(a: Seq<(int, int, int)>, b: Seq<(int, int, int)>, r: int, j: int) -> int
    decreases r,
{
    if r <= 0 {
        0
    } else {
        col_cnt(a, b, r - 1, j) + if is_candidate(a, b, r - 1, j) {
            1int
        } else {
            0int
        }
    }
}

proof fn lemma_upto_row_len(a: Seq<(int, int, int)>, b: Seq<(int, int, int)>, r: int)
    ensures
        upto_row(a, b, r).len() == grid_cnt(a, b, r, b.len() as int),
    decreases r,
{
    if r > 0 {
        lemma_upto_row_len(a, b, r - 1);
    }
}

proof fn lemma_grid_zero(a: Seq<(int, int, int)>, b: Seq<(int, int, int)>, r: int)
    ensures
        grid_cnt(a, b, r, 0) == 0,
    decreases r,
{
    if r > 0 {
        lemma_grid_zero(a, b, r - 1);
    }
}

proof fn lemma_grid_strip_col(a: Seq<(int, int, int)>, b: Seq<(int, int, int)>, r: int, c: int)
    requires
        1 <= c,
    ensures
        grid_cnt(a, b, r, c) == grid_cnt(a, b, r, c - 1) + col_cnt(a, b, r, c - 1),
    decreases r,
{
    if r > 0 {
        lemma_grid_strip_col(a, b, r - 1, c);
    }
}

proof fn lemma_col_cnt_row(a: Seq<(int, int, int)>, b: Seq<(int, int, int)>, r: int, j: int)
    ensures
        col_cnt(a, b, r, j) == row_upto(b, a, j, r).len(),
    decreases r,
{
    if r > 0 {
        lemma_col_cnt_row(a, b, r - 1, j);
        crate::fingerprint::lemma_overlap_symmetric(a, r - 1, b, j);
    }
}

proof fn lemma_grid_swap(a: Seq<(int, int, int)>, b: Seq<(int, int, int)>, r: int, c: int)
    requires
        0 <= r,
        0 <= c,
    ensures
        grid_cnt(a, b, r, c) == grid_cnt(b, a, c, r),
    decreases c,
{
    if c == 0 {
        lemma_grid_zero(a, b, r);
    } else {
        lemma_grid_swap(a, b, r, c - 1);
        lemma_grid_strip_col(a, b, r, c);
        lemma_col_cnt_row(a, b, r, c - 1);
    }
}

/// The candidate scan finds as many pairs one way round as the other:
/// fingerprint overlap is symmetric, so the two grids are transposes.
pub proof fn lemma_candidates_count_symmetric(a: Seq<(int, int, int)>, b: Seq<(int, int, int)>)
    ensures
        candidates(a, b).len() == candidates(b, a).len(),
{
    lemma_upto_row_len(a, b, a.len() as int);
    lemma_upto_row_len(b, a, b.len() as int);
    lemma_grid_swap(a, b, a.len() as int, b.len() as int);
}

proof fn lemma_row_elem(a: Seq<(int, int, int)>, b: Seq<(int, int, int)>, i: int, j: int, k: int)
    requires
        0 <= k < row_upto(a, b, i, j).len(),
    ensures
        exists|jj: int|
            0 <= jj < j && #[trigger] is_candidate(a, b, i, jj) && row_upto(a, b, i, j)[k] == (
            a[i],
            b[jj],
            ),
    decreases j,
{
    if j > 0 {
        let prev = row_upto(a, b, i, j - 1);
        if k < prev.len() {
            lemma_row_elem(a, b, i, j - 1, k);
            let jj = choose|jj: int|
                0 <= jj < j - 1 && #[trigger] is_candidate(a, b, i, jj) && prev[k] == (a[i], b[jj]);
            assert(row_upto(a, b, i, j)[k] == prev[k]);
            assert(is_candidate(a, b, i, jj) && row_upto(a, b, i, j)[k] == (a[i], b[jj]));
        } else {
            assert(is_candidate(a, b, i, j - 1));
            assert(row_upto(a, b, i, j)[k] == (a[i], b[j - 1]));
        }
    }
}

proof fn lemma_upto_elem(a: Seq<(int, int, int)>, b: Seq<(int, int, int)>, r: int, k: int)
    requires
        0 <= k < upto_row(a, b, r).len(),
    ensures
        exists|i: int, jj: int|
            0 <= i < r && 0 <= jj < b.len() && #[trigger] is_candidate(a, b, i, jj) && upto_row(
                a,
                b,
                r,
            )[k] == (a[i], b[jj]),
    decreases r,
{
    if r > 0 {
        let prev = upto_row(a, b, r - 1);
        if k < prev.len() {
            lemma_upto_elem(a, b, r - 1, k);
            let (i, jj) = choose|i: int, jj: int|
                0 <= i < r - 1 && 0 <= jj < b.len() && #[trigger] is_candidate(a, b, i, jj)
                    && prev[k] == (a[i], b[jj]);
            assert(upto_row(a, b, r)[k] == prev[k]);
            assert(is_candidate(a, b, i, jj) && upto_row(a, b, r)[k] == (a[i], b[jj]));
        } else {
            lemma_row_elem(a, b, r - 1, b.len() as int, k - prev.len());
            let jj = choose|jj: int|
                0 <= jj < b.len() && #[trigger] is_candidate(a, b, r - 1, jj) && row_upto(
                    a,
                    b,
                    r - 1,
                    b.len() as int,
                )[k - prev.len()] == (a[r - 1], b[jj]);
            assert(upto_row(a, b, r)[k] == row_upto(a, b, r - 1, b.len() as int)[k - prev.len()]);
            assert(is_candidate(a, b, r - 1, jj) && upto_row(a, b, r)[k] == (a[r - 1], b[jj]));
        }
    }
}

/// Every candidate pair is a pair of scanner points whose fingerprints
/// overlap enough.
pub proof fn lemma_candidates_elem(a: Seq<(int, int, int)>, b: Seq<(int, int, int)>, k: int)
    requires
        0 <= k < candidates(a, b).len(),
    ensures
        exists|i: int, jj: int|
            0 <= i < a.len() && 0 <= jj < b.len() && #[trigger] is_candidate(a, b, i, jj)
                && candidates(a, b)[k] == (a[i], b[jj]),
{
    lemma_upto_elem(a, b, a.len() as int, k);
}

proof fn lemma_row_member(a: Seq<(int, int, int)>, b: Seq<(int, int, int)>, i: int, j: int, c: int)
    requires
        0 <= j < c,
        is_candidate(a, b, i, j),
    ensures
        exists|k: int| 0 <= k < row_upto(a, b, i, c).len() && #[trigger] row_upto(a, b, i, c)[k]
            == (a[i], b[j]),
    decreases c,
{
    if j == c - 1 {
        let row = row_upto(a, b, i, c);
        assert(row[row.len() - 1] == (a[i], b[j]));
    } else {
        lemma_row_member(a, b, i, j, c - 1);
        let k = choose|k: int|
            0 <= k < row_upto(a, b, i, c - 1).len() && #[trigger] row_upto(a, b, i, c - 1)[k] == (
            a[i],
            b[j],
            );
        assert(row_upto(a, b, i, c)[k] == (a[i], b[j]));
    }
}

/// Every overlapping point pair appears among the candidates.
pub proof fn lemma_candidates_member(
    a: Seq<(int, int, int)>,
    b: Seq<(int, int, int)>,
    i: int,
    j: int,
)
    requires
        0 <= i < a.len(),
        0 <= j < b.len(),
        is_candidate(a, b, i, j),
    ensures
        exists|k: int| 0 <= k < candidates(a, b).len() && #[trigger] candidates(a, b)[k] == (
        a[i],
        b[j],
        ),
{
    lemma_upto_member(a, b, a.len() as int, i, j);
    let k = choose|k: int|
        0 <= k < upto_row(a, b, a.len() as int).len() && #[trigger] upto_row(
            a,
            b,
            a.len() as int,
        )[k] == (a[i], b[j]);
    assert(candidates(a, b)[k] == (a[i], b[j]));
}

proof fn lemma_upto_member(a: Seq<(int, int, int)>, b: Seq<(int, int, int)>, r: int, i: int, j: int)
    requires
        0 <= i < r,
        0 <= j < b.len(),
        is_candidate(a, b, i, j),
    ensures
        exists|k: int| 0 <= k < upto_row(a, b, r).len() && #[trigger] upto_row(a, b, r)[k] == (
        a[i],
        b[j],
        ),
    decreases r,
{
    if i == r - 1 {
        lemma_row_member(a, b, i, j, b.len() as int);
        let k = choose|k: int|
            0 <= k < row_upto(a, b, i, b.len() as int).len() && #[trigger] row_upto(
                a,
                b,
                i,
                b.len() as int,
            )[k] == (a[i], b[j]);
        let off = upto_row(a, b, r - 1).len();
        assert(upto_row(a, b, r)[off + k] == (a[i], b[j]));
    } else {
        lemma_upto_member(a, b, r - 1, i, j);
        let k = choose|k: int|
            0 <= k < upto_row(a, b, r - 1).len() && #[trigger] upto_row(a, b, r - 1)[k] == (
            a[i],
            b[j],
            );
        assert(upto_row(a, b, r)[k] == (a[i], b[j]));
    }
}

proof fn lemma_first_consistent_some(c: Seq<((int, int, int), (int, int, int))>, m: int)
    requires
        0 <= m,
        first_consistent_from(c, m) is Some,
    ensures
        ({
            let (t2, f2) = first_consistent_from(c, m)->Some_0;
            consistent(c, t2, f2)
        }),
    decreases catalog_len() - m,
{
    if m < catalog_len() && !consistent_at(c, m) {
        lemma_first_consistent_some(c, m + 1);
    }
}

proof fn lemma_first_consistent_none(c: Seq<((int, int, int), (int, int, int))>, m: int, x: int)
    requires
        first_consistent_from(c, m) is None,
        0 <= m <= x < catalog_len(),
    ensures
        !consistent_at(c, x),
    decreases x - m,
{
    if m < x {
        lemma_first_consistent_none(c, m + 1, x);
    }
}

/// The catalog position of a permutation.
spec fn t_index(t: Transform) -> int {
    match t {
        Transform::XYZ => 0,
        Transform::XZY => 1,
        Transform::YXZ => 2,
        Transform::YZX => 3,
        Transform::ZXY => 4,
        Transform::ZYX => 5,
    }
}

/// The catalog position of a flip.
spec fn f_index(f: Flip) -> int {
    match f {
        Flip::Id => 0,
        Flip::X => 1,
        Flip::Y => 2,
        Flip::Z => 3,
        Flip::XY => 4,
        Flip::XZ => 5,
        Flip::YZ => 6,
        Flip::XYZ => 7,
    }
}

/// Every orientation pair stands somewhere in the catalog enumeration.
proof fn lemma_orientation_index(t: Transform, f: Flip)
    ensures
        0 <= t_index(t) * 8 + f_index(f) < catalog_len(),
        orientation_at(t_index(t) * 8 + f_index(f)) == (t, f),
{
    let ti = t_index(t);
    let fi = f_index(f);
    assert(0 <= ti < 6 && 0 <= fi < 8);
    assert((ti * 8 + fi) / 8 == ti && (ti * 8 + fi) % 8 == fi) by (nonlinear_arith)
        requires
            0 <= ti,
            ti < 6,
            0 <= fi,
            fi < 8,
    ;
    assert(transform_catalog()[ti] == t);
    assert(flip_catalog()[fi] == f);
}

/// Alignment symmetry.  When aligning `b` against `a` succeeds with
/// translation `t` and orientation `(tr, fl)`:
/// - aligning `a` against `b` succeeds too;
/// - the inverse orientation agrees with every reversed candidate pair, all
///   of which imply the translation `-inverse(t)`;
/// - the discovered transform places the `b`-side point of every candidate
///   pair exactly on its `a`-side point, and the inverse transform maps it
///   back, so the shared beacons of the two scanners land on identical
///   global coordinates either way round.
pub proof fn lemma_align_symmetry(a: Seq<(int, int, int)>, b: Seq<(int, int, int)>)
    requires
        align_spec(a, b) is Some,
    ensures
        align_spec(b, a) is Some,
        ({
            let (t, tr, fl) = align_spec(a, b)->Some_0;
            let (ti, fi) = inverse(tr, fl);
            &&& consistent(candidates(b, a), ti, fi)
            &&& forall|k: int| 0 <= k < candidates(b, a).len() ==> pair_diff(
                #[trigger] candidates(b, a)[k],
                ti,
                fi,
            ) == pt_sub((0int, 0int, 0int), orient(ti, fi, t))
            &&& forall|k: int| 0 <= k < candidates(a, b).len() ==> ({
                let (p, q) = #[trigger] candidates(a, b)[k];
                pt_add(orient(tr, fl, q), t) == p && orient(ti, fi, pt_sub(p, t)) == q
            })
        }),
{
    let c12 = candidates(a, b);
    let c21 = candidates(b, a);
    let (t, tr, fl) = align_spec(a, b)->Some_0;
    let (ti, fi) = inverse(tr, fl);
    assert(c12.len() >= MIN_OVERLAP);
    assert(first_consistent_from(c12, 0) == Some((tr, fl)));
    lemma_first_consistent_some(c12, 0);
    assert(consistent(c12, tr, fl));
    assert(t == pair_diff(c12[0], tr, fl));
    assert forall|k: int| 0 <= k < c12.len() implies ({
        let (p, q) = #[trigger] c12[k];
        pt_add(orient(tr, fl, q), t) == p && orient(ti, fi, pt_sub(p, t)) == q
    }) by {
        let (p, q) = c12[k];
        assert(pair_diff(c12[k], tr, fl) == pair_diff(c12[0], tr, fl));
        assert(pt_sub(p, orient(tr, fl, q)) == t);
        lemma_inverse(tr, fl, q);
    }
    lemma_candidates_count_symmetric(a, b);
    assert(c21.len() >= MIN_OVERLAP);
    assert forall|k: int| 0 <= k < c21.len() implies pair_diff(#[trigger] c21[k], ti, fi) == pt_sub(
        (0int, 0int, 0int),
        orient(ti, fi, t),
    ) by {
        lemma_candidates_elem(b, a, k);
        let (jb, ia) = choose|jb: int, ia: int|
            0 <= jb < b.len() && 0 <= ia < a.len() && #[trigger] is_candidate(b, a, jb, ia)
                && c21[k] == (b[jb], a[ia]);
        crate::fingerprint::lemma_overlap_symmetric(b, jb, a, ia);
        assert(is_candidate(a, b, ia, jb));
        lemma_candidates_member(a, b, ia, jb);
        let k2 = choose|k2: int|
            0 <= k2 < c12.len() && #[trigger] c12[k2] == (a[ia], b[jb]);
        assert(pair_diff(c12[k2], tr, fl) == pair_diff(c12[0], tr, fl));
        assert(pt_sub(a[ia], orient(tr, fl, b[jb])) == t);
        lemma_inverse(tr, fl, b[jb]);
        crate::orient::lemma_orient_linear(ti, fi, orient(tr, fl, b[jb]), t);
        assert(orient(ti, fi, a[ia]) == pt_add(b[jb], orient(ti, fi, t)));
    }
    assert(consistent(c21, ti, fi));
    lemma_orientation_index(ti, fi);
    if first_consistent_from(c21, 0) is None {
        lemma_first_consistent_none(c21, 0, t_index(ti) * 8 + f_index(fi));
        assert(consistent_at(c21, t_index(ti) * 8 + f_index(fi)));
        assert(false);
    }
}

} // verus!
