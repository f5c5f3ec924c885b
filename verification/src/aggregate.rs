//! The result aggregator: once every scanner is placed, the deduplicated
//! global beacon count and the largest scanner-to-scanner Manhattan distance.

use vstd::prelude::*;
use crate::geom::{Beacon, manhattan, pt_add};
use crate::fingerprint::Scanner;
use crate::assemble::{
    AssembleError, SolvedScanner, all_scanners_wf, all_solved_wf, assemble, assembly_of,
    solved_models,
};

verus! {

/// The set of global beacon positions a solved pool describes: each stored
/// beacon, moved by its scanner's position.  A set, so a beacon reported by
/// several scanners is one point.
pub open spec fn global_beacons(
    sol: Seq<((int, int, int), int, Seq<(int, int, int)>)>,
) -> Set<(int, int, int)> {
    Set::new(
        |p: (int, int, int)|
            exists|k: int, idx: int|
                0 <= k < sol.len() && 0 <= idx < sol[k].2.len() && p == pt_add(
                    #[trigger] sol[k].2[idx],
                    sol[k].0,
                ),
    )
}

/// `global_beacons`, restricted to scanners before `k` plus the first `idx`
/// beacons of scanner `k`.
pub open spec fn global_beacons_upto(
    sol: Seq<((int, int, int), int, Seq<(int, int, int)>)>,
    k: int,
    idx: int,
) -> Set<(int, int, int)> {
    Set::new(
        |p: (int, int, int)|
            exists|kk: int, ii: int|
                0 <= kk <= k && 0 <= ii < sol[kk].2.len() && (kk < k || ii < idx) && p == pt_add(
                    #[trigger] sol[kk].2[ii],
                    sol[kk].0,
                ),
    )
}

/// The set of points a beacon list holds.
pub open spec fn pt_set(v: Seq<Beacon>) -> Set<(int, int, int)> {
    Set::new(|p: (int, int, int)| exists|m: int| 0 <= m < v.len() && (#[trigger] v[m])@ == p)
}

/// `v` lists the points of `s`, each exactly once.
pub open spec fn enumerates_pts(v: Seq<Beacon>, s: Set<(int, int, int)>) -> bool {
    &&& forall|m1: int, m2: int| 0 <= m1 < m2 < v.len() ==> (#[trigger] v[m1])@ != (
    #[trigger] v[m2])@
    &&& forall|m: int| 0 <= m < v.len() ==> s.contains((#[trigger] v[m])@)
    &&& forall|p: (int, int, int)| #[trigger] s.contains(p) ==> pt_set(v).contains(p)
}

/// A duplicate-free enumeration of a point set has exactly the set's
/// cardinality.
proof fn lemma_enumerates_pts_len(v: Seq<Beacon>, s: Set<(int, int, int)>)
    requires
        enumerates_pts(v, s),
    ensures
        s.finite(),
        v.len() == s.len(),
    decreases v.len(),
{
    if v.len() == 0 {
        assert(s =~= Set::<(int, int, int)>::empty());
    } else {
        let last = v[v.len() - 1]@;
        let v2 = v.drop_last();
        let s2 = s.remove(last);
        assert(enumerates_pts(v2, s2)) by {
            assert(forall|m: int| 0 <= m < v2.len() ==> v2[m] == v[m]);
            assert forall|p: (int, int, int)| s2.contains(p) implies pt_set(v2).contains(p) by {
                let m = choose|m: int| 0 <= m < v.len() && (#[trigger] v[m])@ == p;
                assert(m < v.len() - 1);
                assert(v2[m]@ == p);
            }
        }
        lemma_enumerates_pts_len(v2, s2);
        assert(s.contains(last));
        assert(s =~= s2.insert(last));
    }
}

/// Whether the list already holds this beacon value.
fn contains_beacon(v: &Vec<Beacon>, b: &Beacon) -> (r: bool)
    ensures
        r == pt_set(v@).contains(b@),
{
    let n = v.len();
    let mut m: usize = 0;
    while m < n
        invariant
            n == v@.len(),
            m <= n,
            forall|x: int| 0 <= x < m as int ==> (#[trigger] v@[x])@ != b@,
        decreases n - m,
    {
        if v[m] == *b {
            assert(v@[m as int]@ == b@);
            return true;
        }
        assert(v@[m as int]@ != b@) by {
            assert(v@[m as int] != *b);
        }
        m = m + 1;
    }
    assert(!pt_set(v@).contains(b@)) by {
        if pt_set(v@).contains(b@) {
            let x = choose|x: int| 0 <= x < v@.len() && (#[trigger] v@[x])@ == b@;
        }
    }
    false
}

/// The distinct global beacons, as a list.  Inserting every solved scanner's
/// beacons into one deduplicating set: a beacon seen by two scanners
/// contributes one entry.
pub fn global_beacon_list(solved: &Vec<SolvedScanner>) -> (r: Vec<Beacon>)
    requires
        all_solved_wf(solved@),
    ensures
        enumerates_pts(r@, global_beacons(solved_models(solved@))),
{
    let ghost sol = solved_models(solved@);
    let ns = solved.len();
    let mut r: Vec<Beacon> = Vec::new();
    let mut k: usize = 0;
    while k < ns
        invariant
            all_solved_wf(solved@),
            sol == solved_models(solved@),
            ns == solved@.len(),
            k <= ns,
            forall|m1: int, m2: int| 0 <= m1 < m2 < r@.len() ==> (#[trigger] r@[m1])@ != (
            #[trigger] r@[m2])@,
            forall|m: int| 0 <= m < r@.len() ==> global_beacons_upto(sol, k as int, 0).contains(
                (#[trigger] r@[m])@,
            ),
            forall|p: (int, int, int)| #[trigger] global_beacons_upto(sol, k as int, 0).contains(
                p,
            ) ==> pt_set(r@).contains(p),
        decreases ns - k,
    {
        let nb = solved[k].scanner.beacons.len();
        let mut idx: usize = 0;
        while idx < nb
            invariant
                all_solved_wf(solved@),
                sol == solved_models(solved@),
                ns == solved@.len(),
                k < ns,
                nb == solved@[k as int].scanner.beacons@.len(),
                idx <= nb,
                forall|m1: int, m2: int| 0 <= m1 < m2 < r@.len() ==> (#[trigger] r@[m1])@ != (
                #[trigger] r@[m2])@,
                forall|m: int| 0 <= m < r@.len() ==> global_beacons_upto(
                    sol,
                    k as int,
                    idx as int,
                ).contains((#[trigger] r@[m])@),
                forall|p: (int, int, int)| #[trigger] global_beacons_upto(
                    sol,
                    k as int,
                    idx as int,
                ).contains(p) ==> pt_set(r@).contains(p),
            decreases nb - idx,
        {
            proof {
                assert(sol[k as int] == crate::assemble::solved_view(solved@[k as int]));
                assert(solved@[k as int].wf());
                assert(solved@[k as int].scanner@[idx as int] == solved@[k as int].scanner.beacons@[
                    idx as int
                ]@);
            }
            let b = solved[k].scanner.beacons[idx];
            let g = b.plus(&solved[k].position);
            assert(g@ == pt_add(sol[k as int].2[idx as int], sol[k as int].0));
            assert(global_beacons_upto(sol, k as int, (idx + 1) as int).contains(g@));
            let ghost r0 = r@;
            let present = contains_beacon(&r, &g);
            if !present {
                r.push(g);
            }
            proof {
                assert(forall|m: int| 0 <= m < r0.len() ==> #[trigger] r@[m] == r0[m]);
                assert(pt_set(r@).contains(g@)) by {
                    if present {
                        let m = choose|m: int| 0 <= m < r0.len() && (#[trigger] r0[m])@ == g@;
                        assert(r@[m]@ == g@);
                    } else {
                        assert(r@[r@.len() - 1]@ == g@);
                    }
                }
                assert forall|p: (int, int, int)|
                    global_beacons_upto(sol, k as int, (idx + 1) as int).contains(p)
                        implies pt_set(r@).contains(p) by {
                    let (kk, ii) = choose|kk: int, ii: int|
                        0 <= kk <= k as int && 0 <= ii < sol[kk].2.len() && (kk < k as int || ii < (
                        idx + 1) as int) && p == pt_add(#[trigger] sol[kk].2[ii], sol[kk].0);
                    if kk < k as int || ii < idx as int {
                        assert(global_beacons_upto(sol, k as int, idx as int).contains(p));
                        assert(pt_set(r0).contains(p));
                        let m = choose|m: int| 0 <= m < r0.len() && (#[trigger] r0[m])@ == p;
                        assert(r@[m]@ == p);
                    } else {
                        assert(p == g@);
                    }
                }
            }
            idx = idx + 1;
        }
        proof {
            assert(global_beacons_upto(sol, k as int, nb as int) =~= global_beacons_upto(
                sol,
                (k + 1) as int,
                0,
            ));
        }
        k = k + 1;
    }
    proof {
        assert(global_beacons_upto(sol, ns as int, 0) =~= global_beacons(sol));
    }
    r
}

/// How many distinct beacons the solved pool sees, over all scanners, in the
/// global frame.
pub fn total_beacons(solved: &Vec<SolvedScanner>) -> (n: usize)
    requires
        all_solved_wf(solved@),
    ensures
        n == global_beacons(solved_models(solved@)).len(),
{
    let list = global_beacon_list(solved);
    proof {
        lemma_enumerates_pts_len(list@, global_beacons(solved_models(solved@)));
    }
    list.len()
}

/// The largest Manhattan distance between any two solved scanner positions
/// (0 when fewer than two scanners are placed).
pub fn max_scanner_separation(solved: &Vec<SolvedScanner>) -> (d: i64)
    requires
        all_solved_wf(solved@),
    ensures
        ({
            let sol = solved_models(solved@);
            &&& 0 <= d
            &&& forall|a: int, b: int| 0 <= a < b < sol.len() ==> manhattan(
                (#[trigger] sol[a]).0,
                (#[trigger] sol[b]).0,
            ) <= d
            &&& (d == 0 || exists|a: int, b: int|
                0 <= a < b < sol.len() && d == manhattan((#[trigger] sol[a]).0, (#[trigger] sol[b]).0))
        }),
{
    let ghost sol = solved_models(solved@);
    let ns = solved.len();
    let mut d: i64 = 0;
    let mut a: usize = 0;
    while a < ns
        invariant
            all_solved_wf(solved@),
            sol == solved_models(solved@),
            ns == solved@.len(),
            a <= ns,
            0 <= d,
            forall|x: int, y: int| 0 <= x < y < sol.len() && x < a as int ==> manhattan(
                (#[trigger] sol[x]).0,
                (#[trigger] sol[y]).0,
            ) <= d,
            d == 0 || exists|x: int, y: int|
                0 <= x < y < sol.len() && d == manhattan((#[trigger] sol[x]).0, (#[trigger] sol[y]).0),
        decreases ns - a,
    {
        let mut b: usize = a + 1;
        while b < ns
            invariant
                all_solved_wf(solved@),
                sol == solved_models(solved@),
                ns == solved@.len(),
                a < ns,
                a < b,
                b <= ns,
                0 <= d,
                forall|x: int, y: int| 0 <= x < y < sol.len() && x < a as int ==> manhattan(
                    (#[trigger] sol[x]).0,
                    (#[trigger] sol[y]).0,
                ) <= d,
                forall|y: int| (a as int) < y < b as int ==> manhattan(
                    sol[a as int].0,
                    (#[trigger] sol[y]).0,
                ) <= d,
                d == 0 || exists|x: int, y: int|
                    0 <= x < y < sol.len() && d == manhattan((#[trigger] sol[x]).0, (#[trigger] sol[y]).0),
            decreases ns - b,
        {
            proof {
                assert(sol[a as int] == crate::assemble::solved_view(solved@[a as int]));
                assert(sol[b as int] == crate::assemble::solved_view(solved@[b as int]));
                assert(solved@[a as int].wf());
                assert(solved@[b as int].wf());
            }
            let dist = solved[a].position.manhattan_distance(&solved[b].position);
            if dist > d {
                d = dist;
            }
            b = b + 1;
        }
        a = a + 1;
    }
    d
}

/// Registers every scanner and reports the two quantities of interest: the
/// distinct global beacon count, and the largest scanner separation.  Fails
/// exactly when the dataset is disconnected.
pub fn solve(scanners: Vec<Scanner>) -> (r: Result<(usize, i64), AssembleError>)
    requires
        scanners@.len() >= 1,
        all_scanners_wf(scanners@),
    ensures
        match r {
            Ok((count, sep)) => match assembly_of(scanners@) {
                None => false,
                Some(sol) => {
                    &&& count == global_beacons(sol).len()
                    &&& 0 <= sep
                    &&& forall|a: int, b: int| 0 <= a < b < sol.len() ==> manhattan(
                        (#[trigger] sol[a]).0,
                        (#[trigger] sol[b]).0,
                    ) <= sep
                    &&& (sep == 0 || exists|a: int, b: int|
                        0 <= a < b < sol.len() && sep == manhattan((#[trigger] sol[a]).0, (#[trigger] sol[b]).0))
                },
            },
            Err(e) => {
                &&& assembly_of(scanners@) is None
                &&& e == AssembleError::Disconnected
            },
        },
{
    match assemble(scanners) {
        Ok(solved) => {
            let count = total_beacons(&solved);
            let sep = max_scanner_separation(&solved);
            Ok((count, sep))
        },
        Err(e) => Err(e),
    }
}

} // verus!
