//! Scanner reports and their fingerprint index.
//!
//! A scanner's fingerprint for one beacon is the set of squared distances
//! from that beacon to every other beacon of the same scanner.  The
//! fingerprint depends only on intra-scanner relative geometry, so it is
//! invariant under any rigid transform of the scanner's frame, and two
//! beacons of different scanners with a large fingerprint overlap are likely
//! the same physical point.

use vstd::prelude::*;
use crate::geom::{Beacon, in_range, sq_dist};
use crate::orient::{Flip, Transform, orient};

verus! {

/// A scanner report: an identifier plus the beacons the scanner sees, in its
/// own local frame.  Created once from input, read-only afterwards.
#[derive(Debug)]
pub struct Scanner {
    pub number: i64,
    pub beacons: Vec<Beacon>,
}

impl View for Scanner {
    type V = Seq<(int, int, int)>;

    /// A scanner is modelled by the mathematical sequence of its beacon
    /// positions.
    open spec fn view(&self) -> Seq<(int, int, int)> {
        self.beacons@.map_values(|b: Beacon| b@)
    }
}

impl Scanner {
    /// Every reported coordinate is within the engine's range.
    pub open spec fn wf(self) -> bool {
        forall|k: int| 0 <= k < self@.len() ==> in_range(#[trigger] self@[k])
    }

    pub fn new(number: i64, beacons: Vec<Beacon>) -> (r: Scanner)
        ensures
            r.number == number,
            r.beacons == beacons,
    {
        Scanner { number, beacons }
    }

    /// The same scanner with every beacon rotated by the given orientation.
    pub fn transformed(&self, transform: Transform, flip: Flip) -> (r: Scanner)
        requires
            self.wf(),
        ensures
            r.number == self.number,
            r@.len() == self@.len(),
            forall|k: int| 0 <= k < self@.len() ==> r@[k] == orient(transform, flip, #[trigger] self@[k]),
            r.wf(),
    {
        let mut beacons: Vec<Beacon> = Vec::new();
        let n = self.beacons.len();
        let mut k: usize = 0;
        while k < n
            invariant
                n == self.beacons.len(),
                k <= n,
                self.wf(),
                beacons.len() == k,
                forall|m: int| 0 <= m < k as int ==> beacons@.map_values(|b: Beacon| b@)[m]
                    == orient(transform, flip, #[trigger] self@[m]),
            decreases n - k,
        {
            assert(self@[k as int] == self.beacons@[k as int]@);
            let b = self.beacons[k].transformed(transform, flip);
            beacons.push(b);
            k = k + 1;
        }
        let r = Scanner { number: self.number, beacons };
        assert(forall|m: int| 0 <= m < r@.len() ==> in_range(#[trigger] r@[m])) by {
            assert(forall|m: int| 0 <= m < r@.len() ==> #[trigger] r@[m]
                == orient(transform, flip, self@[m]));
            assert(forall|m: int| 0 <= m < self@.len() ==> in_range(#[trigger] self@[m]));
            assert(forall|m: int| 0 <= m < r@.len() ==> in_range(#[trigger] r@[m])) by {
                assert forall|m: int| 0 <= m < r@.len() implies in_range(#[trigger] r@[m]) by {
                    crate::orient::lemma_orient_in_range(transform, flip, self@[m]);
                }
            }
        }
        r
    }
}

/// The fingerprint of beacon `i` of point sequence `s`: the set of squared
/// distances from `s[i]` to every other (distinct-valued) point of `s`.
pub open spec fn fingerprint(s: Seq<(int, int, int)>, i: int) -> Set<int> {
    Set::new(
        |d: int|
            exists|j: int|
                0 <= j < s.len() && #[trigger] s[j] != s[i] && d == sq_dist(s[i], s[j]),
    )
}

/// The fingerprint restricted to the first `n` points of `s`.
pub open spec fn fingerprint_upto(s: Seq<(int, int, int)>, i: int, n: int) -> Set<int> {
    Set::new(
        |d: int|
            exists|j: int| 0 <= j < n && #[trigger] s[j] != s[i] && d == sq_dist(s[i], s[j]),
    )
}

/// The set of integer values a sequence of machine integers holds.
pub open spec fn val_set(v: Seq<i128>) -> Set<int> {
    Set::new(|d: int| exists|k: int| 0 <= k < v.len() && #[trigger] v[k] as int == d)
}

/// `v` lists the elements of `s`, each exactly once.
pub open spec fn enumerates(v: Seq<i128>, s: Set<int>) -> bool {
    &&& v.no_duplicates()
    &&& forall|k: int| 0 <= k < v.len() ==> s.contains(#[trigger] v[k] as int)
    &&& forall|d: int| s.contains(d) ==> val_set(v).contains(d)
}

/// Whether `v` holds `d`, by linear scan.
fn contains_val(v: &Vec<i128>, d: i128) -> (r: bool)
    ensures
        r == v@.contains(d),
{
    let n = v.len();
    let mut k: usize = 0;
    while k < n
        invariant
            n == v.len(),
            k <= n,
            forall|m: int| 0 <= m < k as int ==> v@[m] != d,
        decreases n - k,
    {
        if v[k] == d {
            return true;
        }
        k = k + 1;
    }
    false
}

/// The fingerprint of beacon `i`, as a duplicate-free list of squared
/// distances.
fn fingerprint_one(scanner: &Scanner, i: usize) -> (r: Vec<i128>)
    requires
        scanner.wf(),
        i < scanner@.len(),
    ensures
        enumerates(r@, fingerprint(scanner@, i as int)),
{
    let s = &scanner.beacons;
    let n = s.len();
    let mut r: Vec<i128> = Vec::new();
    let mut j: usize = 0;
    while j < n
        invariant
            n == s.len(),
            n == scanner@.len(),
            j <= n,
            i < n,
            scanner.wf(),
            s == scanner.beacons,
            r@.no_duplicates(),
            forall|k: int| 0 <= k < r@.len() ==>
                fingerprint_upto(scanner@, i as int, j as int).contains(#[trigger] r@[k] as int),
            forall|d: int| fingerprint_upto(scanner@, i as int, j as int).contains(d)
                ==> val_set(r@).contains(d),
        decreases n - j,
    {
        assert(scanner@[j as int] == s@[j as int]@);
        assert(scanner@[i as int] == s@[i as int]@);
        let ghost su = fingerprint_upto(scanner@, i as int, j as int);
        let ghost su2 = fingerprint_upto(scanner@, i as int, (j + 1) as int);
        if s[j] != s[i] {
            assert(scanner@[j as int] != scanner@[i as int]);
            let d = s[i].squared_distance(&s[j]);
            let ghost r0 = r@;
            let present = contains_val(&r, d);
            if !present {
                assert(!val_set(r@).contains(d as int)) by {
                    assert(forall|k: int| 0 <= k < r@.len() ==> #[trigger] r@[k] != d);
                }
                r.push(d);
            }
            proof {
                assert(forall|k: int| 0 <= k < r0.len() ==> #[trigger] r@[k] == r0[k]);
                assert(val_set(r@).contains(d as int)) by {
                    if present {
                        let k = choose|k: int| 0 <= k < r0.len() && r0[k] == d;
                        assert(r@[k] as int == d as int);
                    } else {
                        assert(r@[r@.len() - 1] == d);
                    }
                }
                assert forall|e: int| su2.contains(e) implies val_set(r@).contains(e) by {
                    let j2 = choose|j2: int|
                        0 <= j2 < (j + 1) as int && #[trigger] scanner@[j2] != scanner@[i as int]
                            && e == sq_dist(scanner@[i as int], scanner@[j2]);
                    if j2 < j as int {
                        assert(su.contains(e));
                        assert(val_set(r0).contains(e));
                        let k = choose|k: int| 0 <= k < r0.len() && #[trigger] r0[k] as int == e;
                        assert(r@[k] as int == e);
                    } else {
                        assert(e == d as int);
                    }
                }
            }
        } else {
            proof {
                assert(scanner@[j as int] == scanner@[i as int]);
                assert forall|e: int| su2.contains(e) implies val_set(r@).contains(e) by {
                    let j2 = choose|j2: int|
                        0 <= j2 < (j + 1) as int && #[trigger] scanner@[j2] != scanner@[i as int]
                            && e == sq_dist(scanner@[i as int], scanner@[j2]);
                    assert(j2 < j as int);
                    assert(su.contains(e));
                }
            }
        }
        j = j + 1;
    }
    assert(forall|k: int| 0 <= k < r@.len() ==>
        fingerprint(scanner@, i as int).contains(#[trigger] r@[k] as int)) by {
        assert(fingerprint_upto(scanner@, i as int, n as int) =~= fingerprint(scanner@, i as int));
    }
    assert(forall|d: int| fingerprint(scanner@, i as int).contains(d)
        ==> val_set(r@).contains(d)) by {
        assert(fingerprint_upto(scanner@, i as int, n as int) =~= fingerprint(scanner@, i as int));
    }
    r
}

impl Scanner {
    /// The full fingerprint index: one duplicate-free distance list per
    /// beacon.  A pure function of the beacon list, computed once and cached
    /// by callers.
    pub fn beacon_distances(&self) -> (r: Vec<Vec<i128>>)
        requires
            self.wf(),
        ensures
            r@.len() == self@.len(),
            forall|i: int| 0 <= i < r@.len() ==> enumerates(#[trigger] r@[i]@, fingerprint(self@, i)),
    {
        let n = self.beacons.len();
        let mut r: Vec<Vec<i128>> = Vec::new();
        let mut i: usize = 0;
        while i < n
            invariant
                n == self.beacons.len(),
                n == self@.len(),
                i <= n,
                self.wf(),
                r@.len() == i,
                forall|m: int| 0 <= m < i as int ==> enumerates(#[trigger] r@[m]@, fingerprint(self@, m)),
            decreases n - i,
        {
            let row = fingerprint_one(self, i);
            r.push(row);
            i = i + 1;
        }
        r
    }
}

/// Idempotence of fingerprinting: the fingerprint index is a pure function of
/// the beacon sequence, so recomputing it can only yield the same result.
/// Concretely: any two duplicate-free enumerations of the same fingerprint
/// hold the same values.
pub proof fn lemma_fingerprint_idempotent(
    s: Seq<(int, int, int)>,
    i: int,
    r1: Seq<i128>,
    r2: Seq<i128>,
)
    requires
        enumerates(r1, fingerprint(s, i)),
        enumerates(r2, fingerprint(s, i)),
    ensures
        val_set(r1) == val_set(r2),
        r1.len() == r2.len(),
{
    assert(val_set(r1) =~= fingerprint(s, i));
    assert(val_set(r2) =~= fingerprint(s, i));
    lemma_enumerates_len(r1, fingerprint(s, i));
    lemma_enumerates_len(r2, fingerprint(s, i));
}

/// A duplicate-free enumeration of a set has exactly the set's cardinality.
pub proof fn lemma_enumerates_len(v: Seq<i128>, s: Set<int>)
    requires
        enumerates(v, s),
    ensures
        s.finite(),
        v.len() == s.len(),
    decreases v.len(),
{
    if v.len() == 0 {
        assert(s =~= Set::<int>::empty());
    } else {
        let last = v[v.len() - 1] as int;
        let v2 = v.drop_last();
        let s2 = s.remove(last);
        assert(enumerates(v2, s2)) by {
            assert(forall|k: int| 0 <= k < v2.len() ==> v2[k] == v[k]);
            assert(forall|d: int| s2.contains(d) ==> val_set(v2).contains(d)) by {
                assert forall|d: int| s2.contains(d) implies val_set(v2).contains(d) by {
                    let k = choose|k: int| 0 <= k < v.len() && #[trigger] v[k] as int == d;
                    assert(k < v.len() - 1);
                    assert(v2[k] as int == d);
                }
            }
        }
        lemma_enumerates_len(v2, s2);
        assert(s.contains(last));
        assert(s =~= s2.insert(last));
    }
}

/// The number of distinct squared distances two fingerprints share.
pub open spec fn overlap(s1: Seq<(int, int, int)>, i: int, s2: Seq<(int, int, int)>, j: int) -> nat {
    fingerprint(s1, i).intersect(fingerprint(s2, j)).len()
}

/// Counts the distinct values `a` and `b` share.  `a` must be duplicate-free;
/// `b` may hold anything.
pub fn overlap_count(a: &Vec<i128>, b: &Vec<i128>) -> (n: usize)
    requires
        a@.no_duplicates(),
    ensures
        n == val_set(a@).intersect(val_set(b@)).len(),
{
    let len = a.len();
    let mut n: usize = 0;
    let ghost mut seen: Set<int> = Set::empty();
    let mut k: usize = 0;
    while k < len
        invariant
            len == a@.len(),
            k <= len,
            a@.no_duplicates(),
            seen.finite(),
            n == seen.len(),
            n <= k,
            forall|d: int| seen.contains(d)
                <==> exists|m: int| 0 <= m < k as int && #[trigger] a@[m] as int == d
                    && b@.contains(a@[m]),
        decreases len - k,
    {
        if contains_val(b, a[k]) {
            proof {
                assert(!seen.contains(a@[k as int] as int)) by {
                    if seen.contains(a@[k as int] as int) {
                        let m = choose|m: int| 0 <= m < k as int && #[trigger] a@[m] as int
                            == a@[k as int] as int && b@.contains(a@[m]);
                        assert(a@[m] == a@[k as int]);
                    }
                }
                seen = seen.insert(a@[k as int] as int);
            }
            n = n + 1;
        }
        k = k + 1;
    }
    proof {
        assert(seen =~= val_set(a@).intersect(val_set(b@))) by {
            assert forall|d: int| val_set(a@).intersect(val_set(b@)).contains(d) implies seen.contains(
                d,
            ) by {
                let m = choose|m: int| 0 <= m < a@.len() && #[trigger] a@[m] as int == d;
                let m2 = choose|m2: int| 0 <= m2 < b@.len() && #[trigger] b@[m2] as int == d;
                assert(b@[m2] == a@[m]);
                assert(b@.contains(a@[m]));
            }
        }
    }
    n
}

/// Fingerprint overlap is symmetric.
pub proof fn lemma_overlap_symmetric(
    s1: Seq<(int, int, int)>,
    i: int,
    s2: Seq<(int, int, int)>,
    j: int,
)
    ensures
        overlap(s1, i, s2, j) == overlap(s2, j, s1, i),
{
    assert(fingerprint(s1, i).intersect(fingerprint(s2, j)) =~= fingerprint(s2, j).intersect(
        fingerprint(s1, i),
    ));
}

} // verus!
