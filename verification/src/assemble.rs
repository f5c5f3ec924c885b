//! The global assembler: grows a pool of solved scanners (position and
//! globally-oriented beacons known) from one reference scanner fixed at the
//! origin, repeatedly aligning some unsolved scanner against some solved one
//! until every scanner is placed, or no pair aligns and the dataset is
//! reported disconnected.

use vstd::prelude::*;
use crate::geom::{Beacon, MAX_COORD, in_range, pt_add};
use crate::orient::orient;
use crate::fingerprint::Scanner;
use crate::align::{align_spec, find_transform};

verus! {

/// A scanner that has been placed: its position in the global frame, and its
/// beacons rotated into the global orientation (still relative to the
/// scanner; adding `position` yields global coordinates).  Immutable once
/// created.
pub struct SolvedScanner {
    pub position: Beacon,
    pub scanner: Scanner,
}

impl SolvedScanner {
    pub open spec fn wf(self) -> bool {
        self.position.wf() && self.scanner.wf()
    }
}

/// The mathematical model of a solved scanner: position, identifier, and
/// oriented beacon positions.
pub open spec fn solved_view(ss: SolvedScanner) -> (
    (int, int, int),
    int,
    Seq<(int, int, int)>,
) {
    (ss.position@, ss.scanner.number as int, ss.scanner@)
}

/// The mathematical model of an unsolved report: identifier and local beacon
/// positions.
pub open spec fn report_view(s: Scanner) -> (int, Seq<(int, int, int)>) {
    (s.number as int, s@)
}

pub open spec fn solved_models(s: Seq<SolvedScanner>) -> Seq<
    ((int, int, int), int, Seq<(int, int, int)>),
> {
    s.map_values(|ss: SolvedScanner| solved_view(ss))
}

pub open spec fn scanner_models(s: Seq<Scanner>) -> Seq<(int, Seq<(int, int, int)>)> {
    s.map_values(|sc: Scanner| report_view(sc))
}

/// Whether the unsolved report `s` can be placed against the solved scanner
/// `ss`: the pairwise aligner succeeds, and the resulting position is
/// representable.
pub open spec fn link_ok(
    ss: ((int, int, int), int, Seq<(int, int, int)>),
    s: (int, Seq<(int, int, int)>),
) -> bool {
    match align_spec(ss.2, s.1) {
        None => false,
        Some((t, tr, fl)) => in_range(pt_add(ss.0, t)),
    }
}

/// The solved scanner that placing `s` against `ss` creates: position is
/// `ss`'s position plus the discovered translation, beacons are rotated by
/// the discovered orientation.
pub open spec fn place_model(
    ss: ((int, int, int), int, Seq<(int, int, int)>),
    s: (int, Seq<(int, int, int)>),
) -> ((int, int, int), int, Seq<(int, int, int)>) {
    match align_spec(ss.2, s.1) {
        None => ss,
        Some((t, tr, fl)) => (pt_add(ss.0, t), s.0, s.1.map_values(|p: (int, int, int)| orient(tr, fl, p))),
    }
}

/// The first unsolved index at or after `j` that links against solved row `i`.
pub open spec fn first_link_in_row(
    solved: Seq<((int, int, int), int, Seq<(int, int, int)>)>,
    unsolved: Seq<(int, Seq<(int, int, int)>)>,
    i: int,
    j: int,
) -> Option<int>
    decreases unsolved.len() - j,
{
    if !(0 <= j < unsolved.len()) {
        None
    } else if link_ok(solved[i], unsolved[j]) {
        Some(j)
    } else {
        first_link_in_row(solved, unsolved, i, j + 1)
    }
}

/// The first (solved, unsolved) pair, scanning solved rows from `i` outward
/// and unsolved reports inward, that links.
pub open spec fn first_link_from(
    solved: Seq<((int, int, int), int, Seq<(int, int, int)>)>,
    unsolved: Seq<(int, Seq<(int, int, int)>)>,
    i: int,
) -> Option<(int, int)>
    decreases solved.len() - i,
{
    if !(0 <= i < solved.len()) {
        None
    } else {
        match first_link_in_row(solved, unsolved, i, 0) {
            Some(j) => Some((i, j)),
            None => first_link_from(solved, unsolved, i + 1),
        }
    }
}

/// The pair the assembler's scan finds, in its fixed deterministic order.
pub open spec fn first_link(
    solved: Seq<((int, int, int), int, Seq<(int, int, int)>)>,
    unsolved: Seq<(int, Seq<(int, int, int)>)>,
) -> Option<(int, int)> {
    first_link_from(solved, unsolved, 0)
}

/// The whole assembly, as a function of the two pools: repeatedly place the
/// first linking pair; `None` when unsolved scanners remain but no pair
/// links (a disconnected dataset).
pub open spec fn assemble_rec(
    solved: Seq<((int, int, int), int, Seq<(int, int, int)>)>,
    unsolved: Seq<(int, Seq<(int, int, int)>)>,
) -> Option<Seq<((int, int, int), int, Seq<(int, int, int)>)>>
    decreases unsolved.len(),
{
    if unsolved.len() == 0 {
        Some(solved)
    } else {
        match first_link(solved, unsolved) {
            None => None,
            Some((i, j)) => if 0 <= i < solved.len() && 0 <= j < unsolved.len() {
                assemble_rec(solved.push(place_model(solved[i], unsolved[j])), unsolved.remove(j))
            } else {
                None
            },
        }
    }
}

/// The solved pool the assembly starts from: the first report, fixed at the
/// origin with identity orientation.
pub open spec fn initial_solved(scanners: Seq<Scanner>) -> Seq<
    ((int, int, int), int, Seq<(int, int, int)>),
> {
    seq![((0int, 0int, 0int), scanners[0].number as int, scanners[0]@)]
}

/// The unsolved pool the assembly starts from: every other report.
pub open spec fn initial_unsolved(scanners: Seq<Scanner>) -> Seq<(int, Seq<(int, int, int)>)> {
    scanner_models(scanners.remove(0))
}

/// What assembling a scanner list yields.
pub open spec fn assembly_of(scanners: Seq<Scanner>) -> Option<
    Seq<((int, int, int), int, Seq<(int, int, int)>)>,
> {
    assemble_rec(initial_solved(scanners), initial_unsolved(scanners))
}

/// The one fatal failure: after exhausting every (solved, unsolved) pair,
/// unsolved scanners remain, so the dataset does not connect.
#[derive(Clone, Copy, Debug, PartialEq, Eq, Structural)]
pub enum AssembleError {
    Disconnected,
}

pub open spec fn all_scanners_wf(s: Seq<Scanner>) -> bool {
    forall|k: int| 0 <= k < s.len() ==> (#[trigger] s[k]).wf()
}

pub open spec fn all_solved_wf(s: Seq<SolvedScanner>) -> bool {
    forall|k: int| 0 <= k < s.len() ==> (#[trigger] s[k]).wf()
}

/// A successful row scan returns an in-range index that links.
proof fn lemma_row_bounds(
    solved: Seq<((int, int, int), int, Seq<(int, int, int)>)>,
    unsolved: Seq<(int, Seq<(int, int, int)>)>,
    i: int,
    j: int,
)
    requires
        0 <= j,
        first_link_in_row(solved, unsolved, i, j) is Some,
    ensures
        ({
            let jj = first_link_in_row(solved, unsolved, i, j)->Some_0;
            j <= jj < unsolved.len() && link_ok(solved[i], unsolved[jj])
        }),
    decreases unsolved.len() - j,
{
    if 0 <= j < unsolved.len() && !link_ok(solved[i], unsolved[j]) {
        lemma_row_bounds(solved, unsolved, i, j + 1);
    }
}

/// A successful pair scan returns in-range indices that link.
proof fn lemma_from_bounds(
    solved: Seq<((int, int, int), int, Seq<(int, int, int)>)>,
    unsolved: Seq<(int, Seq<(int, int, int)>)>,
    i: int,
)
    requires
        0 <= i,
        first_link_from(solved, unsolved, i) is Some,
    ensures
        ({
            let (a, b) = first_link_from(solved, unsolved, i)->Some_0;
            i <= a < solved.len() && 0 <= b < unsolved.len() && link_ok(solved[a], unsolved[b])
        }),
    decreases solved.len() - i,
{
    if 0 <= i < solved.len() {
        if first_link_in_row(solved, unsolved, i, 0) is Some {
            lemma_row_bounds(solved, unsolved, i, 0);
        } else {
            lemma_from_bounds(solved, unsolved, i + 1);
        }
    }
}

/// The pair the scan finds is in range and links.
pub proof fn lemma_first_link_bounds(
    solved: Seq<((int, int, int), int, Seq<(int, int, int)>)>,
    unsolved: Seq<(int, Seq<(int, int, int)>)>,
)
    requires
        first_link(solved, unsolved) is Some,
    ensures
        ({
            let (a, b) = first_link(solved, unsolved)->Some_0;
            0 <= a < solved.len() && 0 <= b < unsolved.len() && link_ok(solved[a], unsolved[b])
        }),
{
    lemma_from_bounds(solved, unsolved, 0);
}

/// Skipping unsolved reports that do not link leaves the row scan unchanged.
proof fn lemma_row_skip(
    solved: Seq<((int, int, int), int, Seq<(int, int, int)>)>,
    unsolved: Seq<(int, Seq<(int, int, int)>)>,
    i: int,
    j: int,
    upper: int,
)
    requires
        0 <= j <= upper <= unsolved.len(),
        forall|x: int| j <= x < upper ==> !link_ok(solved[i], #[trigger] unsolved[x]),
    ensures
        first_link_in_row(solved, unsolved, i, j) == first_link_in_row(solved, unsolved, i, upper),
    decreases upper - j,
{
    if j < upper {
        lemma_row_skip(solved, unsolved, i, j + 1, upper);
    }
}

/// Skipping solved rows whose scan finds nothing leaves the pair scan
/// unchanged.
proof fn lemma_from_skip(
    solved: Seq<((int, int, int), int, Seq<(int, int, int)>)>,
    unsolved: Seq<(int, Seq<(int, int, int)>)>,
    i: int,
    upper: int,
)
    requires
        0 <= i <= upper <= solved.len(),
        forall|x: int| i <= x < upper ==> first_link_in_row(solved, unsolved, x, 0) is None,
    ensures
        first_link_from(solved, unsolved, i) == first_link_from(solved, unsolved, upper),
    decreases upper - i,
{
    if i < upper {
        lemma_from_skip(solved, unsolved, i + 1, upper);
    }
}

/// One transition of the assembler: scans every (solved, unsolved) pair in
/// the fixed order and places the first that aligns.  Returns whether any
/// did.  The solved pool only ever grows — by exactly one per successful
/// transition — and the unsolved pool shrinks by the same scanner.
pub fn try_solve_one(solved: &mut Vec<SolvedScanner>, unsolved: &mut Vec<Scanner>) -> (r: bool)
    requires
        all_solved_wf(old(solved)@),
        all_scanners_wf(old(unsolved)@),
    ensures
        all_solved_wf(final(solved)@),
        all_scanners_wf(final(unsolved)@),
        r == (first_link(solved_models(old(solved)@), scanner_models(old(unsolved)@)) is Some),
        !r ==> final(solved)@ == old(solved)@ && final(unsolved)@ == old(unsolved)@,
        r ==> final(solved)@.len() == old(solved)@.len() + 1 && final(unsolved)@.len() + 1
            == old(unsolved)@.len(),
        r ==> ({
            let sm = solved_models(old(solved)@);
            let um = scanner_models(old(unsolved)@);
            match first_link(sm, um) {
                None => false,
                Some((i, j)) => {
                    &&& solved_models(final(solved)@) == sm.push(place_model(sm[i], um[j]))
                    &&& scanner_models(final(unsolved)@) == um.remove(j)
                },
            }
        }),
{
    let ghost sm = solved_models(solved@);
    let ghost um = scanner_models(unsolved@);
    let ns = solved.len();
    let nu = unsolved.len();
    let mut i: usize = 0;
    while i < ns
        invariant
            all_solved_wf(solved@),
            all_scanners_wf(unsolved@),
            solved@ == old(solved)@,
            unsolved@ == old(unsolved)@,
            sm == solved_models(solved@),
            um == scanner_models(unsolved@),
            ns == solved@.len(),
            nu == unsolved@.len(),
            i <= ns,
            forall|x: int| 0 <= x < i as int ==> first_link_in_row(sm, um, x, 0) is None,
        decreases ns - i,
    {
        let mut j: usize = 0;
        while j < nu
            invariant
                all_solved_wf(solved@),
                all_scanners_wf(unsolved@),
                solved@ == old(solved)@,
                unsolved@ == old(unsolved)@,
                sm == solved_models(solved@),
                um == scanner_models(unsolved@),
                ns == solved@.len(),
                nu == unsolved@.len(),
                i < ns,
                j <= nu,
                forall|x: int| 0 <= x < i as int ==> first_link_in_row(sm, um, x, 0) is None,
                forall|x: int| 0 <= x < j as int ==> !link_ok(sm[i as int], #[trigger] um[x]),
            decreases nu - j,
        {
            proof {
                assert(sm[i as int] == solved_view(solved@[i as int]));
                assert(um[j as int] == report_view(unsolved@[j as int]));
                assert(solved@[i as int].wf());
                assert(unsolved@[j as int].wf());
            }
            let found = find_transform(&solved[i].scanner, &unsolved[j]);
            match found {
                Some((off, tr, fl)) => {
                    let pos = solved[i].position.plus(&off);
                    if -MAX_COORD <= pos.x && pos.x <= MAX_COORD && -MAX_COORD <= pos.y && pos.y
                        <= MAX_COORD && -MAX_COORD <= pos.z && pos.z <= MAX_COORD {
                        assert(link_ok(sm[i as int], um[j as int]));
                        proof {
                            lemma_row_skip(sm, um, i as int, 0, j as int);
                            assert(first_link_in_row(sm, um, i as int, 0) == Some(j as int));
                            lemma_from_skip(sm, um, 0, i as int);
                            assert(first_link(sm, um) == Some((i as int, j as int)));
                        }
                        let target = unsolved.remove(j);
                        let oriented = target.transformed(tr, fl);
                        let placed = SolvedScanner { position: pos, scanner: oriented };
                        solved.push(placed);
                        proof {
                            assert(solved_models(solved@) =~= sm.push(
                                place_model(sm[i as int], um[j as int]),
                            )) by {
                                assert(solved_view(placed).2 =~= um[j as int].1.map_values(
                                    |p: (int, int, int)| orient(tr, fl, p),
                                ));
                                assert(forall|k: int| 0 <= k < sm.len()
                                    ==> solved_models(solved@)[k] == sm[k]);
                            }
                            assert(scanner_models(unsolved@) =~= um.remove(j as int));
                        }
                        return true;
                    } else {
                        assert(!link_ok(sm[i as int], um[j as int]));
                    }
                },
                None => {
                    assert(!link_ok(sm[i as int], um[j as int]));
                },
            }
            j = j + 1;
        }
        proof {
            lemma_row_skip(sm, um, i as int, 0, nu as int);
            assert(first_link_in_row(sm, um, i as int, 0) is None);
        }
        i = i + 1;
    }
    proof {
        lemma_from_skip(sm, um, 0, ns as int);
        assert(first_link(sm, um) is None);
    }
    false
}

/// Runs the assembly to completion.  Exactly one scanner — the first — seeds
/// the solved pool at the origin with identity orientation; each successful
/// transition moves one scanner from unsolved to solved; if a full scan
/// places nothing while unsolved scanners remain, the dataset is
/// disconnected and that is fatal.
pub fn assemble(scanners: Vec<Scanner>) -> (r: Result<Vec<SolvedScanner>, AssembleError>)
    requires
        scanners@.len() >= 1,
        all_scanners_wf(scanners@),
    ensures
        match r {
            Ok(sol) => {
                &&& assembly_of(scanners@) == Some(solved_models(sol@))
                &&& all_solved_wf(sol@)
                &&& sol@.len() == scanners@.len()
                &&& sol@[0].position@ == (0int, 0int, 0int)
                &&& sol@[0].scanner@ == scanners@[0]@
                &&& sol@[0].scanner.number == scanners@[0].number
            },
            Err(e) => {
                &&& assembly_of(scanners@) is None
                &&& e == AssembleError::Disconnected
            },
        },
{
    let ghost scs = scanners@;
    let total = scanners.len();
    let mut unsolved = scanners;
    let first = unsolved.remove(0);
    let mut solved: Vec<SolvedScanner> = Vec::new();
    solved.push(SolvedScanner { position: Beacon::new(0, 0, 0), scanner: first });
    proof {
        assert(solved_models(solved@) =~= initial_solved(scs));
        assert(scanner_models(unsolved@) =~= initial_unsolved(scs));
    }
    while unsolved.len() > 0
        invariant
            all_solved_wf(solved@),
            all_scanners_wf(unsolved@),
            solved@.len() >= 1,
            solved@.len() + unsolved@.len() == total as int,
            total == scs.len(),
            scs == scanners@,
            assemble_rec(solved_models(solved@), scanner_models(unsolved@)) == assembly_of(scs),
            solved@[0].position@ == (0int, 0int, 0int),
            solved@[0].scanner@ == scs[0]@,
            solved@[0].scanner.number == scs[0].number,
        decreases unsolved@.len(),
    {
        let ghost sm = solved_models(solved@);
        let ghost um = scanner_models(unsolved@);
        let progressed = try_solve_one(&mut solved, &mut unsolved);
        if !progressed {
            proof {
                assert(assemble_rec(sm, um) is None);
            }
            return Err(AssembleError::Disconnected);
        }
        proof {
            lemma_first_link_bounds(sm, um);
            let (i, j) = first_link(sm, um)->Some_0;
            assert(assemble_rec(sm, um) == assemble_rec(
                sm.push(place_model(sm[i], um[j])),
                um.remove(j),
            ));
            assert(solved_models(solved@)[0] == sm[0]);
            assert(solved@[0].position@ == (0int, 0int, 0int));
            assert(solved@[0].scanner@ == scs[0]@);
            assert(solved@[0].scanner.number == scs[0].number);
        }
    }
    proof {
        assert(assemble_rec(solved_models(solved@), scanner_models(unsolved@)) == Some(
            solved_models(solved@),
        ));
    }
    Ok(solved)
}

} // verus!
