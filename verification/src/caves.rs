//! Vocabulary for cave-passage searches: a cave is big (freely revisitable)
//! or small (visitable once, with one optional exception), and a trip is the
//! sequence of caves visited so far.

use vstd::prelude::*;

verus! {

/// One cave of the passage graph.
#[derive(Debug, Clone, PartialEq, Eq)]
pub enum Cave {
    Start,
    End,
    Small(String),
    Big(String),
}

/// A cave's mathematical identity: a variant tag and the name's characters.
pub open spec fn cave_view(c: Cave) -> (int, Seq<char>) {
    match c {
        Cave::Start => (0, Seq::empty()),
        Cave::End => (1, Seq::empty()),
        Cave::Small(s) => (2, s@),
        Cave::Big(s) => (3, s@),
    }
}

impl Cave {
    /// Whether the cave may be entered at most once per trip.  The start
    /// and end count as small: a trip never returns to either.
    pub fn is_small(&self) -> (r: bool)
        ensures
            r == (self is Start || self is End || self is Small),
    {
        match self {
            Cave::Start | Cave::End | Cave::Small(_) => true,
            Cave::Big(_) => false,
        }
    }

    /// An identical cave value.
    pub fn duplicate(&self) -> (r: Cave)
        ensures
            cave_view(r) == cave_view(*self),
    {
        match self {
            Cave::Start => Cave::Start,
            Cave::End => Cave::End,
            Cave::Small(s) => Cave::Small(s.clone()),
            Cave::Big(s) => Cave::Big(s.clone()),
        }
    }
}

/// A partial walk through the caves, and whether it may still spend its one
/// repeat visit to a small cave.
#[derive(Debug)]
pub struct Trip {
    pub caves: Vec<Cave>,
    pub can_revisit_small: bool,
}

impl Trip {
    /// The cave the trip currently stands in.
    pub fn location(&self) -> (r: &Cave)
        requires
            self.caves@.len() > 0,
        ensures
            *r == self.caves@.last(),
    {
        &self.caves[self.caves.len() - 1]
    }

    /// The trip extended by one more cave.
    pub fn with_next_cave(&self, cave: Cave) -> (r: Trip)
        ensures
            r.can_revisit_small == self.can_revisit_small,
            r.caves@.len() == self.caves@.len() + 1,
            forall|k: int| 0 <= k < self.caves@.len() ==> cave_view(#[trigger] r.caves@[k])
                == cave_view(self.caves@[k]),
            r.caves@.last() == cave,
    {
        let n = self.caves.len();
        let mut new_caves: Vec<Cave> = Vec::new();
        let mut k: usize = 0;
        while k < n
            invariant
                n == self.caves@.len(),
                k <= n,
                new_caves@.len() == k,
                forall|m: int| 0 <= m < k as int ==> cave_view(#[trigger] new_caves@[m])
                    == cave_view(self.caves@[m]),
            decreases n - k,
        {
            let c = self.caves[k].duplicate();
            new_caves.push(c);
            k = k + 1;
        }
        new_caves.push(cave);
        Trip { caves: new_caves, can_revisit_small: self.can_revisit_small }
    }
}

} // verus!
