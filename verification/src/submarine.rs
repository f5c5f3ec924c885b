//! Dead-reckoning of a submarine course: a stream of steering commands moves
//! a position, under two readings of the commands.

use vstd::prelude::*;

verus! {

/// One steering command.
#[derive(Clone, Copy, Debug, PartialEq, Eq, Structural)]
pub enum Direction {
    Forward(i32),
    Up(i32),
    Down(i32),
}

/// The boat's state: depth, horizontal progress, and (for the second
/// reading) aim.
#[derive(Clone, Copy, Debug, PartialEq, Eq, Structural)]
pub struct Position {
    pub depth: i32,
    pub forward: i32,
    pub aim: i32,
}

impl Position {
    pub fn new() -> (r: Position)
        ensures
            r.depth == 0,
            r.forward == 0,
            r.aim == 0,
    {
        Position { depth: 0, forward: 0, aim: 0 }
    }

    /// First reading: `forward` advances, `up`/`down` change depth directly.
    pub fn update(&mut self, direction: &Direction)
        requires
            match *direction {
                Direction::Forward(n) => i32::MIN <= old(self).forward + n <= i32::MAX,
                Direction::Up(n) => i32::MIN <= old(self).depth - n <= i32::MAX,
                Direction::Down(n) => i32::MIN <= old(self).depth + n <= i32::MAX,
            },
        ensures
            final(self).aim == old(self).aim,
            match *direction {
                Direction::Forward(n) => final(self).forward == old(self).forward + n
                    && final(self).depth == old(self).depth,
                Direction::Up(n) => final(self).depth == old(self).depth - n
                    && final(self).forward == old(self).forward,
                Direction::Down(n) => final(self).depth == old(self).depth + n
                    && final(self).forward == old(self).forward,
            },
    {
        match direction {
            Direction::Forward(n) => self.forward = self.forward + *n,
            Direction::Up(n) => self.depth = self.depth - *n,
            Direction::Down(n) => self.depth = self.depth + *n,
        }
    }

    /// Second reading: `up`/`down` steer the aim, `forward` advances and
    /// dives by `aim` per unit.
    pub fn update_part2(&mut self, direction: &Direction)
        requires
            match *direction {
                Direction::Forward(n) => {
                    &&& i32::MIN <= old(self).forward + n <= i32::MAX
                    &&& i32::MIN <= n * old(self).aim <= i32::MAX
                    &&& i32::MIN <= old(self).depth + n * old(self).aim <= i32::MAX
                },
                Direction::Up(n) => i32::MIN <= old(self).aim - n <= i32::MAX,
                Direction::Down(n) => i32::MIN <= old(self).aim + n <= i32::MAX,
            },
        ensures
            match *direction {
                Direction::Forward(n) => {
                    &&& final(self).forward == old(self).forward + n
                    &&& final(self).depth == old(self).depth + n * old(self).aim
                    &&& final(self).aim == old(self).aim
                },
                Direction::Up(n) => final(self).aim == old(self).aim - n
                    && final(self).depth == old(self).depth
                    && final(self).forward == old(self).forward,
                Direction::Down(n) => final(self).aim == old(self).aim + n
                    && final(self).depth == old(self).depth
                    && final(self).forward == old(self).forward,
            },
    {
        match direction {
            Direction::Forward(n) => {
                self.forward = self.forward + *n;
                self.depth = self.depth + *n * self.aim;
            },
            Direction::Up(n) => self.aim = self.aim - *n,
            Direction::Down(n) => self.aim = self.aim + *n,
        }
    }

    /// The puzzle answer: depth times horizontal progress.
    pub fn answer(&self) -> (r: i32)
        requires
            i32::MIN <= self.depth * self.forward <= i32::MAX,
        ensures
            r == self.depth * self.forward,
    {
        self.depth * self.forward
    }
}

} // verus!
