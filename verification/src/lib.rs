//! A point-cloud registration engine for networks of 3D scanners, together
//! with a set of small verified puzzle helpers that share its style.
//!
//! The core takes a list of scanner reports, each a set of beacon positions in
//! the scanner's own unknown-orientation, unknown-offset frame, and recovers
//! every scanner's position and orientation in one common frame, plus the
//! deduplicated set of all beacons.

pub mod geom;
pub mod orient;
pub mod fingerprint;
pub mod align;
pub mod assemble;
pub mod aggregate;
pub mod submarine;
pub mod crabs;
pub mod lanternfish;
pub mod trajectory;
pub mod chunks;
pub mod vents;
pub mod bingo;
pub mod origami;
pub mod chiton;
pub mod caves;
pub mod basins;
pub mod polymer;
pub mod octopus;
