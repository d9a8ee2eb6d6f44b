//! Signed snapshots of lockfiles and system binaries, and the comparison of
//! two snapshots, with contracts proved by Verus.

pub mod types;
pub mod diff;
pub mod signing;
pub mod snapshot;
pub mod timestamp;
pub mod verify;
