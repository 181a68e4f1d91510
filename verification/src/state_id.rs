//! The reserved state identifiers that the two forms of the automaton share.

use vstd::prelude::*;

verus! {

/// The sentinel for "no transition"; a scan never enters it.
pub const FAIL_ID: usize = 0;

/// The state that a scan cannot leave.
pub const DEAD_ID: usize = 1;

/// The state in which every scan begins, before any state is moved.
pub const START_ID: usize = 2;

/// The number of different input bytes.
pub const ALPHABET_LEN: usize = 256;

} // verus!
