//! The scanning contract: what an automaton must offer, and the two resumable
//! scans that are written once for every automaton that offers it.

use crate::model::Hit;
use crate::state_id::{DEAD_ID, FAIL_ID};
use vstd::prelude::*;

verus! {

/// One occurrence of a pattern in a text.
#[derive(Clone, Debug, Eq, Hash, PartialEq)]
pub struct Match {
    pattern: usize,
    len: usize,
    end: usize,
}

impl View for Match {
    type V = Hit;

    closed spec fn view(&self) -> Hit {
        Hit { pattern: self.pattern as int, len: self.len as int, end: self.end as int }
    }
}

impl Match {
    /// The occurrence of pattern `pattern`, `len` bytes long, that ends before
    /// offset `end`.
    pub fn new(pattern: usize, len: usize, end: usize) -> (m: Self)
        ensures
            m@ == (Hit { pattern: pattern as int, len: len as int, end: end as int }),
    {
        Match { pattern, len, end }
    }

    /// The index of the pattern in the dictionary.
    #[inline]
    pub fn pattern(&self) -> (r: usize)
        ensures
            r == self@.pattern,
    {
        self.pattern
    }

    /// The offset one past the last byte of the occurrence.
    #[inline]
    pub fn end(&self) -> (r: usize)
        ensures
            r == self@.end,
    {
        self.end
    }
}

/// The view of what a scan returns.
pub open spec fn hit_of(r: Option<Match>) -> Option<Hit> {
    match r {
        Some(m) => Some(m@),
        None => None,
    }
}

/// An automaton as the contracts see it: the target of each state on each byte,
/// which states have matches, and the match of a state at a place of its list
/// for a scan that stands at an offset.
pub struct Machine {
    pub next: spec_fn(usize, u8) -> usize,
    pub is_match: spec_fn(usize) -> bool,
    pub get_match: spec_fn(usize, usize, usize) -> Option<Hit>,
}

/// Where a standard scan from state `s` at offset `at` stops, and in which
/// state: at the first state that is dead or has a match, or at the end of the
/// text.
pub open spec fn scan_stop(m: Machine, hay: Seq<u8>, at: int, s: usize) -> (usize, int)
    decreases hay.len() - at,
{
    if at < 0 || at >= hay.len() {
        (s, at)
    } else {
        let t = (m.next)(s, hay[at]);
        if t == DEAD_ID || (m.is_match)(t) {
            (t, at + 1)
        } else {
            scan_stop(m, hay, at + 1, t)
        }
    }
}

/// What a standard scan from state `s` at offset `at` returns: the first match
/// of the state it stops in, if it moved and stopped in a match state.
pub open spec fn scan_result(m: Machine, hay: Seq<u8>, at: int, s: usize) -> Option<Hit> {
    let (t, p) = scan_stop(m, hay, at, s);
    if p > at && (m.is_match)(t) && t != DEAD_ID {
        (m.get_match)(t, 0, p as usize)
    } else {
        None
    }
}

/// A state machine over bytes with a start state, a dead state and match states.
pub trait Automaton {
    /// The automaton is fit to scan with.
    spec fn well_formed(&self) -> bool;

    /// `id` names a state that a scan can be in and go on from.
    spec fn is_state(&self, id: usize) -> bool;

    spec fn spec_start_state(&self) -> usize;

    spec fn spec_is_valid(&self, id: usize) -> bool;

    /// The transitions, match states and matches of the automaton.
    spec fn machine(&self) -> Machine;

    spec fn spec_match_count(&self, id: usize) -> usize;

    /// A scan that is in a state stays in states, unless it dies; and a state is
    /// neither the fail sentinel nor the dead state.
    proof fn lemma_step(&self, id: usize, input: u8)
        requires
            self.well_formed(),
            self.is_state(id),
        ensures
            id != FAIL_ID,
            id != DEAD_ID,
            self.spec_is_valid(id),
            (self.machine().next)(id, input) != FAIL_ID,
            self.is_state((self.machine().next)(id, input)) || (self.machine().next)(id, input)
                == DEAD_ID,
    ;

    fn start_state(&self) -> (r: usize)
        requires
            self.well_formed(),
        ensures
            r == self.spec_start_state(),
            self.is_state(r),
    ;

    fn is_valid(&self, id: usize) -> (r: bool)
        ensures
            r == self.spec_is_valid(id),
    ;

    fn is_match_state(&self, id: usize) -> (r: bool)
        requires
            self.well_formed(),
        ensures
            r == (self.machine().is_match)(id),
    ;

    fn is_match_or_dead_state(&self, id: usize) -> (r: bool)
        requires
            self.well_formed(),
            id != FAIL_ID,
        ensures
            r == (id == DEAD_ID || (self.machine().is_match)(id)),
    {
        id == DEAD_ID || self.is_match_state(id)
    }

    fn get_match(&self, id: usize, match_index: usize, end: usize) -> (r: Option<Match>)
        requires
            self.well_formed(),
        ensures
            hit_of(r) == (self.machine().get_match)(id, match_index, end),
    ;

    fn match_count(&self, id: usize) -> (r: usize)
        requires
            self.well_formed(),
            self.spec_is_valid(id),
        ensures
            r == self.spec_match_count(id),
    ;

    fn next_state(&self, current: usize, input: u8) -> (r: usize)
        requires
            self.well_formed(),
            self.is_state(current),
        ensures
            r == (self.machine().next)(current, input),
    ;

    fn next_state_no_fail(&self, current: usize, input: u8) -> (r: usize)
        requires
            self.well_formed(),
            self.is_state(current),
        ensures
            r == (self.machine().next)(current, input),
            r != FAIL_ID,
            self.is_state(r) || r == DEAD_ID,
    {
        let next = self.next_state(current, input);
        proof {
            self.lemma_step(current, input);
        }
        next
    }

    /// Scans from offset `at` in state `*state_id` up to the first state that is
    /// dead or has a match, and returns the first match of that state.
    #[inline]
    fn standard_find_at(&self, haystack: &[u8], at: usize, state_id: &mut usize) -> (r: Option<
        Match,
    >)
        requires
            self.well_formed(),
            self.is_state(*old(state_id)),
            at <= haystack@.len(),
        ensures
            *final(state_id) == scan_stop(self.machine(), haystack@, at as int, *old(state_id)).0,
            hit_of(r) == scan_result(self.machine(), haystack@, at as int, *old(state_id)),
            self.is_state(*final(state_id)) || *final(state_id) == DEAD_ID,
    {
        let mut pos = at;
        while pos < haystack.len()
            invariant
                at <= pos <= haystack@.len(),
                self.well_formed(),
                self.is_state(*state_id),
                scan_stop(self.machine(), haystack@, pos as int, *state_id) == scan_stop(
                    self.machine(),
                    haystack@,
                    at as int,
                    *old(state_id),
                ),
                pos > at ==> !(self.machine().is_match)(*state_id),
            decreases haystack@.len() - pos,
        {
            let ghost before = *state_id;
            *state_id = self.next_state_no_fail(*state_id, haystack[pos]);
            pos += 1;
            assert(scan_stop(self.machine(), haystack@, pos - 1, before) == (if *state_id
                == DEAD_ID || (self.machine().is_match)(*state_id) {
                (*state_id, pos as int)
            } else {
                scan_stop(self.machine(), haystack@, pos as int, *state_id)
            }));

            if self.is_match_or_dead_state(*state_id) {
                return if *state_id == DEAD_ID {
                    None
                } else {
                    self.get_match(*state_id, 0, pos)
                };
            }
        }
        proof {
            self.lemma_step(*state_id, 0);
        }
        None
    }

    /// Returns the next match of the state `*state_id` at or after place
    /// `*match_index` of its list, without reading input; where there is none,
    /// scans on from offset `at`.
    #[inline]
    fn overlapping_find_at(
        &self,
        haystack: &[u8],
        at: usize,
        state_id: &mut usize,
        match_index: &mut usize,
    ) -> (r: Option<Match>)
        requires
            self.well_formed(),
            self.is_state(*old(state_id)),
            at <= haystack@.len(),
        ensures
            *old(match_index) < self.spec_match_count(*old(state_id)) ==> {
                &&& hit_of(r) == (self.machine().get_match)(*old(state_id), *old(match_index), at)
                &&& *final(state_id) == *old(state_id)
                &&& *final(match_index) == *old(match_index) + 1
            },
            *old(match_index) >= self.spec_match_count(*old(state_id)) ==> {
                &&& hit_of(r) == scan_result(self.machine(), haystack@, at as int, *old(state_id))
                &&& *final(state_id)
                    == scan_stop(self.machine(), haystack@, at as int, *old(state_id)).0
                &&& *final(match_index) == (if r is Some {
                    1usize
                } else {
                    0usize
                })
            },
            self.is_state(*final(state_id)) || *final(state_id) == DEAD_ID,
    {
        proof {
            self.lemma_step(*state_id, 0);
        }
        let match_count = self.match_count(*state_id);
        if *match_index < match_count {
            let result = self.get_match(*state_id, *match_index, at);
            *match_index += 1;
            return result;
        }
        *match_index = 0;
        match self.standard_find_at(haystack, at, state_id) {
            None => None,
            Some(m) => {
                *match_index = 1;
                Some(m)
            },
        }
    }
}

} // verus!
