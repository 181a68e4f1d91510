//! The searcher: an automaton compiled once from a dictionary, and the lazy
//! sequence of all overlapping occurrences in a text.

use crate::automaton::{hit_of, scan_stop, Automaton, Match};
use crate::dfa::{lemma_scan, lemma_state_hits, DFA};
use crate::model::{
    all_hits, all_nonempty, count_pattern, dictionary, hits_at, hits_upto,
    lemma_count_is_occurrences, lemma_count_take, lemma_hits_gap, lemma_hits_index,
    lemma_hits_prefix, lemma_hits_range, lemma_in_trie_longest, lemma_occurrences_bound,
    longest_suffix, occurrences, supported, Hit,
};
use crate::nfa::NFA;
use vstd::prelude::*;

verus! {

/// A searcher for the patterns of one dictionary.
pub struct AhoCorasick {
    imp: DFA,
    pattern_count: usize,
}

impl AhoCorasick {
    #[verifier::type_invariant]
    spec fn inv(&self) -> bool {
        self.imp.wf() && self.imp.patterns().len() == self.pattern_count
    }

    /// The dictionary that the searcher was built from.
    pub closed spec fn patterns(&self) -> Seq<Seq<u8>> {
        self.imp.patterns()
    }

    /// The searcher for a dictionary, where it can be compiled: where no pattern
    /// is empty and the table of the automaton fits the machine.
    pub fn try_new(patterns: &Vec<Vec<u8>>) -> (made: Option<Self>)
        ensures
            made is Some <==> supported(dictionary(patterns@)),
            made matches Some(ac) ==> ac.patterns() == dictionary(patterns@),
    {
        let mut k: usize = 0;
        while k < patterns.len()
            invariant
                k <= patterns@.len(),
                forall|i: int| 0 <= i < k ==> (#[trigger] dictionary(patterns@)[i]).len() > 0,
            decreases patterns@.len() - k,
        {
            if patterns[k].len() == 0 {
                assert(dictionary(patterns@)[k as int].len() == 0);
                return None;
            }
            k += 1;
        }
        let nfa = NFA::new(patterns);
        if nfa.state_len() > usize::MAX / 256 {
            return None;
        }
        let dfa = DFA::new(&nfa);

        Some(Self { imp: dfa, pattern_count: patterns.len() })
    }

    /// Compiles the searcher for a dictionary of non-empty patterns.
    pub fn new(patterns: &Vec<Vec<u8>>) -> (ac: Self)
        requires
            supported(dictionary(patterns@)),
        ensures
            ac.patterns() == dictionary(patterns@),
    {
        let nfa = NFA::new(patterns);
        let dfa = DFA::new(&nfa);

        Self { imp: dfa, pattern_count: patterns.len() }
    }

    /// The occurrences of the patterns in `haystack`, overlapping ones included,
    /// as a sequence that yields them one by one.
    pub fn find_overlapping_iter<'a, 'b>(&'a self, haystack: &'b [u8]) -> (it: FindIter<'a, 'b>)
        ensures
            it.patterns() == self.patterns(),
            it.text() == haystack@,
            it.remaining() == all_hits(self.patterns(), haystack@),
    {
        FindIter::new(self, haystack)
    }
}

impl AhoCorasick {
    /// The number of occurrences of each pattern in `haystack`, overlapping ones
    /// included: one count for each entry of the dictionary, in its order.
    pub fn count_overlapping(&self, haystack: &[u8]) -> (counts: Vec<u64>)
        ensures
            counts@.len() == self.patterns().len(),
            forall|i: int|
                0 <= i < counts@.len() ==> #[trigger] counts@[i] == occurrences(
                    self.patterns()[i],
                    haystack@,
                ),
    {
        proof {
            use_type_invariant(self);
        }
        let ghost pats = self.patterns();
        let ghost x = haystack@;
        let ghost all = all_hits(pats, x);
        let text_len = haystack.len();
        let mut counts: Vec<u64> = Vec::new();
        let mut k: usize = 0;
        while k < self.pattern_count
            invariant
                k <= self.pattern_count,
                counts@.len() == k,
                forall|i: int| 0 <= i < k ==> #[trigger] counts@[i] == 0,
            decreases self.pattern_count - k,
        {
            counts.push(0);
            k += 1;
        }
        let mut it = self.find_overlapping_iter(haystack);
        let ghost mut done: int = 0;
        proof {
            assert(all.take(0) =~= Seq::<Hit>::empty());
            assert(all.skip(0) =~= all);
        }
        loop
            invariant
                it.patterns() == pats,
                it.text() == x,
                all == all_hits(pats, x),
                all_nonempty(pats),
                x.len() == text_len,
                0 <= done <= all.len(),
                it.remaining() == all.skip(done),
                counts@.len() == pats.len() <= usize::MAX,
                forall|i: int|
                    0 <= i < counts@.len() ==> #[trigger] counts@[i] == count_pattern(
                        all.take(done),
                        i,
                    ),
            ensures
                done == all.len(),
            decreases all.len() - done,
        {
            let mat = match it.next() {
                Some(mat) => mat,
                None => {
                    break ;
                },
            };
            let p = mat.pattern();
            proof {
                assert(mat@ == all[done]);
                lemma_hits_range(pats, x, x.len(), done);
                lemma_count_take(all, done, p as int);
                lemma_count_take(all, done + 1, p as int);
                lemma_count_is_occurrences(pats, x, p as int);
                if pats[p as int].len() <= x.len() {
                    lemma_occurrences_bound(
                        pats[p as int],
                        x,
                        (x.len() - pats[p as int].len() + 1) as nat,
                    );
                }
                assert forall|i: int| 0 <= i < counts@.len() implies count_pattern(
                    all.take(done + 1),
                    i,
                ) == count_pattern(all.take(done), i) + if i == p {
                    1nat
                } else {
                    0nat
                } by {
                    lemma_count_take(all, done, i);
                }
                assert(all.skip(done).skip(1) =~= all.skip(done + 1));
            }
            counts[p] += 1;
            proof {
                done = done + 1;
            }
        }
        proof {
            assert(all.take(done) =~= all);
            assert forall|i: int| 0 <= i < counts@.len() implies #[trigger] counts@[i]
                == occurrences(pats[i], x) by {
                lemma_count_is_occurrences(pats, x, i);
            }
        }
        counts
    }
}

/// The occurrences of a dictionary's patterns in one text that are not yet
/// reported.
pub struct FindIter<'a, 'b> {
    fsm: &'a DFA,
    haystack: &'b [u8],
    pos: usize,
    state_id: usize,
    match_index: usize,
    emitted: Ghost<nat>,
}

impl<'a, 'b> FindIter<'a, 'b> {
    #[verifier::type_invariant]
    spec fn inv(&self) -> bool {
        let pats = self.fsm.patterns();
        let x = self.haystack@;
        &&& self.fsm.wf()
        &&& self.pos <= x.len()
        &&& self.fsm.is_state(self.state_id)
        &&& self.fsm.path(self.state_id as int / 256) == longest_suffix(
            pats,
            x.take(self.pos as int),
        )
        &&& self.match_index <= hits_at(pats, x, self.pos as int).len()
        &&& self.emitted@ + hits_at(pats, x, self.pos as int).len() == hits_upto(
            pats,
            x,
            self.pos as nat,
        ).len() + self.match_index
    }

    /// The dictionary that is searched for.
    pub closed spec fn patterns(&self) -> Seq<Seq<u8>> {
        self.fsm.patterns()
    }

    /// The text that is searched.
    pub closed spec fn text(&self) -> Seq<u8> {
        self.haystack@
    }

    /// The occurrences that are still to come, in the order in which they come.
    pub closed spec fn remaining(&self) -> Seq<Hit> {
        all_hits(self.patterns(), self.text()).skip(self.emitted@ as int)
    }

    fn new(ac: &'a AhoCorasick, haystack: &'b [u8]) -> (it: FindIter<'a, 'b>)
        ensures
            it.patterns() == ac.patterns(),
            it.text() == haystack@,
            it.remaining() == all_hits(ac.patterns(), haystack@),
    {
        proof {
            use_type_invariant(ac);
            lemma_in_trie_longest(ac.imp.patterns(), Seq::empty());
            assert(haystack@.take(0) =~= Seq::<u8>::empty());
            assert(ac.imp.path(ac.imp.spec_start() as int / 256) =~= Seq::<u8>::empty());
            assert(all_hits(ac.patterns(), haystack@).skip(0) =~= all_hits(
                ac.patterns(),
                haystack@,
            ));
        }
        FindIter {
            fsm: &ac.imp,
            haystack,
            pos: 0,
            state_id: ac.imp.start_state(),
            match_index: 0,
            emitted: Ghost(0),
        }
    }

    /// The next occurrence, or `None` once every occurrence was reported.
    pub fn next(&mut self) -> (r: Option<Match>)
        ensures
            final(self).patterns() == old(self).patterns(),
            final(self).text() == old(self).text(),
            match r {
                Some(m) => old(self).remaining().len() > 0 && m@ == old(self).remaining()[0]
                    && final(self).remaining() == old(self).remaining().skip(1),
                None => old(self).remaining().len() == 0 && final(self).remaining().len() == 0,
            },
    {
        proof {
            use_type_invariant(&*self);
        }
        let fsm = self.fsm;
        let haystack = self.haystack;
        let at = self.pos;
        let len = haystack.len();
        let mut state_id = self.state_id;
        let mut match_index = self.match_index;
        let ghost pats = fsm.patterns();
        let ghost x = haystack@;
        let ghost emitted = self.emitted@;
        proof {
            lemma_state_hits(fsm, x, at as int, state_id);
            lemma_scan(fsm, x, at as int, state_id);
            lemma_hits_prefix(pats, x, at as nat, x.len());
        }
        let result = fsm.overlapping_find_at(haystack, at, &mut state_id, &mut match_index);
        match result {
            None => {
                let count = fsm.match_count(state_id);
                proof {
                    if self.match_index < hits_at(pats, x, at as int).len() {
                        let hit = hits_at(pats, x, at as int)[self.match_index as int];
                        assert(hit_of(result) == Some(hit));
                    }
                    let (t, p) = scan_stop(fsm.machine(), x, at as int, self.state_id);
                    lemma_state_hits(fsm, x, p, t);
                    assert forall|e: int| at < e <= x.len() implies (#[trigger] hits_at(
                        pats,
                        x,
                        e,
                    )).len() == 0 by {}
                    lemma_hits_gap(pats, x, at as nat, x.len());
                }
                *self = FindIter {
                    fsm,
                    haystack,
                    pos: len,
                    state_id,
                    match_index: count,
                    emitted: Ghost(emitted),
                };
                None
            },
            Some(m) => {
                proof {
                    if self.match_index < hits_at(pats, x, at as int).len() {
                        let hit = hits_at(pats, x, at as int)[self.match_index as int];
                        assert(hit_of(result) == Some(hit));
                        assert(m@.end == at);
                        lemma_hits_index(pats, x, at as nat, self.match_index as int);
                    } else {
                        let (t, p) = scan_stop(fsm.machine(), x, at as int, self.state_id);
                        lemma_state_hits(fsm, x, p, t);
                        let hit = hits_at(pats, x, p)[0];
                        assert(hit_of(result) == Some(hit));
                        assert(m@.end == p);
                        lemma_hits_gap(pats, x, at as nat, (p - 1) as nat);
                        lemma_hits_index(pats, x, p as nat, 0);
                        lemma_hits_prefix(pats, x, p as nat, x.len());
                    }
                    assert(old(self).remaining().skip(1) =~= all_hits(pats, x).skip(
                        emitted as int + 1,
                    ));
                }
                *self = FindIter {
                    fsm,
                    haystack,
                    pos: m.end(),
                    state_id,
                    match_index,
                    emitted: Ghost((emitted + 1) as nat),
                };
                Some(m)
            },
        }
    }
}

} // verus!
