//! The run-time automaton: one flat table with a target for every state and
//! byte, match states moved to the low identifiers, identifiers premultiplied.

use crate::automaton::{scan_stop, Automaton, Machine, Match};
use crate::model::{
    all_nonempty, hits_at, in_trie, lemma_fail_suffix_step, lemma_in_trie_longest,
    lemma_longest_suffix_single, lemma_match_list_longest, lemma_suffix_step, longest_suffix,
    match_list, tag, Hit,
};
use crate::nfa::{extend_matches, NFA};
use crate::state_id::{ALPHABET_LEN, DEAD_ID, FAIL_ID, START_ID};
use vstd::prelude::*;

verus! {

/// `<[T]>::swap` of the standard library: the items at places `a` and `b` change
/// places and every other item stays. The standard library panics where a
/// place lies outside the slice, so both must lie inside.
pub assume_specification<T>[ <[T]>::swap ](s: &mut [T], a: usize, b: usize)
    requires
        a < old(s)@.len(),
        b < old(s)@.len(),
    ensures
        final(s)@ == old(s)@.update(a as int, old(s)@[b as int]).update(
            b as int,
            old(s)@[a as int],
        ),
;

/// The deterministic automaton. Beside its table it keeps, for the contracts
/// alone, the dictionary and the string that each state stands for.
#[derive(Clone)]
pub struct DFA {
    premultiplied: bool,
    start_id: usize,
    state_count: usize,
    max_match: usize,
    trans: Vec<usize>,
    matches: Vec<Vec<(usize, usize)>>,
    pats: Ghost<Seq<Seq<u8>>>,
    paths: Ghost<Seq<Seq<u8>>>,
}

impl DFA {
    /// The number of states, the reserved ones included.
    pub closed spec fn spec_count(&self) -> int {
        self.state_count as int
    }

    /// Whether identifiers are row offsets by now.
    pub closed spec fn is_premultiplied(&self) -> bool {
        self.premultiplied
    }

    /// The identifier of the start state.
    pub closed spec fn spec_start(&self) -> usize {
        self.start_id
    }

    /// The largest identifier of a match state.
    pub closed spec fn spec_max_match(&self) -> usize {
        self.max_match
    }

    /// The transition table, row after row.
    pub closed spec fn table(&self) -> Seq<usize> {
        self.trans@
    }

    /// The target in row `k` for byte `b`.
    pub open spec fn entry(&self, k: int, b: int) -> usize {
        self.table()[256 * k + b]
    }

    /// The match list of the state in row `k`.
    pub closed spec fn row_matches(&self, k: int) -> Seq<(usize, usize)> {
        self.matches@[k]@
    }

    /// The dictionary that the automaton was built from.
    pub closed spec fn patterns(&self) -> Seq<Seq<u8>> {
        self.pats@
    }

    /// The string that the state in row `k` stands for: the longest suffix of
    /// the input read so far that begins a pattern.
    pub closed spec fn path(&self, k: int) -> Seq<u8> {
        self.paths@[k]
    }

    /// The table has a row for each state, each state a match list and a path,
    /// and every row offset fits the machine.
    pub closed spec fn shape(&self) -> bool {
        &&& self.trans@.len() == 256 * self.state_count
        &&& self.matches@.len() == self.state_count
        &&& self.paths@.len() == self.state_count
        &&& 256 * self.state_count <= usize::MAX
    }

    fn is_match_state(&self, id: usize) -> (r: bool)
        ensures
            r == (id <= self.spec_max_match() && id > DEAD_ID),
    {
        id <= self.max_match && id > DEAD_ID
    }

    fn is_match_or_dead_state(&self, id: usize) -> (r: bool)
        ensures
            r == (id <= self.spec_max_match()),
    {
        id <= self.max_match
    }

    /// The target of the state in row `from` on `byte`, before premultiplication.
    fn next_state(&self, from: usize, byte: u8) -> (r: usize)
        requires
            self.shape(),
            from < self.spec_count(),
        ensures
            r == self.table()[256 * from + byte],
    {
        let alphabet_len = ALPHABET_LEN;
        self.trans[from * alphabet_len + byte as usize]
    }

    fn set_next_state(&mut self, from: usize, byte: u8, to: usize)
        requires
            old(self).shape(),
            from < old(self).spec_count(),
        ensures
            final(self).table() == old(self).table().update(256 * from + byte, to),
            final(self).shape(),
            final(self).same_but_table(*old(self)),
    {
        let alphabet_len = ALPHABET_LEN;
        self.trans[from * alphabet_len + byte as usize] = to;
    }

    /// Everything but the table is as in `other`.
    pub closed spec fn same_but_table(&self, other: DFA) -> bool {
        &&& self.premultiplied == other.premultiplied
        &&& self.start_id == other.start_id
        &&& self.state_count == other.state_count
        &&& self.max_match == other.max_match
        &&& self.matches == other.matches
        &&& self.pats == other.pats
        &&& self.paths == other.paths
    }

    /// The states in rows `id1` and `id2` change places: their rows, their match
    /// lists and the strings they stand for.
    fn swap_states(&mut self, id1: usize, id2: usize)
        requires
            !old(self).is_premultiplied(),
            old(self).shape(),
            id1 < old(self).spec_count(),
            id2 < old(self).spec_count(),
            id1 != id2,
        ensures
            final(self).shape(),
            final(self).premultiplied == old(self).premultiplied,
            final(self).start_id == old(self).start_id,
            final(self).state_count == old(self).state_count,
            final(self).max_match == old(self).max_match,
            final(self).pats == old(self).pats,
            forall|b: int|
                0 <= b < 256 ==> #[trigger] final(self).entry(id1 as int, b) == old(self).entry(
                    id2 as int,
                    b,
                ),
            forall|b: int|
                0 <= b < 256 ==> #[trigger] final(self).entry(id2 as int, b) == old(self).entry(
                    id1 as int,
                    b,
                ),
            forall|k: int, b: int|
                0 <= k < old(self).spec_count() && k != id1 && k != id2 && 0 <= b < 256
                    ==> #[trigger] final(self).entry(k, b) == old(self).entry(k, b),
            final(self).matches@ == old(self).matches@.update(
                id1 as int,
                old(self).matches@[id2 as int],
            ).update(id2 as int, old(self).matches@[id1 as int]),
            final(self).paths@ == old(self).paths@.update(
                id1 as int,
                old(self).paths@[id2 as int],
            ).update(id2 as int, old(self).paths@[id1 as int]),
    {
        let o1 = id1 * ALPHABET_LEN;
        let o2 = id2 * ALPHABET_LEN;
        let mut b: usize = 0;
        while b < ALPHABET_LEN
            invariant
                b <= 256,
                o1 == 256 * id1,
                o2 == 256 * id2,
                id1 != id2,
                id1 < self.state_count,
                id2 < self.state_count,
                self.shape(),
                self.same_but_table(*old(self)),
                old(self).shape(),
                forall|c: int|
                    0 <= c < 256 ==> #[trigger] self.entry(id1 as int, c) == (if c < b {
                        old(self).entry(id2 as int, c)
                    } else {
                        old(self).entry(id1 as int, c)
                    }),
                forall|c: int|
                    0 <= c < 256 ==> #[trigger] self.entry(id2 as int, c) == (if c < b {
                        old(self).entry(id1 as int, c)
                    } else {
                        old(self).entry(id2 as int, c)
                    }),
                forall|k: int, c: int|
                    0 <= k < self.state_count && k != id1 && k != id2 && 0 <= c < 256
                        ==> #[trigger] self.entry(k, c) == old(self).entry(k, c),
            decreases 256 - b,
        {
            let ghost pre = *self;
            self.trans.swap(o1 + b, o2 + b);
            proof {
                assert forall|k: int, c: int|
                    0 <= k < self.state_count && 0 <= c < 256 && !(k == id1 && c == b) && !(k
                        == id2 && c == b)
                            implies #[trigger] self.entry(k, c) == pre.entry(k, c) by {}
                assert(self.entry(id1 as int, b as int) == pre.entry(id2 as int, b as int));
                assert(self.entry(id2 as int, b as int) == pre.entry(id1 as int, b as int));
            }
            b += 1;
        }
        let ghost mid = *self;
        self.matches.swap(id1, id2);
        proof {
            self.paths@ = self.paths@.update(id1 as int, old(self).paths@[id2 as int]).update(
                id2 as int,
                old(self).paths@[id1 as int],
            );
            assert forall|k: int, c: int| #[trigger] self.entry(k, c) == mid.entry(k, c) by {}
        }
    }
}

/// `perm` renames the rows `0..n`: it is its own inverse and moves no row below
/// `lo`.
pub open spec fn is_shuffle(perm: Seq<int>, n: int, lo: int) -> bool {
    &&& perm.len() == n
    &&& forall|k: int| 0 <= k < n ==> 0 <= #[trigger] perm[k] < n && perm[perm[k]] == k
    &&& forall|k: int| 0 <= k < lo && k < n ==> #[trigger] perm[k] == k
}

/// The identifier that stands for `t` once identifiers are row offsets: the
/// dead state keeps its own.
pub open spec fn premultiplied_id(t: usize) -> int {
    if t == DEAD_ID {
        DEAD_ID as int
    } else {
        256 * t
    }
}

impl DFA {
    /// Row `k` holds what row `perm[k]` of `before` held, targets not renamed.
    spec fn rows_moved(&self, before: DFA, perm: Seq<int>) -> bool {
        let n = self.spec_count();
        &&& self.shape()
        &&& self.state_count == before.state_count
        &&& self.premultiplied == before.premultiplied
        &&& self.start_id == before.start_id
        &&& self.max_match == before.max_match
        &&& self.pats == before.pats
        &&& forall|k: int, b: int|
            0 <= k < n && 0 <= b < 256 ==> #[trigger] self.entry(k, b) == before.entry(perm[k], b)
        &&& forall|k: int| 0 <= k < n ==> #[trigger] self.matches@[k] == before.matches@[perm[k]]
        &&& forall|k: int| 0 <= k < n ==> #[trigger] self.paths@[k] == before.paths@[perm[k]]
    }

    /// `self` is `before` with its states renamed by `perm`: rows, targets, the
    /// start state, match lists and paths.
    pub open spec fn renamed(&self, before: DFA, perm: Seq<int>) -> bool {
        let n = self.spec_count();
        &&& self.spec_count() == before.spec_count()
        &&& self.patterns() == before.patterns()
        &&& self.is_premultiplied() == before.is_premultiplied()
        &&& self.spec_start() == perm[before.spec_start() as int]
        &&& forall|k: int, b: int|
            0 <= k < n && 0 <= b < 256 ==> #[trigger] self.entry(k, b) == perm[before.entry(
                perm[k],
                b,
            ) as int]
        &&& forall|k: int| 0 <= k < n
            ==> #[trigger] self.row_matches(k) == before.row_matches(perm[k])
        &&& forall|k: int| 0 <= k < n ==> #[trigger] self.path(k) == before.path(perm[k])
    }

    /// Every target in the table is the number of a row.
    pub open spec fn targets_in_range(&self) -> bool {
        forall|k: int, b: int|
            0 <= k < self.spec_count() && 0 <= b < 256 ==> (#[trigger] self.entry(k, b))
                < self.spec_count()
    }

    /// Renames the states from the start state on so that those with matches come
    /// first, and sets the largest identifier of a match state: afterwards a
    /// state from row 2 on has a match exactly where its identifier is at most
    /// that one. Rows, targets, the start state, match lists and paths follow
    /// the renaming; the fail state and the dead state keep their rows.
    fn shuffle_match_states(&mut self) -> (perm: Ghost<Seq<int>>)
        requires
            !old(self).is_premultiplied(),
            old(self).shape(),
            old(self).spec_start() == START_ID,
            old(self).spec_count() > 1
                ==> old(self).spec_count() > START_ID && old(self).targets_in_range(),
        ensures
            old(self).spec_count() <= 1 ==> *final(self) == *old(self),
            old(self).spec_count() > 1 ==> {
                &&& final(self).shape()
                &&& is_shuffle(perm@, old(self).spec_count(), START_ID as int)
                &&& final(self).renamed(*old(self), perm@)
                &&& 1 <= final(self).spec_max_match() < old(self).spec_count()
                &&& forall|k: int|
                    START_ID <= k < old(self).spec_count() ==> ((#[trigger] final(self).row_matches(
                        k,
                    )).len() > 0 <==> k <= final(self).spec_max_match())
            },
    {
        if self.state_count <= 1 {
            return Ghost(Seq::empty());
        }
        let ghost n = self.state_count as int;
        let ghost mut perm: Seq<int> = Seq::new(n as nat, |k: int| k);

        let mut first_non_match: usize = self.start_id;
        while first_non_match < self.state_count && !self.matches[first_non_match].is_empty()
            invariant
                *self == *old(self),
                self.shape(),
                START_ID <= first_non_match <= self.state_count,
                forall|k: int|
                    START_ID <= k < first_non_match ==> (#[trigger] self.matches@[k])@.len() > 0,
            decreases self.state_count - first_non_match,
        {
            first_non_match += 1;
        }

        let mut swaps: Vec<usize> = vec![FAIL_ID; self.state_count];
        let mut cur: usize = self.state_count - 1;
        while cur > first_non_match
            invariant
                n == self.state_count,
                n > START_ID,
                !self.premultiplied,
                self.rows_moved(*old(self), perm),
                swaps@.len() == n,
                START_ID <= first_non_match <= cur + 1 <= n,
                is_shuffle(perm, n, START_ID as int),
                forall|k: int| first_non_match <= k <= cur ==> #[trigger] perm[k] == k,
                forall|k: int|
                    0 <= k < n ==> #[trigger] swaps@[k] == (if perm[k] == k {
                        FAIL_ID as int
                    } else {
                        perm[k]
                    }),
                forall|k: int|
                    START_ID <= k < first_non_match ==> (#[trigger] self.matches@[k])@.len() > 0,
                forall|k: int| cur < k < n ==> (#[trigger] self.matches@[k])@.len() == 0,
                first_non_match < n ==> self.matches@[first_non_match as int]@.len() == 0,
            decreases cur,
        {
            if !self.matches[cur].is_empty() {
                let ghost pre = *self;
                let ghost pre_perm = perm;
                self.swap_states(cur, first_non_match);
                swaps[cur] = first_non_match;
                swaps[first_non_match] = cur;
                proof {
                    perm = pre_perm.update(cur as int, first_non_match as int).update(
                        first_non_match as int,
                        cur as int,
                    );
                    assert forall|k: int| 0 <= k < n implies 0 <= #[trigger] perm[k] < n
                        && perm[perm[k]] == k by {
                        if k != cur && k != first_non_match {
                            assert(pre_perm[pre_perm[k]] == k);
                        }
                    }
                    assert forall|k: int, b: int|
                        0 <= k < n && 0 <= b < 256
                            implies #[trigger] self.entry(k, b) == old(self).entry(perm[k], b) by {
                        assert(pre.entry(k, b) == old(self).entry(pre_perm[k], b));
                        assert(pre.entry(cur as int, b)
                            == old(self).entry(pre_perm[cur as int], b));
                        assert(pre.entry(first_non_match as int, b) == old(self).entry(
                            pre_perm[first_non_match as int],
                            b,
                        ));
                    }
                    assert forall|k: int| 0 <= k < n
                        implies #[trigger] self.matches@[k] == old(self).matches@[perm[k]] by {
                        assert(pre.matches@[k] == old(self).matches@[pre_perm[k]]);
                    }
                    assert forall|k: int| 0 <= k < n
                        implies #[trigger] self.paths@[k] == old(self).paths@[perm[k]] by {
                        assert(pre.paths@[k] == old(self).paths@[pre_perm[k]]);
                    }
                }

                first_non_match += 1;
                while first_non_match < cur && !self.matches[first_non_match].is_empty()
                    invariant
                        n == self.state_count,
                        self.shape(),
                        START_ID <= first_non_match <= cur < n,
                        forall|k: int|
                            START_ID <= k < first_non_match ==> (#[trigger] self.matches@[k])@.len()
                                > 0,
                    decreases cur - first_non_match,
                {
                    first_non_match += 1;
                }
            }
            cur -= 1;
        }
        let ghost mid = *self;
        let mut id: usize = 0;
        while id < self.state_count
            invariant
                n == self.state_count,
                id <= n,
                self.shape(),
                self.same_but_table(mid),
                mid.rows_moved(*old(self), perm),
                old(self).targets_in_range(),
                old(self).spec_count() == n,
                swaps@.len() == n,
                is_shuffle(perm, n, START_ID as int),
                forall|k: int|
                    0 <= k < n ==> #[trigger] swaps@[k] == (if perm[k] == k {
                        FAIL_ID as int
                    } else {
                        perm[k]
                    }),
                forall|k: int, c: int|
                    0 <= k < n && 0 <= c < 256 ==> #[trigger] self.entry(k, c) == (if k < id {
                        perm[mid.entry(k, c) as int]
                    } else {
                        mid.entry(k, c) as int
                    }),
            decreases n - id,
        {
            let alphabet_len = ALPHABET_LEN;
            let offset = id * alphabet_len;
            let mut b: usize = 0;
            while b < alphabet_len
                invariant
                    n == self.state_count,
                    id < n,
                    b <= 256,
                    alphabet_len == 256,
                    offset == 256 * id,
                    self.shape(),
                    self.same_but_table(mid),
                    mid.rows_moved(*old(self), perm),
                    old(self).targets_in_range(),
                    old(self).spec_count() == n,
                    swaps@.len() == n,
                    is_shuffle(perm, n, START_ID as int),
                    forall|k: int|
                        0 <= k < n ==> #[trigger] swaps@[k] == (if perm[k] == k {
                            FAIL_ID as int
                        } else {
                            perm[k]
                        }),
                    forall|k: int, c: int|
                        0 <= k < n && 0 <= c < 256 ==> #[trigger] self.entry(k, c) == (if k < id
                            || (k == id && c < b) {
                            perm[mid.entry(k, c) as int]
                        } else {
                            mid.entry(k, c) as int
                        }),
                decreases 256 - b,
            {
                let ghost pre = *self;
                let next = self.trans[offset + b];
                proof {
                    assert(next == pre.entry(id as int, b as int));
                    assert(mid.entry(id as int, b as int) == old(self).entry(
                        perm[id as int],
                        b as int,
                    ));
                }
                if swaps[next] != FAIL_ID {
                    self.trans[offset + b] = swaps[next];
                }
                proof {
                    assert forall|k: int, c: int|
                        0 <= k < n && 0 <= c < 256 && !(k == id && c == b)
                            implies #[trigger] self.entry(k, c) == pre.entry(k, c) by {}
                    assert(self.entry(id as int, b as int) == perm[next as int]);
                }
                b += 1;
            }
            id += 1;
        }
        let ghost remapped = *self;
        if swaps[self.start_id] != FAIL_ID {
            self.start_id = swaps[self.start_id];
        }
        self.max_match = first_non_match - 1;
        proof {
            assert forall|k: int, b: int| #[trigger] self.entry(k, b) == remapped.entry(k, b) by {}
            assert forall|k: int, b: int|
                0 <= k < n && 0 <= b < 256
                    implies #[trigger] self.entry(k, b)
                        == perm[old(self).entry(perm[k], b) as int] by {
                assert(mid.entry(k, b) == old(self).entry(perm[k], b));
            }
            assert forall|k: int| 0 <= k < n
                implies #[trigger] self.row_matches(k) == old(self).row_matches(perm[k]) by {
                assert(mid.matches@[k] == old(self).matches@[perm[k]]);
            }
            assert forall|k: int| 0 <= k < n implies #[trigger] self.path(k) == old(self).path(
                perm[k],
            ) by {
                assert(mid.paths@[k] == old(self).paths@[perm[k]]);
            }
            assert forall|k: int| START_ID <= k < n implies ((#[trigger] self.row_matches(k)).len()
                > 0 <==> k <= self.max_match) by {
                if k < first_non_match {
                    assert(mid.matches@[k]@.len() > 0);
                } else if k > cur {
                    assert(mid.matches@[k]@.len() == 0);
                }
            }
        }
        Ghost(perm)
    }

    /// Turns every identifier but that of the dead state into the offset of its
    /// row, so that a transition is one addition and one load: a target `t`
    /// becomes `256 * t`, the dead state stays the dead state, and the start
    /// state and the largest match identifier are multiplied alike. Nothing
    /// changes where the identifiers are premultiplied already.
    fn premultiply(&mut self)
        requires
            old(self).shape(),
            !old(self).is_premultiplied() && old(self).spec_count() > 1 ==> {
                &&& 256 * old(self).spec_start() <= usize::MAX
                &&& 256 * old(self).spec_max_match() <= usize::MAX
                &&& forall|k: int, b: int|
                    0 <= k < old(self).spec_count() && 0 <= b < 256
                        ==> 256 * (#[trigger] old(self).entry(k, b)) <= usize::MAX
            },
        ensures
            old(self).is_premultiplied() || old(self).spec_count() <= 1
                ==> *final(self) == *old(self),
            !old(self).is_premultiplied() && old(self).spec_count() > 1 ==> {
                &&& final(self).shape()
                &&& final(self).is_premultiplied()
                &&& final(self).spec_count() == old(self).spec_count()
                &&& final(self).patterns() == old(self).patterns()
                &&& final(self).spec_start() == 256 * old(self).spec_start()
                &&& final(self).spec_max_match() == 256 * old(self).spec_max_match()
                &&& forall|k: int, b: int|
                    0 <= k < old(self).spec_count() && 0 <= b < 256
                        ==> #[trigger] final(self).entry(k, b)
                            == premultiplied_id(old(self).entry(k, b))
                &&& forall|k: int|
                    0 <= k < old(self).spec_count() ==> #[trigger] final(self).row_matches(k)
                        == old(self).row_matches(k)
                &&& forall|k: int|
                    0 <= k < old(self).spec_count()
                        ==> #[trigger] final(self).path(k) == old(self).path(k)
            },
    {
        if self.premultiplied || self.state_count <= 1 {
            return ;
        }
        let mut id: usize = 0;
        while id < self.state_count
            invariant
                id <= self.state_count,
                self.shape(),
                self.same_but_table(*old(self)),
                old(self).shape(),
                forall|k: int, b: int|
                    0 <= k < old(self).spec_count() && 0 <= b < 256
                        ==> 256 * (#[trigger] old(self).entry(k, b)) <= usize::MAX,
                forall|k: int, c: int|
                    0 <= k < self.state_count && 0 <= c < 256 ==> #[trigger] self.entry(k, c) == (
                    if k < id {
                        premultiplied_id(old(self).entry(k, c))
                    } else {
                        old(self).entry(k, c) as int
                    }),
            decreases self.state_count - id,
        {
            let offset = id * ALPHABET_LEN;
            let mut b: usize = 0;
            while b < ALPHABET_LEN
                invariant
                    id < self.state_count,
                    b <= 256,
                    offset == 256 * id,
                    self.shape(),
                    self.same_but_table(*old(self)),
                    old(self).shape(),
                    forall|k: int, b: int|
                        0 <= k < old(self).spec_count() && 0 <= b < 256
                            ==> 256 * (#[trigger] old(self).entry(k, b)) <= usize::MAX,
                    forall|k: int, c: int|
                        0 <= k < self.state_count && 0 <= c < 256 ==> #[trigger] self.entry(k, c)
                            == (if k < id || (k == id && c < b) {
                            premultiplied_id(old(self).entry(k, c))
                        } else {
                            old(self).entry(k, c) as int
                        }),
                decreases 256 - b,
            {
                let ghost pre = *self;
                let next = self.trans[offset + b];
                proof {
                    assert(next == pre.entry(id as int, b as int));
                    assert(next == old(self).entry(id as int, b as int));
                }
                if next != DEAD_ID {
                    self.trans[offset + b] = next * ALPHABET_LEN;
                }
                proof {
                    assert forall|k: int, c: int|
                        0 <= k < self.state_count && 0 <= c < 256 && !(k == id && c == b)
                            implies #[trigger] self.entry(k, c) == pre.entry(k, c) by {}
                    assert(self.entry(id as int, b as int) == premultiplied_id(next));
                }
                b += 1;
            }
            id += 1;
        }
        let ghost scaled = *self;
        self.premultiplied = true;
        self.start_id *= ALPHABET_LEN;
        self.max_match *= ALPHABET_LEN;
        proof {
            assert forall|k: int, b: int| #[trigger] self.entry(k, b) == scaled.entry(k, b) by {}
        }
    }
}

impl DFA {
    /// The row number that an identifier stands for.
    pub open spec fn row_of(pre: bool, id: int) -> int {
        if pre {
            id / 256
        } else {
            id
        }
    }

    /// An identifier is one that a row can have: a multiple of the alphabet size
    /// once identifiers are premultiplied.
    pub open spec fn id_ok(pre: bool, id: int) -> bool {
        pre ==> id % 256 == 0
    }

    /// The target of row `k` on byte `b` is the state of the longest suffix, in
    /// the trie, of the row's string with `b`.
    pub open spec fn edge_ok(&self, pre: bool, k: int, b: u8) -> bool {
        let t = self.entry(k, b as int) as int;
        &&& Self::id_ok(pre, t)
        &&& 2 <= Self::row_of(pre, t) < self.spec_count()
        &&& self.path(Self::row_of(pre, t)) == longest_suffix(
            self.patterns(),
            self.path(k).push(b),
        )
    }

    /// Row `k` stands for a node of the trie and lists the patterns that end
    /// where its string ends.
    pub open spec fn row_ok(&self, k: int) -> bool {
        &&& in_trie(self.patterns(), self.path(k))
        &&& self.row_matches(k) == match_list(self.patterns(), self.path(k), self.path(k).len())
    }

    /// The automaton recognises its dictionary, with identifiers premultiplied
    /// (`pre`) or not.
    pub open spec fn recognizes(&self, pre: bool) -> bool {
        let n = self.spec_count();
        let start = Self::row_of(pre, self.spec_start() as int);
        &&& self.shape()
        &&& n >= 3
        &&& self.is_premultiplied() == pre
        &&& all_nonempty(self.patterns())
        &&& Self::id_ok(pre, self.spec_start() as int)
        &&& 2 <= start < n
        &&& self.path(start).len() == 0
        &&& forall|k: int| 2 <= k < n ==> #[trigger] self.row_ok(k)
        &&& forall|j: int, k: int|
            2 <= j < n && 2 <= k < n && #[trigger] self.path(j) == #[trigger] self.path(k) ==> j
                == k
        &&& forall|k: int, b: u8| 2 <= k < n ==> #[trigger] self.edge_ok(pre, k, b)
        &&& forall|b: int| 0 <= b < 256 ==> #[trigger] self.entry(1, b) == DEAD_ID
        &&& forall|b: int| 0 <= b < 256 ==> #[trigger] self.entry(0, b) == self.entry(start, b)
        &&& self.row_matches(0).len() == 0
        &&& self.row_matches(1).len() == 0
    }

    /// The states with matches are those from row 2 up to the row of the largest
    /// match identifier.
    pub open spec fn matches_first(&self, pre: bool) -> bool {
        let top = Self::row_of(pre, self.spec_max_match() as int);
        &&& Self::id_ok(pre, self.spec_max_match() as int)
        &&& 1 <= top < self.spec_count()
        &&& forall|k: int|
            2 <= k < self.spec_count() ==> ((#[trigger] self.row_matches(k)).len() > 0 <==> k
                <= top)
    }

    /// The finished automaton for its dictionary.
    pub open spec fn wf(&self) -> bool {
        self.recognizes(true) && self.matches_first(true)
    }

    /// The entry of row `k` for byte `b` is what the construction owes.
    spec fn filled(&self, nfa: &NFA, k: int, b: u8) -> bool {
        let t = self.entry(k, b as int);
        if k == 1 {
            t == DEAD_ID
        } else if k == 0 {
            t == nfa.spec_next(START_ID as int, b)
        } else {
            &&& 2 <= t < self.spec_count()
            &&& nfa.path(t as int) == longest_suffix(self.patterns(), nfa.path(k).push(b))
            &&& (nfa.spec_next(k, b) != FAIL_ID ==> t == nfa.spec_next(k, b))
        }
    }

    /// The rows below `rows` are filled.
    spec fn rows_below(&self, nfa: &NFA, rows: int) -> bool {
        &&& self.shape()
        &&& !self.premultiplied
        &&& self.start_id == START_ID
        &&& self.state_count == nfa.spec_len()
        &&& self.pats@ == nfa.patterns()
        &&& 0 <= rows <= self.state_count
        &&& forall|k: int| 0 <= k < self.state_count ==> #[trigger] self.paths@[k] == nfa.path(k)
        &&& forall|k: int, b: u8| 0 <= k < rows ==> #[trigger] self.filled(nfa, k, b)
    }

    /// The rows below `rows` are filled, row `rows` below byte `bytes`, and the
    /// match lists of the rows below `lists` are copied.
    spec fn filling(&self, nfa: &NFA, rows: int, bytes: int, lists: int) -> bool {
        &&& self.rows_below(nfa, rows)
        &&& forall|b: u8| b < bytes ==> #[trigger] self.filled(nfa, rows, b)
        &&& forall|k: int|
            0 <= k < self.state_count ==> #[trigger] self.matches@[k]@ == (if k < lists {
                nfa.spec_matches(k)
            } else {
                Seq::empty()
            })
    }
}

/// The state that the deterministic automaton owes for `current` and `input`:
/// the failure chain is walked until a state has a transition of its own, and
/// is left as soon as it enters a row that is filled already.
fn nfa_next_state_memoized(
    nfa: &NFA,
    dfa: &DFA,
    populating: usize,
    current: usize,
    input: u8,
) -> (r: usize)
    requires
        nfa.wf(),
        dfa.rows_below(nfa, populating as int),
        2 <= current < nfa.spec_len(),
    ensures
        2 <= r < nfa.spec_len(),
        nfa.path(r as int) == longest_suffix(nfa.patterns(), nfa.path(current as int).push(input)),
{
    let mut state = current;
    loop
        invariant
            nfa.wf(),
            dfa.rows_below(nfa, populating as int),
            2 <= state < nfa.spec_len(),
            longest_suffix(nfa.patterns(), nfa.path(state as int).push(input)) == longest_suffix(
                nfa.patterns(),
                nfa.path(current as int).push(input),
            ),
        decreases nfa.path(state as int).len(),
    {
        if state < populating {
            assert(dfa.filled(nfa, state as int, input));
            return dfa.next_state(state, input);
        }
        let next = nfa.next_state(state, input);
        proof {
            lemma_nfa_edge(nfa, state as int, input);
        }
        if next != FAIL_ID {
            return next;
        }
        state = nfa.failure_transition(state);
    }
}

/// What a transition of the finished construction-time automaton says of the
/// longest suffix in the trie.
proof fn lemma_nfa_edge(nfa: &NFA, k: int, b: u8)
    requires
        nfa.wf(),
        2 <= k < nfa.spec_len(),
    ensures
        nfa.spec_next(k, b) != FAIL_ID ==> 2 <= nfa.spec_next(k, b) < nfa.spec_len() && nfa.path(
            nfa.spec_next(k, b) as int,
        ) == longest_suffix(nfa.patterns(), nfa.path(k).push(b)),
        nfa.spec_next(k, b) == FAIL_ID ==> k >= 3 && 2 <= nfa.spec_fail(k) < nfa.spec_len()
            && nfa.path(nfa.spec_fail(k) as int).len() < nfa.path(k).len() && longest_suffix(
            nfa.patterns(),
            nfa.path(nfa.spec_fail(k) as int).push(b),
        ) == longest_suffix(nfa.patterns(), nfa.path(k).push(b)),
{
    let pats = nfa.patterns();
    let n = pats.len() as int;
    let t = nfa.spec_next(k, b);
    if k == 2 {
        assert(nfa.start_edge_ok(b));
        assert(nfa.path(2).push(b) =~= seq![b]);
        if in_trie(pats, seq![b]) {
            lemma_in_trie_longest(pats, seq![b]);
        } else {
            lemma_longest_suffix_single(pats, b);
            assert(nfa.path(2) =~= Seq::<u8>::empty());
        }
    } else {
        assert(nfa.edge_ok(n, 0, k, b));
        if t != FAIL_ID {
            assert(nfa.node_ok(n, 0, t as int));
            lemma_in_trie_longest(pats, nfa.path(t as int));
        } else {
            assert(nfa.node_ok(n, 0, k));
            assert(nfa.settled(k));
            lemma_fail_suffix_step(pats, nfa.path(k), b);
        }
    }
}

impl DFA {
    /// A table of fail sentinels and empty match lists for the states of `nfa`.
    fn blank(nfa: &NFA) -> (dfa: Self)
        requires
            nfa.wf(),
            256 * nfa.spec_len() <= usize::MAX,
        ensures
            dfa.filling(nfa, 0, 0, 0),
            dfa.spec_max_match() == FAIL_ID,
    {
        let trans: Vec<usize> = vec![FAIL_ID; ALPHABET_LEN * nfa.state_len()];
        let mut matches: Vec<Vec<(usize, usize)>> = Vec::new();
        let mut k: usize = 0;
        while k < nfa.state_len()
            invariant
                k <= nfa.spec_len(),
                matches@.len() == k,
                forall|i: int| 0 <= i < k ==> (#[trigger] matches@[i])@ == Seq::<
                    (usize, usize),
                >::empty(),
            decreases nfa.spec_len() - k,
        {
            matches.push(Vec::new());
            k += 1;
        }
        Self {
            premultiplied: false,
            start_id: START_ID,
            state_count: nfa.state_len(),
            max_match: FAIL_ID,
            trans,
            matches,
            pats: Ghost(nfa.patterns()),
            paths: Ghost(Seq::new(nfa.spec_len() as nat, |k: int| nfa.path(k))),
        }
    }

    /// Fills the row of state `id`: the automaton's own transition where it has
    /// one, else what the failure chain gives.
    fn fill_row(&mut self, nfa: &NFA, id: usize)
        requires
            nfa.wf(),
            old(self).filling(nfa, id as int, 0, id as int),
            id < nfa.spec_len(),
        ensures
            final(self).filling(nfa, id + 1, 0, id + 1),
            final(self).spec_max_match() == old(self).spec_max_match(),
    {
        let ghost before = *self;
        extend_matches(&mut self.matches[id], nfa.matches(id));
        proof {
            assert forall|k: int, b: int| #[trigger] self.entry(k, b) == before.entry(k, b) by {}
            assert(self.matches@[id as int]@ =~= nfa.spec_matches(id as int));
            assert forall|k: int, b: u8| 0 <= k < id implies #[trigger] self.filled(nfa, k, b) by {
                assert(before.filled(nfa, k, b));
            }
        }
        let fail = nfa.failure_transition(id);
        let row = nfa.iter_all_transitions(id);
        let mut b: usize = 0;
        while b < ALPHABET_LEN
            invariant
                b <= 256,
                nfa.wf(),
                id < nfa.spec_len(),
                fail == nfa.spec_fail(id as int),
                row@.len() == 256,
                forall|c: u8| #[trigger] row@[c as int] == nfa.spec_next(id as int, c),
                self.filling(nfa, id as int, b as int, id + 1),
                self.max_match == old(self).max_match,
            decreases 256 - b,
        {
            let mut next = row[b];
            proof {
                assert(row@[(b as u8) as int] == nfa.spec_next(id as int, b as u8));
                if id >= 2 {
                    lemma_nfa_edge(nfa, id as int, b as u8);
                } else if id == 0 {
                    lemma_nfa_edge(nfa, 2, b as u8);
                    assert(nfa.skeleton(nfa.patterns().len() as int, 0));
                }
                assert(nfa.spec_fail(id as int) == START_ID || id >= 3);
            }
            if next == FAIL_ID {
                next = nfa_next_state_memoized(nfa, self, id, fail, b as u8);
            }
            let ghost pre = *self;
            self.set_next_state(id, b as u8, next);
            proof {
                assert forall|k: int, c: int|
                    0 <= k < self.state_count && 0 <= c < 256 && !(k == id && c == b)
                        implies #[trigger] self.entry(k, c) == pre.entry(k, c) by {}
                assert(self.entry(id as int, b as int) == next);
                assert forall|k: int, c: u8| 0 <= k < id implies #[trigger] self.filled(
                    nfa,
                    k,
                    c,
                ) by {
                    assert(pre.filled(nfa, k, c));
                }
                assert forall|c: u8| c < b + 1
                    implies #[trigger] self.filled(nfa, id as int, c) by {
                    if c < b {
                        assert(pre.filled(nfa, id as int, c));
                    } else {
                        if id == 0 {
                            lemma_same_path(nfa, next as int, nfa.spec_next(2, c) as int);
                        }
                    }
                }
            }
            b += 1;
        }
    }
}

/// Two states of the construction-time automaton with one path are one state.
proof fn lemma_same_path(nfa: &NFA, s: int, t: int)
    requires
        nfa.wf(),
        2 <= s < nfa.spec_len(),
        2 <= t < nfa.spec_len(),
        nfa.path(s) == nfa.path(t),
    ensures
        s == t,
{
}

/// With every row filled, the table recognises the dictionary.
proof fn lemma_filled(nfa: &NFA, dfa: DFA)
    requires
        nfa.wf(),
        dfa.filling(nfa, nfa.spec_len(), 0, nfa.spec_len()),
    ensures
        dfa.recognizes(false),
        dfa.targets_in_range(),
        dfa.spec_start() == START_ID,
        dfa.patterns() == nfa.patterns(),
        dfa.spec_count() == nfa.spec_len(),
{
    let pats = nfa.patterns();
    let n = dfa.spec_count();
    let k0 = pats.len() as int;
    assert(nfa.skeleton(k0, 0));
    assert forall|k: int| 2 <= k < n implies #[trigger] dfa.row_ok(k) by {
        assert(dfa.paths@[k] == nfa.path(k));
        assert(dfa.matches@[k]@ == nfa.spec_matches(k));
        if k >= 3 {
            assert(nfa.node_ok(k0, 0, k));
            assert(nfa.settled(k));
        } else {
            assert(nfa.spec_matches(k).len() == 0);
            assert(nfa.spec_matches(k) =~= match_list(pats, nfa.path(k), 0));
        }
    }
    assert forall|j: int, k: int|
        2 <= j < n && 2 <= k < n && #[trigger] dfa.path(j) == #[trigger] dfa.path(k) implies j
        == k by {
        assert(dfa.paths@[j] == nfa.path(j));
        assert(dfa.paths@[k] == nfa.path(k));
    }
    assert forall|k: int, b: u8| 2 <= k < n implies #[trigger] dfa.edge_ok(false, k, b) by {
        assert(dfa.filled(nfa, k, b));
        assert(dfa.paths@[k] == nfa.path(k));
        let t = dfa.entry(k, b as int) as int;
        assert(dfa.paths@[t] == nfa.path(t));
    }
    assert forall|b: int| 0 <= b < 256 implies #[trigger] dfa.entry(1, b) == DEAD_ID by {
        assert(dfa.filled(nfa, 1, b as u8));
    }
    assert forall|b: int| 0 <= b < 256 implies #[trigger] dfa.entry(0, b) == dfa.entry(2, b) by {
        assert(dfa.filled(nfa, 0, b as u8));
        assert(dfa.filled(nfa, 2, b as u8));
        assert(nfa.start_edge_ok(b as u8));
    }
    assert forall|k: int, b: int| 0 <= k < n && 0 <= b < 256 implies (#[trigger] dfa.entry(k, b))
        < n by {
        assert(dfa.filled(nfa, k, b as u8));
        assert(dfa.filled(nfa, 2, b as u8));
        assert(dfa.filled(nfa, 0, b as u8));
        assert(nfa.start_edge_ok(b as u8));
    }
    assert(dfa.paths@[2] == nfa.path(2));
    assert(dfa.matches@[0]@ == nfa.spec_matches(0));
    assert(dfa.matches@[1]@ == nfa.spec_matches(1));
}

/// Renaming the states keeps what the table recognises.
proof fn lemma_shuffled(before: DFA, after: DFA, perm: Seq<int>)
    requires
        before.recognizes(false),
        before.spec_start() == START_ID,
        after.shape(),
        is_shuffle(perm, before.spec_count(), START_ID as int),
        after.renamed(before, perm),
    ensures
        after.recognizes(false),
{
    let n = before.spec_count();
    assert forall|k: int| 2 <= k < n implies 2 <= #[trigger] perm[k] < n by {
        assert(perm[perm[k]] == k);
    }
    let start = after.spec_start() as int;
    assert(start == perm[2]);
    assert(after.path(start) == before.path(perm[start]));
    assert forall|k: int| 2 <= k < n implies #[trigger] after.row_ok(k) by {
        assert(before.row_ok(perm[k]));
        assert(after.row_matches(k) == before.row_matches(perm[k]));
        assert(after.path(k) == before.path(perm[k]));
    }
    assert forall|j: int, k: int|
        2 <= j < n && 2 <= k < n && #[trigger] after.path(j) == #[trigger] after.path(
            k,
        ) implies j == k by {
        assert(before.path(perm[j]) == before.path(perm[k]));
        assert(perm[perm[j]] == j && perm[perm[k]] == k);
    }
    assert forall|k: int, b: u8| 2 <= k < n implies #[trigger] after.edge_ok(false, k, b) by {
        assert(before.edge_ok(false, perm[k], b));
        let t0 = before.entry(perm[k], b as int) as int;
        assert(after.entry(k, b as int) == perm[t0]);
        assert(after.path(perm[t0]) == before.path(perm[perm[t0]]));
        assert(after.path(k) == before.path(perm[k]));
    }
    assert forall|b: int| 0 <= b < 256 implies #[trigger] after.entry(1, b) == DEAD_ID by {
        assert(before.entry(1, b) == DEAD_ID);
        assert(after.entry(1, b) == perm[before.entry(perm[1], b) as int]);
    }
    assert forall|b: int| 0 <= b < 256 implies #[trigger] after.entry(0, b) == after.entry(
        start,
        b,
    ) by {
        assert(before.entry(0, b) == before.entry(2, b));
        assert(after.entry(0, b) == perm[before.entry(perm[0], b) as int]);
        assert(after.entry(start, b) == perm[before.entry(perm[start], b) as int]);
    }
    assert(after.row_matches(0) == before.row_matches(perm[0]));
    assert(after.row_matches(1) == before.row_matches(perm[1]));
}

/// Premultiplying the identifiers keeps what the table recognises.
proof fn lemma_premultiplied(before: DFA, after: DFA)
    requires
        before.recognizes(false),
        before.matches_first(false),
        after.shape(),
        after.is_premultiplied(),
        after.spec_count() == before.spec_count(),
        after.patterns() == before.patterns(),
        after.spec_start() == 256 * before.spec_start(),
        after.spec_max_match() == 256 * before.spec_max_match(),
        forall|k: int, b: int|
            0 <= k < before.spec_count() && 0 <= b < 256 ==> #[trigger] after.entry(k, b)
                == premultiplied_id(before.entry(k, b)),
        forall|k: int|
            0 <= k < before.spec_count() ==> #[trigger] after.row_matches(k) == before.row_matches(
                k,
            ),
        forall|k: int| 0 <= k < before.spec_count() ==> #[trigger] after.path(k) == before.path(k),
    ensures
        after.wf(),
{
    let n = before.spec_count();
    let start = before.spec_start() as int;
    assert forall|k: int| 2 <= k < n implies #[trigger] after.row_ok(k) by {
        assert(before.row_ok(k));
    }
    assert forall|j: int, k: int|
        2 <= j < n && 2 <= k < n && #[trigger] after.path(j) == #[trigger] after.path(
            k,
        ) implies j == k by {
        assert(before.path(j) == before.path(k));
    }
    assert forall|k: int, b: u8| 2 <= k < n implies #[trigger] after.edge_ok(true, k, b) by {
        assert(before.edge_ok(false, k, b));
        let t0 = before.entry(k, b as int) as int;
        assert(after.entry(k, b as int) == 256 * t0);
        assert(after.path(t0) == before.path(t0));
    }
    assert forall|b: int| 0 <= b < 256 implies #[trigger] after.entry(1, b) == DEAD_ID by {
        assert(before.entry(1, b) == DEAD_ID);
    }
    assert forall|b: int| 0 <= b < 256 implies #[trigger] after.entry(0, b) == after.entry(
        start,
        b,
    ) by {
        assert(before.entry(0, b) == before.entry(start, b));
    }
    assert forall|k: int| 2 <= k < n implies ((#[trigger] after.row_matches(k)).len() > 0 <==> k
        <= DFA::row_of(true, after.spec_max_match() as int)) by {
        assert(before.row_matches(k).len() > 0 <==> k <= before.spec_max_match());
    }
}

impl DFA {
    /// Builds the deterministic automaton from the finished automaton with
    /// failure links: fills the table, moves the match states to the front, and
    /// premultiplies the identifiers.
    pub fn new(nfa: &NFA) -> (dfa: Self)
        requires
            nfa.wf(),
            256 * nfa.spec_len() <= usize::MAX,
        ensures
            dfa.wf(),
            dfa.patterns() == nfa.patterns(),
            dfa.spec_count() == nfa.spec_len(),
    {
        let mut dfa = Self::blank(nfa);
        let mut id: usize = 0;
        while id < nfa.state_len()
            invariant
                id <= nfa.spec_len(),
                nfa.wf(),
                dfa.filling(nfa, id as int, 0, id as int),
            decreases nfa.spec_len() - id,
        {
            dfa.fill_row(nfa, id);
            id += 1;
        }
        proof {
            lemma_filled(nfa, dfa);
        }
        let ghost filled = dfa;
        let perm = dfa.shuffle_match_states();
        proof {
            lemma_shuffled(filled, dfa, perm@);
            assert(dfa.matches_first(false));
        }
        let ghost shuffled = dfa;
        proof {
            assert forall|k: int, b: int|
                0 <= k < dfa.spec_count() && 0 <= b < 256 implies 256 * (#[trigger] dfa.entry(
                k,
                b,
            )) <= usize::MAX by {
                lemma_entry_bound(dfa, k, b);
            }
        }
        dfa.premultiply();
        proof {
            lemma_premultiplied(shuffled, dfa);
        }
        dfa
    }
}

/// Every target of an automaton that recognises its dictionary is the number
/// of a row.
proof fn lemma_entry_bound(dfa: DFA, k: int, b: int)
    requires
        dfa.recognizes(false),
        0 <= k < dfa.spec_count(),
        0 <= b < 256,
    ensures
        dfa.entry(k, b) < dfa.spec_count(),
{
    let start = dfa.spec_start() as int;
    assert(dfa.edge_ok(false, start, b as u8));
    if k >= 2 {
        assert(dfa.edge_ok(false, k, b as u8));
    } else if k == 1 {
        assert(dfa.entry(1, b) == DEAD_ID);
    } else {
        assert(dfa.entry(0, b) == dfa.entry(start, b));
    }
}

impl DFA {
    /// The match of state `id` at place `i` of its list, for a scan that stands
    /// at offset `end`.
    pub open spec fn match_at(&self, id: usize, i: usize, end: usize) -> Option<Hit> {
        if id <= self.spec_max_match() && id / 256 < self.spec_count() && i < self.row_matches(
            id as int / 256,
        ).len() {
            let m = self.row_matches(id as int / 256)[i as int];
            Some(Hit { pattern: m.0 as int, len: m.1 as int, end: end as int })
        } else {
            None
        }
    }
}

impl Automaton for DFA {
    open spec fn well_formed(&self) -> bool {
        self.wf()
    }

    open spec fn is_state(&self, id: usize) -> bool {
        id % 256 == 0 && 2 <= id / 256 < self.spec_count()
    }

    open spec fn spec_start_state(&self) -> usize {
        self.spec_start()
    }

    open spec fn spec_is_valid(&self, id: usize) -> bool {
        id / 256 < self.spec_count()
    }

    open spec fn machine(&self) -> Machine {
        Machine {
            next: |s: usize, b: u8| self.table()[s + b],
            is_match: |s: usize| s <= self.spec_max_match() && s > DEAD_ID,
            get_match: |id: usize, i: usize, end: usize| self.match_at(id, i, end),
        }
    }

    open spec fn spec_match_count(&self, id: usize) -> usize {
        self.row_matches(id as int / 256).len() as usize
    }

    proof fn lemma_step(&self, id: usize, input: u8) {
        let k = id as int / 256;
        assert(self.spec_is_valid(id));
        assert(self.edge_ok(true, k, input));
        assert(self.entry(k, input as int) == self.table()[id + input]);
    }

    fn start_state(&self) -> (r: usize) {
        self.start_id
    }

    fn is_valid(&self, id: usize) -> (r: bool) {
        (id / 256) < self.state_count
    }

    fn is_match_state(&self, id: usize) -> (r: bool) {
        self.is_match_state(id)
    }

    fn is_match_or_dead_state(&self, id: usize) -> (r: bool) {
        self.is_match_or_dead_state(id)
    }

    fn get_match(&self, id: usize, match_index: usize, end: usize) -> (r: Option<Match>) {
        if id > self.max_match {
            return None;
        }
        let o = id / 256;
        if o < self.matches.len() && match_index < self.matches[o].len() {
            let (pattern, len) = self.matches[o][match_index];
            Some(Match::new(pattern, len, end))
        } else {
            None
        }
    }

    fn match_count(&self, id: usize) -> (r: usize) {
        let o = id / 256;
        self.matches[o].len()
    }

    fn next_state(&self, current: usize, input: u8) -> (r: usize) {
        let o = current + input as usize;
        self.trans[o]
    }
}

/// In a state that stands for the longest suffix of the text read, the match
/// list holds the patterns that end there, and the state is a match state
/// exactly where there is one.
pub proof fn lemma_state_hits(dfa: &DFA, hay: Seq<u8>, at: int, s: usize)
    requires
        dfa.wf(),
        dfa.is_state(s),
        0 <= at <= hay.len(),
        dfa.path(s as int / 256) == longest_suffix(dfa.patterns(), hay.take(at)),
    ensures
        dfa.row_matches(s as int / 256) == match_list(dfa.patterns(), hay.take(at), at as nat),
        tag(dfa.row_matches(s as int / 256), at) == hits_at(dfa.patterns(), hay, at),
        dfa.spec_match_count(s) == hits_at(dfa.patterns(), hay, at).len(),
        (dfa.machine().is_match)(s) <==> hits_at(dfa.patterns(), hay, at).len() > 0,
        forall|i: int|
            0 <= i < hits_at(dfa.patterns(), hay, at).len() && at <= usize::MAX ==> (
            dfa.machine().get_match)(s, i as usize, at as usize) == Some(
                #[trigger] hits_at(dfa.patterns(), hay, at)[i],
            ),
{
    let k = s as int / 256;
    assert(dfa.row_ok(k));
    lemma_match_list_longest(dfa.patterns(), hay.take(at));
    assert(dfa.row_matches(k).len() == dfa.matches@[k].len());
    assert forall|i: int|
        0 <= i < hits_at(dfa.patterns(), hay, at).len() && at <= usize::MAX implies (
    dfa.machine().get_match)(s, i as usize, at as usize) == Some(
        #[trigger] hits_at(dfa.patterns(), hay, at)[i],
    ) by {
        assert((dfa.machine().get_match)(s, i as usize, at as usize) == dfa.match_at(
            s,
            i as usize,
            at as usize,
        ));
    }
}

/// Where a scan stops: in the state of the longest suffix of the text read up
/// to there, past offsets before which no pattern ends, and before the end of
/// the text only where a pattern ends.
pub proof fn lemma_scan(dfa: &DFA, hay: Seq<u8>, at: int, s: usize)
    requires
        dfa.wf(),
        dfa.is_state(s),
        0 <= at <= hay.len(),
        dfa.path(s as int / 256) == longest_suffix(dfa.patterns(), hay.take(at)),
    ensures
        ({
            let (t, p) = scan_stop(dfa.machine(), hay, at, s);
            &&& at <= p <= hay.len()
            &&& dfa.is_state(t)
            &&& dfa.path(t as int / 256) == longest_suffix(dfa.patterns(), hay.take(p))
            &&& forall|e: int| at < e < p
                ==> (#[trigger] hits_at(dfa.patterns(), hay, e)).len() == 0
            &&& (p > at ==> ((dfa.machine().is_match)(t) <==> hits_at(dfa.patterns(), hay, p).len()
                > 0))
            &&& (p < hay.len() ==> p > at && (dfa.machine().is_match)(t))
        }),
    decreases hay.len() - at,
{
    if at < hay.len() {
        let b = hay[at];
        let k = s as int / 256;
        let t = (dfa.machine().next)(s, b);
        assert(dfa.edge_ok(true, k, b));
        assert(dfa.entry(k, b as int) == dfa.table()[s + b]);
        lemma_suffix_step(dfa.patterns(), hay.take(at), b);
        assert(hay.take(at).push(b) =~= hay.take(at + 1));
        lemma_state_hits(dfa, hay, at + 1, t);
        if !(t == DEAD_ID || (dfa.machine().is_match)(t)) {
            lemma_scan(dfa, hay, at + 1, t);
        }
    }
}

impl DFA {
    /// Determinism: in the finished automaton every state has, for every byte,
    /// one target, and it is never the fail sentinel: it is the dead state or
    /// the premultiplied identifier of a state.
    pub proof fn lemma_no_fail_sentinel(&self, state: int, byte: u8)
        requires
            self.wf(),
            0 <= state < self.spec_count(),
        ensures
            self.entry(state, byte as int) != FAIL_ID,
            self.entry(state, byte as int) == DEAD_ID || (self.entry(state, byte as int) % 256 == 0
                && 2 <= self.entry(state, byte as int) / 256 < self.spec_count()),
    {
        let start = self.spec_start() as int / 256;
        assert(self.edge_ok(true, start, byte));
        if state >= 2 {
            assert(self.edge_ok(true, state, byte));
        } else if state == 1 {
            assert(self.entry(1, byte as int) == DEAD_ID);
        } else {
            assert(self.entry(0, byte as int) == self.entry(start, byte as int));
        }
    }

    /// Premultiplication consistency: where the state of row `t` stands for
    /// the longest suffix, in the trie, of the string of row `k` with byte `b`,
    /// the table leads from row `k` on `b` to the offset of row `t`.
    pub proof fn lemma_premultiplied_target(&self, k: int, b: u8, t: int)
        requires
            self.wf(),
            2 <= k < self.spec_count(),
            2 <= t < self.spec_count(),
            self.path(t) == longest_suffix(self.patterns(), self.path(k).push(b)),
        ensures
            self.entry(k, b as int) == 256 * t,
            self.table()[256 * k + b] == 256 * t,
    {
        assert(self.edge_ok(true, k, b));
        let r = self.entry(k, b as int) as int / 256;
        assert(self.path(r) == self.path(t));
    }

    /// Match states first: a state with a match has an identifier of at most
    /// the largest match identifier, and a state with a greater identifier has
    /// no match.
    pub proof fn lemma_match_states_first(&self, state: int)
        requires
            self.wf(),
            0 <= state < self.spec_count(),
        ensures
            self.row_matches(state).len() > 0 ==> 256 * state <= self.spec_max_match(),
            256 * state > self.spec_max_match() ==> self.row_matches(state).len() == 0,
            self.row_matches(state).len() > 0 <==> 2 <= state && 256 * state
                <= self.spec_max_match(),
    {
        if state >= 2 {
            assert(self.row_matches(state).len() > 0 <==> state <= Self::row_of(
                true,
                self.spec_max_match() as int,
            ));
        }
    }
}

} // verus!
