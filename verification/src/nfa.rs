//! The construction-time automaton: a trie of the dictionary with failure links
//! and, at each state, the list of the patterns that end there.

use crate::model::{
    all_nonempty, chain_clear, dictionary, fail_path, in_trie, in_trie_upto, lemma_chain_end,
    lemma_chain_start, lemma_chain_step, lemma_depth_one, lemma_longest_len_props,
    lemma_match_list_fail, lemma_new_node_last, lemma_own_matches_empty, lemma_own_matches_outside,
    lemma_push_injective, lemma_tail_push, lemma_tail_tail, lemma_trie_next_pattern,
    lemma_trie_prefix_closed, lemma_trie_step, longest_len, match_list, node_before, own_matches,
    tail, trie_nodes, trie_states, fresh_upto, lemma_fresh_done, lemma_fresh_step_new,
    lemma_fresh_step_old,
};
use crate::state_id::{ALPHABET_LEN, DEAD_ID, FAIL_ID, START_ID};
use std::collections::VecDeque;
use vstd::prelude::*;
use vstd::set_lib::{lemma_int_range, lemma_len_subset, set_int_range};

verus! {

/// The entries of a sparse table rise strictly by byte.
spec fn sorted_by_byte(v: Seq<(u8, usize)>) -> bool {
    forall|i: int, j: int| 0 <= i < j < v.len() ==> v[i].0 < v[j].0
}

/// A sparse table has an entry for byte `b`.
spec fn sparse_has(v: Seq<(u8, usize)>, b: u8) -> bool {
    exists|i: int| 0 <= i < v.len() && (#[trigger] v[i]).0 == b
}

/// The place of the entry for byte `b` in a sparse table that has one.
spec fn sparse_at(v: Seq<(u8, usize)>, b: u8) -> int {
    choose|i: int| 0 <= i < v.len() && (#[trigger] v[i]).0 == b
}

/// The target that a sparse table gives for byte `b`: the fail sentinel where it
/// has no entry.
spec fn sparse_lookup(v: Seq<(u8, usize)>, b: u8) -> usize {
    if sparse_has(v, b) {
        v[sparse_at(v, b)].1
    } else {
        FAIL_ID
    }
}

proof fn lemma_sparse_lookup_at(v: Seq<(u8, usize)>, i: int)
    requires
        sorted_by_byte(v),
        0 <= i < v.len(),
    ensures
        sparse_has(v, v[i].0),
        sparse_at(v, v[i].0) == i,
        sparse_lookup(v, v[i].0) == v[i].1,
{
    let b = v[i].0;
    assert(sparse_has(v, b));
    let j = sparse_at(v, b);
    assert(0 <= j < v.len() && v[j].0 == b);
    if j < i {
        assert(v[j].0 < v[i].0);
    }
    if i < j {
        assert(v[i].0 < v[j].0);
    }
}

/// A dense transition table: one target for each byte.
#[derive(Clone, Debug)]
struct Dense(Vec<usize>);

impl Dense {
    spec fn view(&self) -> Seq<usize> {
        self.0@
    }

    spec fn wf(&self) -> bool {
        self@.len() == ALPHABET_LEN
    }

    fn new() -> (r: Self)
        ensures
            r.wf(),
            forall|b: int| 0 <= b < 256 ==> r@[b] == FAIL_ID,
    {
        Self(vec![FAIL_ID; 256])
    }

    #[inline]
    fn len(&self) -> (r: usize)
        ensures
            r == self@.len(),
    {
        self.0.len()
    }

    #[inline]
    fn index(&self, i: u8) -> (r: usize)
        requires
            self.wf(),
        ensures
            r == self@[i as int],
    {
        self.0[i as usize]
    }

    #[inline]
    fn index_set(&mut self, i: u8, next: usize)
        requires
            old(self).wf(),
        ensures
            final(self)@ == old(self)@.update(i as int, next),
    {
        self.0[i as usize] = next;
    }
}

/// The transitions out of one state: sparse and sorted by byte, or dense.
#[derive(Clone, Debug)]
enum Transitions {
    Sparse(Vec<(u8, usize)>),
    Dense(Dense),
}

/// The first place of a sorted sparse table whose byte is not below `input`.
fn lower_bound(sparse: &Vec<(u8, usize)>, input: u8) -> (i: usize)
    requires
        sorted_by_byte(sparse@),
    ensures
        i <= sparse.len(),
        forall|j: int| 0 <= j < i ==> sparse@[j].0 < input,
        forall|j: int| i <= j < sparse.len() ==> sparse@[j].0 >= input,
{
    let mut lo: usize = 0;
    let mut hi: usize = sparse.len();
    while lo < hi
        invariant
            lo <= hi <= sparse.len(),
            sorted_by_byte(sparse@),
            forall|j: int| 0 <= j < lo ==> sparse@[j].0 < input,
            forall|j: int| hi <= j < sparse.len() ==> sparse@[j].0 >= input,
        decreases hi - lo,
    {
        let mid: usize = lo + (hi - lo) / 2;
        if sparse[mid].0 < input {
            lo = mid + 1;
        } else {
            hi = mid;
        }
    }
    lo
}

impl Transitions {
    /// Sparse tables are sorted and name no fail sentinel; dense ones are full.
    spec fn wf(&self) -> bool {
        match self {
            Transitions::Sparse(v) => sorted_by_byte(v@) && forall|i: int|
                0 <= i < v@.len() ==> (#[trigger] v@[i]).1 != FAIL_ID,
            Transitions::Dense(d) => d.wf(),
        }
    }

    /// The target for byte `b`, the fail sentinel where there is none.
    spec fn spec_next(&self, b: u8) -> usize {
        match self {
            Transitions::Sparse(v) => sparse_lookup(v@, b),
            Transitions::Dense(d) => d@[b as int],
        }
    }

    fn next_state(&self, input: u8) -> (r: usize)
        requires
            self.wf(),
        ensures
            r == self.spec_next(input),
    {
        match self {
            Transitions::Sparse(sparse) => {
                let mut i: usize = 0;
                while i < sparse.len()
                    invariant
                        i <= sparse.len(),
                        *self == Transitions::Sparse(*sparse),
                        sorted_by_byte(sparse@),
                        forall|j: int| 0 <= j < i ==> sparse@[j].0 != input,
                    decreases sparse.len() - i,
                {
                    let (b, id) = sparse[i];
                    if b == input {
                        proof {
                            lemma_sparse_lookup_at(sparse@, i as int);
                        }
                        return id;
                    }
                    i += 1;
                }
                FAIL_ID
            },
            Transitions::Dense(dense) => dense.index(input),
        }
    }

    fn set_next_state(&mut self, input: u8, next: usize)
        requires
            old(self).wf(),
            next != FAIL_ID,
        ensures
            final(self).wf(),
            *final(self) is Dense <==> *old(self) is Dense,
            final(self).spec_next(input) == next,
            forall|b: u8| b != input ==> final(self).spec_next(b) == old(self).spec_next(b),
    {
        match self {
            Transitions::Sparse(sparse) => {
                let ghost before = sparse@;
                let i = lower_bound(sparse, input);
                if i < sparse.len() && sparse[i].0 == input {
                    sparse[i] = (input, next);
                    proof {
                        let after = sparse@;
                        assert(sorted_by_byte(after));
                        lemma_sparse_lookup_at(after, i as int);
                        assert forall|b: u8| b != input implies sparse_lookup(after, b)
                            == sparse_lookup(before, b) by {
                            if sparse_has(before, b) {
                                let j = sparse_at(before, b);
                                assert(after[j] == before[j]);
                                lemma_sparse_lookup_at(before, j);
                                lemma_sparse_lookup_at(after, j);
                            } else if sparse_has(after, b) {
                                let j = sparse_at(after, b);
                                assert(after[j] == before[j]);
                            }
                        }
                    }
                } else {
                    sparse.insert(i, (input, next));
                    proof {
                        let after = sparse@;
                        assert(after == before.insert(i as int, (input, next)));
                        assert forall|x: int, y: int| 0 <= x < y < after.len() implies after[x].0
                            < after[y].0 by {
                            let px = if x < i { x } else { x - 1 };
                            let py = if y < i { y } else { y - 1 };
                            if x != i && y != i {
                                assert(before[px].0 < before[py].0);
                            }
                        }
                        lemma_sparse_lookup_at(after, i as int);
                        assert forall|b: u8| b != input implies sparse_lookup(after, b)
                            == sparse_lookup(before, b) by {
                            if sparse_has(before, b) {
                                let j = sparse_at(before, b);
                                let nj = if j < i { j } else { j + 1 };
                                assert(after[nj] == before[j]);
                                lemma_sparse_lookup_at(before, j);
                                lemma_sparse_lookup_at(after, nj);
                            } else if sparse_has(after, b) {
                                let j = sparse_at(after, b);
                                let oj = if j < i { j } else { j - 1 };
                                assert(after[j] == before[oj]);
                            }
                        }
                    }
                }
            },
            Transitions::Dense(dense) => {
                dense.index_set(input, next);
            },
        }
    }

    /// The whole row: the target for each byte by rising byte, the fail sentinel
    /// where the table has none.
    fn iter_all(&self) -> (row: Vec<usize>)
        requires
            self.wf(),
        ensures
            row@.len() == ALPHABET_LEN,
            forall|b: u8| row@[b as int] == self.spec_next(b),
    {
        match self {
            Transitions::Sparse(sparse) => sparse_iter(sparse),
            Transitions::Dense(dense) => {
                let mut row: Vec<usize> = Vec::with_capacity(256);
                let mut b: usize = 0;
                while b < 256
                    invariant
                        b <= 256,
                        dense.wf(),
                        row@.len() == b,
                        forall|c: int| 0 <= c < b ==> row@[c] == dense@[c],
                    decreases 256 - b,
                {
                    row.push(dense.index(b as u8));
                    b += 1;
                }
                row
            },
        }
    }
}

/// The row of a sparse table: its entries at their bytes, the fail sentinel at
/// every other byte.
fn sparse_iter(trans: &Vec<(u8, usize)>) -> (row: Vec<usize>)
    requires
        sorted_by_byte(trans@),
    ensures
        row@.len() == ALPHABET_LEN,
        forall|b: u8| row@[b as int] == sparse_lookup(trans@, b),
{
    let mut row: Vec<usize> = Vec::with_capacity(256);
    let mut byte: u16 = 0;
    let mut k: usize = 0;
    while k < trans.len()
        invariant
            k <= trans.len(),
            sorted_by_byte(trans@),
            byte <= 256,
            row@.len() == byte,
            k == 0 ==> byte == 0,
            k > 0 ==> byte == trans@[k - 1].0 + 1,
            forall|c: u8| c < byte ==> row@[c as int] == sparse_lookup(trans@, c),
        decreases trans.len() - k,
    {
        let (b, id) = trans[k];
        proof {
            if k > 0 {
                assert(trans@[k - 1].0 < trans@[k as int].0);
            }
        }
        while byte < b as u16
            invariant
                k < trans.len(),
                sorted_by_byte(trans@),
                trans@[k as int] == (b, id),
                byte <= b,
                row@.len() == byte,
                k > 0 ==> byte > trans@[k - 1].0,
                forall|c: u8| c < byte ==> row@[c as int] == sparse_lookup(trans@, c),
            decreases b - byte,
        {
            proof {
                lemma_sparse_gap(trans@, k as int, byte as u8);
            }
            row.push(FAIL_ID);
            byte += 1;
        }
        proof {
            lemma_sparse_lookup_at(trans@, k as int);
        }
        row.push(id);
        byte += 1;
        k += 1;
    }
    while byte < 256
        invariant
            k == trans.len(),
            sorted_by_byte(trans@),
            byte <= 256,
            row@.len() == byte,
            k > 0 ==> byte > trans@[k - 1].0,
            forall|c: u8| c < byte ==> row@[c as int] == sparse_lookup(trans@, c),
        decreases 256 - byte,
    {
        proof {
            lemma_sparse_gap(trans@, k as int, byte as u8);
        }
        row.push(FAIL_ID);
        byte += 1;
    }
    row
}

/// A byte that lies strictly between two neighbouring entries of a sorted sparse
/// table has no entry.
proof fn lemma_sparse_gap(v: Seq<(u8, usize)>, k: int, c: u8)
    requires
        sorted_by_byte(v),
        0 <= k <= v.len(),
        k > 0 ==> v[k - 1].0 < c,
        k < v.len() ==> c < v[k].0,
    ensures
        sparse_lookup(v, c) == FAIL_ID,
{
    if sparse_has(v, c) {
        let j = sparse_at(v, c);
        if j < k {
            if j < k - 1 {
                assert(v[j].0 < v[k - 1].0);
            }
        } else {
            if k < j {
                assert(v[k].0 < v[j].0);
            }
        }
    }
}

/// One state of the automaton: its transitions, its failure link, the patterns
/// that end at it, and its distance from the start state.
#[derive(Clone, Debug)]
pub struct State {
    trans: Transitions,
    fail: usize,
    matches: Vec<(usize, usize)>,
    depth: usize,
}

impl State {
    pub closed spec fn wf(&self) -> bool {
        self.trans.wf()
    }

    pub closed spec fn spec_next(&self, b: u8) -> usize {
        self.trans.spec_next(b)
    }

    pub closed spec fn spec_fail(&self) -> usize {
        self.fail
    }

    pub closed spec fn spec_matches(&self) -> Seq<(usize, usize)> {
        self.matches@
    }

    pub closed spec fn spec_depth(&self) -> usize {
        self.depth
    }

    pub closed spec fn is_dense(&self) -> bool {
        self.trans is Dense
    }

    fn add_match(&mut self, i: usize, len: usize)
        ensures
            final(self).spec_matches() == old(self).spec_matches().push((i, len)),
            final(self).trans == old(self).trans,
            final(self).fail == old(self).fail,
            final(self).depth == old(self).depth,
    {
        self.matches.push((i, len));
    }

    fn next_state(&self, input: u8) -> (r: usize)
        requires
            self.wf(),
        ensures
            r == self.spec_next(input),
    {
        self.trans.next_state(input)
    }

    fn set_next_state(&mut self, input: u8, next: usize)
        requires
            old(self).wf(),
            next != FAIL_ID,
        ensures
            final(self).wf(),
            final(self).is_dense() == old(self).is_dense(),
            final(self).spec_next(input) == next,
            forall|b: u8| b != input ==> final(self).spec_next(b) == old(self).spec_next(b),
            final(self).fail == old(self).fail,
            final(self).matches == old(self).matches,
            final(self).depth == old(self).depth,
    {
        self.trans.set_next_state(input, next);
    }
}

/// The automaton with failure links. Beside its states it keeps, for the
/// contracts alone, the dictionary it was built from, the string that leads from
/// the start state to each state, and each state's parent in the trie.
#[derive(Clone)]
pub struct NFA {
    states: Vec<State>,
    pats: Ghost<Seq<Seq<u8>>>,
    paths: Ghost<Seq<Seq<u8>>>,
    parents: Ghost<Seq<int>>,
}

impl NFA {
    /// The number of states, the three reserved ones included.
    pub closed spec fn spec_len(&self) -> int {
        self.states@.len() as int
    }

    /// The dictionary that the automaton was built from.
    pub closed spec fn patterns(&self) -> Seq<Seq<u8>> {
        self.pats@
    }

    /// The string that leads from the start state to state `id`.
    pub closed spec fn path(&self, id: int) -> Seq<u8> {
        self.paths@[id]
    }

    /// The state from which one byte leads to state `id` in the trie.
    pub closed spec fn parent(&self, id: int) -> int {
        self.parents@[id]
    }

    /// The target of state `id` on byte `b`, the fail sentinel where the state
    /// has no transition of its own.
    pub closed spec fn spec_next(&self, id: int, b: u8) -> usize {
        self.states@[id].spec_next(b)
    }

    /// The failure link of state `id`.
    pub closed spec fn spec_fail(&self, id: int) -> usize {
        self.states@[id].fail
    }

    /// The match list of state `id`: pairs of a pattern's index and its length.
    pub closed spec fn spec_matches(&self, id: int) -> Seq<(usize, usize)> {
        self.states@[id].matches@
    }

    /// The distance of state `id` from the start state.
    pub closed spec fn spec_depth(&self, id: int) -> usize {
        self.states@[id].depth
    }

    /// Whether state `id` keeps its transitions in a dense table, one entry for
    /// each byte, and not in a sparse list sorted by byte.
    pub closed spec fn spec_is_dense(&self, id: int) -> bool {
        self.states@[id].is_dense()
    }

    /// The ghost sequences are as long as the state vector, every table is well
    /// formed, and exactly the states nearer than two steps are dense.
    pub closed spec fn shape(&self) -> bool {
        &&& self.states@.len() >= 3
        &&& self.paths@.len() == self.states@.len()
        &&& self.parents@.len() == self.states@.len()
        &&& forall|id: int|
            0 <= id < self.states@.len() ==> (#[trigger] self.states@[id]).wf() && (
            self.states@[id].is_dense() <==> self.states@[id].depth < 2)
    }

    /// State `s` stands for a non-empty node of the trie, and its parent for the
    /// node one byte shorter.
    pub open spec fn node_ok(&self, k: int, j: int, s: int) -> bool {
        &&& self.path(s).len() >= 1
        &&& in_trie_upto(self.patterns(), k, j, self.path(s))
        &&& 2 <= self.parent(s) < self.spec_len()
        &&& self.path(self.parent(s)) == self.path(s).drop_last()
    }

    /// The transition of `s` on `b` leads to the state of the node one byte
    /// longer, and is absent exactly where the trie has no such node.
    pub open spec fn edge_ok(&self, k: int, j: int, s: int, b: u8) -> bool {
        let t = self.spec_next(s, b);
        if t == FAIL_ID {
            !in_trie_upto(self.patterns(), k, j, self.path(s).push(b))
        } else {
            3 <= t < self.spec_len() && self.path(t as int) == self.path(s).push(b)
        }
    }

    /// State `s` stands for a node that the patterns bring to the trie before
    /// the node of state `t`.
    pub open spec fn in_order(&self, s: int, t: int) -> bool {
        node_before(self.patterns(), self.path(s), self.path(t))
    }

    /// The states from the start state on are, one for one, the nodes of the trie
    /// of the first `k` patterns and `j` bytes of the next, numbered in the order
    /// in which the patterns bring them.
    pub open spec fn skeleton(&self, k: int, j: int) -> bool {
        &&& self.shape()
        &&& self.spec_len() >= 3
        &&& self.path(START_ID as int).len() == 0
        &&& forall|s: int| 3 <= s < self.spec_len() ==> #[trigger] self.node_ok(k, j, s)
        &&& forall|s: int, t: int|
            2 <= s < self.spec_len() && 2 <= t < self.spec_len() && #[trigger] self.path(s)
                == #[trigger] self.path(t) ==> s == t
        &&& forall|s: int|
            2 <= s < self.spec_len() ==> #[trigger] self.spec_depth(s) == self.path(s).len()
        &&& forall|s: int, b: u8| 3 <= s < self.spec_len() ==> #[trigger] self.edge_ok(k, j, s, b)
        &&& forall|b: u8| #[trigger] self.spec_next(FAIL_ID as int, b) == FAIL_ID
        &&& forall|s: int, t: int| 3 <= s < t < self.spec_len() ==> #[trigger] self.in_order(s, t)
    }

    /// Before the start state has its loop, its transitions are those of any node.
    pub open spec fn start_raw(&self, k: int, j: int) -> bool {
        forall|b: u8| #[trigger] self.edge_ok(k, j, START_ID as int, b)
    }

    /// The start state leads on `b` to the node `[b]` where the trie has it, and
    /// to itself where not.
    pub open spec fn start_edge_ok(&self, b: u8) -> bool {
        let t = self.spec_next(START_ID as int, b);
        if in_trie(self.patterns(), seq![b]) {
            3 <= t < self.spec_len() && self.path(t as int) == seq![b]
        } else {
            t == START_ID
        }
    }

    /// No failure link is computed yet: each points at the start state, and each
    /// match list holds the patterns among the first `k` that label the state.
    pub open spec fn links_raw(&self, k: int) -> bool {
        &&& forall|s: int| 0 <= s < self.spec_len() ==> #[trigger] self.spec_fail(s) == START_ID
        &&& forall|s: int|
            2 <= s < self.spec_len() ==> #[trigger] self.spec_matches(s) == own_matches(
                self.patterns(),
                self.path(s),
                k as nat,
            )
        &&& self.spec_matches(0).len() == 0
        &&& self.spec_matches(1).len() == 0
    }

    /// The failure link of `s` leads to the state of the longest proper suffix of
    /// its path that is a node of the trie, and its match list holds every
    /// pattern that ends where its path ends.
    pub open spec fn settled(&self, s: int) -> bool {
        &&& 2 <= self.spec_fail(s) < self.spec_len()
        &&& self.path(self.spec_fail(s) as int) == fail_path(self.patterns(), self.path(s))
        &&& self.spec_matches(s) == match_list(self.patterns(), self.path(s), self.path(s).len())
    }

    /// The finished automaton for its dictionary.
    pub open spec fn wf(&self) -> bool {
        &&& self.ready()
        &&& forall|s: int|
            0 <= s < self.spec_len() ==> (#[trigger] self.spec_is_dense(s) <==> self.spec_depth(s)
                < 2)
        &&& forall|s: int| 3 <= s < self.spec_len() ==> #[trigger] self.settled(s)
        &&& forall|s: int| 0 <= s < 3 ==> #[trigger] self.spec_fail(s) == START_ID
        &&& forall|s: int| 0 <= s < 3 ==> (#[trigger] self.spec_matches(s)).len() == 0
    }

    /// The trie while pattern `k` is being added, `j` of its bytes done.
    pub open spec fn stage(&self, k: int, j: int) -> bool {
        &&& self.skeleton(k, j)
        &&& self.start_raw(k, j)
        &&& forall|b: u8| #[trigger] self.spec_next(DEAD_ID as int, b) == FAIL_ID
        &&& self.links_raw(k)
        &&& self.spec_len() == 3 + trie_nodes(self.patterns(), k as nat) + fresh_upto(
            self.patterns(),
            k,
            j,
        )
    }

    /// The structure is complete: the trie of the whole dictionary, the loop at
    /// the start state and the loop at the dead state.
    pub open spec fn ready(&self) -> bool {
        &&& all_nonempty(self.patterns())
        &&& self.skeleton(self.patterns().len() as int, 0)
        &&& forall|b: u8| #[trigger] self.start_edge_ok(b)
        &&& forall|b: u8| #[trigger] self.spec_next(DEAD_ID as int, b) == DEAD_ID
    }

    /// State `s` is as the trie left it: the link at the start state, the match
    /// list without what failure links bring.
    pub open spec fn raw_link(&self, s: int) -> bool {
        &&& self.spec_fail(s) == START_ID
        &&& self.spec_matches(s) == own_matches(
            self.patterns(),
            self.path(s),
            self.patterns().len(),
        )
    }

    /// The two automata differ at most in failure links and match lists.
    pub closed spec fn same_structure(&self, other: NFA) -> bool {
        &&& self.pats == other.pats
        &&& self.paths == other.paths
        &&& self.parents == other.parents
        &&& self.states@.len() == other.states@.len()
        &&& forall|s: int|
            0 <= s < self.states@.len() ==> (#[trigger] self.states@[s]).trans
                == other.states@[s].trans && self.states@[s].depth == other.states@[s].depth
    }

    fn state(&self, id: usize) -> (st: &State)
        requires
            id < self.spec_len(),
        ensures
            *st == self.states@[id as int],
    {
        &self.states[id]
    }

    fn state_mut(&mut self, id: usize) -> (st: &mut State)
        requires
            id < old(self).spec_len(),
        ensures
            *st == old(self).states@[id as int],
            final(self).states@ == old(self).states@.update(id as int, *final(st)),
            final(self).pats == old(self).pats,
            final(self).paths == old(self).paths,
            final(self).parents == old(self).parents,
    {
        &mut self.states[id]
    }

    fn start(&self) -> (st: &State)
        requires
            START_ID < self.spec_len(),
        ensures
            *st == self.states@[START_ID as int],
    {
        self.state(START_ID)
    }

    fn start_mut(&mut self) -> (st: &mut State)
        requires
            START_ID < old(self).spec_len(),
        ensures
            *st == old(self).states@[START_ID as int],
            final(self).states@ == old(self).states@.update(START_ID as int, *final(st)),
            final(self).pats == old(self).pats,
            final(self).paths == old(self).paths,
            final(self).parents == old(self).parents,
    {
        self.state_mut(START_ID)
    }

    fn add_dense_state(
        &mut self,
        depth: usize,
        Ghost(path): Ghost<Seq<u8>>,
        Ghost(parent): Ghost<int>,
    ) -> (id: usize)
        ensures
            id == old(self).spec_len(),
            final(self).added(*old(self), depth, path, parent),
            final(self).states@[id as int].is_dense(),
    {
        let trans = Transitions::Dense(Dense::new());
        let id = self.states.len();
        self.states.push(State { trans, fail: START_ID, depth, matches: Vec::new() });
        self.paths = Ghost(self.paths@.push(path));
        self.parents = Ghost(self.parents@.push(parent));
        id
    }

    fn add_sparse_state(
        &mut self,
        depth: usize,
        Ghost(path): Ghost<Seq<u8>>,
        Ghost(parent): Ghost<int>,
    ) -> (id: usize)
        ensures
            id == old(self).spec_len(),
            final(self).added(*old(self), depth, path, parent),
            !final(self).states@[id as int].is_dense(),
    {
        let trans = Transitions::Sparse(Vec::new());
        let id = self.states.len();
        self.states.push(State { trans, fail: START_ID, depth, matches: Vec::new() });
        self.paths = Ghost(self.paths@.push(path));
        self.parents = Ghost(self.parents@.push(parent));
        proof {
            assert(!sparse_has(Seq::<(u8, usize)>::empty(), 0u8));
            assert forall|b: u8| self.states@[id as int].spec_next(b) == FAIL_ID by {
                assert(!sparse_has(Seq::<(u8, usize)>::empty(), b));
            }
        }
        id
    }

    /// `self` is `before` with one fresh state appended: no transition, no match,
    /// the failure link at the start state.
    pub closed spec fn added(&self, before: NFA, depth: usize, path: Seq<u8>, parent: int) -> bool {
        let id = before.states@.len() as int;
        &&& self.states@.len() == id + 1
        &&& forall|s: int| 0 <= s < id ==> #[trigger] self.states@[s] == before.states@[s]
        &&& self.paths@ == before.paths@.push(path)
        &&& self.parents@ == before.parents@.push(parent)
        &&& self.pats == before.pats
        &&& self.states@[id].wf()
        &&& forall|b: u8| #[trigger] self.states@[id].spec_next(b) == FAIL_ID
        &&& self.states@[id].fail == START_ID
        &&& self.states@[id].matches@.len() == 0
        &&& self.states@[id].depth == depth
    }
}

/// Adding a state for the next byte of pattern `k`, below `prev`, keeps the trie.
proof fn lemma_grow(before: NFA, mid: NFA, after: NFA, k: int, j: int, prev: int, b: u8)
    requires
        before.stage(k, j),
        0 <= k < before.patterns().len(),
        0 <= j < before.patterns()[k].len(),
        b == before.patterns()[k][j],
        2 <= prev < before.spec_len(),
        before.path(prev) == before.patterns()[k].take(j),
        before.spec_next(prev, b) == FAIL_ID,
        mid.added(before, (j + 1) as usize, before.path(prev).push(b), prev),
        mid.states@[before.spec_len()].is_dense() <==> j + 1 < 2,
        j + 1 <= usize::MAX,
        after.states@.len() == mid.states@.len(),
        after.paths == mid.paths,
        after.parents == mid.parents,
        after.pats == mid.pats,
        forall|s: int| 0 <= s < mid.states@.len() && s != prev
            ==> after.states@[s] == mid.states@[s],
        after.states@[prev].wf(),
        after.states@[prev].is_dense() == mid.states@[prev].is_dense(),
        after.states@[prev].spec_next(b) == before.spec_len(),
        forall|c: u8| c != b ==> after.states@[prev].spec_next(c) == mid.states@[prev].spec_next(c),
        after.states@[prev].fail == mid.states@[prev].fail,
        after.states@[prev].matches == mid.states@[prev].matches,
        after.states@[prev].depth == mid.states@[prev].depth,
    ensures
        after.stage(k, j + 1),
        after.path(before.spec_len()) == before.patterns()[k].take(j + 1),
{
    let pats = before.patterns();
    let n = before.spec_len();
    let pat = pats[k];
    let fresh = before.path(prev).push(b);
    assert(fresh =~= pat.take(j + 1));
    assert(after.path(n) == fresh);
    assert forall|s: int| 0 <= s < n implies after.path(s) == before.path(s) && after.parent(s)
        == before.parent(s) by {}
    assert(!in_trie_upto(pats, k, j, fresh)) by {
        assert(before.edge_ok(k, j, prev, b));
    }
    lemma_fresh_step_new(pats, k, j);
    lemma_trie_step(pats, k, j, fresh);
    assert forall|s: int| 3 <= s < after.spec_len() implies #[trigger] after.node_ok(
        k,
        j + 1,
        s,
    ) by {
        if s < n {
            assert(before.node_ok(k, j, s));
            lemma_trie_step(pats, k, j, before.path(s));
        } else {
            assert(fresh.drop_last() =~= before.path(prev));
        }
    }
    assert forall|s: int, t: int|
        2 <= s < after.spec_len() && 2 <= t < after.spec_len() && #[trigger] after.path(s)
            == #[trigger] after.path(t) implies s == t by {
        if s < n && t < n {
            assert(before.path(s) == before.path(t));
        } else if s < n {
            if s >= 3 {
                assert(before.node_ok(k, j, s));
            }
        } else if t < n {
            if t >= 3 {
                assert(before.node_ok(k, j, t));
            }
        }
    }
    assert forall|s: int, c: u8| 2 <= s < after.spec_len() implies #[trigger] after.edge_ok(
        k,
        j + 1,
        s,
        c,
    ) by {
        if s == n {
            let x = fresh.push(c);
            if in_trie_upto(pats, k, j + 1, x) {
                lemma_trie_step(pats, k, j, x);
                lemma_trie_prefix_closed(pats, k, j, fresh, c);
            }
        } else if s == prev && c == b {
        } else {
            assert(before.edge_ok(k, j, s, c));
            assert(after.spec_next(s, c) == before.spec_next(s, c));
            let x = before.path(s).push(c);
            if before.spec_next(s, c) == FAIL_ID {
                lemma_trie_step(pats, k, j, x);
                if x == fresh {
                    lemma_push_injective(before.path(s), c, before.path(prev), b);
                }
            }
        }
    }
    assert forall|s: int| 2 <= s < after.spec_len() implies #[trigger] after.spec_depth(s)
        == after.path(s).len() by {
        if s < n {
            assert(before.spec_depth(s) == before.path(s).len());
        }
    }
    assert forall|s: int, t: int| 3 <= s < t < after.spec_len() implies #[trigger] after.in_order(
        s,
        t,
    ) by {
        if t < n {
            assert(before.in_order(s, t));
        } else {
            assert(before.node_ok(k, j, s));
            lemma_new_node_last(pats, k, j, before.path(s));
        }
    }
    assert forall|c: u8| #[trigger] after.spec_next(FAIL_ID as int, c) == FAIL_ID by {
        assert(before.spec_next(FAIL_ID as int, c) == FAIL_ID);
    }
    assert forall|c: u8| #[trigger] after.spec_next(DEAD_ID as int, c) == FAIL_ID by {
        assert(before.spec_next(DEAD_ID as int, c) == FAIL_ID);
    }
    assert(after.shape()) by {
        assert forall|id: int| 0 <= id < after.states@.len() implies (
        #[trigger] after.states@[id]).wf() && (after.states@[id].is_dense()
            <==> after.states@[id].depth < 2) by {
            if id < n {
                assert(before.states@[id].wf());
            }
        }
    }
    assert(after.links_raw(k)) by {
        assert forall|s: int| 0 <= s < after.spec_len() implies #[trigger] after.spec_fail(s)
            == START_ID by {
            if s < n {
                assert(before.spec_fail(s) == START_ID);
            }
        }
        assert forall|s: int| 2 <= s < after.spec_len() implies #[trigger] after.spec_matches(s)
            == own_matches(pats, after.path(s), k as nat) by {
            if s < n {
                assert(before.spec_matches(s) == own_matches(pats, before.path(s), k as nat));
            } else {
                lemma_own_matches_outside(pats, fresh, k, j);
                assert(after.spec_matches(s) =~= Seq::empty());
            }
        }
    }
}

/// Following a transition that the trie already has keeps the trie as it is.
proof fn lemma_advance(nfa: NFA, k: int, j: int, prev: int, b: u8)
    requires
        nfa.stage(k, j),
        0 <= k < nfa.patterns().len(),
        0 <= j < nfa.patterns()[k].len(),
        b == nfa.patterns()[k][j],
        2 <= prev < nfa.spec_len(),
        nfa.path(prev) == nfa.patterns()[k].take(j),
        nfa.spec_next(prev, b) != FAIL_ID,
    ensures
        nfa.stage(k, j + 1),
        3 <= nfa.spec_next(prev, b) < nfa.spec_len(),
        nfa.path(nfa.spec_next(prev, b) as int) == nfa.patterns()[k].take(j + 1),
{
    let pats = nfa.patterns();
    let pat = pats[k];
    let t = nfa.spec_next(prev, b) as int;
    assert(nfa.edge_ok(k, j, prev, b));
    assert(nfa.path(prev).push(b) =~= pat.take(j + 1));
    assert(nfa.node_ok(k, j, t));
    lemma_fresh_step_old(pats, k, j);
    assert forall|s: int| 3 <= s < nfa.spec_len() implies #[trigger] nfa.node_ok(k, j + 1, s) by {
        assert(nfa.node_ok(k, j, s));
        lemma_trie_step(pats, k, j, nfa.path(s));
    }
    assert forall|s: int, c: u8| 2 <= s < nfa.spec_len() implies #[trigger] nfa.edge_ok(
        k,
        j + 1,
        s,
        c,
    ) by {
        assert(nfa.edge_ok(k, j, s, c));
        lemma_trie_step(pats, k, j, nfa.path(s).push(c));
    }
}

/// Recording pattern `k` at the state of its last byte completes the trie of the
/// first `k + 1` patterns.
proof fn lemma_finish_pattern(before: NFA, after: NFA, k: int, prev: int)
    requires
        0 <= k < before.patterns().len(),
        before.stage(k, before.patterns()[k].len() as int),
        all_nonempty(before.patterns()),
        2 <= prev < before.spec_len(),
        before.path(prev) == before.patterns()[k],
        k <= usize::MAX,
        before.patterns()[k].len() <= usize::MAX,
        after.states@.len() == before.states@.len(),
        after.paths == before.paths,
        after.parents == before.parents,
        after.pats == before.pats,
        forall|s: int|
            0 <= s < before.states@.len() && s != prev ==> after.states@[s] == before.states@[s],
        after.states@[prev].trans == before.states@[prev].trans,
        after.states@[prev].fail == before.states@[prev].fail,
        after.states@[prev].depth == before.states@[prev].depth,
        after.states@[prev].matches@ == before.states@[prev].matches@.push(
            (k as usize, before.patterns()[k].len() as usize),
        ),
    ensures
        after.stage(k + 1, 0),
{
    let pats = before.patterns();
    let j = pats[k].len() as int;
    lemma_fresh_done(pats, k);
    assert forall|s: int| 0 <= s < after.spec_len() implies after.path(s) == before.path(s)
        && after.parent(s) == before.parent(s) && after.spec_depth(s) == before.spec_depth(s)
        && after.spec_fail(s) == before.spec_fail(s) by {}
    assert forall|s: int, c: u8| 0 <= s < after.spec_len() implies after.spec_next(s, c)
        == before.spec_next(s, c) by {}
    assert forall|s: int| 3 <= s < after.spec_len()
        implies #[trigger] after.node_ok(k + 1, 0, s) by {
        assert(before.node_ok(k, j, s));
        lemma_trie_next_pattern(pats, k, before.path(s));
    }
    assert forall|s: int, c: u8| 2 <= s < after.spec_len() implies #[trigger] after.edge_ok(
        k + 1,
        0,
        s,
        c,
    ) by {
        assert(before.edge_ok(k, j, s, c));
        lemma_trie_next_pattern(pats, k, before.path(s).push(c));
    }
    assert forall|s: int, t: int|
        2 <= s < after.spec_len() && 2 <= t < after.spec_len() && #[trigger] after.path(s)
            == #[trigger] after.path(t) implies s == t by {
        assert(before.path(s) == before.path(t));
    }
    assert forall|s: int| 2 <= s < after.spec_len() implies #[trigger] after.spec_depth(s)
        == after.path(s).len() by {
        assert(before.spec_depth(s) == before.path(s).len());
    }
    assert forall|s: int, t: int| 3 <= s < t < after.spec_len() implies #[trigger] after.in_order(
        s,
        t,
    ) by {
        assert(before.in_order(s, t));
    }
    assert forall|c: u8| #[trigger] after.spec_next(FAIL_ID as int, c) == FAIL_ID by {
        assert(before.spec_next(FAIL_ID as int, c) == FAIL_ID);
    }
    assert forall|c: u8| #[trigger] after.spec_next(DEAD_ID as int, c) == FAIL_ID by {
        assert(before.spec_next(DEAD_ID as int, c) == FAIL_ID);
    }
    assert(after.shape()) by {
        assert forall|id: int| 0 <= id < after.states@.len() implies (
        #[trigger] after.states@[id]).wf() && (after.states@[id].is_dense()
            <==> after.states@[id].depth < 2) by {
            assert(before.states@[id].wf());
        }
    }
    assert(after.links_raw(k + 1)) by {
        assert forall|s: int| 0 <= s < after.spec_len() implies #[trigger] after.spec_fail(s)
            == START_ID by {
            assert(before.spec_fail(s) == START_ID);
        }
        assert forall|s: int| 2 <= s < after.spec_len() implies #[trigger] after.spec_matches(s)
            == own_matches(pats, after.path(s), (k + 1) as nat) by {
            assert(before.spec_matches(s) == own_matches(pats, before.path(s), k as nat));
            if s != prev {
                assert(before.path(s) != before.path(prev));
            }
        }
        assert(before.spec_matches(0).len() == 0);
        assert(before.spec_matches(1).len() == 0);
    }
}

/// Builds the automaton from a dictionary, phase by phase.
struct Compiler {
    nfa: NFA,
}

impl Compiler {
    fn new() -> (r: Self)
        ensures
            r.nfa.states@.len() == 0,
            r.nfa.paths@.len() == 0,
            r.nfa.parents@.len() == 0,
    {
        Self {
            nfa: NFA {
                states: Vec::with_capacity(3200),
                pats: Ghost(Seq::empty()),
                paths: Ghost(Seq::empty()),
                parents: Ghost(Seq::empty()),
            },
        }
    }

    fn add_state(
        &mut self,
        depth: usize,
        Ghost(path): Ghost<Seq<u8>>,
        Ghost(parent): Ghost<int>,
    ) -> (id: usize)
        ensures
            id == old(self).nfa.spec_len(),
            final(self).nfa.added(old(self).nfa, depth, path, parent),
            final(self).nfa.states@[id as int].is_dense() <==> depth < 2,
    {
        if depth < 2 {
            self.nfa.add_dense_state(depth, Ghost(path), Ghost(parent))
        } else {
            self.nfa.add_sparse_state(depth, Ghost(path), Ghost(parent))
        }
    }

    /// Adds every pattern to the trie, a state for each new prefix, and records
    /// each pattern at the state of its last byte.
    fn build_trie(&mut self, patterns: &Vec<Vec<u8>>)
        requires
            old(self).nfa.stage(0, 0),
            old(self).nfa.patterns() == dictionary(patterns@),
            all_nonempty(dictionary(patterns@)),
        ensures
            final(self).nfa.stage(patterns@.len() as int, 0),
            final(self).nfa.patterns() == dictionary(patterns@),
    {
        let mut pati: usize = 0;
        while pati < patterns.len()
            invariant
                pati <= patterns.len(),
                self.nfa.stage(pati as int, 0),
                self.nfa.patterns() == dictionary(patterns@),
                all_nonempty(dictionary(patterns@)),
            decreases patterns.len() - pati,
        {
            let pat = &patterns[pati];
            assert(dictionary(patterns@)[pati as int] == pat@);
            let mut prev: usize = START_ID;
            let mut depth: usize = 0;
            assert(self.nfa.path(START_ID as int) =~= pat@.take(0));
            while depth < pat.len()
                invariant
                    pati < patterns.len(),
                    depth <= pat.len(),
                    self.nfa.stage(pati as int, depth as int),
                    self.nfa.patterns() == dictionary(patterns@),
                    dictionary(patterns@)[pati as int] == pat@,
                    2 <= prev < self.nfa.spec_len(),
                    self.nfa.path(prev as int) == pat@.take(depth as int),
                decreases pat.len() - depth,
            {
                let b = pat[depth];
                let next = self.nfa.state(prev).next_state(b);
                if next == FAIL_ID {
                    let ghost before = self.nfa;
                    let next = self.add_state(
                        depth + 1,
                        Ghost(before.path(prev as int).push(b)),
                        Ghost(prev as int),
                    );
                    let ghost mid = self.nfa;
                    self.nfa.state_mut(prev).set_next_state(b, next);
                    proof {
                        lemma_grow(
                            before,
                            mid,
                            self.nfa,
                            pati as int,
                            depth as int,
                            prev as int,
                            b,
                        );
                    }
                    prev = next;
                } else {
                    proof {
                        lemma_advance(self.nfa, pati as int, depth as int, prev as int, b);
                    }
                    prev = next;
                }
                depth += 1;
            }
            let ghost before = self.nfa;
            assert(pat@.take(pat@.len() as int) =~= pat@);
            self.nfa.state_mut(prev).add_match(pati, pat.len());
            proof {
                lemma_finish_pattern(before, self.nfa, pati as int, prev as int);
            }
            pati += 1;
        }
    }
}

/// Two different places of a slice, both for change.
fn get_two_mut<Item>(xs: &mut [Item], i: usize, j: usize) -> (r: (&mut Item, &mut Item))
    requires
        i != j,
        i < old(xs)@.len(),
        j < old(xs)@.len(),
    ensures
        *r.0 == old(xs)@[i as int],
        *r.1 == old(xs)@[j as int],
        final(xs)@ == old(xs)@.update(i as int, *final(r.0)).update(j as int, *final(r.1)),
{
    if i < j {
        let (before, after) = xs.split_at_mut(j);
        (&mut before[i], &mut after[0])
    } else {
        let (before, after) = xs.split_at_mut(i);
        (&mut after[0], &mut before[j])
    }
}

/// Appends the items of `src` to `dst`, in their order.
pub(crate) fn extend_matches(dst: &mut Vec<(usize, usize)>, src: &[(usize, usize)])
    ensures
        final(dst)@ == old(dst)@ + src@,
{
    let mut k: usize = 0;
    while k < src.len()
        invariant
            k <= src.len(),
            dst@ == old(dst)@ + src@.take(k as int),
        decreases src.len() - k,
    {
        dst.push(src[k]);
        k += 1;
        assert(dst@ =~= old(dst)@ + src@.take(k as int));
    }
    assert(src@.take(src.len() as int) =~= src@);
}

impl NFA {
    /// Appends the match list of `src` to that of `dst`.
    fn copy_matches(&mut self, src: usize, dst: usize)
        requires
            src != dst,
            src < old(self).spec_len(),
            dst < old(self).spec_len(),
        ensures
            final(self).same_structure(*old(self)),
            final(self).spec_matches(dst as int) == old(self).spec_matches(dst as int) + old(
                self,
            ).spec_matches(src as int),
            forall|s: int|
                0 <= s < old(self).spec_len() ==> #[trigger] final(self).spec_fail(s) == old(
                    self,
                ).spec_fail(s),
            forall|s: int|
                0 <= s < old(self).spec_len() && s != dst ==> #[trigger] final(self).spec_matches(
                    s,
                ) == old(self).spec_matches(s),
    {
        let (src, dst) = get_two_mut(&mut self.states, src, dst);
        extend_matches(&mut dst.matches, src.matches.as_slice());
    }

    /// Appends the match list of the start state to that of `dst`.
    fn copy_empty_matches(&mut self, dst: usize)
        requires
            dst != START_ID,
            START_ID < old(self).spec_len(),
            dst < old(self).spec_len(),
        ensures
            final(self).same_structure(*old(self)),
            final(self).spec_matches(dst as int) == old(self).spec_matches(dst as int) + old(
                self,
            ).spec_matches(START_ID as int),
            forall|s: int|
                0 <= s < old(self).spec_len() ==> #[trigger] final(self).spec_fail(s) == old(
                    self,
                ).spec_fail(s),
            forall|s: int|
                0 <= s < old(self).spec_len() && s != dst ==> #[trigger] final(self).spec_matches(
                    s,
                ) == old(self).spec_matches(s),
    {
        self.copy_matches(START_ID, dst);
    }
}

/// What holds of the structure does not depend on failure links or match lists.
proof fn lemma_frame_ready(before: NFA, after: NFA)
    requires
        before.ready(),
        after.same_structure(before),
    ensures
        after.ready(),
{
    let n = before.patterns().len() as int;
    assert forall|s: int| 0 <= s < after.spec_len() implies after.path(s) == before.path(s)
        && after.parent(s) == before.parent(s) && after.spec_depth(s) == before.spec_depth(s) by {
        assert(after.states@[s].depth == before.states@[s].depth);
    }
    assert forall|s: int, c: u8| 0 <= s < after.spec_len() implies after.spec_next(s, c)
        == before.spec_next(s, c) by {
        assert(after.states@[s].trans == before.states@[s].trans);
    }
    assert forall|s: int| 3 <= s < after.spec_len() implies #[trigger] after.node_ok(n, 0, s) by {
        assert(before.node_ok(n, 0, s));
    }
    assert forall|s: int, c: u8| 3 <= s < after.spec_len() implies #[trigger] after.edge_ok(
        n,
        0,
        s,
        c,
    ) by {
        assert(before.edge_ok(n, 0, s, c));
    }
    assert forall|s: int, t: int|
        2 <= s < after.spec_len() && 2 <= t < after.spec_len() && #[trigger] after.path(s)
            == #[trigger] after.path(t) implies s == t by {
        assert(before.path(s) == before.path(t));
    }
    assert forall|s: int| 2 <= s < after.spec_len() implies #[trigger] after.spec_depth(s)
        == after.path(s).len() by {
        assert(before.spec_depth(s) == before.path(s).len());
    }
    assert forall|s: int, t: int| 3 <= s < t < after.spec_len() implies #[trigger] after.in_order(
        s,
        t,
    ) by {
        assert(before.in_order(s, t));
    }
    assert forall|c: u8| #[trigger] after.spec_next(FAIL_ID as int, c) == FAIL_ID by {
        assert(before.spec_next(FAIL_ID as int, c) == FAIL_ID);
    }
    assert forall|c: u8| #[trigger] after.spec_next(DEAD_ID as int, c) == DEAD_ID by {
        assert(before.spec_next(DEAD_ID as int, c) == DEAD_ID);
    }
    assert forall|c: u8| #[trigger] after.start_edge_ok(c) by {
        assert(before.start_edge_ok(c));
    }
    assert(after.shape()) by {
        assert forall|id: int| 0 <= id < after.states@.len() implies (
        #[trigger] after.states@[id]).wf() && (after.states@[id].is_dense()
            <==> after.states@[id].depth < 2) by {
            assert(before.states@[id].wf());
            assert(after.states@[id].trans == before.states@[id].trans);
        }
    }
}

impl NFA {
    /// While the loops at the start state and the dead state are added: the
    /// start state is done below byte `b0`, the dead state below byte `b1`.
    spec fn looping(&self, b0: int, b1: int) -> bool {
        let n = self.patterns().len() as int;
        &&& all_nonempty(self.patterns())
        &&& self.skeleton(n, 0)
        &&& forall|b: u8| b < b0 ==> #[trigger] self.start_edge_ok(b)
        &&& forall|b: u8| b >= b0 ==> #[trigger] self.edge_ok(n, 0, START_ID as int, b)
        &&& forall|b: u8| b < b1 ==> #[trigger] self.spec_next(DEAD_ID as int, b) == DEAD_ID
        &&& forall|b: u8| b >= b1 ==> #[trigger] self.spec_next(DEAD_ID as int, b) == FAIL_ID
        &&& self.links_raw(n)
        &&& self.spec_len() == trie_states(self.patterns())
    }
}

/// Changing a transition of the start state or of the dead state keeps the trie
/// below them.
proof fn lemma_loop_step(before: NFA, after: NFA, id: int, b: u8, b0: int, b1: int)
    requires
        before.looping(b0, b1),
        id == START_ID || id == DEAD_ID,
        id == START_ID ==> b == b0 && (before.spec_next(START_ID as int, b) == FAIL_ID
            ==> after.spec_next(START_ID as int, b) == START_ID) && (before.spec_next(
            START_ID as int,
            b,
        ) != FAIL_ID ==> after.spec_next(START_ID as int, b) == before.spec_next(
            START_ID as int,
            b,
        )),
        id == DEAD_ID ==> b == b1 && after.spec_next(DEAD_ID as int, b) == DEAD_ID,
        after.states@.len() == before.states@.len(),
        after.paths == before.paths,
        after.parents == before.parents,
        after.pats == before.pats,
        forall|s: int|
            0 <= s < before.states@.len() && s != id ==> after.states@[s] == before.states@[s],
        after.states@[id].wf(),
        after.states@[id].is_dense() == before.states@[id].is_dense(),
        forall|c: u8| c != b ==> after.states@[id].spec_next(c) == before.states@[id].spec_next(c),
        after.states@[id].fail == before.states@[id].fail,
        after.states@[id].matches == before.states@[id].matches,
        after.states@[id].depth == before.states@[id].depth,
    ensures
        id == START_ID ==> after.looping(b0 + 1, b1),
        id == DEAD_ID ==> after.looping(b0, b1 + 1),
{
    let pats = before.patterns();
    let n = pats.len() as int;
    assert forall|s: int| 0 <= s < after.spec_len() implies after.path(s) == before.path(s)
        && after.parent(s) == before.parent(s) && after.spec_depth(s) == before.spec_depth(s)
        && after.spec_fail(s) == before.spec_fail(s) && after.spec_matches(s)
        == before.spec_matches(s) by {}
    assert forall|s: int, c: u8| 0 <= s < after.spec_len() && (s != id || c != b)
        implies after.spec_next(s, c) == before.spec_next(s, c) by {}
    assert forall|s: int| 3 <= s < after.spec_len() implies #[trigger] after.node_ok(n, 0, s) by {
        assert(before.node_ok(n, 0, s));
    }
    assert forall|s: int, c: u8| 3 <= s < after.spec_len() implies #[trigger] after.edge_ok(
        n,
        0,
        s,
        c,
    ) by {
        assert(before.edge_ok(n, 0, s, c));
    }
    assert forall|s: int, t: int|
        2 <= s < after.spec_len() && 2 <= t < after.spec_len() && #[trigger] after.path(s)
            == #[trigger] after.path(t) implies s == t by {
        assert(before.path(s) == before.path(t));
    }
    assert forall|s: int| 2 <= s < after.spec_len() implies #[trigger] after.spec_depth(s)
        == after.path(s).len() by {
        assert(before.spec_depth(s) == before.path(s).len());
    }
    assert forall|s: int, t: int| 3 <= s < t < after.spec_len() implies #[trigger] after.in_order(
        s,
        t,
    ) by {
        assert(before.in_order(s, t));
    }
    assert forall|c: u8| #[trigger] after.spec_next(FAIL_ID as int, c) == FAIL_ID by {
        assert(before.spec_next(FAIL_ID as int, c) == FAIL_ID);
    }
    assert(after.shape()) by {
        assert forall|s: int| 0 <= s < after.states@.len() implies (
        #[trigger] after.states@[s]).wf() && (after.states@[s].is_dense()
            <==> after.states@[s].depth < 2) by {
            assert(before.states@[s].wf());
        }
    }
    assert(after.links_raw(n)) by {
        assert forall|s: int| 0 <= s < after.spec_len() implies #[trigger] after.spec_fail(s)
            == START_ID by {
            assert(before.spec_fail(s) == START_ID);
        }
        assert forall|s: int| 2 <= s < after.spec_len() implies #[trigger] after.spec_matches(s)
            == own_matches(pats, after.path(s), n as nat) by {
            assert(before.spec_matches(s) == own_matches(pats, before.path(s), n as nat));
        }
        assert(before.spec_matches(0).len() == 0);
        assert(before.spec_matches(1).len() == 0);
    }
    if id == START_ID {
        let nb0 = b0 + 1;
        assert forall|c: u8| c < nb0 implies #[trigger] after.start_edge_ok(c) by {
            if c == b {
                assert(before.edge_ok(n, 0, START_ID as int, b));
                assert(before.path(START_ID as int).push(b) =~= seq![b]);
                let t = before.spec_next(START_ID as int, b);
                if t != FAIL_ID {
                    assert(before.node_ok(n, 0, t as int));
                }
            } else {
                assert(before.start_edge_ok(c));
            }
        }
        assert forall|c: u8| c >= nb0 implies #[trigger] after.edge_ok(
            n,
            0,
            START_ID as int,
            c,
        ) by {
            assert(before.edge_ok(n, 0, START_ID as int, c));
        }
        assert forall|c: u8| c < b1 implies #[trigger] after.spec_next(DEAD_ID as int, c)
            == DEAD_ID by {
            assert(before.spec_next(DEAD_ID as int, c) == DEAD_ID);
        }
        assert forall|c: u8| c >= b1 implies #[trigger] after.spec_next(DEAD_ID as int, c)
            == FAIL_ID by {
            assert(before.spec_next(DEAD_ID as int, c) == FAIL_ID);
        }
    } else {
        let nb1 = b1 + 1;
        assert forall|c: u8| c < b0 implies #[trigger] after.start_edge_ok(c) by {
            assert(before.start_edge_ok(c));
        }
        assert forall|c: u8| c >= b0 implies #[trigger] after.edge_ok(n, 0, START_ID as int, c) by {
            assert(before.edge_ok(n, 0, START_ID as int, c));
        }
        assert forall|c: u8| c < nb1 implies #[trigger] after.spec_next(DEAD_ID as int, c)
            == DEAD_ID by {
            if c != b {
                assert(before.spec_next(DEAD_ID as int, c) == DEAD_ID);
            }
        }
        assert forall|c: u8| c >= nb1 implies #[trigger] after.spec_next(DEAD_ID as int, c)
            == FAIL_ID by {
            assert(before.spec_next(DEAD_ID as int, c) == FAIL_ID);
        }
    }
}

impl Compiler {
    /// Lets the start state lead to itself on every byte that begins no pattern.
    fn add_start_state_loop(&mut self)
        requires
            old(self).nfa.looping(0, 0),
        ensures
            final(self).nfa.looping(256, 0),
            final(self).nfa.patterns() == old(self).nfa.patterns(),
    {
        let mut b: usize = 0;
        while b < 256
            invariant
                b <= 256,
                self.nfa.looping(b as int, 0),
                self.nfa.patterns() == old(self).nfa.patterns(),
            decreases 256 - b,
        {
            if self.nfa.start().next_state(b as u8) == FAIL_ID {
                let ghost before = self.nfa;
                self.nfa.start_mut().set_next_state(b as u8, START_ID);
                proof {
                    lemma_loop_step(before, self.nfa, START_ID as int, b as u8, b as int, 0);
                }
            } else {
                proof {
                    lemma_loop_step(self.nfa, self.nfa, START_ID as int, b as u8, b as int, 0);
                }
            }
            b += 1;
        }
    }

    /// Lets the dead state lead to itself on every byte.
    fn add_dead_state_loop(&mut self)
        requires
            old(self).nfa.looping(256, 0),
        ensures
            final(self).nfa.looping(256, 256),
            final(self).nfa.patterns() == old(self).nfa.patterns(),
    {
        let mut b: usize = 0;
        while b < 256
            invariant
                b <= 256,
                self.nfa.looping(256, b as int),
                self.nfa.patterns() == old(self).nfa.patterns(),
            decreases 256 - b,
        {
            let ghost before = self.nfa;
            self.nfa.state_mut(DEAD_ID).set_next_state(b as u8, DEAD_ID);
            proof {
                lemma_loop_step(before, self.nfa, DEAD_ID as int, b as u8, 256, b as int);
            }
            b += 1;
        }
    }
}

/// A place in the walk over the transitions of one state that lead somewhere.
struct TransitionCursor {
    state_id: usize,
    cur: usize,
}

impl TransitionCursor {
    fn new(state_id: usize) -> (r: Self)
        ensures
            r.state_id == state_id,
            r.cur == 0,
    {
        TransitionCursor { state_id, cur: 0 }
    }

    /// Byte `c` lies behind the cursor: the walk will not come to it any more.
    spec fn covers(&self, nfa: &NFA, c: u8) -> bool {
        match nfa.states@[self.state_id as int].trans {
            Transitions::Sparse(v) => forall|i: int|
                self.cur <= i < v@.len() ==> (#[trigger] v@[i]).0 != c,
            Transitions::Dense(d) => (c as int) < self.cur,
        }
    }

    /// The number of steps that the walk can still take.
    spec fn steps_left(&self, nfa: &NFA) -> int {
        match nfa.states@[self.state_id as int].trans {
            Transitions::Sparse(v) => v@.len() - self.cur,
            Transitions::Dense(d) => 256 - self.cur,
        }
    }

    /// The next transition that leads to a state, by rising byte.
    fn next(&mut self, nfa: &NFA) -> (r: Option<(u8, usize)>)
        requires
            old(self).state_id < nfa.spec_len(),
            nfa.states@[old(self).state_id as int].wf(),
            0 <= old(self).steps_left(nfa),
        ensures
            final(self).state_id == old(self).state_id,
            0 <= final(self).steps_left(nfa),
            forall|c: u8| old(self).covers(nfa, c) ==> #[trigger] final(self).covers(nfa, c),
            match r {
                Some((b, t)) => {
                    &&& t == nfa.spec_next(old(self).state_id as int, b)
                    &&& t != FAIL_ID
                    &&& !old(self).covers(nfa, b)
                    &&& final(self).covers(nfa, b)
                    &&& final(self).steps_left(nfa) < old(self).steps_left(nfa)
                    &&& forall|c: u8| #[trigger]
                        final(self).covers(nfa, c) ==> old(self).covers(nfa, c) || c == b
                            || nfa.spec_next(old(self).state_id as int, c) == FAIL_ID
                },
                None => forall|c: u8| #[trigger]
                    old(self).covers(nfa, c) || nfa.spec_next(old(self).state_id as int, c)
                        == FAIL_ID,
            },
    {
        match &nfa.states[self.state_id].trans {
            Transitions::Sparse(sparse) => {
                if self.cur >= sparse.len() {
                    return None;
                }
                let i = self.cur;
                self.cur += 1;
                proof {
                    lemma_sparse_lookup_at(sparse@, i as int);
                    assert forall|c: u8| old(self).covers(nfa, c) implies #[trigger] self.covers(
                        nfa,
                        c,
                    ) by {}
                    assert(self.covers(nfa, sparse@[i as int].0)) by {
                        assert forall|k: int| self.cur <= k < sparse@.len() implies (
                        #[trigger] sparse@[k]).0 != sparse@[i as int].0 by {
                            assert(sparse@[i as int].0 < sparse@[k].0);
                        }
                    }
                }
                Some(sparse[i])
            },
            Transitions::Dense(dense) => {
                while self.cur < dense.len()
                    invariant
                        self.cur <= 256,
                        dense.wf(),
                        self.state_id == old(self).state_id,
                        self.state_id < nfa.spec_len(),
                        old(self).cur <= self.cur,
                        nfa.states@[self.state_id as int].trans == Transitions::Dense(*dense),
                        forall|c: u8|
                            old(self).cur <= c < self.cur ==> nfa.spec_next(
                                self.state_id as int,
                                c,
                            ) == FAIL_ID,
                    decreases 256 - self.cur,
                {
                    let b = self.cur as u8;
                    let id = dense.index(b);
                    self.cur += 1;
                    if id != FAIL_ID {
                        return Some((b, id));
                    }
                }
                None
            },
        }
    }
}

impl NFA {
    /// A cursor before the first transition of state `id`.
    fn iter_transitions(&self, id: usize) -> (it: TransitionCursor)
        requires
            id < self.spec_len(),
            self.states@[id as int].wf(),
        ensures
            it.state_id == id,
            0 <= it.steps_left(self),
            forall|c: u8| #[trigger] it.covers(self, c) ==> self.spec_next(id as int, c) == FAIL_ID,
    {
        let it = TransitionCursor::new(id);
        proof {
            assert forall|c: u8| #[trigger] it.covers(self, c) implies self.spec_next(id as int, c)
                == FAIL_ID by {
                match self.states@[id as int].trans {
                    Transitions::Sparse(v) => {
                        if sparse_has(v@, c) {
                            let k = sparse_at(v@, c);
                            assert(v@[k].0 == c);
                        }
                    },
                    Transitions::Dense(d) => {},
                }
            }
        }
        it
    }
}

impl NFA {
    /// What holds of a state that the search has reached: its links are final,
    /// it is done, in hand or waiting, and it was reached from its parent.
    spec fn seen_ok(
        &self,
        q: Seq<usize>,
        done: Set<int>,
        level: int,
        id: int,
        it: TransitionCursor,
        s: int,
    ) -> bool {
        &&& self.settled(s)
        &&& self.spec_depth(s) <= level + 1
        &&& (done.contains(s) || s == id || exists|i: int| 0 <= i < q.len() && #[trigger] q[i] == s)
        &&& (self.spec_depth(s) == 1 || done.contains(self.parent(s)) || (self.parent(s) == id
            && it.covers(self, self.path(s).last())))
    }

    spec fn link_ok(
        &self,
        q: Seq<usize>,
        seen: Set<int>,
        done: Set<int>,
        level: int,
        id: int,
        it: TransitionCursor,
        s: int,
    ) -> bool {
        if seen.contains(s) {
            self.seen_ok(q, done, level, id, it, s)
        } else {
            self.raw_link(s)
        }
    }

    /// The state of the breadth-first search: `q` waits, `seen` was reached,
    /// `done` had its children handled, `id` is in hand (or negative), and every
    /// state up to depth `level` was reached.
    spec fn search_inv(
        &self,
        q: Seq<usize>,
        seen: Set<int>,
        done: Set<int>,
        level: int,
        id: int,
        it: TransitionCursor,
    ) -> bool {
        let n = self.spec_len();
        &&& self.ready()
        &&& level >= 1
        &&& forall|s: int| 0 <= s < 3 ==> #[trigger] self.spec_fail(s) == START_ID
        &&& forall|s: int| 0 <= s < 3 ==> (#[trigger] self.spec_matches(s)).len() == 0
        &&& forall|s: int| #[trigger] seen.contains(s) ==> 3 <= s < n
        &&& forall|s: int| 3 <= s < n ==> #[trigger] self.link_ok(q, seen, done, level, id, it, s)
        &&& forall|i: int|
            0 <= i < q.len() ==> 3 <= #[trigger] q[i] < n && seen.contains(q[i] as int)
                && !done.contains(q[i] as int) && level <= self.spec_depth(q[i] as int) <= level + 1
                && q[i] != id
        &&& forall|i: int, j: int|
            #![trigger q[i], q[j]]
            0 <= i < j < q.len() ==> self.spec_depth(q[i] as int) <= self.spec_depth(q[j] as int)
                && q[i] != q[j]
        &&& forall|s: int| #[trigger]
            done.contains(s) ==> seen.contains(s) && self.spec_depth(s) <= level && s != id
        &&& forall|s: int|
            3 <= s < n && 1 <= self.spec_depth(s) <= level ==> #[trigger] seen.contains(s)
        &&& forall|t: int, c: u8|
            done.contains(t) && #[trigger] self.spec_next(t, c) != FAIL_ID ==> seen.contains(
                self.spec_next(t, c) as int,
            )
        &&& forall|c: u8|
            3 <= id < n && #[trigger] it.covers(self, c) && self.spec_next(id, c) != FAIL_ID
                ==> seen.contains(self.spec_next(id, c) as int)
        &&& (id >= 0 ==> 3 <= id < n && seen.contains(id) && !done.contains(id) && self.spec_depth(
            id,
        ) == level && it.state_id == id)
    }

    /// The failure chain of the state `id` has come down to `fail`, and no
    /// longer suffix of the path of `id` can take byte `b`.
    spec fn chain_ok(&self, id: int, fail: int, b: u8) -> bool {
        &&& 2 <= fail < self.spec_len()
        &&& self.path(fail).len() < self.path(id).len()
        &&& self.path(fail) == tail(self.path(id), self.path(fail).len() as int)
        &&& chain_clear(self.patterns(), self.path(id), self.path(fail).len() as int, b)
    }

    /// While the children of the start state are put in the queue, bytes below
    /// `b` done.
    spec fn first_inv(&self, q: Seq<usize>, seen: Set<int>, b: int) -> bool {
        let n = self.spec_len();
        &&& forall|i: int|
            0 <= i < q.len() ==> 3 <= #[trigger] q[i] < n && seen.contains(q[i] as int)
                && self.spec_depth(q[i] as int) == 1 && self.path(q[i] as int)[0] < b
        &&& forall|i: int, j: int|
            #![trigger q[i], q[j]]
            0 <= i < j < q.len() ==> q[i] != q[j]
        &&& forall|s: int| #[trigger]
            seen.contains(s) ==> 3 <= s < n && self.spec_depth(s) == 1 && exists|i: int|
                0 <= i < q.len() && #[trigger] q[i] == s
        &&& forall|c: u8|
            c < b && #[trigger] self.spec_next(START_ID as int, c) != START_ID ==> seen.contains(
                self.spec_next(START_ID as int, c) as int,
            )
    }
}

/// A transition out of a state beyond the start state leads to its child.
proof fn lemma_child(nfa: NFA, id: int, b: u8)
    requires
        nfa.ready(),
        3 <= id < nfa.spec_len(),
        nfa.spec_next(id, b) != FAIL_ID,
    ensures
        3 <= nfa.spec_next(id, b) < nfa.spec_len(),
        nfa.path(nfa.spec_next(id, b) as int) == nfa.path(id).push(b),
        nfa.spec_depth(nfa.spec_next(id, b) as int) == nfa.spec_depth(id) + 1,
        nfa.parent(nfa.spec_next(id, b) as int) == id,
        nfa.path(nfa.spec_next(id, b) as int).last() == b,
{
    let n = nfa.patterns().len() as int;
    let t = nfa.spec_next(id, b) as int;
    assert(nfa.edge_ok(n, 0, id, b));
    assert(nfa.node_ok(n, 0, t));
    assert(nfa.path(id).push(b).drop_last() =~= nfa.path(id));
    assert(nfa.path(nfa.parent(t)) == nfa.path(id));
    assert(nfa.spec_depth(t) == nfa.path(t).len());
    assert(nfa.spec_depth(id) == nfa.path(id).len());
}

/// Every state beyond the start state is the child of its parent.
proof fn lemma_parent(nfa: NFA, s: int)
    requires
        nfa.ready(),
        3 <= s < nfa.spec_len(),
    ensures
        2 <= nfa.parent(s) < nfa.spec_len(),
        nfa.spec_depth(nfa.parent(s)) + 1 == nfa.spec_depth(s),
        nfa.spec_next(nfa.parent(s), nfa.path(s).last()) == s,
        nfa.spec_depth(s) >= 1,
{
    let n = nfa.patterns().len() as int;
    let t = nfa.parent(s);
    let c = nfa.path(s).last();
    assert(nfa.node_ok(n, 0, s));
    assert(nfa.spec_depth(s) == nfa.path(s).len());
    assert(nfa.spec_depth(t) == nfa.path(t).len());
    assert(nfa.path(t).push(c) =~= nfa.path(s));
    if t == START_ID {
        assert(nfa.start_edge_ok(c));
        assert(nfa.path(t) =~= Seq::<u8>::empty());
        assert(nfa.path(t).push(c) =~= seq![c]);
        let u = nfa.spec_next(START_ID as int, c) as int;
        assert(nfa.path(u) == nfa.path(s));
    } else {
        assert(nfa.edge_ok(n, 0, t, c));
        let u = nfa.spec_next(t, c) as int;
        assert(nfa.path(u) == nfa.path(s));
    }
}

/// One more byte of the start state looked at.
proof fn lemma_first_step(nfa: NFA, q: Seq<usize>, seen: Set<int>, b: u8)
    requires
        nfa.ready(),
        nfa.first_inv(q, seen, b as int),
    ensures
        nfa.spec_next(START_ID as int, b) != START_ID ==> nfa.first_inv(
            q.push(nfa.spec_next(START_ID as int, b)),
            seen.insert(nfa.spec_next(START_ID as int, b) as int),
            b + 1,
        ),
        nfa.spec_next(START_ID as int, b) == START_ID ==> nfa.first_inv(q, seen, b + 1),
{
    let next = nfa.spec_next(START_ID as int, b);
    assert(nfa.start_edge_ok(b));
    if next != START_ID {
        let q2 = q.push(next);
        let seen2 = seen.insert(next as int);
        assert(nfa.spec_depth(next as int) == nfa.path(next as int).len());
        assert forall|i: int| 0 <= i < q2.len() implies 3 <= #[trigger] q2[i] < nfa.spec_len()
            && seen2.contains(q2[i] as int) && nfa.spec_depth(q2[i] as int) == 1 && nfa.path(
            q2[i] as int,
        )[0] < b + 1 by {
            if i < q.len() {
                assert(q2[i] == q[i]);
            }
        }
        assert forall|i: int, j: int|
            #![trigger q2[i], q2[j]]
            0 <= i < j < q2.len() implies q2[i] != q2[j] by {
            assert(q2[i] == q[i]);
            if j < q.len() {
                assert(q2[j] == q[j]);
            }
        }
        assert forall|s: int| #[trigger] seen2.contains(s) implies 3 <= s < nfa.spec_len()
            && nfa.spec_depth(s) == 1 && exists|i: int| 0 <= i < q2.len() && #[trigger] q2[i]
            == s by {
            if s == next {
                assert(q2[q.len() as int] == s);
            } else {
                let i = choose|i: int| 0 <= i < q.len() && #[trigger] q[i] == s;
                assert(q2[i] == s);
            }
        }
    }
}

/// The children of the start state need no failure computation, so the search
/// may begin with them.
proof fn lemma_search_init(nfa: NFA, q: Seq<usize>, seen: Set<int>, it: TransitionCursor)
    requires
        nfa.looping(256, 256),
        nfa.first_inv(q, seen, 256),
    ensures
        nfa.search_inv(q, seen, Set::empty(), 1, -1, it),
{
    let pats = nfa.patterns();
    let n = nfa.spec_len();
    let k = pats.len() as int;
    let done = Set::<int>::empty();
    assert(nfa.ready());
    assert forall|s: int| 0 <= s < 3 implies (#[trigger] nfa.spec_matches(s)).len() == 0 by {
        if s == 2 {
            lemma_own_matches_empty(pats, nfa.path(2), pats.len());
        }
    }
    assert forall|s: int| 3 <= s < n && 1 <= nfa.spec_depth(s) <= 1
        implies #[trigger] seen.contains(
        s,
    ) by {
        lemma_parent(nfa, s);
        let t = nfa.parent(s);
        assert(nfa.spec_depth(t) == nfa.path(t).len());
        assert(nfa.path(t) == nfa.path(START_ID as int));
        let c = nfa.path(s).last();
        assert(nfa.spec_next(START_ID as int, c) == s);
    }
    assert forall|s: int| 3 <= s < n implies #[trigger] nfa.link_ok(
        q,
        seen,
        done,
        1,
        -1,
        it,
        s,
    ) by {
        assert(nfa.spec_matches(s) == own_matches(pats, nfa.path(s), k as nat));
        if seen.contains(s) {
            assert(nfa.spec_depth(s) == nfa.path(s).len());
            lemma_depth_one(pats, nfa.path(s));
            assert(fail_path(pats, nfa.path(s)) =~= nfa.path(START_ID as int));
        }
    }
    assert forall|i: int, j: int|
        #![trigger q[i], q[j]]
        0 <= i < j < q.len() implies nfa.spec_depth(q[i] as int) <= nfa.spec_depth(q[j] as int)
        && q[i] != q[j] by {}
}

/// The first failure link to try for a child of `id` is the link of `id`.
proof fn lemma_fail_init(
    nfa: NFA,
    q: Seq<usize>,
    seen: Set<int>,
    done: Set<int>,
    level: int,
    id: int,
    it: TransitionCursor,
    b: u8,
)
    requires
        nfa.search_inv(q, seen, done, level, id, it),
        id >= 0,
    ensures
        nfa.chain_ok(id, nfa.spec_fail(id) as int, b),
{
    let pats = nfa.patterns();
    let w = nfa.path(id);
    assert(nfa.link_ok(q, seen, done, level, id, it, id));
    assert(nfa.settled(id));
    assert(nfa.spec_depth(id) == w.len());
    lemma_chain_start(pats, w, b);
    let l1 = longest_len(pats, w, (w.len() - 1) as nat);
    assert(tail(w, l1 as int).len() == l1);
}

/// Where the current link cannot take byte `b`, its own link is tried next, and
/// that one is nearer to the start state.
proof fn lemma_fail_step(
    nfa: NFA,
    q: Seq<usize>,
    seen: Set<int>,
    done: Set<int>,
    level: int,
    id: int,
    it: TransitionCursor,
    fail: int,
    b: u8,
)
    requires
        nfa.search_inv(q, seen, done, level, id, it),
        id >= 0,
        nfa.chain_ok(id, fail, b),
        nfa.spec_next(fail, b) == FAIL_ID,
    ensures
        fail >= 3,
        nfa.chain_ok(id, nfa.spec_fail(fail) as int, b),
        nfa.path(nfa.spec_fail(fail) as int).len() < nfa.path(fail).len(),
{
    let pats = nfa.patterns();
    let n = pats.len() as int;
    let w = nfa.path(id);
    let f = nfa.path(fail);
    let fl = f.len();
    assert(nfa.start_edge_ok(b));
    assert(fail >= 3);
    assert(nfa.node_ok(n, 0, fail));
    assert(nfa.spec_depth(fail) == fl);
    assert(nfa.spec_depth(id) == w.len());
    assert(seen.contains(fail));
    assert(nfa.link_ok(q, seen, done, level, id, it, fail));
    assert(nfa.settled(fail));
    assert(nfa.edge_ok(n, 0, fail, b));
    let l2 = longest_len(pats, f, (fl - 1) as nat);
    lemma_longest_len_props(pats, f, (fl - 1) as nat);
    lemma_chain_step(pats, w, fl, b);
    lemma_tail_tail(w, fl as int, l2 as int);
    assert(tail(f, l2 as int).len() == l2);
}

/// The first link that can take byte `b` leads to the failure link of the child
/// of `id` on `b`, and that state has its matches already.
proof fn lemma_fail_end(
    nfa: NFA,
    q: Seq<usize>,
    seen: Set<int>,
    done: Set<int>,
    level: int,
    id: int,
    it: TransitionCursor,
    fail: int,
    b: u8,
)
    requires
        nfa.search_inv(q, seen, done, level, id, it),
        id >= 0,
        nfa.chain_ok(id, fail, b),
        nfa.spec_next(fail, b) != FAIL_ID,
    ensures
        2 <= nfa.spec_next(fail, b) < nfa.spec_len(),
        nfa.path(nfa.spec_next(fail, b) as int) == fail_path(
            nfa.patterns(),
            nfa.path(id).push(b),
        ),
        nfa.spec_depth(nfa.spec_next(fail, b) as int) <= level,
        nfa.spec_matches(nfa.spec_next(fail, b) as int) == match_list(
            nfa.patterns(),
            nfa.path(nfa.spec_next(fail, b) as int),
            nfa.path(nfa.spec_next(fail, b) as int).len(),
        ),
{
    let pats = nfa.patterns();
    let n = pats.len() as int;
    let w = nfa.path(id);
    let f = nfa.path(fail);
    let fl = f.len();
    let t = nfa.spec_next(fail, b) as int;
    assert(nfa.spec_depth(id) == w.len());
    lemma_tail_push(w, b, fl as int);
    if fail >= 3 {
        assert(nfa.edge_ok(n, 0, fail, b));
        assert(nfa.node_ok(n, 0, t));
        lemma_chain_end(pats, w, fl, b, fl + 1);
    } else {
        assert(nfa.start_edge_ok(b));
        assert(f =~= Seq::<u8>::empty());
        assert(tail(w, 0).push(b) =~= seq![b]);
        if in_trie(pats, seq![b]) {
            lemma_chain_end(pats, w, 0, b, 1);
        } else {
            lemma_chain_end(pats, w, 0, b, 0);
            assert(tail(w.push(b), 0) =~= Seq::<u8>::empty());
            assert(nfa.path(t) =~= tail(w.push(b), 0));
        }
    }
    assert(nfa.spec_depth(t) == nfa.path(t).len());
    if t >= 3 {
        assert(nfa.node_ok(n, 0, t));
        assert(seen.contains(t));
        assert(nfa.link_ok(q, seen, done, level, id, it, t));
    } else {
        assert(nfa.spec_matches(t).len() == 0);
        assert(nfa.spec_matches(t) =~= match_list(pats, nfa.path(t), 0));
    }
}

/// A child that the cursor has just come to was not reached before.
proof fn lemma_child_fresh(
    nfa: NFA,
    q: Seq<usize>,
    seen: Set<int>,
    done: Set<int>,
    level: int,
    id: int,
    it: TransitionCursor,
    b: u8,
)
    requires
        nfa.search_inv(q, seen, done, level, id, it),
        id >= 0,
        nfa.spec_next(id, b) != FAIL_ID,
        !it.covers(&nfa, b),
    ensures
        3 <= nfa.spec_next(id, b) < nfa.spec_len(),
        nfa.spec_depth(nfa.spec_next(id, b) as int) == level + 1,
        !seen.contains(nfa.spec_next(id, b) as int),
        nfa.raw_link(nfa.spec_next(id, b) as int),
        nfa.path(nfa.spec_next(id, b) as int) == nfa.path(id).push(b),
{
    let next = nfa.spec_next(id, b) as int;
    lemma_child(nfa, id, b);
    assert(nfa.link_ok(q, seen, done, level, id, it, next));
}

/// Once a child has its failure link and its matches, it joins the queue.
proof fn lemma_search_child(
    before: NFA,
    after: NFA,
    q: Seq<usize>,
    seen: Set<int>,
    done: Set<int>,
    level: int,
    id: int,
    it0: TransitionCursor,
    it1: TransitionCursor,
    b: u8,
    t: int,
)
    requires
        before.search_inv(q, seen, done, level, id, it0),
        id >= 0,
        before.spec_next(id, b) != FAIL_ID,
        it1.state_id == it0.state_id,
        !it0.covers(&before, b),
        it1.covers(&before, b),
        forall|c: u8| it0.covers(&before, c) ==> #[trigger] it1.covers(&before, c),
        forall|c: u8| #[trigger]
            it1.covers(&before, c) ==> it0.covers(&before, c) || c == b || before.spec_next(id, c)
                == FAIL_ID,
        after.same_structure(before),
        2 <= t < before.spec_len(),
        before.path(t) == fail_path(before.patterns(), before.path(id).push(b)),
        before.spec_depth(t) <= level,
        before.spec_matches(t) == match_list(
            before.patterns(),
            before.path(t),
            before.path(t).len(),
        ),
        after.spec_fail(before.spec_next(id, b) as int) == t,
        forall|s: int|
            0 <= s < before.spec_len() && s != before.spec_next(id, b) ==> after.spec_fail(s)
                == before.spec_fail(s),
        after.spec_matches(before.spec_next(id, b) as int) == before.spec_matches(
            before.spec_next(id, b) as int,
        ) + before.spec_matches(t),
        forall|s: int|
            0 <= s < before.spec_len() && s != before.spec_next(id, b) ==> after.spec_matches(s)
                == before.spec_matches(s),
    ensures
        after.search_inv(
            q.push(before.spec_next(id, b)),
            seen.insert(before.spec_next(id, b) as int),
            done,
            level,
            id,
            it1,
        ),
{
    let pats = before.patterns();
    let n = before.spec_len();
    let next = before.spec_next(id, b) as int;
    let q2 = q.push(next as usize);
    let seen2 = seen.insert(next);
    lemma_child_fresh(before, q, seen, done, level, id, it0, b);
    lemma_child(before, id, b);
    lemma_frame_ready(before, after);
    assert forall|s: int| 0 <= s < n implies after.path(s) == before.path(s) && after.parent(s)
        == before.parent(s) && after.spec_depth(s) == before.spec_depth(s) by {
        assert(after.states@[s].depth == before.states@[s].depth);
    }
    assert forall|s: int, c: u8| 0 <= s < n implies after.spec_next(s, c) == before.spec_next(
        s,
        c,
    ) by {
        assert(after.states@[s].trans == before.states@[s].trans);
    }
    assert forall|c: u8| it1.covers(&after, c) == it1.covers(&before, c) by {
        assert(after.states@[id].trans == before.states@[id].trans);
    }
    lemma_match_list_fail(pats, before.path(next));
    assert(after.settled(next));
    assert forall|i: int| 0 <= i < q.len() implies q2[i] == q[i] by {}
    assert(q2[q.len() as int] == next);
    assert forall|s: int| 3 <= s < n implies #[trigger] after.link_ok(
        q2,
        seen2,
        done,
        level,
        id,
        it1,
        s,
    ) by {
        assert(before.link_ok(q, seen, done, level, id, it0, s));
        if s == next {
        } else if seen.contains(s) {
            assert(before.seen_ok(q, done, level, id, it0, s));
            assert(before.settled(s));
            assert(after.settled(s));
            if !(done.contains(s) || s == id) {
                let i = choose|i: int| 0 <= i < q.len() && #[trigger] q[i] == s;
                assert(q2[i] == s);
            }
            if before.parent(s) == id && it0.covers(&before, before.path(s).last()) {
                assert(it1.covers(&before, before.path(s).last()));
            }
        } else {
        }
    }
    assert forall|i: int|
        0 <= i < q2.len() implies 3 <= #[trigger] q2[i] < n && seen2.contains(q2[i] as int)
        && !done.contains(q2[i] as int) && level <= after.spec_depth(q2[i] as int) <= level + 1
        && q2[i] != id by {
        if i < q.len() {
            assert(q2[i] == q[i]);
        }
    }
    assert forall|i: int, j: int|
        #![trigger q2[i], q2[j]]
        0 <= i < j < q2.len() implies after.spec_depth(q2[i] as int) <= after.spec_depth(
        q2[j] as int,
    ) && q2[i] != q2[j] by {
        assert(q2[i] == q[i]);
        if j < q.len() {
            assert(q2[j] == q[j]);
        }
    }
    assert forall|c: u8|
        3 <= id < n && #[trigger] it1.covers(&after, c) && after.spec_next(id, c)
            != FAIL_ID implies seen2.contains(after.spec_next(id, c) as int) by {
        assert(it1.covers(&before, c));
        if c != b {
            assert(it0.covers(&before, c));
        }
    }
    assert forall|u: int, c: u8|
        done.contains(u) && #[trigger] after.spec_next(u, c) != FAIL_ID implies seen2.contains(
        after.spec_next(u, c) as int,
    ) by {
        assert(seen.contains(u));
        assert(before.spec_next(u, c) != FAIL_ID);
    }
}

/// Once every child of the state in hand has joined the queue, the state is done.
proof fn lemma_search_done(
    before: NFA,
    after: NFA,
    q: Seq<usize>,
    seen: Set<int>,
    done: Set<int>,
    level: int,
    id: int,
    it: TransitionCursor,
    rest: TransitionCursor,
)
    requires
        before.search_inv(q, seen, done, level, id, it),
        id >= 0,
        forall|c: u8| #[trigger] it.covers(&before, c) || before.spec_next(id, c) == FAIL_ID,
        after.same_structure(before),
        forall|s: int| 0 <= s < before.spec_len() ==> after.spec_fail(s) == before.spec_fail(s),
        after.spec_matches(id) == before.spec_matches(id) + before.spec_matches(START_ID as int),
        forall|s: int|
            0 <= s < before.spec_len() && s != id ==> after.spec_matches(s) == before.spec_matches(
                s,
            ),
    ensures
        after.search_inv(q, seen, done.insert(id), level, -1, rest),
{
    let n = before.spec_len();
    let done2 = done.insert(id);
    lemma_frame_ready(before, after);
    assert forall|s: int| 0 <= s < n implies after.path(s) == before.path(s) && after.parent(s)
        == before.parent(s) && after.spec_depth(s) == before.spec_depth(s) by {
        assert(after.states@[s].depth == before.states@[s].depth);
    }
    assert forall|s: int, c: u8| 0 <= s < n implies after.spec_next(s, c) == before.spec_next(
        s,
        c,
    ) by {
        assert(after.states@[s].trans == before.states@[s].trans);
    }
    assert(before.spec_matches(START_ID as int).len() == 0);
    assert(before.spec_matches(id) + before.spec_matches(START_ID as int) =~= before.spec_matches(
        id,
    ));
    assert forall|s: int| 3 <= s < n implies #[trigger] after.link_ok(
        q,
        seen,
        done2,
        level,
        -1,
        rest,
        s,
    ) by {
        assert(before.link_ok(q, seen, done, level, id, it, s));
        if seen.contains(s) {
            assert(before.seen_ok(q, done, level, id, it, s));
            assert(after.settled(s));
        }
    }
    assert forall|u: int, c: u8|
        done2.contains(u) && #[trigger] after.spec_next(u, c) != FAIL_ID implies seen.contains(
        after.spec_next(u, c) as int,
    ) by {
        assert(before.spec_next(u, c) != FAIL_ID);
        if u == id {
            assert(it.covers(&before, c));
        }
    }
}

/// Taking the next state from the queue: where it lies one level deeper, every
/// state of the level above is done, so every state of its own level was reached.
proof fn lemma_search_pop(
    nfa: NFA,
    q: Seq<usize>,
    seen: Set<int>,
    done: Set<int>,
    level: int,
    it0: TransitionCursor,
    it: TransitionCursor,
)
    requires
        nfa.search_inv(q, seen, done, level, -1, it0),
        q.len() > 0,
        it.state_id == q[0],
        forall|c: u8| #[trigger] it.covers(&nfa, c) ==> nfa.spec_next(q[0] as int, c) == FAIL_ID,
    ensures
        nfa.search_inv(
            q.subrange(1, q.len() as int),
            seen,
            done,
            nfa.spec_depth(q[0] as int) as int,
            q[0] as int,
            it,
        ),
{
    let n = nfa.spec_len();
    let id = q[0] as int;
    let q2 = q.subrange(1, q.len() as int);
    let level2 = nfa.spec_depth(id) as int;
    assert forall|i: int| 0 <= i < q2.len() implies q2[i] == q[i + 1] by {}
    assert forall|s: int| 3 <= s < n && 1 <= nfa.spec_depth(s) <= level2
        implies #[trigger] seen.contains(
        s,
    ) by {
        if nfa.spec_depth(s) > level {
            lemma_parent(nfa, s);
            let t = nfa.parent(s);
            let c = nfa.path(s).last();
            assert(nfa.spec_depth(START_ID as int) == nfa.path(START_ID as int).len());
            assert(t >= 3);
            assert(seen.contains(t));
            assert(nfa.link_ok(q, seen, done, level, -1, it0, t));
            if !done.contains(t) {
                let i = choose|i: int| 0 <= i < q.len() && #[trigger] q[i] == t;
                if i > 0 {
                    assert(nfa.spec_depth(q[0] as int) <= nfa.spec_depth(q[i] as int));
                }
            }
        }
    }
    assert forall|s: int| 3 <= s < n implies #[trigger] nfa.link_ok(
        q2,
        seen,
        done,
        level2,
        id,
        it,
        s,
    ) by {
        assert(nfa.link_ok(q, seen, done, level, -1, it0, s));
        if seen.contains(s) {
            if !(done.contains(s) || s == id) {
                let i = choose|i: int| 0 <= i < q.len() && #[trigger] q[i] == s;
                assert(q2[i - 1] == s);
            }
            lemma_parent(nfa, s);
        }
    }
    assert forall|i: int|
        0 <= i < q2.len() implies 3 <= #[trigger] q2[i] < n && seen.contains(q2[i] as int)
        && !done.contains(q2[i] as int) && level2 <= nfa.spec_depth(q2[i] as int) <= level2 + 1
        && q2[i] != id by {
        assert(q2[i] == q[i + 1]);
        assert(nfa.spec_depth(q[0] as int) <= nfa.spec_depth(q[i + 1] as int) && q[0] != q[i + 1]);
    }
    assert forall|i: int, j: int|
        #![trigger q2[i], q2[j]]
        0 <= i < j < q2.len() implies nfa.spec_depth(q2[i] as int) <= nfa.spec_depth(
        q2[j] as int,
    ) && q2[i] != q2[j] by {
        assert(q2[i] == q[i + 1]);
        assert(q2[j] == q[j + 1]);
    }
}

/// With the queue empty and every reached state done, a state of any depth was
/// reached.
proof fn lemma_all_seen(
    nfa: NFA,
    q: Seq<usize>,
    seen: Set<int>,
    done: Set<int>,
    level: int,
    it: TransitionCursor,
    s: int,
)
    requires
        nfa.search_inv(q, seen, done, level, -1, it),
        q.len() == 0,
        3 <= s < nfa.spec_len(),
    ensures
        seen.contains(s),
    decreases nfa.spec_depth(s),
{
    lemma_parent(nfa, s);
    if nfa.spec_depth(s) > level {
        let t = nfa.parent(s);
        assert(nfa.spec_depth(START_ID as int) == nfa.path(START_ID as int).len());
        assert(t >= 3);
        lemma_all_seen(nfa, q, seen, done, level, it, t);
        assert(nfa.link_ok(q, seen, done, level, -1, it, t));
        assert(done.contains(t));
    }
}

/// When the queue runs empty the automaton is finished.
proof fn lemma_search_exit(
    nfa: NFA,
    q: Seq<usize>,
    seen: Set<int>,
    done: Set<int>,
    level: int,
    it: TransitionCursor,
)
    requires
        nfa.search_inv(q, seen, done, level, -1, it),
        q.len() == 0,
    ensures
        nfa.wf(),
{
    assert forall|s: int| 3 <= s < nfa.spec_len() implies #[trigger] nfa.settled(s) by {
        lemma_all_seen(nfa, q, seen, done, level, it, s);
        assert(nfa.link_ok(q, seen, done, level, -1, it, s));
    }
}

impl Compiler {
    /// Computes the failure links breadth first, and brings to each state the
    /// matches of the state that its link leads to.
    fn fill_failure_transitions_standard(&mut self)
        requires
            old(self).nfa.looping(256, 256),
        ensures
            final(self).nfa.wf(),
            final(self).nfa.patterns() == old(self).nfa.patterns(),
            final(self).nfa.spec_len() == old(self).nfa.spec_len(),
    {
        let mut queue: VecDeque<usize> = VecDeque::with_capacity(720);
        let ghost mut seen: Set<int> = Set::empty();
        let mut b: usize = 0;
        while b < 256
            invariant
                b <= 256,
                queue@.len() <= b,
                self.nfa == old(self).nfa,
                self.nfa.looping(256, 256),
                self.nfa.first_inv(queue@, seen, b as int),
            decreases 256 - b,
        {
            let next = self.nfa.start().next_state(b as u8);
            proof {
                lemma_first_step(self.nfa, queue@, seen, b as u8);
            }
            if next != START_ID {
                queue.push_back(next);
                proof {
                    seen = seen.insert(next as int);
                }
            }
            b += 1;
        }
        let ghost mut done: Set<int> = Set::empty();
        let ghost mut level: int = 1;
        let ghost idle = TransitionCursor { state_id: 0, cur: 0 };
        proof {
            lemma_search_init(self.nfa, queue@, seen, idle);
        }
        loop
            invariant
                self.nfa.search_inv(queue@, seen, done, level, -1, idle),
                self.nfa.patterns() == old(self).nfa.patterns(),
                self.nfa.spec_len() == old(self).nfa.spec_len(),
                done.finite(),
            ensures
                queue@.len() == 0,
            decreases self.nfa.spec_len() - done.len(),
        {
            let ghost full = queue@;
            let id = match queue.pop_front() {
                Some(id) => id,
                None => {
                    break ;
                },
            };
            let ghost popped = queue@;
            let mut it = self.nfa.iter_transitions(id);
            let ghost mut fin = it;
            proof {
                lemma_search_pop(self.nfa, full, seen, done, level, idle, it);
                level = self.nfa.spec_depth(id as int) as int;
            }
            loop
                invariant_except_break
                    self.nfa.search_inv(queue@, seen, done, level, id as int, it),
                    0 <= it.steps_left(&self.nfa),
                invariant
                    self.nfa.patterns() == old(self).nfa.patterns(),
                    self.nfa.spec_len() == old(self).nfa.spec_len(),
                    done.finite(),
                ensures
                    self.nfa.search_inv(queue@, seen, done, level, id as int, fin),
                    forall|c: u8| #[trigger]
                        fin.covers(&self.nfa, c) || self.nfa.spec_next(id as int, c) == FAIL_ID,
                decreases it.steps_left(&self.nfa),
            {
                let ghost it0 = it;
                let ghost waiting = queue@;
                let (b, next) = match it.next(&self.nfa) {
                    Some(pair) => pair,
                    None => {
                        proof {
                            fin = it0;
                        }
                        break ;
                    },
                };
                queue.push_back(next);

                proof {
                    lemma_child_fresh(self.nfa, waiting, seen, done, level, id as int, it0, b);
                    lemma_fail_init(self.nfa, waiting, seen, done, level, id as int, it0, b);
                }
                let mut fail = self.nfa.state(id).fail;
                while self.nfa.state(fail).next_state(b) == FAIL_ID
                    invariant
                        self.nfa.search_inv(waiting, seen, done, level, id as int, it0),
                        self.nfa.chain_ok(id as int, fail as int, b),
                    decreases self.nfa.path(fail as int).len(),
                {
                    proof {
                        lemma_fail_step(
                            self.nfa,
                            waiting,
                            seen,
                            done,
                            level,
                            id as int,
                            it0,
                            fail as int,
                            b,
                        );
                    }
                    fail = self.nfa.state(fail).fail;
                }
                proof {
                    lemma_fail_end(
                        self.nfa,
                        waiting,
                        seen,
                        done,
                        level,
                        id as int,
                        it0,
                        fail as int,
                        b,
                    );
                }
                fail = self.nfa.state(fail).next_state(b);
                let ghost before = self.nfa;
                self.nfa.state_mut(next).fail = fail;
                let ghost mid = self.nfa;
                self.nfa.copy_matches(fail, next);
                proof {
                    assert(self.nfa.same_structure(before)) by {
                        assert(mid.same_structure(before));
                    }
                    lemma_search_child(
                        before,
                        self.nfa,
                        waiting,
                        seen,
                        done,
                        level,
                        id as int,
                        it0,
                        it,
                        b,
                        fail as int,
                    );
                    assert(waiting.push(next) =~= queue@);
                    seen = seen.insert(next as int);
                    assert(it.steps_left(&self.nfa) == it.steps_left(&before));
                }
            }

            let ghost before = self.nfa;
            self.nfa.copy_empty_matches(id);
            proof {
                lemma_search_done(
                    before,
                    self.nfa,
                    queue@,
                    seen,
                    done,
                    level,
                    id as int,
                    fin,
                    idle,
                );
                lemma_int_range(3, self.nfa.spec_len());
                let done2 = done.insert(id as int);
                assert(done2.subset_of(set_int_range(3, self.nfa.spec_len()))) by {
                    assert forall|s: int| done2.contains(s) implies set_int_range(
                        3,
                        self.nfa.spec_len(),
                    ).contains(s) by {
                        assert(seen.contains(s));
                    }
                }
                lemma_len_subset(done2, set_int_range(3, self.nfa.spec_len()));
                done = done2;
            }
        }
        proof {
            lemma_search_exit(self.nfa, queue@, seen, done, level, idle);
        }
    }

    /// The automaton for a dictionary: the three reserved states, the trie, the
    /// loops at the start state and the dead state, then the failure links.
    fn compile(self, patterns: &Vec<Vec<u8>>) -> (nfa: NFA)
        requires
            self.nfa.states@.len() == 0,
            self.nfa.paths@.len() == 0,
            self.nfa.parents@.len() == 0,
            all_nonempty(dictionary(patterns@)),
        ensures
            nfa.wf(),
            nfa.patterns() == dictionary(patterns@),
            nfa.spec_len() == trie_states(dictionary(patterns@)),
    {
        let mut this = self;
        this.nfa.pats = Ghost(dictionary(patterns@));
        this.add_state(0, Ghost(Seq::empty()), Ghost(0));  // the fail state, which is never entered
        this.add_state(0, Ghost(Seq::empty()), Ghost(0));  // the dead state, which is never left
        this.add_state(0, Ghost(Seq::empty()), Ghost(0));  // the start state
        proof {
            let pats = this.nfa.patterns();
            assert forall|s: int, b: u8| 2 <= s < 3 implies #[trigger] this.nfa.edge_ok(
                0,
                0,
                s,
                b,
            ) by {
                let x = this.nfa.path(s).push(b);
                assert(x.len() == 1);
            }
            assert forall|s: int| 2 <= s < 3 implies #[trigger] this.nfa.spec_matches(s)
                == own_matches(pats, this.nfa.path(s), 0) by {
                assert(this.nfa.spec_matches(s) =~= Seq::empty());
            }
            assert(this.nfa.stage(0, 0));
        }
        this.build_trie(patterns);
        proof {
            assert(dictionary(patterns@).len() == patterns@.len());
        }
        this.add_start_state_loop();
        this.add_dead_state_loop();
        this.fill_failure_transitions_standard();
        this.nfa
    }
}

impl NFA {
    /// Builds the automaton for a dictionary of non-empty patterns.
    pub fn new(patterns: &Vec<Vec<u8>>) -> (nfa: Self)
        requires
            all_nonempty(dictionary(patterns@)),
        ensures
            nfa.wf(),
            nfa.patterns() == dictionary(patterns@),
            nfa.spec_len() == trie_states(dictionary(patterns@)),
    {
        Compiler::new().compile(patterns)
    }

    /// The number of states, the three reserved ones included.
    pub fn state_len(&self) -> (n: usize)
        ensures
            n == self.spec_len(),
    {
        self.states.len()
    }

    /// The match list of state `id`.
    pub fn matches(&self, id: usize) -> (m: &[(usize, usize)])
        requires
            id < self.spec_len(),
        ensures
            m@ == self.spec_matches(id as int),
    {
        self.states[id].matches.as_slice()
    }

    /// The target of state `id` on every byte, by rising byte: the fail sentinel
    /// where the state has no transition of its own.
    pub fn iter_all_transitions(&self, id: usize) -> (row: Vec<usize>)
        requires
            self.wf(),
            id < self.spec_len(),
        ensures
            row@.len() == ALPHABET_LEN,
            forall|b: u8| #[trigger] row@[b as int] == self.spec_next(id as int, b),
    {
        self.states[id].trans.iter_all()
    }

    /// The failure link of state `id`.
    pub fn failure_transition(&self, id: usize) -> (f: usize)
        requires
            id < self.spec_len(),
        ensures
            f == self.spec_fail(id as int),
    {
        self.states[id].fail
    }

    /// The target of state `current` on byte `input`, the fail sentinel where
    /// the state has no transition of its own.
    pub fn next_state(&self, current: usize, input: u8) -> (t: usize)
        requires
            self.wf(),
            current < self.spec_len(),
        ensures
            t == self.spec_next(current as int, input),
    {
        self.states[current].next_state(input)
    }
}

impl NFA {
    /// Every node of the dictionary's trie has its state. With the states from
    /// the start state on standing for different nodes, in the order in which
    /// the patterns bring the nodes, this fixes the number of every state.
    pub proof fn lemma_node_has_state(&self, w: Seq<u8>) -> (s: int)
        requires
            self.wf(),
            in_trie(self.patterns(), w),
        ensures
            2 <= s < self.spec_len(),
            self.path(s) == w,
        decreases w.len(),
    {
        let pats = self.patterns();
        let n = pats.len() as int;
        if w.len() == 0 {
            assert(self.path(START_ID as int) =~= w);
            START_ID as int
        } else {
            let u = w.drop_last();
            let b = w.last();
            assert(u.push(b) =~= w);
            lemma_trie_prefix_closed(pats, n, 0, u, b);
            let parent = self.lemma_node_has_state(u);
            if parent == START_ID {
                assert(self.start_edge_ok(b));
                assert(w =~= seq![b]);
            } else {
                assert(self.edge_ok(n, 0, parent, b));
            }
            self.spec_next(parent, b) as int
        }
    }
}

} // verus!
