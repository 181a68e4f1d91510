//! The mathematical model: what it means for a pattern to occur in a text, which
//! strings label the nodes of the dictionary's trie, and which matches a scan owes.

use vstd::prelude::*;

verus! {

/// One occurrence of a pattern, as the contracts see it: the pattern's index in
/// the dictionary, its length, and the offset one past its last byte.
pub struct Hit {
    pub pattern: int,
    pub len: int,
    pub end: int,
}

/// The last `l` bytes of `w`.
pub open spec fn tail(w: Seq<u8>, l: int) -> Seq<u8>
    recommends
        0 <= l <= w.len(),
{
    w.subrange(w.len() - l, w.len() as int)
}

/// `p` is an initial segment of `w`.
pub open spec fn is_prefix(p: Seq<u8>, w: Seq<u8>) -> bool {
    p.len() <= w.len() && w.subrange(0, p.len() as int) == p
}

/// The dictionary that a vector of patterns stands for.
pub open spec fn dictionary(v: Seq<Vec<u8>>) -> Seq<Seq<u8>> {
    Seq::new(v.len(), |i: int| v[i]@)
}

/// No pattern of the dictionary is the empty string.
pub open spec fn all_nonempty(pats: Seq<Seq<u8>>) -> bool {
    forall|i: int| 0 <= i < pats.len() ==> (#[trigger] pats[i]).len() > 0
}

/// `w` labels a node of the trie that holds the first `k` patterns and the first
/// `j` bytes of pattern `k`.
pub open spec fn in_trie_upto(pats: Seq<Seq<u8>>, k: int, j: int, w: Seq<u8>) -> bool {
    ||| w.len() == 0
    ||| exists|i: int| 0 <= i < k && i < pats.len() && is_prefix(w, #[trigger] pats[i])
    ||| (0 <= k < pats.len() && w.len() <= j && is_prefix(w, pats[k]))
}

/// The length of the longest prefix of pattern `k`, of at most `j` bytes, that
/// an earlier pattern begins with too.
pub open spec fn shared_len(pats: Seq<Seq<u8>>, k: int, j: nat) -> nat
    decreases j,
{
    if j == 0 {
        0
    } else if in_trie_upto(pats, k, 0, pats[k].take(j as int)) {
        j
    } else {
        shared_len(pats, k, (j - 1) as nat)
    }
}

/// The number of nodes that pattern `k` brings to the trie of the patterns
/// before it: its bytes beyond the longest prefix that it shares with one of
/// them.
pub open spec fn fresh_len(pats: Seq<Seq<u8>>, k: int) -> nat {
    (pats[k].len() - shared_len(pats, k, pats[k].len())) as nat
}

/// The number of nodes, the root not counted, of the trie of the first `k`
/// patterns.
pub open spec fn trie_nodes(pats: Seq<Seq<u8>>, k: nat) -> nat
    decreases k,
{
    if k == 0 {
        0
    } else {
        trie_nodes(pats, (k - 1) as nat) + fresh_len(pats, k - 1)
    }
}

/// The number of states of the automaton of a dictionary: the fail state, the
/// dead state, the start state, and one for every other node of the trie.
pub open spec fn trie_states(pats: Seq<Seq<u8>>) -> nat {
    3 + trie_nodes(pats, pats.len())
}

/// The number of nodes that the first `j` bytes of pattern `k` bring to the
/// trie of the patterns before it.
pub open spec fn fresh_upto(pats: Seq<Seq<u8>>, k: int, j: int) -> nat {
    if 0 <= k < pats.len() && j > shared_len(pats, k, pats[k].len()) {
        (j - shared_len(pats, k, pats[k].len())) as nat
    } else {
        0
    }
}

/// The dictionary can be compiled: no pattern is empty, and a table with a row
/// of 256 targets for every state of the automaton fits the machine.
pub open spec fn supported(pats: Seq<Seq<u8>>) -> bool {
    all_nonempty(pats) && 256 * trie_states(pats) <= usize::MAX
}

/// A string that begins a node of a trie is a node of it.
pub proof fn lemma_trie_take(pats: Seq<Seq<u8>>, k: int, w: Seq<u8>, j: int)
    requires
        0 <= j <= w.len(),
        in_trie_upto(pats, k, 0, w),
    ensures
        in_trie_upto(pats, k, 0, w.take(j)),
    decreases w.len() - j,
{
    if j < w.len() {
        lemma_trie_take(pats, k, w, j + 1);
        assert(w.take(j).push(w[j]) =~= w.take(j + 1));
        lemma_trie_prefix_closed(pats, k, 0, w.take(j), w[j]);
    } else {
        assert(w.take(j) =~= w);
    }
}

/// The prefixes of pattern `k` that earlier patterns begin with are those up to
/// the shared length.
pub proof fn lemma_shared_len(pats: Seq<Seq<u8>>, k: int, j: nat, i: int)
    requires
        0 <= k < pats.len(),
        0 <= i <= j <= pats[k].len(),
    ensures
        shared_len(pats, k, j) <= j,
        in_trie_upto(pats, k, 0, pats[k].take(i)) <==> i <= shared_len(pats, k, j),
    decreases j,
{
    if j > 0 {
        if in_trie_upto(pats, k, 0, pats[k].take(j as int)) {
            lemma_trie_take(pats, k, pats[k].take(j as int), i);
            assert(pats[k].take(j as int).take(i) =~= pats[k].take(i));
        } else if i < j {
            lemma_shared_len(pats, k, (j - 1) as nat, i);
        } else {
            lemma_shared_len(pats, k, (j - 1) as nat, 0);
        }
    }
}

/// The sum of the lengths of the first `k` patterns.
pub open spec fn total_len(pats: Seq<Seq<u8>>, k: nat) -> nat
    decreases k,
{
    if k == 0 {
        0
    } else {
        total_len(pats, (k - 1) as nat) + pats[k - 1].len()
    }
}

/// A trie has at most one node, beside its root, for every byte of its
/// patterns.
pub proof fn lemma_trie_nodes_bound(pats: Seq<Seq<u8>>, k: nat)
    requires
        k <= pats.len(),
    ensures
        trie_nodes(pats, k) <= total_len(pats, k),
    decreases k,
{
    if k > 0 {
        lemma_trie_nodes_bound(pats, (k - 1) as nat);
        lemma_shared_len(pats, k - 1, pats[k - 1].len(), 0);
    }
}

/// A dictionary of non-empty patterns can be compiled where a table with a row
/// for the three reserved states and for every byte of every pattern fits the
/// machine.
pub proof fn lemma_supported_by_length(pats: Seq<Seq<u8>>)
    requires
        all_nonempty(pats),
        256 * (3 + total_len(pats, pats.len())) <= usize::MAX,
    ensures
        supported(pats),
{
    lemma_trie_nodes_bound(pats, pats.len());
}

/// A byte of pattern `k` that needs a new node adds one to the nodes that the
/// pattern brings.
pub proof fn lemma_fresh_step_new(pats: Seq<Seq<u8>>, k: int, j: int)
    requires
        0 <= k < pats.len(),
        0 <= j < pats[k].len(),
        !in_trie_upto(pats, k, j, pats[k].take(j + 1)),
    ensures
        fresh_upto(pats, k, j + 1) == fresh_upto(pats, k, j) + 1,
{
    lemma_shared_len(pats, k, pats[k].len(), j + 1);
}

/// A byte of pattern `k` that finds its node adds nothing to the nodes that
/// the pattern brings.
pub proof fn lemma_fresh_step_old(pats: Seq<Seq<u8>>, k: int, j: int)
    requires
        0 <= k < pats.len(),
        0 <= j < pats[k].len(),
        in_trie_upto(pats, k, j, pats[k].take(j + 1)),
    ensures
        fresh_upto(pats, k, j + 1) == fresh_upto(pats, k, j),
{
    lemma_shared_len(pats, k, pats[k].len(), j + 1);
    lemma_shared_len(pats, k, pats[k].len(), j);
}

/// With pattern `k` added whole, the trie has the nodes of the first `k + 1`
/// patterns.
pub proof fn lemma_fresh_done(pats: Seq<Seq<u8>>, k: int)
    requires
        0 <= k < pats.len(),
    ensures
        trie_nodes(pats, k as nat) + fresh_upto(pats, k, pats[k].len() as int) == trie_nodes(
            pats,
            (k + 1) as nat,
        ) + fresh_upto(pats, k + 1, 0),
        fresh_upto(pats, k, 0) == 0,
{
    lemma_shared_len(pats, k, pats[k].len(), 0);
}

/// The index of the first pattern, from `k` on, that `w` begins, and the number
/// of patterns where none does.
pub open spec fn first_holder(pats: Seq<Seq<u8>>, w: Seq<u8>, k: nat) -> nat
    decreases pats.len() - k,
{
    if k >= pats.len() {
        pats.len()
    } else if is_prefix(w, pats[k as int]) {
        k
    } else {
        first_holder(pats, w, k + 1)
    }
}

/// `u` becomes a node of the trie before `v` does, where the patterns are added
/// one after the other and each byte by byte: the first pattern that `u` begins
/// comes earlier, or it is the same pattern and `u` is shorter.
pub open spec fn node_before(pats: Seq<Seq<u8>>, u: Seq<u8>, v: Seq<u8>) -> bool {
    let a = first_holder(pats, u, 0);
    let b = first_holder(pats, v, 0);
    a < b || (a == b && u.len() < v.len())
}

/// What the first holder is: a pattern that `w` begins, with none before it
/// from `k` on.
pub proof fn lemma_first_holder(pats: Seq<Seq<u8>>, w: Seq<u8>, k: nat)
    requires
        k <= pats.len(),
    ensures
        k <= first_holder(pats, w, k) <= pats.len(),
        first_holder(pats, w, k) < pats.len() ==> is_prefix(
            w,
            pats[first_holder(pats, w, k) as int],
        ),
        forall|i: int| k <= i < first_holder(pats, w, k) ==> !is_prefix(w, #[trigger] pats[i]),
    decreases pats.len() - k,
{
    if k < pats.len() && !is_prefix(w, pats[k as int]) {
        lemma_first_holder(pats, w, k + 1);
    }
}

/// The prefix that pattern `k` brings to the trie with its byte `j` becomes a
/// node after every node that the trie had.
pub proof fn lemma_new_node_last(pats: Seq<Seq<u8>>, k: int, j: int, u: Seq<u8>)
    requires
        0 <= k < pats.len(),
        0 <= j < pats[k].len(),
        u.len() >= 1,
        in_trie_upto(pats, k, j, u),
        !in_trie_upto(pats, k, j, pats[k].take(j + 1)),
    ensures
        node_before(pats, u, pats[k].take(j + 1)),
{
    let v = pats[k].take(j + 1);
    assert(pats[k].subrange(0, j + 1) =~= v);
    lemma_first_holder(pats, v, 0);
    lemma_first_holder(pats, u, 0);
    let a = first_holder(pats, u, 0);
    let b = first_holder(pats, v, 0);
    if b < k {
        assert(0 <= b < k && is_prefix(v, pats[b as int]));
    }
    if b > k {
        assert(!is_prefix(v, pats[k]));
    }
    if exists|i: int| 0 <= i < k && i < pats.len() && is_prefix(u, #[trigger] pats[i]) {
        let i = choose|i: int| 0 <= i < k && i < pats.len() && is_prefix(u, #[trigger] pats[i]);
        if a > i {
            assert(!is_prefix(u, pats[i]));
        }
    } else {
        if a > k {
            assert(!is_prefix(u, pats[k]));
        }
    }
}

/// `w` labels a node of the dictionary's trie: it is empty or begins a pattern.
pub open spec fn in_trie(pats: Seq<Seq<u8>>, w: Seq<u8>) -> bool {
    in_trie_upto(pats, pats.len() as int, 0, w)
}

/// The length of the longest suffix of `w`, of at most `l` bytes, that labels a
/// node of the trie.
pub open spec fn longest_len(pats: Seq<Seq<u8>>, w: Seq<u8>, l: nat) -> nat
    decreases l,
{
    if l == 0 {
        0
    } else if l <= w.len() && in_trie(pats, tail(w, l as int)) {
        l
    } else {
        longest_len(pats, w, (l - 1) as nat)
    }
}

/// The longest suffix of `w` that labels a node of the trie.
pub open spec fn longest_suffix(pats: Seq<Seq<u8>>, w: Seq<u8>) -> Seq<u8> {
    tail(w, longest_len(pats, w, w.len()) as int)
}

/// The longest suffix of `w`, shorter than `w`, that labels a node of the trie.
pub open spec fn fail_path(pats: Seq<Seq<u8>>, w: Seq<u8>) -> Seq<u8>
    recommends
        w.len() > 0,
{
    tail(w, longest_len(pats, w, (w.len() - 1) as nat) as int)
}

/// The patterns among the first `k` that equal `s`, by rising index, each as the
/// pair of its index and its length.
pub open spec fn own_matches(pats: Seq<Seq<u8>>, s: Seq<u8>, k: nat) -> Seq<(usize, usize)>
    decreases k,
{
    if k == 0 {
        Seq::empty()
    } else {
        let rest = own_matches(pats, s, (k - 1) as nat);
        if k <= pats.len() && pats[k - 1] == s {
            rest.push(((k - 1) as usize, s.len() as usize))
        } else {
            rest
        }
    }
}

/// The patterns that end where `w` ends and have at most `l` bytes: longer ones
/// first, equal ones by rising index.
pub open spec fn match_list(pats: Seq<Seq<u8>>, w: Seq<u8>, l: nat) -> Seq<(usize, usize)>
    decreases l,
{
    if l == 0 {
        Seq::empty()
    } else {
        own_matches(pats, tail(w, l as int), pats.len()) + match_list(pats, w, (l - 1) as nat)
    }
}

/// A string that begins a pattern still begins it after losing its last byte.
pub proof fn lemma_prefix_drop(x: Seq<u8>, b: u8, q: Seq<u8>)
    requires
        is_prefix(x.push(b), q),
    ensures
        is_prefix(x, q),
        q[x.len() as int] == b,
{
    let xb = x.push(b);
    assert(q.subrange(0, xb.len() as int)[x.len() as int] == xb[x.len() as int]);
    assert forall|i: int| 0 <= i < x.len() implies q.subrange(0, x.len() as int)[i] == x[i] by {
        assert(q.subrange(0, xb.len() as int)[i] == xb[i]);
    }
    assert(q.subrange(0, x.len() as int) =~= x);
}

/// The nodes of a trie are closed under dropping the last byte.
pub proof fn lemma_trie_prefix_closed(pats: Seq<Seq<u8>>, k: int, j: int, x: Seq<u8>, b: u8)
    requires
        in_trie_upto(pats, k, j, x.push(b)),
    ensures
        in_trie_upto(pats, k, j, x),
{
    let xb = x.push(b);
    if exists|i: int| 0 <= i < k && i < pats.len() && is_prefix(xb, #[trigger] pats[i]) {
        let i = choose|i: int| 0 <= i < k && i < pats.len() && is_prefix(xb, #[trigger] pats[i]);
        lemma_prefix_drop(x, b, pats[i]);
    } else {
        lemma_prefix_drop(x, b, pats[k]);
    }
}

/// Taking one more byte of pattern `k` into the trie adds one node at most: the
/// prefix of that length.
pub proof fn lemma_trie_step(pats: Seq<Seq<u8>>, k: int, j: int, w: Seq<u8>)
    requires
        0 <= k < pats.len(),
        0 <= j < pats[k].len(),
    ensures
        in_trie_upto(pats, k, j + 1, w) <==> in_trie_upto(pats, k, j, w) || w == pats[k].take(
            j + 1,
        ),
{
    let q = pats[k];
    assert(q.subrange(0, j + 1) =~= q.take(j + 1));
    if w == q.take(j + 1) {
        assert(is_prefix(w, q));
    }
    if in_trie_upto(pats, k, j + 1, w) && !in_trie_upto(pats, k, j, w) {
        assert(w.len() == j + 1);
        assert(w =~= q.take(j + 1));
    }
}

/// Once pattern `k` is in the trie whole, the trie holds the first `k + 1`
/// patterns.
pub proof fn lemma_trie_next_pattern(pats: Seq<Seq<u8>>, k: int, w: Seq<u8>)
    requires
        0 <= k < pats.len(),
    ensures
        in_trie_upto(pats, k, pats[k].len() as int, w) <==> in_trie_upto(pats, k + 1, 0, w),
{
    if in_trie_upto(pats, k, pats[k].len() as int, w) {
        if exists|i: int| 0 <= i < k && i < pats.len() && is_prefix(w, #[trigger] pats[i]) {
            let i = choose|i: int| 0 <= i < k && i < pats.len() && is_prefix(w, #[trigger] pats[i]);
            assert(0 <= i < k + 1 && is_prefix(w, pats[i]));
        } else if w.len() > 0 {
            assert(0 <= k < k + 1 && is_prefix(w, pats[k]));
        }
    }
    if in_trie_upto(pats, k + 1, 0, w) {
        if w.len() > 0 {
            if k + 1 < pats.len() && w.len() <= 0 && is_prefix(w, pats[k + 1]) {
            } else {
                let i = choose|i: int|
                    0 <= i < k + 1 && i < pats.len() && is_prefix(w, #[trigger] pats[i]);
                if i < k {
                    assert(0 <= i < k && is_prefix(w, pats[i]));
                }
            }
        }
    }
}

/// Two strings that agree after a byte was appended to each agreed before, and
/// the bytes agree.
pub proof fn lemma_push_injective(x: Seq<u8>, c: u8, y: Seq<u8>, b: u8)
    requires
        x.push(c) == y.push(b),
    ensures
        x == y,
        c == b,
{
    assert(x.push(c).drop_last() =~= x);
    assert(y.push(b).drop_last() =~= y);
    assert(x.push(c).last() == c);
    assert(y.push(b).last() == b);
}

/// A string that is no node of the trie of the first `k` patterns is none of them.
pub proof fn lemma_own_matches_outside(pats: Seq<Seq<u8>>, w: Seq<u8>, k: int, j: int)
    requires
        0 <= k <= pats.len(),
        !in_trie_upto(pats, k, j, w),
    ensures
        own_matches(pats, w, k as nat) == Seq::<(usize, usize)>::empty(),
    decreases k,
{
    if k > 0 {
        assert(!in_trie_upto(pats, k - 1, j, w)) by {
            if in_trie_upto(pats, k - 1, j, w) {
                if exists|i: int|
                    0 <= i < k - 1 && i < pats.len() && is_prefix(w, #[trigger] pats[i]) {
                    let i = choose|i: int|
                        0 <= i < k - 1 && i < pats.len() && is_prefix(w, #[trigger] pats[i]);
                    assert(0 <= i < k && is_prefix(w, pats[i]));
                } else {
                    assert(0 <= k - 1 < k && is_prefix(w, pats[k - 1]));
                }
            }
        }
        lemma_own_matches_outside(pats, w, k - 1, j);
        if pats[k - 1] == w {
            assert(w.subrange(0, w.len() as int) =~= w);
            assert(0 <= k - 1 < k && is_prefix(w, pats[k - 1]));
        }
    }
}

/// Where no pattern is empty, none equals the empty string.
pub proof fn lemma_own_matches_empty(pats: Seq<Seq<u8>>, w: Seq<u8>, k: nat)
    requires
        all_nonempty(pats),
        w.len() == 0,
        k <= pats.len(),
    ensures
        own_matches(pats, w, k) == Seq::<(usize, usize)>::empty(),
    decreases k,
{
    if k > 0 {
        lemma_own_matches_empty(pats, w, (k - 1) as nat);
        assert(pats[k - 1].len() > 0);
    }
}

/// A suffix of a suffix is a suffix.
pub proof fn lemma_tail_tail(w: Seq<u8>, m: int, l: int)
    requires
        0 <= l <= m <= w.len(),
    ensures
        tail(tail(w, m), l) == tail(w, l),
{
    assert(tail(tail(w, m), l) =~= tail(w, l));
}

/// The suffixes of a string with one more byte are those of the string, each
/// with that byte.
pub proof fn lemma_tail_push(w: Seq<u8>, b: u8, l: int)
    requires
        0 <= l <= w.len(),
    ensures
        tail(w.push(b), l + 1) == tail(w, l).push(b),
{
    assert(tail(w.push(b), l + 1) =~= tail(w, l).push(b));
}

/// The longest suffix of at most `m` bytes has at most `m` bytes and is a node.
pub proof fn lemma_longest_len_props(pats: Seq<Seq<u8>>, w: Seq<u8>, m: nat)
    requires
        m <= w.len(),
    ensures
        longest_len(pats, w, m) <= m,
        in_trie(pats, tail(w, longest_len(pats, w, m) as int)),
    decreases m,
{
    if m > 0 && !in_trie(pats, tail(w, m as int)) {
        lemma_longest_len_props(pats, w, (m - 1) as nat);
    }
}

/// No suffix of at most `m` bytes that is a node is longer than the longest.
pub proof fn lemma_longest_len_max(pats: Seq<Seq<u8>>, w: Seq<u8>, m: nat, l: nat)
    requires
        l <= m <= w.len(),
        in_trie(pats, tail(w, l as int)),
    ensures
        l <= longest_len(pats, w, m),
    decreases m,
{
    if m > 0 && !in_trie(pats, tail(w, m as int)) {
        lemma_longest_len_max(pats, w, (m - 1) as nat, l);
    }
}

/// A suffix that is a node, with no longer one of at most `m` bytes, is the
/// longest.
pub proof fn lemma_longest_len_is(pats: Seq<Seq<u8>>, w: Seq<u8>, m: nat, l0: nat)
    requires
        l0 <= m <= w.len(),
        in_trie(pats, tail(w, l0 as int)),
        forall|l: int| l0 < l <= m ==> !in_trie(pats, #[trigger] tail(w, l)),
    ensures
        longest_len(pats, w, m) == l0,
    decreases m,
{
    if m > l0 {
        assert(!in_trie(pats, tail(w, m as int)));
        lemma_longest_len_is(pats, w, (m - 1) as nat, l0);
    }
}

/// The matches of at most `l` bytes depend on the last `m >= l` bytes alone.
pub proof fn lemma_match_list_tail(pats: Seq<Seq<u8>>, w: Seq<u8>, m: nat, l: nat)
    requires
        l <= m <= w.len(),
    ensures
        match_list(pats, tail(w, m as int), l) == match_list(pats, w, l),
    decreases l,
{
    if l > 0 {
        lemma_tail_tail(w, m as int, l as int);
        lemma_match_list_tail(pats, w, m, (l - 1) as nat);
    }
}

/// Suffixes that are no nodes of the trie contribute no match.
pub proof fn lemma_match_list_skip(pats: Seq<Seq<u8>>, w: Seq<u8>, m: nat)
    requires
        m <= w.len(),
    ensures
        match_list(pats, w, m) == match_list(pats, w, longest_len(pats, w, m)),
    decreases m,
{
    if m > 0 && !in_trie(pats, tail(w, m as int)) {
        lemma_own_matches_outside(pats, tail(w, m as int), pats.len() as int, 0);
        lemma_match_list_skip(pats, w, (m - 1) as nat);
        assert(Seq::<(usize, usize)>::empty() + match_list(pats, w, (m - 1) as nat)
            =~= match_list(pats, w, (m - 1) as nat));
    }
}

/// The patterns that end where `w` ends are those that equal `w`, then those
/// that end where the longest proper suffix of `w` in the trie ends.
pub proof fn lemma_match_list_fail(pats: Seq<Seq<u8>>, w: Seq<u8>)
    requires
        w.len() > 0,
    ensures
        match_list(pats, w, w.len()) == own_matches(pats, w, pats.len()) + match_list(
            pats,
            fail_path(pats, w),
            fail_path(pats, w).len(),
        ),
{
    let m = (w.len() - 1) as nat;
    let l0 = longest_len(pats, w, m);
    assert(tail(w, w.len() as int) =~= w);
    lemma_longest_len_props(pats, w, m);
    lemma_match_list_skip(pats, w, m);
    lemma_match_list_tail(pats, w, l0, l0);
}

/// No proper suffix of `w` longer than `fl` bytes can take byte `b` in the trie.
pub open spec fn chain_clear(pats: Seq<Seq<u8>>, w: Seq<u8>, fl: int, b: u8) -> bool {
    forall|l: int| fl < l < w.len() ==> !in_trie(pats, (#[trigger] tail(w, l)).push(b))
}

/// The start of a chain of failure links: no proper suffix longer than the
/// longest one in the trie can take any byte.
pub proof fn lemma_chain_start(pats: Seq<Seq<u8>>, w: Seq<u8>, b: u8)
    requires
        w.len() > 0,
    ensures
        longest_len(pats, w, (w.len() - 1) as nat) < w.len(),
        chain_clear(pats, w, longest_len(pats, w, (w.len() - 1) as nat) as int, b),
{
    let m = (w.len() - 1) as nat;
    let l1 = longest_len(pats, w, m);
    lemma_longest_len_props(pats, w, m);
    assert forall|l: int| l1 < l < w.len() implies !in_trie(
        pats,
        (#[trigger] tail(w, l)).push(b),
    ) by {
        if in_trie(pats, tail(w, l).push(b)) {
            lemma_trie_prefix_closed(pats, pats.len() as int, 0, tail(w, l), b);
            lemma_longest_len_max(pats, w, m, l as nat);
        }
    }
}

/// One step down a chain of failure links: where the current suffix cannot take
/// byte `b`, nor any longer proper suffix, then none longer than the next link.
pub proof fn lemma_chain_step(pats: Seq<Seq<u8>>, w: Seq<u8>, f_len: nat, b: u8)
    requires
        1 <= f_len < w.len(),
        !in_trie(pats, tail(w, f_len as int).push(b)),
        chain_clear(pats, w, f_len as int, b),
    ensures
        chain_clear(
            pats,
            w,
            longest_len(pats, tail(w, f_len as int), (f_len - 1) as nat) as int,
            b,
        ),
{
    let f = tail(w, f_len as int);
    let l1 = longest_len(pats, f, (f_len - 1) as nat);
    assert forall|l: int| l1 < l < w.len() implies !in_trie(
        pats,
        (#[trigger] tail(w, l)).push(b),
    ) by {
        if l < f_len {
            lemma_tail_tail(w, f_len as int, l);
            if in_trie(pats, tail(w, l).push(b)) {
                lemma_trie_prefix_closed(pats, pats.len() as int, 0, tail(w, l), b);
                lemma_longest_len_max(pats, f, (f_len - 1) as nat, l as nat);
            }
        }
    }
}

/// The end of a chain of failure links: the first suffix that can take byte `b`
/// gives, with `b`, the longest proper suffix of `w` with `b` that is a node.
pub proof fn lemma_chain_end(pats: Seq<Seq<u8>>, w: Seq<u8>, f_len: nat, b: u8, t_len: nat)
    requires
        f_len < w.len(),
        chain_clear(pats, w, f_len as int, b),
        (t_len == f_len + 1 && in_trie(pats, tail(w, f_len as int).push(b))) || (f_len == 0
            && t_len == 0 && !in_trie(pats, seq![b])),
    ensures
        fail_path(pats, w.push(b)) == tail(w.push(b), t_len as int),
{
    let wb = w.push(b);
    let m = w.len();
    lemma_tail_push(w, b, f_len as int);
    assert(tail(wb, 0) =~= Seq::<u8>::empty());
    assert forall|l: int| t_len < l <= m implies !in_trie(pats, #[trigger] tail(wb, l)) by {
        lemma_tail_push(w, b, l - 1);
        if l - 1 == 0 {
            assert(tail(w, 0).push(b) =~= seq![b]);
        } else {
            assert(f_len < l - 1 < w.len());
            assert(!in_trie(pats, tail(w, l - 1).push(b)));
        }
    }
    lemma_longest_len_is(pats, wb, m, t_len);
}

/// A state one step from the start state needs no failure computation: its
/// link is the start state, and its matches are the patterns of its one byte.
pub proof fn lemma_depth_one(pats: Seq<Seq<u8>>, w: Seq<u8>)
    requires
        w.len() == 1,
    ensures
        fail_path(pats, w).len() == 0,
        match_list(pats, w, 1) == own_matches(pats, w, pats.len()),
{
    assert(tail(w, 1) =~= w);
    assert(match_list(pats, w, 0) =~= Seq::<(usize, usize)>::empty());
    assert(own_matches(pats, w, pats.len()) + Seq::<(usize, usize)>::empty() =~= own_matches(
        pats,
        w,
        pats.len(),
    ));
    reveal_with_fuel(match_list, 2);
}

/// A node of the trie is its own longest suffix in the trie.
pub proof fn lemma_in_trie_longest(pats: Seq<Seq<u8>>, x: Seq<u8>)
    requires
        in_trie(pats, x),
    ensures
        longest_suffix(pats, x) == x,
{
    assert(tail(x, x.len() as int) =~= x);
    assert(tail(x, 0) =~= Seq::<u8>::empty());
    if x.len() == 0 {
        assert(x =~= Seq::<u8>::empty());
    }
}

/// A byte that begins no pattern has the empty string as its longest suffix in
/// the trie.
pub proof fn lemma_longest_suffix_single(pats: Seq<Seq<u8>>, b: u8)
    requires
        !in_trie(pats, seq![b]),
    ensures
        longest_suffix(pats, seq![b]) == Seq::<u8>::empty(),
{
    let x = seq![b];
    assert(tail(x, 1) =~= x);
    assert(tail(x, 0) =~= Seq::<u8>::empty());
    reveal_with_fuel(longest_len, 2);
}

/// Lengths whose suffixes are no nodes can be left out of the search for the
/// longest suffix.
pub proof fn lemma_longest_len_cut(pats: Seq<Seq<u8>>, x: Seq<u8>, top: nat, m: nat)
    requires
        m <= top <= x.len(),
        forall|l: int| m < l <= top ==> !in_trie(pats, #[trigger] tail(x, l)),
    ensures
        longest_len(pats, x, top) == longest_len(pats, x, m),
    decreases top,
{
    if top > m {
        assert(!in_trie(pats, tail(x, top as int)));
        lemma_longest_len_cut(pats, x, (top - 1) as nat, m);
    }
}

/// The longest suffix of at most `l` bytes is found in the last `m >= l` bytes.
pub proof fn lemma_longest_len_tail(pats: Seq<Seq<u8>>, x: Seq<u8>, m: nat, l: nat)
    requires
        l <= m <= x.len(),
    ensures
        longest_len(pats, tail(x, m as int), l) == longest_len(pats, x, l),
    decreases l,
{
    if l > 0 {
        lemma_tail_tail(x, m as int, l as int);
        lemma_longest_len_tail(pats, x, m, (l - 1) as nat);
    }
}

/// Where no suffix of more than `m` bytes is a node, the longest suffix in the
/// trie is that of the last `m` bytes.
pub proof fn lemma_longest_restrict(pats: Seq<Seq<u8>>, x: Seq<u8>, m: nat)
    requires
        m <= x.len(),
        forall|l: int| m < l <= x.len() ==> !in_trie(pats, #[trigger] tail(x, l)),
    ensures
        longest_suffix(pats, x) == longest_suffix(pats, tail(x, m as int)),
{
    lemma_longest_len_cut(pats, x, x.len(), m);
    lemma_longest_len_tail(pats, x, m, m);
    let l = longest_len(pats, x, m);
    lemma_longest_len_props(pats, x, m);
    lemma_tail_tail(x, m as int, l as int);
}

/// The step of the automaton: the longest suffix in the trie after one more byte
/// is found from the longest suffix before it.
pub proof fn lemma_suffix_step(pats: Seq<Seq<u8>>, w: Seq<u8>, b: u8)
    ensures
        longest_suffix(pats, w.push(b)) == longest_suffix(pats, longest_suffix(pats, w).push(b)),
{
    let x = w.push(b);
    let m0 = longest_len(pats, w, w.len());
    lemma_longest_len_props(pats, w, w.len());
    lemma_tail_push(w, b, m0 as int);
    assert forall|l: int| m0 + 1 < l <= x.len() implies !in_trie(pats, #[trigger] tail(x, l)) by {
        lemma_tail_push(w, b, l - 1);
        if in_trie(pats, tail(w, l - 1).push(b)) {
            lemma_trie_prefix_closed(pats, pats.len() as int, 0, tail(w, l - 1), b);
            lemma_longest_len_max(pats, w, w.len(), (l - 1) as nat);
        }
    }
    lemma_longest_restrict(pats, x, m0 + 1);
}

/// The step over a failure link: where a node cannot take byte `b`, the longest
/// suffix in the trie is found from the node's longest proper suffix in it.
pub proof fn lemma_fail_suffix_step(pats: Seq<Seq<u8>>, w: Seq<u8>, b: u8)
    requires
        w.len() >= 1,
        !in_trie(pats, w.push(b)),
    ensures
        longest_suffix(pats, w.push(b)) == longest_suffix(pats, fail_path(pats, w).push(b)),
        fail_path(pats, w).len() < w.len(),
{
    let x = w.push(b);
    let top = (w.len() - 1) as nat;
    let m1 = longest_len(pats, w, top);
    lemma_longest_len_props(pats, w, top);
    lemma_tail_push(w, b, m1 as int);
    assert forall|l: int| m1 + 1 < l <= x.len() implies !in_trie(pats, #[trigger] tail(x, l)) by {
        lemma_tail_push(w, b, l - 1);
        if l - 1 == w.len() {
            assert(tail(w, l - 1) =~= w);
        } else if in_trie(pats, tail(w, l - 1).push(b)) {
            lemma_trie_prefix_closed(pats, pats.len() as int, 0, tail(w, l - 1), b);
            lemma_longest_len_max(pats, w, top, (l - 1) as nat);
        }
    }
    lemma_longest_restrict(pats, x, m1 + 1);
}

/// The entries of a match list as occurrences that end before offset `e`.
pub open spec fn tag(ms: Seq<(usize, usize)>, e: int) -> Seq<Hit> {
    Seq::new(ms.len(), |i: int| Hit { pattern: ms[i].0 as int, len: ms[i].1 as int, end: e })
}

/// The occurrences that end before offset `e` of `x`: longer patterns first,
/// equal ones by rising index.
pub open spec fn hits_at(pats: Seq<Seq<u8>>, x: Seq<u8>, e: int) -> Seq<Hit> {
    tag(match_list(pats, x.take(e), e as nat), e)
}

/// The occurrences that end before one of the offsets `1..=e` of `x`, by rising
/// end.
pub open spec fn hits_upto(pats: Seq<Seq<u8>>, x: Seq<u8>, e: nat) -> Seq<Hit>
    decreases e,
{
    if e == 0 {
        Seq::empty()
    } else {
        hits_upto(pats, x, (e - 1) as nat) + hits_at(pats, x, e as int)
    }
}

/// Every occurrence of a pattern of the dictionary in `x`, in the order in
/// which an overlapping scan reports them.
pub open spec fn all_hits(pats: Seq<Seq<u8>>, x: Seq<u8>) -> Seq<Hit> {
    hits_upto(pats, x, x.len())
}

/// The matches that end where `w` ends are those of its longest suffix in the
/// trie.
pub proof fn lemma_match_list_longest(pats: Seq<Seq<u8>>, w: Seq<u8>)
    ensures
        match_list(pats, w, w.len()) == match_list(
            pats,
            longest_suffix(pats, w),
            longest_suffix(pats, w).len(),
        ),
{
    let l = longest_len(pats, w, w.len());
    lemma_longest_len_props(pats, w, w.len());
    lemma_match_list_skip(pats, w, w.len());
    lemma_match_list_tail(pats, w, l, l);
}

/// The reports up to an offset begin the reports up to any later offset.
pub proof fn lemma_hits_prefix(pats: Seq<Seq<u8>>, x: Seq<u8>, e: nat, top: nat)
    requires
        e <= top,
    ensures
        hits_upto(pats, x, e).len() <= hits_upto(pats, x, top).len(),
        hits_upto(pats, x, top).take(hits_upto(pats, x, e).len() as int) == hits_upto(pats, x, e),
    decreases top,
{
    if e < top {
        lemma_hits_prefix(pats, x, e, (top - 1) as nat);
        let a = hits_upto(pats, x, (top - 1) as nat);
        let b = hits_at(pats, x, top as int);
        let n = hits_upto(pats, x, e).len() as int;
        assert((a + b).take(n) =~= a.take(n));
    } else {
        assert(hits_upto(pats, x, top).take(hits_upto(pats, x, e).len() as int) =~= hits_upto(
            pats,
            x,
            e,
        ));
    }
}

/// Where no pattern ends before any offset after `from` up to `to`, the reports
/// up to `to` are those up to `from`.
pub proof fn lemma_hits_gap(pats: Seq<Seq<u8>>, x: Seq<u8>, from: nat, to: nat)
    requires
        from <= to,
        forall|e: int| from < e <= to ==> (#[trigger] hits_at(pats, x, e)).len() == 0,
    ensures
        hits_upto(pats, x, to) == hits_upto(pats, x, from),
    decreases to,
{
    if from < to {
        lemma_hits_gap(pats, x, from, (to - 1) as nat);
        assert(hits_at(pats, x, to as int).len() == 0);
        assert(hits_upto(pats, x, (to - 1) as nat) + hits_at(pats, x, to as int) =~= hits_upto(
            pats,
            x,
            (to - 1) as nat,
        ));
    }
}

/// The report at place `i` among those that end before offset `e` stands, in
/// the whole sequence, behind all reports with an earlier end.
pub proof fn lemma_hits_index(pats: Seq<Seq<u8>>, x: Seq<u8>, e: nat, i: int)
    requires
        1 <= e <= x.len(),
        0 <= i < hits_at(pats, x, e as int).len(),
    ensures
        hits_upto(pats, x, (e - 1) as nat).len() + i < all_hits(pats, x).len(),
        all_hits(pats, x)[hits_upto(pats, x, (e - 1) as nat).len() + i] == hits_at(
            pats,
            x,
            e as int,
        )[i],
{
    lemma_hits_prefix(pats, x, e, x.len());
    let a = hits_upto(pats, x, (e - 1) as nat);
    let b = hits_at(pats, x, e as int);
    let all = all_hits(pats, x);
    assert(hits_upto(pats, x, e) == a + b);
    assert(all.take((a + b).len() as int)[a.len() + i] == (a + b)[a.len() + i]);
}

/// Pattern `p` stands in `x` from offset `i` on.
pub open spec fn occurs_at(p: Seq<u8>, x: Seq<u8>, i: int) -> bool {
    0 <= i && i + p.len() <= x.len() && x.subrange(i, i + p.len()) == p
}

/// The number of offsets below `n` from which `p` stands in `x`.
pub open spec fn occurrences_below(p: Seq<u8>, x: Seq<u8>, n: nat) -> nat
    decreases n,
{
    if n == 0 {
        0
    } else {
        occurrences_below(p, x, (n - 1) as nat) + if occurs_at(p, x, n - 1) {
            1nat
        } else {
            0nat
        }
    }
}

/// The number of occurrences of `p` in `x`, overlapping ones included: the
/// offsets `i` in `[0, |x| - |p|]` with `x[i..i + |p|] == p`.
pub open spec fn occurrences(p: Seq<u8>, x: Seq<u8>) -> nat {
    if p.len() > x.len() {
        0
    } else {
        occurrences_below(p, x, (x.len() - p.len() + 1) as nat)
    }
}

/// The number of reports in `hits` that name pattern `i`.
pub open spec fn count_pattern(hits: Seq<Hit>, i: int) -> nat
    decreases hits.len(),
{
    if hits.len() == 0 {
        0
    } else {
        count_pattern(hits.drop_last(), i) + if hits.last().pattern == i {
            1nat
        } else {
            0nat
        }
    }
}

/// Counting is additive over concatenation.
pub proof fn lemma_count_concat(a: Seq<Hit>, b: Seq<Hit>, i: int)
    ensures
        count_pattern(a + b, i) == count_pattern(a, i) + count_pattern(b, i),
    decreases b.len(),
{
    if b.len() == 0 {
        assert(a + b =~= a);
    } else {
        assert((a + b).drop_last() =~= a + b.drop_last());
        lemma_count_concat(a, b.drop_last(), i);
    }
}

/// Among the patterns equal to `s`, each index is reported once.
pub proof fn lemma_count_own(pats: Seq<Seq<u8>>, s: Seq<u8>, k: nat, e: int, i: int)
    requires
        k <= pats.len() <= usize::MAX,
    ensures
        count_pattern(tag(own_matches(pats, s, k), e), i) == (if 0 <= i < k && pats[i] == s {
            1nat
        } else {
            0nat
        }),
    decreases k,
{
    if k > 0 {
        lemma_count_own(pats, s, (k - 1) as nat, e, i);
        let rest = own_matches(pats, s, (k - 1) as nat);
        if pats[k - 1] == s {
            let m = ((k - 1) as usize, s.len() as usize);
            assert(tag(rest.push(m), e).drop_last() =~= tag(rest, e));
        }
    }
}

/// Among the patterns that end where `w` ends, with at most `l` bytes, each
/// index is reported once.
pub proof fn lemma_count_list(pats: Seq<Seq<u8>>, w: Seq<u8>, l: nat, e: int, i: int)
    requires
        l <= w.len(),
        0 <= i < pats.len() <= usize::MAX,
    ensures
        count_pattern(tag(match_list(pats, w, l), e), i) == (if 1 <= pats[i].len() <= l && tail(
            w,
            pats[i].len() as int,
        ) == pats[i] {
            1nat
        } else {
            0nat
        }),
    decreases l,
{
    if l > 0 {
        let own = own_matches(pats, tail(w, l as int), pats.len());
        let rest = match_list(pats, w, (l - 1) as nat);
        lemma_count_list(pats, w, (l - 1) as nat, e, i);
        lemma_count_own(pats, tail(w, l as int), pats.len(), e, i);
        assert(tag(own + rest, e) =~= tag(own, e) + tag(rest, e));
        lemma_count_concat(tag(own, e), tag(rest, e), i);
    }
}

/// Up to each end offset, a pattern is reported as often as it occurs.
pub proof fn lemma_count_hits(pats: Seq<Seq<u8>>, x: Seq<u8>, e: nat, i: int)
    requires
        e <= x.len(),
        0 <= i < pats.len() <= usize::MAX,
        pats[i].len() >= 1,
    ensures
        count_pattern(hits_upto(pats, x, e), i) == (if e < pats[i].len() {
            0nat
        } else {
            occurrences_below(pats[i], x, (e - pats[i].len() + 1) as nat)
        }),
    decreases e,
{
    if e > 0 {
        let p = pats[i];
        lemma_count_hits(pats, x, (e - 1) as nat, i);
        lemma_count_concat(hits_upto(pats, x, (e - 1) as nat), hits_at(pats, x, e as int), i);
        lemma_count_list(pats, x.take(e as int), e, e as int, i);
        if p.len() <= e {
            let from = (e - p.len()) as nat;
            assert(tail(x.take(e as int), p.len() as int) =~= x.subrange(from as int, e as int));
            assert(occurs_at(p, x, from as int) <==> tail(x.take(e as int), p.len() as int) == p);
            assert(occurrences_below(p, x, 0) == 0);
            assert(occurrences_below(p, x, from + 1)
                == occurrences_below(p, x, from) + if occurs_at(
                p,
                x,
                from as int,
            ) {
                1nat
            } else {
                0nat
            });
        }
    }
}

/// Overlap correctness: an overlapping scan reports each pattern of the
/// dictionary as often as it occurs in the text.
pub proof fn lemma_count_is_occurrences(pats: Seq<Seq<u8>>, x: Seq<u8>, i: int)
    requires
        all_nonempty(pats),
        0 <= i < pats.len() <= usize::MAX,
    ensures
        count_pattern(all_hits(pats, x), i) == occurrences(pats[i], x),
{
    lemma_count_hits(pats, x, x.len(), i);
}

/// Duplicate stability: two entries of the dictionary with the same bytes are
/// reported equally often, as often as those bytes occur.
pub proof fn lemma_duplicates_agree(pats: Seq<Seq<u8>>, x: Seq<u8>, i: int, j: int)
    requires
        all_nonempty(pats),
        0 <= i < pats.len() <= usize::MAX,
        0 <= j < pats.len(),
        pats[i] == pats[j],
    ensures
        count_pattern(all_hits(pats, x), i) == count_pattern(all_hits(pats, x), j),
        count_pattern(all_hits(pats, x), i) == occurrences(pats[i], x),
{
    lemma_count_is_occurrences(pats, x, i);
    lemma_count_is_occurrences(pats, x, j);
}

/// A pattern occurs from at most as many offsets as are looked at.
pub proof fn lemma_occurrences_bound(p: Seq<u8>, x: Seq<u8>, n: nat)
    ensures
        occurrences_below(p, x, n) <= n,
    decreases n,
{
    if n > 0 {
        lemma_occurrences_bound(p, x, (n - 1) as nat);
    }
}

/// The reports name patterns of the dictionary.
pub proof fn lemma_own_matches_range(pats: Seq<Seq<u8>>, s: Seq<u8>, k: nat, j: int)
    requires
        k <= pats.len() <= usize::MAX,
        0 <= j < own_matches(pats, s, k).len(),
    ensures
        0 <= own_matches(pats, s, k)[j].0 < pats.len(),
    decreases k,
{
    if k > 0 {
        let rest = own_matches(pats, s, (k - 1) as nat);
        if j < rest.len() {
            lemma_own_matches_range(pats, s, (k - 1) as nat, j);
        }
    }
}

/// The reports name patterns of the dictionary.
pub proof fn lemma_match_list_range(pats: Seq<Seq<u8>>, w: Seq<u8>, l: nat, j: int)
    requires
        pats.len() <= usize::MAX,
        0 <= j < match_list(pats, w, l).len(),
    ensures
        0 <= match_list(pats, w, l)[j].0 < pats.len(),
    decreases l,
{
    if l > 0 {
        let own = own_matches(pats, tail(w, l as int), pats.len());
        if j < own.len() {
            lemma_own_matches_range(pats, tail(w, l as int), pats.len(), j);
        } else {
            lemma_match_list_range(pats, w, (l - 1) as nat, j - own.len());
        }
    }
}

/// The reports name patterns of the dictionary.
pub proof fn lemma_hits_range(pats: Seq<Seq<u8>>, x: Seq<u8>, e: nat, j: int)
    requires
        pats.len() <= usize::MAX,
        0 <= j < hits_upto(pats, x, e).len(),
    ensures
        0 <= hits_upto(pats, x, e)[j].pattern < pats.len(),
    decreases e,
{
    if e > 0 {
        let before = hits_upto(pats, x, (e - 1) as nat);
        if j < before.len() {
            lemma_hits_range(pats, x, (e - 1) as nat, j);
        } else {
            lemma_match_list_range(pats, x.take(e as int), e, j - before.len());
        }
    }
}

/// The first reports name a pattern at most as often as all reports do.
pub proof fn lemma_count_take(hits: Seq<Hit>, n: int, i: int)
    requires
        0 <= n <= hits.len(),
    ensures
        count_pattern(hits.take(n), i) <= count_pattern(hits, i),
        n < hits.len() ==> count_pattern(hits.take(n + 1), i) == count_pattern(hits.take(n), i)
            + if hits[n].pattern == i {
            1nat
        } else {
            0nat
        },
{
    assert(hits.take(n) + hits.skip(n) =~= hits);
    lemma_count_concat(hits.take(n), hits.skip(n), i);
    if n < hits.len() {
        assert(hits.take(n + 1).drop_last() =~= hits.take(n));
    }
}

/// Looking at offsets from which `p` cannot fit any more finds nothing new.
pub proof fn lemma_occurrences_extend(p: Seq<u8>, x: Seq<u8>, n: nat)
    requires
        p.len() >= 1,
        n + p.len() >= x.len() + 1,
    ensures
        occurrences_below(p, x, n) == occurrences(p, x),
    decreases n,
{
    if n + p.len() > x.len() + 1 && n > 0 {
        lemma_occurrences_extend(p, x, (n - 1) as nat);
    } else if n == 0 {
        assert(occurrences_below(p, x, 0) == 0);
    }
}

/// The bytes from offset `i` on, as many as `p` has, are the same in `a + b` as
/// in `b` from offset `i - |a|` on.
proof fn lemma_occurs_in_second(p: Seq<u8>, a: Seq<u8>, b: Seq<u8>, j: int)
    requires
        0 <= j,
    ensures
        occurs_at(p, a + b, a.len() + j) <==> occurs_at(p, b, j),
{
    if j + p.len() <= b.len() {
        assert((a + b).subrange(a.len() + j, a.len() + j + p.len()) =~= b.subrange(
            j,
            j + p.len(),
        ));
    }
}

/// Counting in `a + b` from the end of `a` on is counting in `b`.
proof fn lemma_occurrences_second(p: Seq<u8>, a: Seq<u8>, b: Seq<u8>, n: nat)
    ensures
        occurrences_below(p, a + b, a.len() + n) == occurrences_below(p, a + b, a.len())
            + occurrences_below(p, b, n),
    decreases n,
{
    if n > 0 {
        lemma_occurrences_second(p, a, b, (n - 1) as nat);
        lemma_occurs_in_second(p, a, b, n - 1);
    }
}

/// Counting in `a + b` below the end of `a` is counting in `a`, where no
/// occurrence begins in `a` and ends in `b`.
proof fn lemma_occurrences_first(p: Seq<u8>, a: Seq<u8>, b: Seq<u8>, n: nat)
    requires
        p.len() >= 1,
        n <= a.len(),
        forall|i: int| #[trigger] occurs_at(p, a + b, i) ==> !(i < a.len() < i + p.len()),
    ensures
        occurrences_below(p, a + b, n) == occurrences_below(p, a, n),
    decreases n,
{
    if n > 0 {
        lemma_occurrences_first(p, a, b, (n - 1) as nat);
        let i = n - 1;
        if i + p.len() <= a.len() {
            assert((a + b).subrange(i, i + p.len()) =~= a.subrange(i, i + p.len()));
        } else {
            assert(!occurs_at(p, a + b, i));
        }
    }
}

/// A pattern occurs in `a + b` as often as in `a` and in `b` together, where
/// no occurrence begins in `a` and ends in `b`.
pub proof fn lemma_occurrences_split(p: Seq<u8>, a: Seq<u8>, b: Seq<u8>)
    requires
        p.len() >= 1,
        forall|i: int| #[trigger] occurs_at(p, a + b, i) ==> !(i < a.len() < i + p.len()),
    ensures
        occurrences(p, a + b) == occurrences(p, a) + occurrences(p, b),
{
    let x = a + b;
    lemma_occurrences_extend(p, x, x.len() + 1);
    lemma_occurrences_second(p, a, b, b.len() + 1);
    lemma_occurrences_extend(p, b, b.len() + 1);
    lemma_occurrences_first(p, a, b, a.len());
    lemma_occurrences_extend(p, a, a.len());
}

} // verus!
