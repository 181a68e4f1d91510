//! Counting over a table of words: an ordered map from each word of the
//! dictionary to its counter, filled from the chunks of a text.

use crate::ahocorasick::AhoCorasick;
use crate::chunks::{chunk_views, total_occurrences};
use crate::model::{dictionary, occurrences, supported};
use indexmap::map::IndexMap;
use vstd::prelude::*;

verus! {

/// `indexmap::map::IndexMap`, an insertion-ordered hash map. Nothing of its
/// inside is known here; what it holds is named by `table_entries`.
#[verifier::external_type_specification]
#[verifier::external_body]
#[verifier::reject_recursive_types(K)]
#[verifier::reject_recursive_types(V)]
#[verifier::reject_recursive_types(S)]
pub struct ExIndexMap<K, V, S>(IndexMap<K, V, S>);

/// The entries of a table of words, each word with its counter, in the order in
/// which `IndexMap` keeps them: that of insertion, where nothing was removed.
pub uninterp spec fn table_entries(words: IndexMap<Vec<u8>, u64>) -> Seq<(Seq<u8>, u64)>;

/// The words of a table, in its order.
pub open spec fn table_keys(words: IndexMap<Vec<u8>, u64>) -> Seq<Seq<u8>> {
    Seq::new(table_entries(words).len(), |i: int| table_entries(words)[i].0)
}

/// `IndexMap::len`: the number of entries of the table.
#[verifier::external_body]
fn table_len(words: &IndexMap<Vec<u8>, u64>) -> (n: usize)
    ensures
        n == table_entries(*words).len(),
{
    words.len()
}

/// `IndexMap::get_index`: the entry at place `index` of the table's order, and
/// nothing where the table has no such place.
#[verifier::external_body]
fn table_get(words: &IndexMap<Vec<u8>, u64>, index: usize) -> (entry: Option<(&Vec<u8>, &u64)>)
    ensures
        match entry {
            Some((key, value)) => index < table_entries(*words).len() && key@ == table_entries(
                *words,
            )[index as int].0 && *value == table_entries(*words)[index as int].1,
            None => index >= table_entries(*words).len(),
        },
{
    words.get_index(index)
}

/// `IndexMap::get_index_mut`: the counter at place `index` of the table's
/// order, for change, and nothing where the table has no such place. No other
/// entry changes, nor the word at that place.
#[verifier::external_body]
fn table_value_mut(words: &mut IndexMap<Vec<u8>, u64>, index: usize) -> (value: Option<&mut u64>)
    ensures
        match value {
            Some(v) => index < table_entries(*old(words)).len() && *v == table_entries(
                *old(words),
            )[index as int].1 && table_entries(*final(words)) == table_entries(
                *old(words),
            ).update(index as int, (table_entries(*old(words))[index as int].0, *final(v))),
            None => index >= table_entries(*old(words)).len() && table_entries(*final(words))
                == table_entries(*old(words)),
        },
{
    words.get_index_mut(index).map(|(_, v)| v)
}

/// The counter that holds `v` after any number of wrapping additions.
pub open spec fn wrapped(v: int) -> u64 {
    (v % 0x1_0000_0000_0000_0000) as u64
}

/// `after` is `before` with every counter raised, wrapping, by the number of
/// occurrences of its word in the chunks, each chunk taken by itself.
pub open spec fn counted(
    before: IndexMap<Vec<u8>, u64>,
    after: IndexMap<Vec<u8>, u64>,
    chunks: Seq<Seq<u8>>,
) -> bool {
    &&& table_entries(after).len() == table_entries(before).len()
    &&& forall|i: int|
        0 <= i < table_entries(before).len() ==> #[trigger] table_entries(after)[i] == (
            table_entries(before)[i].0,
            wrapped(
                table_entries(before)[i].1 + total_occurrences(table_entries(before)[i].0, chunks),
            ),
        )
}

/// A copy of the bytes of `src`.
fn copy_bytes(src: &Vec<u8>) -> (dst: Vec<u8>)
    ensures
        dst@ == src@,
{
    let mut dst: Vec<u8> = Vec::with_capacity(src.len());
    let mut k: usize = 0;
    while k < src.len()
        invariant
            k <= src@.len(),
            dst@ == src@.take(k as int),
        decreases src@.len() - k,
    {
        dst.push(src[k]);
        k += 1;
        assert(dst@ =~= src@.take(k as int));
    }
    assert(src@.take(src@.len() as int) =~= src@);
    dst
}

/// The words of the table, in its order.
fn table_patterns(words: &IndexMap<Vec<u8>, u64>) -> (patterns: Vec<Vec<u8>>)
    ensures
        dictionary(patterns@) == table_keys(*words),
{
    let mut patterns: Vec<Vec<u8>> = Vec::new();
    let n = table_len(words);
    let mut i: usize = 0;
    while i < n
        invariant
            i <= n,
            n == table_entries(*words).len(),
            patterns@.len() == i,
            forall|k: int| 0 <= k < i ==> (#[trigger] patterns@[k])@ == table_entries(*words)[k].0,
        decreases n - i,
    {
        if let Some((key, _)) = table_get(words, i) {
            patterns.push(copy_bytes(key));
        }
        i += 1;
    }
    assert(dictionary(patterns@) =~= table_keys(*words));
    patterns
}

/// A wrapping addition gives the wrapped sum.
proof fn lemma_wrapping_add(value: u64, count: u64)
    ensures
        vstd::wrapping::u64_specs::wrapping_add(value, count) == wrapped(value + count),
{
}

/// Wrapping a sum whose first part was wrapped before wraps the whole sum.
proof fn lemma_wrapped_twice(sum: int, count: int)
    requires
        sum >= 0,
        count >= 0,
    ensures
        wrapped(wrapped(sum) + count) == wrapped(sum + count),
{
    assert(((sum % 0x1_0000_0000_0000_0000) + count) % 0x1_0000_0000_0000_0000 == (sum + count)
        % 0x1_0000_0000_0000_0000) by (nonlinear_arith)
        requires
            sum >= 0,
            count >= 0,
    ;
}

/// Raises every counter of the table by the number of occurrences of its word
/// in `chunk`.
fn count_chunk(ac: &AhoCorasick, words: &mut IndexMap<Vec<u8>, u64>, chunk: &Vec<u8>)
    requires
        ac.patterns() == table_keys(*old(words)),
    ensures
        table_entries(*final(words)).len() == table_entries(*old(words)).len(),
        forall|i: int|
            0 <= i < table_entries(*old(words)).len() ==> #[trigger] table_entries(
                *final(words),
            )[i] == (
                table_entries(*old(words))[i].0,
                wrapped(
                    table_entries(*old(words))[i].1 + occurrences(
                        table_entries(*old(words))[i].0,
                        chunk@,
                    ),
                ),
            ),
{
    let counts = ac.count_overlapping(chunk.as_slice());
    let n = table_len(words);
    let mut j: usize = 0;
    while j < n
        invariant
            j <= n,
            n == table_entries(*old(words)).len(),
            table_entries(*words).len() == n,
            counts@.len() == n,
            ac.patterns() == table_keys(*old(words)),
            forall|i: int|
                0 <= i < n ==> #[trigger] counts@[i] == occurrences(ac.patterns()[i], chunk@),
            forall|i: int|
                0 <= i < n ==> #[trigger] table_entries(*words)[i] == (if i < j {
                    (
                        table_entries(*old(words))[i].0,
                        wrapped(
                            table_entries(*old(words))[i].1 + occurrences(
                                table_entries(*old(words))[i].0,
                                chunk@,
                            ),
                        ),
                    )
                } else {
                    table_entries(*old(words))[i]
                }),
        decreases n - j,
    {
        assert(ac.patterns()[j as int] == table_entries(*old(words))[j as int].0);
        if let Some(value) = table_value_mut(words, j) {
            proof {
                lemma_wrapping_add(*value, counts@[j as int]);
            }
            *value = value.wrapping_add(counts[j]);
        }
        j += 1;
    }
}

/// Raises every counter of the table by the number of occurrences of its word
/// in the chunks, each chunk scanned by itself.
fn count_chunks(ac: &AhoCorasick, words: &mut IndexMap<Vec<u8>, u64>, chunks: &Vec<Vec<u8>>)
    requires
        ac.patterns() == table_keys(*old(words)),
    ensures
        counted(*old(words), *final(words), chunk_views(chunks@)),
{
    let ghost all = chunk_views(chunks@);
    let mut c: usize = 0;
    proof {
        assert forall|i: int| 0 <= i < table_entries(*words).len() implies wrapped(
            table_entries(*words)[i].1 + total_occurrences(
                table_entries(*words)[i].0,
                all.take(0),
            ),
        ) == table_entries(*words)[i].1 by {
            assert(all.take(0).len() == 0);
        }
    }
    while c < chunks.len()
        invariant
            c <= chunks@.len(),
            all == chunk_views(chunks@),
            ac.patterns() == table_keys(*old(words)),
            counted(*old(words), *words, all.take(c as int)),
        decreases chunks@.len() - c,
    {
        let ghost before = *words;
        assert(table_keys(before) =~= table_keys(*old(words)));
        count_chunk(ac, words, &chunks[c]);
        proof {
            let done = all.take(c as int);
            let more = all.take(c + 1);
            assert(more.drop_last() =~= done);
            assert(more.last() == chunks@[c as int]@);
            assert forall|i: int|
                0 <= i < table_entries(*old(words)).len() implies #[trigger] table_entries(
                *words,
            )[i] == (
                table_entries(*old(words))[i].0,
                wrapped(
                    table_entries(*old(words))[i].1 + total_occurrences(
                        table_entries(*old(words))[i].0,
                        more,
                    ),
                ),
            ) by {
                let key = table_entries(*old(words))[i].0;
                assert(table_entries(before)[i] == (
                    key,
                    wrapped(table_entries(*old(words))[i].1 + total_occurrences(key, done)),
                ));
                lemma_wrapped_twice(
                    table_entries(*old(words))[i].1 + total_occurrences(key, done),
                    occurrences(key, chunks@[c as int]@) as int,
                );
            }
        }
        c += 1;
    }
    proof {
        assert(all.take(chunks@.len() as int) =~= all);
    }
}

/// Counts, for every word of the table, its occurrences in the chunks, each
/// chunk scanned by itself, and raises the word's counter by that number.
pub fn process(words: &mut IndexMap<Vec<u8>, u64>, chunks: &Vec<Vec<u8>>)
    requires
        supported(table_keys(*old(words))),
    ensures
        counted(*old(words), *final(words), chunk_views(chunks@)),
{
    let patterns = table_patterns(words);

    // Prepare the automaton.
    let ac = AhoCorasick::new(&patterns);

    count_chunks(&ac, words, chunks);
}

/// Counts as `process` does where the words of the table can be compiled, and
/// leaves the table as it is where they cannot: where a word is empty, or the
/// automaton of the words is too large for the machine.
pub fn try_process(words: &mut IndexMap<Vec<u8>, u64>, chunks: &Vec<Vec<u8>>) -> (done: bool)
    ensures
        done == supported(table_keys(*old(words))),
        done ==> counted(*old(words), *final(words), chunk_views(chunks@)),
        !done ==> table_entries(*final(words)) == table_entries(*old(words)),
{
    let patterns = table_patterns(words);
    match AhoCorasick::try_new(&patterns) {
        Some(ac) => {
            count_chunks(&ac, words, chunks);
            true
        },
        None => false,
    }
}

} // verus!
