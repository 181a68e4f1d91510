//! Line-aligned chunks of a text: what they are, why counting chunk by chunk
//! loses nothing, and the rule by which a reader closes one chunk and begins
//! the next.

use crate::model::{lemma_occurrences_split, occurrences, occurs_at};
use vstd::prelude::*;

verus! {

/// The byte that ends a line.
pub const LINE_FEED: u8 = 10;

/// The most lines that a chunk holds where nothing else is asked for.
pub const LINE_LIMIT: u64 = 10000;

/// The chunks one after the other, as one text.
pub open spec fn joined(chunks: Seq<Seq<u8>>) -> Seq<u8>
    decreases chunks.len(),
{
    if chunks.len() == 0 {
        Seq::empty()
    } else {
        joined(chunks.drop_last()) + chunks.last()
    }
}

/// The chunks that a vector of buffers stands for.
pub open spec fn chunk_views(v: Seq<Vec<u8>>) -> Seq<Seq<u8>> {
    Seq::new(v.len(), |i: int| v[i]@)
}

/// The number of line ends in `x`.
pub open spec fn line_ends(x: Seq<u8>) -> nat
    decreases x.len(),
{
    if x.len() == 0 {
        0
    } else {
        line_ends(x.drop_last()) + if x.last() == LINE_FEED {
            1nat
        } else {
            0nat
        }
    }
}

/// The number of lines in `x`, a last line without its end included.
pub open spec fn line_count(x: Seq<u8>) -> nat {
    if x.len() > 0 && x.last() != LINE_FEED {
        line_ends(x) + 1
    } else {
        line_ends(x)
    }
}

/// Every chunk but the last ends with the end of a line.
pub open spec fn line_aligned(chunks: Seq<Seq<u8>>) -> bool {
    forall|k: int|
        0 <= k < chunks.len() - 1 ==> (#[trigger] chunks[k]).len() > 0 && chunks[k].last()
            == LINE_FEED
}

/// The occurrences of `p` in the chunks, each chunk taken by itself.
pub open spec fn total_occurrences(p: Seq<u8>, chunks: Seq<Seq<u8>>) -> nat
    decreases chunks.len(),
{
    if chunks.len() == 0 {
        0
    } else {
        total_occurrences(p, chunks.drop_last()) + occurrences(p, chunks.last())
    }
}

/// An occurrence of `p` from offset `i` of the joined text begins before the
/// start of chunk `k` and ends after it.
pub open spec fn straddles(p: Seq<u8>, chunks: Seq<Seq<u8>>, k: int, i: int) -> bool {
    let cut = joined(chunks.take(k)).len();
    occurs_at(p, joined(chunks), i) && i < cut < i + p.len()
}

/// No occurrence of `p` in the joined text lies across the start of a chunk.
pub open spec fn no_straddle(p: Seq<u8>, chunks: Seq<Seq<u8>>) -> bool {
    forall|k: int, i: int| 0 < k < chunks.len() ==> !#[trigger] straddles(p, chunks, k, i)
}

/// `p` has no line end but, at most, as its last byte.
pub open spec fn ends_lines_only_last(p: Seq<u8>) -> bool {
    forall|j: int| 0 <= j < p.len() - 1 ==> p[j] != LINE_FEED
}

/// The first chunks joined begin the text of all chunks joined.
pub proof fn lemma_joined_prefix(chunks: Seq<Seq<u8>>, k: int)
    requires
        0 <= k <= chunks.len(),
    ensures
        joined(chunks.take(k)).len() <= joined(chunks).len(),
        joined(chunks).take(joined(chunks.take(k)).len() as int) == joined(chunks.take(k)),
    decreases chunks.len(),
{
    if k == chunks.len() {
        assert(chunks.take(k) =~= chunks);
        assert(joined(chunks).take(joined(chunks).len() as int) =~= joined(chunks));
    } else {
        let front = chunks.drop_last();
        lemma_joined_prefix(front, k);
        assert(front.take(k) =~= chunks.take(k));
        let n = joined(chunks.take(k)).len() as int;
        assert((joined(front) + chunks.last()).take(n) =~= joined(front).take(n));
    }
}

/// Order independence of partitioning: where no occurrence of `p` lies across
/// the start of a chunk, the chunks taken one by one hold as many occurrences
/// as the whole text.
pub proof fn lemma_partition_counts(p: Seq<u8>, chunks: Seq<Seq<u8>>)
    requires
        p.len() >= 1,
        no_straddle(p, chunks),
    ensures
        total_occurrences(p, chunks) == occurrences(p, joined(chunks)),
    decreases chunks.len(),
{
    if chunks.len() > 0 {
        let m = chunks.len() as int;
        let front = chunks.drop_last();
        let a = joined(front);
        let b = chunks.last();
        assert(chunks.take(m - 1) =~= front);
        assert forall|k: int, i: int| 0 < k < front.len() implies !#[trigger] straddles(
            p,
            front,
            k,
            i,
        ) by {
            assert(front.take(k) =~= chunks.take(k));
            if occurs_at(p, a, i) {
                assert((a + b).subrange(i, i + p.len()) =~= a.subrange(i, i + p.len()));
            }
            assert(!straddles(p, chunks, k, i));
        }
        lemma_partition_counts(p, front);
        assert forall|i: int| #[trigger] occurs_at(p, a + b, i) implies !(i < a.len() < i
            + p.len()) by {
            if m >= 2 {
                assert(!straddles(p, chunks, m - 1, i));
            }
        }
        lemma_occurrences_split(p, a, b);
    }
}

/// Line-aligned chunks never cut an occurrence of a pattern that has no line
/// end before its last byte.
pub proof fn lemma_lines_never_straddle(p: Seq<u8>, chunks: Seq<Seq<u8>>)
    requires
        line_aligned(chunks),
        ends_lines_only_last(p),
    ensures
        no_straddle(p, chunks),
{
    let x = joined(chunks);
    assert forall|k: int, i: int| 0 < k < chunks.len() implies !#[trigger] straddles(
        p,
        chunks,
        k,
        i,
    ) by {
        let cut = joined(chunks.take(k)).len() as int;
        if occurs_at(p, x, i) && i < cut < i + p.len() {
            lemma_joined_prefix(chunks, k);
            let head = chunks.take(k);
            assert(head.last() == chunks[k - 1]);
            assert(joined(head) == joined(head.drop_last()) + head.last());
            assert(joined(head)[cut - 1] == chunks[k - 1].last());
            assert(x.take(cut)[cut - 1] == x[cut - 1]);
            assert(x.subrange(i, i + p.len())[cut - 1 - i] == x[cut - 1]);
            assert(p[cut - 1 - i] == LINE_FEED);
        }
    }
}

/// What a reader of chunks does after a read.
#[derive(Clone, Copy, Debug, PartialEq, Eq, Structural)]
pub enum ChunkAction {
    /// The chunk takes more lines: read on.
    ReadOn,
    /// The chunk is complete: hand it out and begin an empty one.
    Yield,
    /// The stream is at its end and nothing is pending: stop.
    Stop,
}

/// The rule by which lines are gathered into chunks of at most `limit` lines.
#[derive(Clone, Copy, Debug)]
pub struct ChunkedLines {
    limit: u64,
    lines: u64,
}

impl ChunkedLines {
    /// The most lines of a chunk.
    pub closed spec fn spec_limit(&self) -> u64 {
        self.limit
    }

    /// The lines gathered in the pending chunk.
    pub closed spec fn spec_lines(&self) -> u64 {
        self.lines
    }

    /// The rule for chunks of at most `limit` lines, no line gathered yet.
    pub fn new(limit: u64) -> (r: Self)
        ensures
            r.spec_limit() == limit,
            r.spec_lines() == 0,
    {
        ChunkedLines { limit, lines: 0 }
    }

    /// Decides what follows a read of `read` bytes (none at the end of the
    /// stream) that left `pending` bytes in the chunk: a chunk is handed out
    /// when it has `limit` lines (a chunk has one line at least), or at the end
    /// of the stream if anything is pending.
    pub fn step(&mut self, read: usize, pending: usize) -> (action: ChunkAction)
        ensures
            final(self).spec_limit() == old(self).spec_limit(),
            action == (if read == 0 {
                if pending == 0 {
                    ChunkAction::Stop
                } else {
                    ChunkAction::Yield
                }
            } else if old(self).spec_lines() + 1 >= old(self).spec_limit() {
                ChunkAction::Yield
            } else {
                ChunkAction::ReadOn
            }),
            final(self).spec_lines() == (if action == ChunkAction::ReadOn {
                (old(self).spec_lines() + 1) as u64
            } else {
                0u64
            }),
    {
        if read == 0 {
            self.lines = 0;
            if pending == 0 {
                ChunkAction::Stop
            } else {
                ChunkAction::Yield
            }
        } else if self.lines >= self.limit || self.lines + 1 >= self.limit {
            self.lines = 0;
            ChunkAction::Yield
        } else {
            self.lines += 1;
            ChunkAction::ReadOn
        }
    }
}

/// The most line ends of a chunk under the limit `limit`: a chunk has one line
/// at least.
pub open spec fn line_cap(limit: u64) -> nat {
    if limit == 0 {
        1
    } else {
        limit as nat
    }
}

/// Every chunk is a full one: it is not empty, ends with the end of a line and
/// has as many lines as the limit allows.
pub open spec fn all_full(chunks: Seq<Seq<u8>>, limit: u64) -> bool {
    forall|k: int|
        0 <= k < chunks.len() ==> (#[trigger] chunks[k]).len() > 0 && chunks[k].last()
            == LINE_FEED && line_ends(chunks[k]) == line_cap(limit)
}

/// The chunks are a chunking of `text` under the limit `limit`: joined they are
/// the text, they are line-aligned, none is empty or has more lines than the
/// limit allows, and every chunk but the last is full.
pub open spec fn is_chunking(chunks: Seq<Seq<u8>>, text: Seq<u8>, limit: u64) -> bool {
    &&& joined(chunks) == text
    &&& line_aligned(chunks)
    &&& forall|k: int| 0 <= k < chunks.len() ==> (#[trigger] chunks[k]).len() > 0
    &&& forall|k: int| 0 <= k < chunks.len() ==> line_count(#[trigger] chunks[k]) <= line_cap(limit)
    &&& forall|k: int|
        0 <= k < chunks.len() - 1 ==> line_ends(#[trigger] chunks[k]) == line_cap(limit)
}

/// Counting the chunks of a chunking one by one counts the whole text, for a
/// pattern that has no line end before its last byte.
pub proof fn lemma_chunking_counts(p: Seq<u8>, chunks: Seq<Seq<u8>>, text: Seq<u8>, limit: u64)
    requires
        p.len() >= 1,
        ends_lines_only_last(p),
        is_chunking(chunks, text, limit),
    ensures
        total_occurrences(p, chunks) == occurrences(p, text),
{
    lemma_lines_never_straddle(p, chunks);
    lemma_partition_counts(p, chunks);
}

/// Handing out one more chunk appends it to the text of the chunks.
proof fn lemma_push_chunk(chunks: Seq<Vec<u8>>, buf: Vec<u8>)
    ensures
        chunk_views(chunks.push(buf)) == chunk_views(chunks).push(buf@),
        joined(chunk_views(chunks.push(buf))) == joined(chunk_views(chunks)) + buf@,
{
    assert(chunk_views(chunks.push(buf)) =~= chunk_views(chunks).push(buf@));
    assert(chunk_views(chunks).push(buf@).drop_last() =~= chunk_views(chunks));
}

/// Full chunks are a chunking of their text.
proof fn lemma_chunking_full(full: Seq<Seq<u8>>, limit: u64)
    requires
        all_full(full, limit),
    ensures
        is_chunking(full, joined(full), limit),
{
}

/// Full chunks with one last chunk that need not be full are a chunking of
/// their text.
proof fn lemma_chunking(full: Seq<Seq<u8>>, last: Seq<u8>, limit: u64)
    requires
        all_full(full, limit),
        last.len() > 0,
        line_count(last) <= line_cap(limit),
    ensures
        is_chunking(full.push(last), joined(full) + last, limit),
{
    let both = full.push(last);
    assert(both.drop_last() =~= full);
    assert forall|k: int| 0 <= k < both.len() - 1 implies (#[trigger] both[k]).len() > 0
        && both[k].last() == LINE_FEED && line_ends(both[k]) == line_cap(limit) by {
        assert(both[k] == full[k]);
    }
    assert forall|k: int| 0 <= k < both.len() implies (#[trigger] both[k]).len() > 0 && line_count(
        both[k],
    ) <= line_cap(limit) by {
        if k < full.len() {
            assert(both[k] == full[k]);
        }
    }
}

/// Cuts a text that lies in memory into line-aligned chunks of at most `limit`
/// lines each (of one line where `limit` is 0): every chunk but the last is
/// full, and the chunks joined are the text.
pub fn chunked_lines(text: &[u8], limit: u64) -> (chunks: Vec<Vec<u8>>)
    ensures
        is_chunking(chunk_views(chunks@), text@, limit),
{
    let mut rule = ChunkedLines::new(limit);
    let mut chunks: Vec<Vec<u8>> = Vec::new();
    let mut buf: Vec<u8> = Vec::new();
    let mut line_start: usize = 0;
    let mut i: usize = 0;
    proof {
        assert(joined(chunk_views(chunks@)) + buf@ =~= text@.take(0));
    }
    while i < text.len()
        invariant
            line_start <= i <= text@.len(),
            rule.spec_limit() == limit,
            rule.spec_lines() == line_ends(buf@),
            line_ends(buf@) < line_cap(limit),
            buf@.len() >= i - line_start,
            i == line_start ==> buf@.len() == 0 || buf@.last() == LINE_FEED,
            joined(chunk_views(chunks@)) + buf@ == text@.take(i as int),
            all_full(chunk_views(chunks@), limit),
        decreases text@.len() - i,
    {
        let b = text[i];
        let ghost before = buf@;
        buf.push(b);
        i += 1;
        proof {
            assert(buf@.drop_last() =~= before);
            assert(text@.take(i as int) =~= text@.take(i - 1).push(b));
            assert(joined(chunk_views(chunks@)) + buf@ =~= (joined(chunk_views(chunks@))
                + before).push(b));
        }
        if b == LINE_FEED {
            match rule.step(i - line_start, buf.len()) {
                ChunkAction::ReadOn => {},
                _ => {
                    proof {
                        lemma_push_chunk(chunks@, buf);
                        let full = chunk_views(chunks@);
                        let more = full.push(buf@);
                        assert forall|k: int| 0 <= k < more.len() implies (
                        #[trigger] more[k]).len() > 0 && more[k].last() == LINE_FEED && line_ends(
                            more[k],
                        ) == line_cap(limit) by {
                            if k < full.len() {
                                assert(more[k] == full[k]);
                            }
                        }
                    }
                    chunks.push(buf);
                    buf = Vec::new();
                    proof {
                        assert(joined(chunk_views(chunks@)) + buf@ =~= text@.take(i as int));
                    }
                },
            }
            line_start = i;
        }
    }
    proof {
        assert(text@.take(i as int) =~= text@);
        if buf@.len() > 0 {
            lemma_chunking(chunk_views(chunks@), buf@, limit);
        } else {
            lemma_chunking_full(chunk_views(chunks@), limit);
            assert(joined(chunk_views(chunks@)) + buf@ =~= joined(chunk_views(chunks@)));
        }
        lemma_push_chunk(chunks@, buf);
    }
    if i > line_start {
        match rule.step(i - line_start, buf.len()) {
            ChunkAction::ReadOn => {},
            _ => {
                chunks.push(buf);
                return chunks;
            },
        }
    }
    match rule.step(0, buf.len()) {
        ChunkAction::Yield => {
            chunks.push(buf);
        },
        _ => {},
    }
    chunks
}

} // verus!
