use wordcount::ahocorasick::AhoCorasick;
use wordcount::chunks::{chunked_lines, ChunkAction, ChunkedLines, LINE_LIMIT};

fn pieces(text: &[u8], limit: u64) -> Vec<Vec<u8>> {
    chunked_lines(text, limit)
}

#[test]
fn chunks_hold_at_most_the_limit_of_lines() {
    assert_eq!(
        pieces(b"a\nb\nc\nd\ne\n", 2),
        vec![b"a\nb\n".to_vec(), b"c\nd\n".to_vec(), b"e\n".to_vec()]
    );
}

#[test]
fn a_last_line_without_its_end_is_a_line() {
    assert_eq!(pieces(b"a\nb\nc", 2), vec![b"a\nb\n".to_vec(), b"c".to_vec()]);
    assert_eq!(pieces(b"a\nb", 2), vec![b"a\nb".to_vec()]);
    assert_eq!(pieces(b"abc", 5), vec![b"abc".to_vec()]);
}

#[test]
fn an_empty_text_has_no_chunk() {
    assert_eq!(pieces(b"", 3), Vec::<Vec<u8>>::new());
}

#[test]
fn a_limit_of_zero_or_one_gives_one_line_a_chunk() {
    let expected = vec![b"a\n".to_vec(), b"\n".to_vec(), b"b".to_vec()];
    assert_eq!(pieces(b"a\n\nb", 0), expected);
    assert_eq!(pieces(b"a\n\nb", 1), expected);
}

#[test]
fn line_ends_with_carriage_return_stay_in_their_chunk() {
    assert_eq!(
        pieces(b"a\r\nb\r\nc\r\n", 2),
        vec![b"a\r\nb\r\n".to_vec(), b"c\r\n".to_vec()]
    );
}

#[test]
fn chunks_joined_are_the_text() {
    let text = b"one\ntwo\n\nthree\r\nfour\nfive".to_vec();
    for limit in 0..8 {
        let joined: Vec<u8> = pieces(&text, limit).concat();
        assert_eq!(joined, text);
    }
}

#[test]
fn the_default_limit_is_ten_thousand_lines() {
    assert_eq!(LINE_LIMIT, 10000);
    let mut text = Vec::new();
    for _ in 0..25_000 {
        text.extend_from_slice(b"line\n");
    }
    let chunks = pieces(&text, LINE_LIMIT);
    assert_eq!(chunks.len(), 3);
    assert_eq!(chunks[0].len(), 50_000);
    assert_eq!(chunks[1].len(), 50_000);
    assert_eq!(chunks[2].len(), 25_000);
}

#[test]
fn step_reads_on_below_the_limit_and_yields_at_it() {
    let mut rule = ChunkedLines::new(3);
    assert_eq!(rule.step(5, 5), ChunkAction::ReadOn);
    assert_eq!(rule.step(2, 7), ChunkAction::ReadOn);
    assert_eq!(rule.step(4, 11), ChunkAction::Yield);
    assert_eq!(rule.step(1, 1), ChunkAction::ReadOn);
}

#[test]
fn step_yields_what_is_pending_at_the_end_and_then_stops() {
    let mut rule = ChunkedLines::new(3);
    assert_eq!(rule.step(5, 5), ChunkAction::ReadOn);
    assert_eq!(rule.step(0, 5), ChunkAction::Yield);
    assert_eq!(rule.step(0, 0), ChunkAction::Stop);
    assert_eq!(rule.step(0, 0), ChunkAction::Stop);
}

#[test]
fn step_with_a_limit_of_zero_yields_every_line() {
    let mut rule = ChunkedLines::new(0);
    assert_eq!(rule.step(3, 3), ChunkAction::Yield);
    assert_eq!(rule.step(3, 3), ChunkAction::Yield);
}

fn counts_by_chunks(ac: &AhoCorasick, chunks: &[Vec<u8>], n: usize) -> Vec<u64> {
    let mut total = vec![0u64; n];
    for chunk in chunks {
        let counts = ac.count_overlapping(chunk);
        for i in 0..n {
            total[i] += counts[i];
        }
    }
    total
}

#[test]
fn counting_chunk_by_chunk_equals_counting_the_whole_text() {
    let patterns = vec![b"an".to_vec(), b"na".to_vec(), b"ana".to_vec(), b"s\n".to_vec()];
    let ac = AhoCorasick::new(&patterns);
    let text = b"bananas\nananas\nna\nbanana bananas\n\nan".to_vec();
    let whole = ac.count_overlapping(&text);
    assert_eq!(whole, vec![9, 9, 8, 3]);
    for limit in 0..7 {
        let chunks = pieces(&text, limit);
        assert_eq!(counts_by_chunks(&ac, &chunks, 4), whole);
    }
}

#[test]
fn a_pattern_across_a_line_end_is_lost_between_chunks() {
    let patterns = vec![b"a\nb".to_vec()];
    let ac = AhoCorasick::new(&patterns);
    let text = b"a\nb\n".to_vec();
    assert_eq!(ac.count_overlapping(&text), vec![1]);
    let chunks = pieces(&text, 1);
    assert_eq!(counts_by_chunks(&ac, &chunks, 1), vec![0]);
}
