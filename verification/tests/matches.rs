use wordcount::ahocorasick::AhoCorasick;
use wordcount::automaton::Match;

fn found(words: &[&str], text: &str) -> Vec<(usize, usize)> {
    let patterns: Vec<Vec<u8>> = words.iter().map(|w| w.as_bytes().to_vec()).collect();
    let ac = AhoCorasick::new(&patterns);
    let mut it = ac.find_overlapping_iter(text.as_bytes());
    let mut out = Vec::new();
    while let Some(m) = it.next() {
        out.push((m.pattern(), m.end()));
    }
    out
}

#[test]
fn matches_come_by_end_and_longer_patterns_first() {
    assert_eq!(
        found(&["he", "she", "his", "hers"], "ushers"),
        vec![(1, 4), (0, 4), (3, 6)]
    );
}

#[test]
fn equal_patterns_come_by_index_at_each_end() {
    assert_eq!(found(&["text", "text"], "textext"), vec![(0, 4), (1, 4), (0, 7), (1, 7)]);
}

#[test]
fn nested_patterns_come_longest_first() {
    assert_eq!(
        found(&["a", "aa", "aaa"], "aaa"),
        vec![(0, 1), (1, 2), (0, 2), (2, 3), (1, 3), (0, 3)]
    );
}

#[test]
fn no_match_in_a_text_without_the_patterns() {
    assert_eq!(found(&["cat", "dog"], "the bird sings"), vec![]);
}

#[test]
fn an_exhausted_sequence_stays_exhausted() {
    let patterns = vec![b"ab".to_vec()];
    let ac = AhoCorasick::new(&patterns);
    let mut it = ac.find_overlapping_iter(b"xxab");
    let m = it.next().unwrap();
    assert_eq!((m.pattern(), m.end()), (0, 4));
    assert!(it.next().is_none());
    assert!(it.next().is_none());
    assert!(it.next().is_none());
}

#[test]
fn one_searcher_serves_many_texts() {
    let patterns = vec![b"ab".to_vec(), b"b".to_vec()];
    let ac = AhoCorasick::new(&patterns);
    assert_eq!(ac.count_overlapping(b"abab"), vec![2, 2]);
    assert_eq!(ac.count_overlapping(b"bbb"), vec![0, 3]);
    assert_eq!(ac.count_overlapping(b""), vec![0, 0]);
}

#[test]
fn a_match_tells_its_pattern_and_its_end() {
    let m = Match::new(3, 4, 17);
    assert_eq!(m.pattern(), 3);
    assert_eq!(m.end(), 17);
    assert_eq!(m, Match::new(3, 4, 17));
    assert_ne!(m, Match::new(3, 4, 18));
}
