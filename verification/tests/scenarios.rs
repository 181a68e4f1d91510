use wordcount::ahocorasick::AhoCorasick;

fn scenario_dictionary(words: &[&str]) -> Vec<Vec<u8>> {
    words.iter().map(|w| w.as_bytes().to_vec()).collect()
}

fn scenario_counts(words: &[&str], text: &str) -> Vec<u64> {
    let patterns = scenario_dictionary(words);
    let ac = AhoCorasick::try_new(&patterns).unwrap();
    let same = AhoCorasick::new(&patterns);
    let counts = ac.count_overlapping(text.as_bytes());
    assert_eq!(same.count_overlapping(text.as_bytes()), counts);
    counts
}

#[test]
fn counts_he_she_his_hers_in_ushers() {
    assert_eq!(scenario_counts(&["he", "she", "his", "hers"], "ushers"), vec![1, 1, 0, 1]);
}

#[test]
fn counts_overlapping_duplicates_in_textext() {
    assert_eq!(scenario_counts(&["text", "text"], "textext"), vec![2, 2]);
}

#[test]
fn counts_nested_runs_of_a() {
    assert_eq!(scenario_counts(&["a", "aa", "aaa"], "aaaa"), vec![4, 3, 2]);
}

#[test]
fn counts_ab_and_bc_in_abc() {
    assert_eq!(scenario_counts(&["ab", "bc"], "abc"), vec![1, 1]);
}

#[test]
fn counts_nothing_in_empty_text() {
    assert_eq!(scenario_counts(&["cat", "dog"], ""), vec![0, 0]);
}

#[test]
fn counts_nothing_for_an_empty_dictionary() {
    assert_eq!(scenario_counts(&[], "any text at all"), Vec::<u64>::new());
}

#[test]
fn counts_a_pattern_longer_than_the_text_as_zero() {
    assert_eq!(scenario_counts(&["abcdef"], "abc"), vec![0]);
}

#[test]
fn counts_bytes_that_are_no_text() {
    let patterns: Vec<Vec<u8>> = vec![vec![0xff, 0x00], vec![0x00]];
    let ac = AhoCorasick::new(&patterns);
    assert_eq!(ac.count_overlapping(&[0xff, 0x00, 0x00, 0xff, 0x00]), vec![2, 3]);
}

#[test]
fn counts_are_case_sensitive() {
    assert_eq!(scenario_counts(&["Text", "text"], "Text text TEXT"), vec![1, 1]);
}

#[test]
fn three_equal_entries_report_equal_counts() {
    assert_eq!(scenario_counts(&["ab", "b", "ab", "ab"], "abab"), vec![2, 2, 2, 2]);
}

#[test]
fn try_new_refuses_an_empty_pattern() {
    assert!(AhoCorasick::try_new(&scenario_dictionary(&["a", "", "b"])).is_none());
    assert!(AhoCorasick::try_new(&scenario_dictionary(&[""])).is_none());
    assert!(AhoCorasick::try_new(&scenario_dictionary(&["a", "b"])).is_some());
    assert!(AhoCorasick::try_new(&scenario_dictionary(&[])).is_some());
}
