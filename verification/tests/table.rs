use indexmap::map::IndexMap;
use wordcount::chunks::chunked_lines;
use wordcount::process::{process, try_process};

fn table(words: &[&str]) -> IndexMap<Vec<u8>, u64> {
    let mut map: IndexMap<Vec<u8>, u64> = IndexMap::new();
    for w in words {
        map.insert(w.as_bytes().to_vec(), 0);
    }
    map
}

fn values(map: &IndexMap<Vec<u8>, u64>) -> Vec<u64> {
    map.values().copied().collect()
}

#[test]
fn process_counts_x_over_ten_thousand_lines_in_many_chunks() {
    let mut text: Vec<u8> = Vec::new();
    for _ in 0..10_000 {
        text.extend_from_slice(b"x\n");
    }
    let chunks = chunked_lines(&text, 1000);
    assert_eq!(chunks.len(), 10);
    let mut words = table(&["x"]);
    process(&mut words, &chunks);
    assert_eq!(values(&words), vec![10_000]);
}

#[test]
fn process_adds_to_the_counters_that_are_there() {
    let mut words = table(&["he", "she", "his", "hers"]);
    *words.get_index_mut(2).unwrap().1 = 7;
    let chunks = vec![b"ushers\n".to_vec(), b"his hers\n".to_vec()];
    process(&mut words, &chunks);
    assert_eq!(values(&words), vec![2, 1, 8, 2]);
    let keys: Vec<Vec<u8>> = words.keys().cloned().collect();
    assert_eq!(keys, vec![b"he".to_vec(), b"she".to_vec(), b"his".to_vec(), b"hers".to_vec()]);
}

#[test]
fn process_wraps_a_full_counter() {
    let mut words = table(&["a"]);
    *words.get_index_mut(0).unwrap().1 = u64::MAX;
    process(&mut words, &vec![b"aa".to_vec()]);
    assert_eq!(values(&words), vec![1]);
}

#[test]
fn try_process_leaves_a_table_with_an_empty_word_alone() {
    let mut words = table(&["a", ""]);
    *words.get_index_mut(0).unwrap().1 = 3;
    assert!(!try_process(&mut words, &vec![b"aaa".to_vec()]));
    assert_eq!(values(&words), vec![3, 0]);
}

#[test]
fn try_process_counts_where_the_words_can_be_compiled() {
    let mut words = table(&["ab", "bc"]);
    assert!(try_process(&mut words, &vec![b"abc".to_vec()]));
    assert_eq!(values(&words), vec![1, 1]);
}
