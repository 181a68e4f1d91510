use wordcount::ahocorasick::AhoCorasick;

fn naive_count(pattern: &[u8], text: &[u8]) -> u64 {
    if pattern.len() > text.len() {
        return 0;
    }
    let mut n = 0;
    for i in 0..=(text.len() - pattern.len()) {
        if &text[i..i + pattern.len()] == pattern {
            n += 1;
        }
    }
    n
}

fn next_random(seed: &mut u64) -> u64 {
    *seed = seed.wrapping_mul(6364136223846793005).wrapping_add(1442695040888963407);
    *seed >> 33
}

fn random_bytes(seed: &mut u64, len: usize, alphabet: u64) -> Vec<u8> {
    (0..len).map(|_| b'a' + (next_random(seed) % alphabet) as u8).collect()
}

#[test]
fn counts_agree_with_a_naive_scan_on_small_alphabets() {
    let mut seed = 42u64;
    for round in 0..200 {
        let alphabet = 2 + (round % 3) as u64;
        let words = 1 + (next_random(&mut seed) % 8) as usize;
        let patterns: Vec<Vec<u8>> = (0..words)
            .map(|_| {
                let len = 1 + (next_random(&mut seed) % 5) as usize;
                random_bytes(&mut seed, len, alphabet)
            })
            .collect();
        let text_len = (next_random(&mut seed) % 120) as usize;
        let text = random_bytes(&mut seed, text_len, alphabet);
        let ac = AhoCorasick::new(&patterns);
        let counts = ac.count_overlapping(&text);
        let expected: Vec<u64> = patterns.iter().map(|p| naive_count(p, &text)).collect();
        assert_eq!(counts, expected);
    }
}

#[test]
fn counts_agree_with_a_naive_scan_on_all_bytes() {
    let mut seed = 7u64;
    for _ in 0..50 {
        let words = 1 + (next_random(&mut seed) % 20) as usize;
        let patterns: Vec<Vec<u8>> = (0..words)
            .map(|_| {
                let len = 1 + (next_random(&mut seed) % 3) as usize;
                (0..len).map(|_| (next_random(&mut seed) % 4) as u8 * 85).collect()
            })
            .collect();
        let text: Vec<u8> = (0..300).map(|_| (next_random(&mut seed) % 4) as u8 * 85).collect();
        let ac = AhoCorasick::new(&patterns);
        let counts = ac.count_overlapping(&text);
        let expected: Vec<u64> = patterns.iter().map(|p| naive_count(p, &text)).collect();
        assert_eq!(counts, expected);
    }
}

#[test]
fn the_number_of_matches_is_the_sum_of_the_counts() {
    let patterns = vec![b"a".to_vec(), b"ab".to_vec(), b"bab".to_vec(), b"a".to_vec()];
    let ac = AhoCorasick::new(&patterns);
    let text = b"abababbabaab";
    let counts = ac.count_overlapping(text);
    let mut it = ac.find_overlapping_iter(text);
    let mut n = 0u64;
    let mut last_end = 0;
    while let Some(m) = it.next() {
        assert!(m.end() >= last_end);
        last_end = m.end();
        let p = &patterns[m.pattern()];
        assert_eq!(&text[m.end() - p.len()..m.end()], &p[..]);
        n += 1;
    }
    assert_eq!(n, counts.iter().sum::<u64>());
    assert_eq!(counts[0], counts[3]);
}
