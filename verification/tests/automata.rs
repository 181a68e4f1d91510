use wordcount::automaton::Automaton;
use wordcount::dfa::DFA;
use wordcount::nfa::NFA;
use wordcount::state_id::{DEAD_ID, FAIL_ID, START_ID};

fn ushers_patterns() -> Vec<Vec<u8>> {
    vec![b"he".to_vec(), b"she".to_vec(), b"his".to_vec(), b"hers".to_vec()]
}

fn walk(nfa: &NFA, text: &[u8]) -> usize {
    let mut state = START_ID;
    for &b in text {
        state = nfa.next_state(state, b);
        assert_ne!(state, FAIL_ID);
    }
    state
}

#[test]
fn nfa_has_a_state_for_each_prefix_and_three_reserved() {
    let nfa = NFA::new(&ushers_patterns());
    // h, he, her, hers, hi, his, s, sh, she
    assert_eq!(nfa.state_len(), 12);
    let empty = NFA::new(&Vec::new());
    assert_eq!(empty.state_len(), 3);
}

#[test]
fn nfa_numbers_states_as_the_patterns_bring_them() {
    let nfa = NFA::new(&ushers_patterns());
    assert_eq!(walk(&nfa, b"h"), 3);
    assert_eq!(walk(&nfa, b"he"), 4);
    assert_eq!(walk(&nfa, b"s"), 5);
    assert_eq!(walk(&nfa, b"sh"), 6);
    assert_eq!(walk(&nfa, b"she"), 7);
    assert_eq!(walk(&nfa, b"hi"), 8);
    assert_eq!(walk(&nfa, b"his"), 9);
    assert_eq!(walk(&nfa, b"her"), 10);
    assert_eq!(walk(&nfa, b"hers"), 11);
}

#[test]
fn nfa_start_state_loops_and_dead_state_stays_dead() {
    let nfa = NFA::new(&ushers_patterns());
    assert_eq!(nfa.next_state(START_ID, b'x'), START_ID);
    assert_eq!(nfa.next_state(START_ID, b'h'), 3);
    for b in 0..=255u8 {
        assert_eq!(nfa.next_state(DEAD_ID, b), DEAD_ID);
        assert_eq!(nfa.next_state(FAIL_ID, b), FAIL_ID);
    }
}

#[test]
fn nfa_states_beyond_the_start_lack_other_transitions() {
    let nfa = NFA::new(&ushers_patterns());
    let he = walk(&nfa, b"he");
    assert_eq!(nfa.next_state(he, b'x'), FAIL_ID);
    assert_eq!(nfa.next_state(he, b'r'), 10);
}

#[test]
fn nfa_failure_links_lead_to_the_longest_proper_suffix() {
    let nfa = NFA::new(&ushers_patterns());
    assert_eq!(nfa.failure_transition(walk(&nfa, b"she")), walk(&nfa, b"he"));
    assert_eq!(nfa.failure_transition(walk(&nfa, b"sh")), walk(&nfa, b"h"));
    assert_eq!(nfa.failure_transition(walk(&nfa, b"his")), walk(&nfa, b"s"));
    assert_eq!(nfa.failure_transition(walk(&nfa, b"hers")), walk(&nfa, b"s"));
    assert_eq!(nfa.failure_transition(walk(&nfa, b"h")), START_ID);
    assert_eq!(nfa.failure_transition(walk(&nfa, b"her")), START_ID);
    assert_eq!(nfa.failure_transition(START_ID), START_ID);
}

#[test]
fn nfa_match_lists_hold_own_patterns_then_those_of_the_link() {
    let nfa = NFA::new(&ushers_patterns());
    assert_eq!(nfa.matches(walk(&nfa, b"she")), &[(1, 3), (0, 2)]);
    assert_eq!(nfa.matches(walk(&nfa, b"he")), &[(0, 2)]);
    assert_eq!(nfa.matches(walk(&nfa, b"hers")), &[(3, 4)]);
    assert_eq!(nfa.matches(walk(&nfa, b"sh")), &[]);
    assert_eq!(nfa.matches(START_ID), &[]);
}

#[test]
fn nfa_keeps_equal_patterns_apart_in_one_match_list() {
    let nfa = NFA::new(&vec![b"ab".to_vec(), b"b".to_vec(), b"ab".to_vec()]);
    assert_eq!(nfa.matches(walk(&nfa, b"ab")), &[(0, 2), (2, 2), (1, 1)]);
}

#[test]
fn nfa_row_lists_every_byte() {
    let nfa = NFA::new(&ushers_patterns());
    let he = walk(&nfa, b"he");
    let row = nfa.iter_all_transitions(he);
    assert_eq!(row.len(), 256);
    for b in 0..=255u8 {
        assert_eq!(row[b as usize], nfa.next_state(he, b));
    }
    assert_eq!(row[b'r' as usize], 10);
    let start_row = nfa.iter_all_transitions(START_ID);
    assert_eq!(start_row[b'h' as usize], 3);
    assert_eq!(start_row[b's' as usize], 5);
    assert_eq!(start_row[b'z' as usize], START_ID);
}

#[test]
fn nfa_deep_states_keep_their_transitions_sorted() {
    let nfa = NFA::new(&vec![b"abz".to_vec(), b"abc".to_vec(), b"abm".to_vec(), b"aba".to_vec()]);
    let ab = walk(&nfa, b"ab");
    let row = nfa.iter_all_transitions(ab);
    assert_eq!(row[b'z' as usize], 5);
    assert_eq!(row[b'c' as usize], 6);
    assert_eq!(row[b'm' as usize], 7);
    assert_eq!(row[b'a' as usize], 8);
    assert_eq!(row.iter().filter(|&&t| t != FAIL_ID).count(), 4);
}

fn reach(dfa: &DFA, text: &[u8]) -> usize {
    let mut state = dfa.start_state();
    for &b in text {
        state = dfa.next_state(state, b);
    }
    state
}

fn all_states(dfa: &DFA) -> Vec<usize> {
    let mut seen = vec![dfa.start_state()];
    let mut next = 0;
    while next < seen.len() {
        let s = seen[next];
        next += 1;
        for b in 0..=255u8 {
            let t = dfa.next_state(s, b);
            if !seen.contains(&t) {
                seen.push(t);
            }
        }
    }
    seen
}

#[test]
fn dfa_has_a_target_for_every_byte_and_never_the_fail_sentinel() {
    let nfa = NFA::new(&ushers_patterns());
    let dfa = DFA::new(&nfa);
    let states = all_states(&dfa);
    assert_eq!(states.len(), 10);
    for &s in &states {
        assert!(dfa.is_valid(s));
        assert_eq!(s % 256, 0);
        for b in 0..=255u8 {
            let t = dfa.next_state_no_fail(s, b);
            assert_ne!(t, FAIL_ID);
            assert_ne!(t, DEAD_ID);
            assert!(dfa.is_valid(t));
        }
    }
}

#[test]
fn dfa_match_states_have_the_low_identifiers() {
    let nfa = NFA::new(&ushers_patterns());
    let dfa = DFA::new(&nfa);
    let states = all_states(&dfa);
    let matching: Vec<usize> =
        states.iter().copied().filter(|&s| dfa.match_count(s) > 0).collect();
    let plain: Vec<usize> = states.iter().copied().filter(|&s| dfa.match_count(s) == 0).collect();
    // he, she, his, hers
    assert_eq!(matching.len(), 4);
    for &m in &matching {
        assert!(dfa.is_match_state(m));
        assert!(dfa.is_match_or_dead_state(m));
        for &p in &plain {
            assert!(m < p);
        }
    }
    for &p in &plain {
        assert!(!dfa.is_match_state(p));
        assert!(!dfa.is_match_or_dead_state(p));
    }
    let mut sorted = matching.clone();
    sorted.sort();
    assert_eq!(sorted, vec![2 * 256, 3 * 256, 4 * 256, 5 * 256]);
    assert!(!dfa.is_match_state(dfa.start_state()));
    assert!(dfa.is_match_or_dead_state(DEAD_ID));
    assert!(!dfa.is_match_state(DEAD_ID));
}

#[test]
fn dfa_follows_the_longest_suffix_without_failure_links() {
    let nfa = NFA::new(&ushers_patterns());
    let dfa = DFA::new(&nfa);
    // after "she" the byte 'r' goes where "her" goes
    assert_eq!(dfa.next_state(reach(&dfa, b"she"), b'r'), reach(&dfa, b"her"));
    assert_eq!(reach(&dfa, b"ushe"), reach(&dfa, b"she"));
    assert_eq!(reach(&dfa, b"hex"), dfa.start_state());
    assert_eq!(reach(&dfa, b"hish"), reach(&dfa, b"sh"));
}

#[test]
fn dfa_gives_the_matches_of_a_state() {
    let nfa = NFA::new(&ushers_patterns());
    let dfa = DFA::new(&nfa);
    let she = reach(&dfa, b"she");
    assert_eq!(dfa.match_count(she), 2);
    let first = dfa.get_match(she, 0, 9).unwrap();
    assert_eq!((first.pattern(), first.end()), (1, 9));
    let second = dfa.get_match(she, 1, 9).unwrap();
    assert_eq!((second.pattern(), second.end()), (0, 9));
    assert!(dfa.get_match(she, 2, 9).is_none());
    assert!(dfa.get_match(dfa.start_state(), 0, 9).is_none());
}

#[test]
fn dfa_of_an_empty_dictionary_never_leaves_the_start_state() {
    let nfa = NFA::new(&Vec::new());
    let dfa = DFA::new(&nfa);
    let start = dfa.start_state();
    assert_eq!(start, START_ID * 256);
    for b in 0..=255u8 {
        assert_eq!(dfa.next_state(start, b), start);
    }
    assert_eq!(dfa.match_count(start), 0);
    assert!(!dfa.is_match_state(start));
}

#[test]
fn standard_scan_stops_at_the_first_match_and_can_go_on() {
    let nfa = NFA::new(&ushers_patterns());
    let dfa = DFA::new(&nfa);
    let text = b"ushers his";
    let mut state = dfa.start_state();
    let m = dfa.standard_find_at(text, 0, &mut state).unwrap();
    assert_eq!((m.pattern(), m.end()), (1, 4));
    let m = dfa.standard_find_at(text, m.end(), &mut state).unwrap();
    assert_eq!((m.pattern(), m.end()), (3, 6));
    let m = dfa.standard_find_at(text, m.end(), &mut state).unwrap();
    assert_eq!((m.pattern(), m.end()), (2, 10));
    assert!(dfa.standard_find_at(text, m.end(), &mut state).is_none());
}

#[test]
fn overlapping_scan_gives_the_other_matches_of_a_state_without_input() {
    let nfa = NFA::new(&ushers_patterns());
    let dfa = DFA::new(&nfa);
    let text = b"ushers";
    let mut state = dfa.start_state();
    let mut index = 0;
    let m = dfa.overlapping_find_at(text, 0, &mut state, &mut index).unwrap();
    assert_eq!((m.pattern(), m.end(), index), (1, 4, 1));
    let at = m.end();
    let held = state;
    let m = dfa.overlapping_find_at(text, at, &mut state, &mut index).unwrap();
    assert_eq!((m.pattern(), m.end(), index), (0, 4, 2));
    assert_eq!(state, held);
    let m = dfa.overlapping_find_at(text, at, &mut state, &mut index).unwrap();
    assert_eq!((m.pattern(), m.end(), index), (3, 6, 1));
    assert!(dfa.overlapping_find_at(text, m.end(), &mut state, &mut index).is_none());
    assert_eq!(index, 0);
}
