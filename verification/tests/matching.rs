use std::collections::HashSet;
use std::rc::Rc;

use aho_corasick::automaton::{build_automaton, Automaton, BuildError};
use aho_corasick::AhoCorasick;

fn pats(list: &[&[u8]]) -> Vec<Vec<u8>> {
    list.iter().map(|p| p.to_vec()).collect()
}

fn build(list: &[&[u8]]) -> Rc<Automaton> {
    build_automaton(pats(list)).expect("pattern set should build")
}

fn set(ixs: &[usize]) -> HashSet<usize> {
    ixs.iter().copied().collect()
}

fn scan_fresh(auto: &Rc<Automaton>, bytes: &[u8]) -> HashSet<usize> {
    let mut session = AhoCorasick::new(Rc::clone(auto), false);
    session.execute(bytes).unwrap_or_default()
}

#[test]
fn test_example_ahishers() {
    let auto = build(&[b"he", b"she", b"his", b"hers"]);
    let found = scan_fresh(&auto, b"ahishers");
    // the indices of "his" and "hers" must be reported
    assert!(found.contains(&2));
    assert!(found.contains(&3));
    // "ahishers" also ends "she" at index 5 and "he" inside it, so the full
    // report is all four patterns
    assert_eq!(found, set(&[0, 1, 2, 3]));
}

#[test]
fn test_single_pattern_match() {
    let list: &[&[u8]] = &[b"he", b"she", b"his", b"hers", b"x-1"];
    let auto = build(list);
    for (ix, p) in list.iter().enumerate() {
        let found = scan_fresh(&auto, p);
        assert!(found.contains(&ix), "pattern {} not reported", ix);
    }
}

#[test]
fn test_case_insensitive_scan() {
    let auto = build(&[b"he", b"she", b"his", b"hers"]);
    assert_eq!(scan_fresh(&auto, b"ahishers"), scan_fresh(&auto, b"AhIsHeRs"));
    assert_eq!(scan_fresh(&auto, b"his"), scan_fresh(&auto, b"HIS"));
    assert!(scan_fresh(&auto, b"SHE").contains(&1));
}

#[test]
fn test_case_insensitive_pattern_in_upper_case() {
    let auto = build(&[b"GET", b"Post"]);
    assert!(scan_fresh(&auto, b"get /index").contains(&0));
    assert!(scan_fresh(&auto, b"POST /form").contains(&1));
}

#[test]
fn test_suffix_closure() {
    // "he" is a suffix of "she": scanning "she" must report both
    let auto = build(&[b"he", b"she"]);
    assert_eq!(scan_fresh(&auto, b"she"), set(&[0, 1]));
}

#[test]
fn test_streaming_all_splits() {
    let auto = build(&[b"he", b"she", b"his", b"hers"]);
    let buffer: &[u8] = b"ahishers";
    let whole = scan_fresh(&auto, buffer);
    for cut in 0..=buffer.len() {
        let mut session = AhoCorasick::new(Rc::clone(&auto), false);
        let mut union: HashSet<usize> = HashSet::new();
        if let Some(first) = session.execute(&buffer[..cut]) {
            union.extend(first);
        }
        if let Some(second) = session.execute(&buffer[cut..]) {
            union.extend(second);
        }
        assert_eq!(union, whole, "split at {}", cut);
    }
}

#[test]
fn test_reset_rescan() {
    let auto = build(&[b"he", b"she", b"his", b"hers"]);
    let mut session = AhoCorasick::new(auto, false);
    let first = session.execute(b"ahishers");
    session.reset();
    assert_eq!(session.context.state, 0);
    let second = session.execute(b"ahishers");
    assert_eq!(first, second);
}

#[test]
fn test_early_exit_nonempty_on_partial_buffer() {
    let auto = build(&[b"his"]);
    // early-exit mode: the match is found without the rest of the buffer
    let mut eager = AhoCorasick::new(Rc::clone(&auto), true);
    let full = eager.execute(b"ahishers").expect("match expected");
    assert!(!full.is_empty());
    // a buffer truncated right after the match reports the same set
    let mut truncated = AhoCorasick::new(auto, true);
    assert_eq!(truncated.execute(b"ahis"), Some(full));
}

#[test]
fn test_early_exit_none_when_no_match() {
    let auto = build(&[b"zzz"]);
    let mut eager = AhoCorasick::new(auto, true);
    assert_eq!(eager.execute(b"ahishers"), None);
}

#[test]
fn test_no_match_is_none() {
    let auto = build(&[b"he", b"she"]);
    let mut session = AhoCorasick::new(auto, false);
    assert_eq!(session.execute(b"xyzq"), None);
    assert_eq!(session.execute(b""), None);
}

#[test]
fn test_capacity_rejected() {
    // 32768 letters: 2 states each, plus the root, reaches the sentinel
    let p = vec![b'a'; 32768];
    match build_automaton(vec![p]) {
        Err(BuildError::CapacityExceeded { bound, limit }) => {
            assert_eq!(bound, 65537);
            assert_eq!(limit, 65534);
        }
        other => panic!("expected CapacityExceeded, got {:?}", other.map(|_| ())),
    }
}

#[test]
fn test_capacity_boundary() {
    // '#' is not alphabetic: one state per byte, plus the root
    let ok = vec![b'#'; 65533];
    assert!(build_automaton(vec![ok]).is_ok());
    let too_big = vec![b'#'; 65534];
    match build_automaton(vec![too_big]) {
        Err(BuildError::CapacityExceeded { bound, limit }) => {
            assert_eq!(bound, 65535);
            assert_eq!(limit, 65534);
        }
        _ => panic!("expected CapacityExceeded"),
    }
}

#[test]
fn test_invalid_pattern_byte_200() {
    let p: Vec<u8> = vec![b'a', 200, b'b'];
    match build_automaton(vec![p]) {
        Err(e) => assert_eq!(e, BuildError::InvalidPattern),
        Ok(_) => panic!("expected InvalidPattern"),
    }
}

#[test]
fn test_state_bound_formula() {
    // "ab1": three bytes, two alphabetic, plus the root = 6 states at most
    let auto = build(&[b"ab1"]);
    assert_eq!(auto.max_states, 5);
}

#[test]
fn test_non_ascii_input_behaves_like_nul() {
    // a pattern may hold a NUL byte; input bytes >= 128 are clamped to 0
    let auto = build(&[&[b'a', 0, b'b']]);
    assert_eq!(scan_fresh(&auto, &[b'a', 200, b'b']), set(&[0]));
    assert_eq!(scan_fresh(&auto, &[b'a', 0, b'b']), set(&[0]));
    let probe = build(&[b"he"]);
    assert_eq!(
        scan_fresh(&probe, &[b'x', 250, b'y']),
        scan_fresh(&probe, &[b'x', 0, b'y'])
    );
}

#[test]
fn test_empty_pattern_accepted() {
    let auto = build(&[b""]);
    // the empty pattern sits at the root and is reported for any byte that
    // returns the scan to the root
    assert_eq!(scan_fresh(&auto, b"x"), set(&[0]));
    // no bytes scanned: nothing reported
    let mut session = AhoCorasick::new(auto, false);
    assert_eq!(session.execute(b""), None);
}

#[test]
fn test_duplicate_patterns_both_reported() {
    let auto = build(&[b"ab", b"ab"]);
    assert_eq!(scan_fresh(&auto, b"ab"), set(&[0, 1]));
}

#[test]
fn test_clone_shares_automaton_and_cursor() {
    let auto = build(&[b"ab"]);
    let mut session = AhoCorasick::new(auto, false);
    session.execute(b"a");
    let mid = session.context.state;
    assert_ne!(mid, 0);
    // the clone duplicates the small mutable state: cursor and mode flag
    let mut twin = session.clone();
    assert_eq!(twin.context.state, mid);
    assert!(!twin.context.return_on_first_match);
    // so the twin continues the stream where the original stood
    assert_eq!(twin.execute(b"b"), Some(set(&[0])));
}

#[test]
fn test_cursor_state_introspection() {
    let auto = build(&[b"ab"]);
    let mut session = AhoCorasick::new(auto, false);
    assert_eq!(session.context.state, 0);
    session.execute(b"a");
    let mid = session.context.state;
    assert_ne!(mid, 0);
    // the cursor persists between chunks
    assert_eq!(session.execute(b"b"), Some(set(&[0])));
    session.reset();
    assert_eq!(session.context.state, 0);
}

#[test]
fn test_streaming_match_across_chunk_boundary() {
    let auto = build(&[b"hers"]);
    let mut session = AhoCorasick::new(auto, false);
    assert_eq!(session.execute(b"ahishe"), None);
    assert_eq!(session.execute(b"rs"), Some(set(&[0])));
}

#[test]
fn test_streaming_case_variant_chunks() {
    let auto = build(&[b"hers"]);
    let mut session = AhoCorasick::new(auto, false);
    assert_eq!(session.execute(b"HE"), None);
    assert_eq!(session.execute(b"rS"), Some(set(&[0])));
}

#[test]
fn test_nested_suffix_closure() {
    // "s" suffixes "rs", which suffixes "hers": one position reports all
    let auto = build(&[b"s", b"rs", b"hers"]);
    assert_eq!(scan_fresh(&auto, b"hers"), set(&[0, 1, 2]));
}
