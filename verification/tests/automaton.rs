use wordpieces::automaton::{PrefixAutomaton, PrefixAutomatonState};

fn automaton_match(automaton: &PrefixAutomaton, data: &[u8]) -> bool {
    let mut state = automaton.start();

    for byte in data {
        state = automaton.accept(&state, *byte);
    }

    automaton.is_match(&state)
}

/// Check that the automaton only matches on codepoint boundaries.
#[test]
fn do_not_match_incomplete_prefix_test() {
    // UTF-8 encoding: [0xc3, 0xa4, 0xc3, 0xab]
    let s = "äë";
    let s_bytes = s.as_bytes();

    let automaton = PrefixAutomaton::from(s);

    assert!(automaton_match(&automaton, &s_bytes[..0]));
    assert!(!automaton_match(&automaton, &s_bytes[..1]));
    assert!(automaton_match(&automaton, &s_bytes[..2]));
    assert!(!automaton_match(&automaton, &s_bytes[..3]));
    assert!(automaton_match(&automaton, &s_bytes[..4]));
}

#[test]
fn every_prefix_of_whole_characters_matches() {
    for s in ["", "hello", "coördinatie", "日本語", "a\u{10348}b"] {
        let automaton = PrefixAutomaton::from(s.to_string());
        let chars: Vec<char> = s.chars().collect();
        for idx in 0..(chars.len() + 1) {
            let prefix: String = chars[..idx].iter().collect();
            assert!(automaton_match(&automaton, prefix.as_bytes()));
        }
    }
}

#[test]
fn what_is_no_prefix_does_not_match() {
    let automaton = PrefixAutomaton::from("hello");
    assert!(!automaton_match(&automaton, b"hellos"));
    assert!(!automaton_match(&automaton, b"help"));
    assert!(!automaton_match(&automaton, b"ello"));
    assert!(!automaton_match(&automaton, b"x"));
    assert!(automaton_match(&automaton, b"hell"));
}

#[test]
fn states_follow_the_bytes() {
    let automaton = PrefixAutomaton::from("ab");
    let start = automaton.start();
    assert_eq!(start, PrefixAutomatonState::State(0));
    assert!(automaton.can_match(&start));
    assert!(automaton.is_match(&start));

    let one = automaton.accept(&start, b'a');
    assert_eq!(one, PrefixAutomatonState::State(1));
    let two = automaton.accept(&one, b'b');
    assert_eq!(two, PrefixAutomatonState::State(2));
    assert!(automaton.can_match(&two));
    assert!(automaton.is_match(&two));

    let beyond = automaton.accept(&two, b'c');
    assert_eq!(beyond, PrefixAutomatonState::Sink);
    let wrong = automaton.accept(&start, b'b');
    assert_eq!(wrong, PrefixAutomatonState::Sink);
    assert!(!automaton.can_match(&wrong));
    assert!(!automaton.is_match(&wrong));
    assert_eq!(
        automaton.accept(&wrong, b'a'),
        PrefixAutomatonState::Sink
    );
    assert!(!automaton.is_match(&PrefixAutomatonState::State(3)));
}
