use nfa2dfa::{Automata, State, Transition};

fn sample() -> Automata {
    let mut automata = Automata::new();
    automata.push_state("0".into());
    automata.push_state("1".into());
    automata.push_state("2".into());
    automata.push_state("3".into());
    automata.push_state("4".into());
    automata.push_state("5".into());

    automata.push_accept_state(5);

    automata.push_transition_from(0, Transition::new("a", 1));
    automata.push_transition_from(0, Transition::new("", 2));
    automata.push_transition_from(0, Transition::new("", 3));
    automata.push_transition_from(1, Transition::new("", 3));
    automata.push_transition_from(2, Transition::new("b", 3));
    automata.push_transition_from(3, Transition::new("", 4));
    automata.push_transition_from(4, Transition::new("a", 5));
    automata
}

fn tags(list: &[&str]) -> State {
    State::from_tags(list.iter().map(|s| s.to_string()).collect())
}

fn edge_to(automata: &Automata, from: usize, symbol: &str) -> Vec<usize> {
    automata.move_from_with(from, symbol)
}

#[test]
fn e_closure_set() {
    let automata = sample();

    let set_01 = automata.e_closure_set(&[0, 1]);
    let set_345 = automata.e_closure_set(&[3, 4, 5]);

    assert_eq!(&set_01, &[0, 1, 3, 4, 2]);
    assert_eq!(&set_345, &[3, 4, 5]);
}

#[test]
fn find_state() {
    let mut automata = Automata::new();
    automata.push_state("p".into());
    automata.push_state("q".into());
    automata.push_state("r".into());

    assert_eq!(Some(0), automata.find(&"p".into()));
    assert_eq!(Some(1), automata.find(&"q".into()));
    assert_eq!(Some(2), automata.find(&"r".into()));
}

#[test]
fn find_missing_state() {
    let mut automata = Automata::new();
    automata.push_state("p".into());
    assert_eq!(None, automata.find(&"z".into()));
    assert_eq!(Some(0), automata.find(&State::from_tag("p")));
}

#[test]
fn e_closure_keeps_seeds_and_repeats() {
    let automata = sample();
    assert_eq!(automata.e_closure_set(&[5]), vec![5]);
    assert_eq!(automata.e_closure_set(&[0, 0]), vec![0, 0, 2, 3, 4]);
    let none: [usize; 0] = [];
    let empty: Vec<usize> = automata.e_closure_set(&none);
    assert!(empty.is_empty());
}

#[test]
fn e_closure_by_state() {
    let automata = sample();
    let seeds = vec![State::from("1")];
    assert_eq!(automata.e_closure_set(seeds.as_slice()), vec![1, 3, 4]);
}

#[test]
fn e_closure_is_closed_under_epsilon() {
    let automata = sample();
    let closure = automata.e_closure_set(&[0]);
    for &q in &closure {
        for t in automata.transitions_from(q) {
            if t.symbol().is_empty() {
                assert!(closure.contains(&t.end_state()));
            }
        }
    }
    assert_eq!(closure, vec![0, 2, 3, 4]);
}

#[test]
fn transitions_are_deduplicated() {
    let mut automata = Automata::new();
    automata.push_state("p".into());
    automata.push_state("q".into());
    automata.push_transition_from(0, Transition::new("a", 1));
    automata.push_transition_from(0, Transition::new("a", 1));
    automata.push_transition_from(0, Transition::new("a", 0));
    assert_eq!(automata.transitions_from(0).len(), 2);
    assert!(automata.transitions_from(1).is_empty());
}

#[test]
fn moves_on_symbol() {
    let automata = sample();
    assert_eq!(automata.move_from_with(0, "a"), vec![1]);
    assert_eq!(automata.move_from_with(0, ""), vec![2, 3]);
    assert!(automata.move_from_with(0, "b").is_empty());
    assert_eq!(automata.move_from_with(State::from("4"), "a"), vec![5]);
}

#[test]
fn counts_and_accessors() {
    let mut automata = Automata::new();
    assert!(automata.is_empty());
    assert_eq!(automata.len(), 0);
    automata.push_state("p".into());
    automata.push_state("q".into());
    automata.push_symbol("a");
    automata.set_entry_state(1);
    automata.push_accept_state(State::from("p"));
    assert!(!automata.is_empty());
    assert_eq!(automata.len(), 2);
    assert_eq!(automata.entry_state(), 1);
    assert_eq!(automata.accept_states(), &vec![0]);
    assert_eq!(automata.alphabet(), &vec!["a".to_string()]);
    assert!(*automata.state(1) == State::from("q"));
    assert_eq!(automata.states().len(), 2);
}

#[test]
fn state_equality_ignores_order() {
    assert!(tags(&["a", "b"]) == tags(&["b", "a"]));
    assert!(tags(&["a", "b"]) != tags(&["a"]));
    assert!(State::new() == tags(&[]));
    assert_eq!(tags(&["x", "y"]).tags().len(), 2);
}

#[test]
fn transition_parts() {
    let t = Transition::new("a", 3);
    assert_eq!(t.symbol(), "a");
    assert_eq!(t.end_state(), 3);
    assert!(t == Transition::new("a", 3));
    assert!(t != Transition::new("b", 3));
    assert!(Transition::new("", 0).is_epsilon());
}

#[test]
fn is_deterministic_cases() {
    let mut automata = Automata::new();
    automata.push_state("p".into());
    automata.push_symbol("a");
    automata.push_symbol("b");
    assert!(!automata.is_deterministic());
    automata.push_transition_from(0, Transition::new("a", 0));
    automata.push_transition_from(0, Transition::new("a", 0));
    assert!(!automata.is_deterministic());
    automata.push_transition_from(0, Transition::new("b", 0));
    assert!(automata.is_deterministic());
}

#[test]
fn sample_to_deterministic() {
    let mut nfa = sample();
    nfa.push_symbol("a");
    nfa.push_symbol("b");
    let dfa = nfa.to_deterministic();

    assert!(dfa.is_deterministic());
    assert_eq!(dfa.len(), 5);
    assert_eq!(dfa.entry_state(), 0);
    assert_eq!(dfa.alphabet(), nfa.alphabet());
    assert_eq!(dfa.find(&tags(&["0", "2", "3", "4"])), Some(0));
    assert_eq!(dfa.find(&tags(&["1", "3", "4", "5"])), Some(1));
    assert_eq!(dfa.find(&tags(&["3", "4"])), Some(2));
    assert_eq!(dfa.find(&tags(&["5"])), Some(3));
    assert_eq!(dfa.find(&tags(&["!"])), Some(4));
    assert_eq!(dfa.accept_states(), &vec![1, 3]);

    assert_eq!(edge_to(&dfa, 0, "a"), vec![1]);
    assert_eq!(edge_to(&dfa, 0, "b"), vec![2]);
    assert_eq!(edge_to(&dfa, 1, "a"), vec![3]);
    assert_eq!(edge_to(&dfa, 1, "b"), vec![4]);
    assert_eq!(edge_to(&dfa, 2, "a"), vec![3]);
    assert_eq!(edge_to(&dfa, 2, "b"), vec![4]);
    assert_eq!(edge_to(&dfa, 3, "a"), vec![4]);
    assert_eq!(edge_to(&dfa, 3, "b"), vec![4]);
    assert_eq!(edge_to(&dfa, 4, "a"), vec![4]);
    assert_eq!(edge_to(&dfa, 4, "b"), vec![4]);
    for s in 0..dfa.len() {
        assert_eq!(dfa.transitions_from(s).len(), 2);
        for t in s + 1..dfa.len() {
            assert!(*dfa.state(s) != *dfa.state(t));
        }
    }
}

#[test]
fn accepting_entry_closure() {
    let mut nfa = Automata::new();
    nfa.push_state("0".into());
    nfa.push_state("1".into());
    nfa.push_symbol("a");
    nfa.push_accept_state(1);
    nfa.push_transition_from(0, Transition::new("", 1));
    let dfa = nfa.to_deterministic();
    assert_eq!(dfa.len(), 2);
    assert_eq!(dfa.accept_states(), &vec![0]);
    assert!(*dfa.state(0) == tags(&["0", "1"]));
    assert_eq!(edge_to(&dfa, 0, "a"), vec![1]);
    assert!(dfa.is_deterministic());
}

#[test]
fn already_deterministic_input() {
    let mut nfa = Automata::new();
    nfa.push_state("p".into());
    nfa.push_state("q".into());
    nfa.push_symbol("a");
    nfa.push_symbol("b");
    nfa.push_accept_state(1);
    nfa.push_transition_from(0, Transition::new("a", 1));
    nfa.push_transition_from(0, Transition::new("b", 0));
    nfa.push_transition_from(1, Transition::new("a", 1));
    nfa.push_transition_from(1, Transition::new("b", 0));
    assert!(nfa.is_deterministic());

    let dfa = nfa.to_deterministic();
    assert!(dfa.is_deterministic());
    assert_eq!(dfa.len(), 2);
    assert!(*dfa.state(0) == tags(&["p"]));
    assert!(*dfa.state(1) == tags(&["q"]));
    assert_eq!(dfa.accept_states(), &vec![1]);
    assert_eq!(edge_to(&dfa, 0, "a"), vec![1]);
    assert_eq!(edge_to(&dfa, 0, "b"), vec![0]);
    assert_eq!(edge_to(&dfa, 1, "a"), vec![1]);
    assert_eq!(edge_to(&dfa, 1, "b"), vec![0]);
}

#[test]
fn empty_alphabet_gives_single_state() {
    let mut nfa = Automata::new();
    nfa.push_state("p".into());
    let dfa = nfa.to_deterministic();
    assert_eq!(dfa.len(), 1);
    assert!(dfa.is_deterministic());
    assert!(dfa.accept_states().is_empty());
}

#[test]
fn label_outside_alphabet_is_not_deterministic() {
    let mut automata = Automata::new();
    automata.push_state("p".into());
    automata.push_symbol("a");
    automata.push_transition_from(0, Transition::new("b", 0));
    assert!(!automata.is_deterministic());

    let mut eps = Automata::new();
    eps.push_state("p".into());
    eps.push_symbol("a");
    eps.push_transition_from(0, Transition::new("", 0));
    assert!(!eps.is_deterministic());
}

#[test]
fn tags_are_sorted_without_repeats() {
    let state = tags(&["b", "a", "b", "ab"]);
    assert_eq!(state.tags(), &vec!["a".to_string(), "ab".to_string(), "b".to_string()]);

    let mut nfa = sample();
    nfa.push_symbol("a");
    nfa.push_symbol("b");
    let dfa = nfa.to_deterministic();
    let expected: Vec<String> = ["1", "3", "4", "5"].iter().map(|s| s.to_string()).collect();
    assert_eq!(dfa.state(1).tags(), &expected);
    let first: Vec<String> = ["0", "2", "3", "4"].iter().map(|s| s.to_string()).collect();
    assert_eq!(dfa.state(0).tags(), &first);
}
