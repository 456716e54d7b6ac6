use std::collections::HashSet;

use automata::dfa::DFA;
use automata::error::AutomatonError;

fn states(ids: &[usize]) -> HashSet<usize> {
    ids.iter().copied().collect()
}

#[test]
fn new_dfa_has_nothing() {
    let dfa = DFA::new();
    assert_eq!(dfa.state_count(), 0);
    assert!(!dfa.is_state(0));
    assert_eq!(dfa.start_state(), None);
    assert!(dfa.end_states().is_empty());
    assert_eq!(dfa.next_state(0, 'a'), None);
}

#[test]
fn dfa_state_ids_count_up_from_zero() {
    let mut dfa = DFA::new();
    assert_eq!(dfa.add_state(), 0);
    assert_eq!(dfa.add_state(), 1);
    assert_eq!(dfa.state_count(), 2);
    assert!(dfa.is_state(1));
    assert!(!dfa.is_state(2));
}

#[test]
fn dfa_add_transition_records_the_target() {
    let mut dfa = DFA::new();
    let a = dfa.add_state();
    let b = dfa.add_state();
    assert_eq!(dfa.add_transition(&a, b, 'x'), Ok(()));
    assert_eq!(dfa.next_state(a, 'x'), Some(b));
    assert_eq!(dfa.next_state(a, 'y'), None);
    assert_eq!(dfa.next_state(b, 'x'), None);
    assert_eq!(dfa.get_state(a).unwrap().get('x'), Some(&b));
    assert_eq!(dfa.get_state(a).unwrap().len(), 1);
}

#[test]
fn dfa_add_transition_twice_fails_and_set_transition_overwrites() {
    let mut dfa = DFA::new();
    let a = dfa.add_state();
    let b = dfa.add_state();
    let c = dfa.add_state();
    assert_eq!(dfa.add_transition(&a, b, 'x'), Ok(()));
    assert_eq!(
        dfa.add_transition(&a, c, 'x'),
        Err(AutomatonError::DuplicateTransition(a, 'x'))
    );
    assert_eq!(dfa.next_state(a, 'x'), Some(b));
    assert_eq!(dfa.set_transition(&a, c, 'x'), Ok(()));
    assert_eq!(dfa.next_state(a, 'x'), Some(c));
    assert_eq!(dfa.get_state(a).unwrap().len(), 1);
}

#[test]
fn dfa_add_transition_with_the_same_target_twice_fails_too() {
    let mut dfa = DFA::new();
    let a = dfa.add_state();
    assert_eq!(dfa.add_transition(&a, a, 'x'), Ok(()));
    assert_eq!(
        dfa.add_transition(&a, a, 'x'),
        Err(AutomatonError::DuplicateTransition(a, 'x'))
    );
}

#[test]
fn dfa_set_transition_adds_where_there_was_none() {
    let mut dfa = DFA::new();
    let a = dfa.add_state();
    assert_eq!(dfa.set_transition(&a, a, 'q'), Ok(()));
    assert_eq!(dfa.next_state(a, 'q'), Some(a));
}

#[test]
fn dfa_transitions_need_known_states() {
    let mut dfa = DFA::new();
    let a = dfa.add_state();
    assert_eq!(dfa.add_transition(&a, 4, 'x'), Err(AutomatonError::UnknownState(4)));
    assert_eq!(dfa.add_transition(&6, a, 'x'), Err(AutomatonError::UnknownState(6)));
    assert_eq!(dfa.add_transition(&6, 4, 'x'), Err(AutomatonError::UnknownState(4)));
    assert_eq!(dfa.set_transition(&a, 4, 'x'), Err(AutomatonError::UnknownState(4)));
    assert_eq!(dfa.set_transition(&6, a, 'x'), Err(AutomatonError::UnknownState(6)));
    assert_eq!(dfa.set_transition(&6, 4, 'x'), Err(AutomatonError::UnknownState(4)));
    assert_eq!(dfa.next_state(a, 'x'), None);
}

#[test]
fn dfa_unknown_target_is_reported_before_a_duplicate() {
    let mut dfa = DFA::new();
    let a = dfa.add_state();
    dfa.add_transition(&a, a, 'x').unwrap();
    assert_eq!(dfa.add_transition(&a, 2, 'x'), Err(AutomatonError::UnknownState(2)));
}

#[test]
fn dfa_set_start_state_replaces_the_start_state() {
    let mut dfa = DFA::new();
    let a = dfa.add_state();
    let b = dfa.add_state();
    assert_eq!(dfa.set_start_state(a), Ok(()));
    assert_eq!(dfa.start_state(), Some(a));
    assert_eq!(dfa.set_start_state(b), Ok(()));
    assert_eq!(dfa.start_state(), Some(b));
}

#[test]
fn dfa_set_start_state_with_unknown_state_fails() {
    let mut dfa = DFA::new();
    assert_eq!(dfa.set_start_state(0), Err(AutomatonError::UnknownState(0)));
    assert_eq!(dfa.start_state(), None);
    let a = dfa.add_state();
    dfa.set_start_state(a).unwrap();
    assert_eq!(dfa.set_start_state(3), Err(AutomatonError::UnknownState(3)));
    assert_eq!(dfa.start_state(), Some(a));
}

#[test]
fn dfa_set_end_states_replaces_the_set() {
    let mut dfa = DFA::new();
    let a = dfa.add_state();
    let b = dfa.add_state();
    assert_eq!(dfa.set_end_states(states(&[a, b])), Ok(()));
    assert!(dfa.is_end_state(a));
    assert!(dfa.is_end_state(b));
    assert_eq!(dfa.set_end_states(states(&[b])), Ok(()));
    assert!(!dfa.is_end_state(a));
    assert_eq!(dfa.end_states(), &states(&[b]));
}

#[test]
fn dfa_set_end_states_with_unknown_member_fails() {
    let mut dfa = DFA::new();
    let a = dfa.add_state();
    dfa.set_end_states(states(&[a])).unwrap();
    assert_eq!(dfa.set_end_states(states(&[a, 1])), Err(AutomatonError::UnknownState(1)));
    assert_eq!(dfa.end_states(), &states(&[a]));
}

#[test]
fn dfa_get_state_of_unknown_state_fails() {
    let dfa = DFA::new();
    assert_eq!(dfa.get_state(0).err(), Some(AutomatonError::UnknownState(0)));
}

#[test]
fn dfas_with_the_same_contents_are_equal() {
    let mut first = DFA::new();
    let a = first.add_state();
    let b = first.add_state();
    first.add_transition(&a, b, '0').unwrap();
    first.add_transition(&a, a, '1').unwrap();
    first.set_start_state(a).unwrap();
    first.set_end_states(states(&[b])).unwrap();

    let mut second = DFA::new();
    let a = second.add_state();
    let b = second.add_state();
    second.add_transition(&a, a, '1').unwrap();
    second.add_transition(&a, a, '0').unwrap();
    second.set_transition(&a, b, '0').unwrap();
    second.set_end_states(states(&[b])).unwrap();
    second.set_start_state(a).unwrap();
    assert_eq!(first, second);

    second.set_transition(&b, a, '0').unwrap();
    assert_ne!(first, second);
}
