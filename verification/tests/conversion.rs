use std::collections::{HashSet, VecDeque};

use automata::dfa::DFA;
use automata::nfa::NFA;
use automata::nfa_to_dfa::{convert, convert_with_meta_states};

fn set(states: &[usize]) -> HashSet<usize> {
    states.iter().copied().collect()
}

/// An automaton with `count` states and the given transitions (source,
/// target, symbol), start states and accepting states.
fn build(
    count: usize,
    transitions: &[(usize, usize, char)],
    start: &[usize],
    end: &[usize],
) -> NFA {
    let mut nfa = NFA::new();
    for _ in 0..count {
        nfa.add_state();
    }
    for (from, to, symbol) in transitions {
        nfa.add_transition(from, to, *symbol).unwrap();
    }
    nfa.set_start_states(set(start)).unwrap();
    nfa.set_end_states(set(end)).unwrap();
    nfa
}

/// States a, b, c; a-0->a, a-1->a, a-0->b, b-1->c; start {a}; end {c}.
fn ends_in_zero_one() -> NFA {
    build(3, &[(0, 0, '0'), (0, 0, '1'), (0, 1, '0'), (1, 2, '1')], &[0], &[2])
}

/// Accepts the words over 0 and 1 whose third symbol from the end is 1.
fn third_from_end_is_one() -> NFA {
    build(
        4,
        &[
            (0, 0, '0'),
            (0, 0, '1'),
            (0, 1, '1'),
            (1, 2, '0'),
            (1, 2, '1'),
            (2, 3, '0'),
            (2, 3, '1'),
        ],
        &[0],
        &[3],
    )
}

/// Two start states, a symbol that leads nowhere from some states, and a
/// state that no word leads to.
fn with_two_starts() -> NFA {
    build(
        5,
        &[(0, 2, 'a'), (1, 2, 'b'), (1, 3, 'a'), (2, 0, 'c'), (3, 3, 'a'), (4, 0, 'a')],
        &[0, 1],
        &[3],
    )
}

fn nfa_accepts(nfa: &NFA, word: &str) -> bool {
    let mut current: HashSet<usize> = nfa.start_states().clone();
    for symbol in word.chars() {
        let mut next = HashSet::new();
        for state in &current {
            if let Some(targets) = nfa.get_state(state).unwrap().get(symbol) {
                next.extend(targets.iter().copied());
            }
        }
        current = next;
    }
    current.iter().any(|state| nfa.is_end_state(state))
}

fn dfa_accepts(dfa: &DFA, word: &str) -> bool {
    let mut current = match dfa.start_state() {
        Some(state) => state,
        None => return false,
    };
    for symbol in word.chars() {
        current = match dfa.next_state(current, symbol) {
            Some(state) => state,
            None => return false,
        };
    }
    dfa.is_end_state(current)
}

/// All words over `alphabet` of at most `length` symbols.
fn words(alphabet: &[char], length: usize) -> Vec<String> {
    let mut all = vec![String::new()];
    let mut last = vec![String::new()];
    for _ in 0..length {
        let mut longer = Vec::new();
        for word in &last {
            for symbol in alphabet {
                let mut grown = word.clone();
                grown.push(*symbol);
                longer.push(grown);
            }
        }
        all.extend(longer.iter().cloned());
        last = longer;
    }
    all
}

fn assert_same_language(nfa: &NFA, dfa: &DFA, alphabet: &[char], length: usize) {
    for word in words(alphabet, length) {
        assert_eq!(dfa_accepts(dfa, &word), nfa_accepts(nfa, &word), "word {:?}", word);
    }
}

/// The set of states that one symbol leads to from the states of `from`.
fn step(nfa: &NFA, from: &[usize], symbol: char) -> Vec<usize> {
    let mut to = HashSet::new();
    for state in from {
        if let Some(targets) = nfa.get_state(state).unwrap().get(symbol) {
            to.extend(targets.iter().copied());
        }
    }
    let mut to: Vec<usize> = to.into_iter().collect();
    to.sort();
    to
}

/// Holds a result of the subset construction against what the construction
/// is: start state, one id for each set, transitions, accepting states and
/// the order of the ids.
fn assert_is_subset_construction(nfa: &NFA, alphabet: &[char]) {
    let (dfa, meta_states) = convert_with_meta_states(nfa);
    assert_eq!(dfa.state_count(), meta_states.len());
    assert_eq!(dfa.start_state(), Some(0));
    let mut start: Vec<usize> = nfa.start_states().iter().copied().collect();
    start.sort();
    assert_eq!(meta_states[0], start);

    let distinct: HashSet<&Vec<usize>> = meta_states.iter().collect();
    assert_eq!(distinct.len(), meta_states.len());

    let mut met = vec![0usize];
    for (id, members) in meta_states.iter().enumerate() {
        assert!(members.windows(2).all(|pair| pair[0] < pair[1]));
        let row = dfa.get_state(id).unwrap();
        let mut symbols = 0;
        for symbol in alphabet {
            let to = step(nfa, members, *symbol);
            match dfa.next_state(id, *symbol) {
                Some(target) => {
                    symbols += 1;
                    assert!(!to.is_empty());
                    assert_eq!(meta_states[target], to);
                    if !met.contains(&target) {
                        met.push(target);
                    }
                }
                None => assert!(to.is_empty()),
            }
        }
        assert_eq!(row.len(), symbols);
        let accepting = members.iter().any(|member| nfa.is_end_state(member));
        assert_eq!(dfa.is_end_state(id), accepting);
    }
    let in_order: Vec<usize> = (0..meta_states.len()).collect();
    assert_eq!(met, in_order);
    assert_eq!(dfa.end_states().iter().filter(|state| !dfa.is_state(**state)).count(), 0);
}

#[test]
fn converts_the_three_state_example() {
    let dfa = convert(ends_in_zero_one());
    assert_eq!(dfa.state_count(), 3);
    assert_eq!(dfa.start_state(), Some(0));
    assert_eq!(dfa.end_states(), &set(&[2]));
    assert_eq!(dfa.next_state(0, '0'), Some(1));
    assert_eq!(dfa.next_state(0, '1'), Some(0));
    assert_eq!(dfa.next_state(1, '0'), Some(1));
    assert_eq!(dfa.next_state(1, '1'), Some(2));
    assert_eq!(dfa.next_state(2, '0'), Some(1));
    assert_eq!(dfa.next_state(2, '1'), Some(0));
    assert_eq!(dfa.next_state(0, '2'), None);
}

#[test]
fn three_state_example_equals_the_automaton_built_by_hand() {
    let mut expected = DFA::new();
    for _ in 0..3 {
        expected.add_state();
    }
    expected.add_transition(&0, 1, '0').unwrap();
    expected.add_transition(&0, 0, '1').unwrap();
    expected.add_transition(&1, 1, '0').unwrap();
    expected.add_transition(&1, 2, '1').unwrap();
    expected.add_transition(&2, 1, '0').unwrap();
    expected.add_transition(&2, 0, '1').unwrap();
    expected.set_start_state(0).unwrap();
    expected.set_end_states(set(&[2])).unwrap();
    assert_eq!(convert(ends_in_zero_one()), expected);
}

#[test]
fn three_state_example_names_its_meta_states() {
    let (dfa, meta_states) = convert_with_meta_states(&ends_in_zero_one());
    assert_eq!(meta_states, vec![vec![0], vec![0, 1], vec![0, 2]]);
    assert_eq!(dfa.state_count(), meta_states.len());
}

#[test]
fn into_gives_what_convert_gives() {
    let by_into: DFA = ends_in_zero_one().into();
    assert_eq!(by_into, convert(ends_in_zero_one()));
    assert_eq!(DFA::from(with_two_starts()), convert(with_two_starts()));
}

#[test]
fn both_entry_points_give_the_same_automaton() {
    let (dfa, _) = convert_with_meta_states(&third_from_end_is_one());
    assert_eq!(dfa, convert(third_from_end_is_one()));
}

#[test]
fn empty_start_set_gives_one_dead_state() {
    let nfa = build(2, &[(0, 1, 'a'), (1, 1, 'b')], &[], &[1]);
    let (dfa, meta_states) = convert_with_meta_states(&nfa);
    assert_eq!(meta_states, vec![Vec::<usize>::new()]);
    assert_eq!(dfa.state_count(), 1);
    assert_eq!(dfa.start_state(), Some(0));
    assert_eq!(dfa.get_state(0).unwrap().len(), 0);
    assert_eq!(dfa.next_state(0, 'a'), None);
    assert!(!dfa.is_end_state(0));
    assert!(dfa.end_states().is_empty());
    assert!(!dfa_accepts(&dfa, ""));
    assert!(!dfa_accepts(&dfa, "a"));
}

#[test]
fn automaton_without_states_gives_one_dead_state() {
    let dfa = convert(NFA::new());
    assert_eq!(dfa.state_count(), 1);
    assert_eq!(dfa.start_state(), Some(0));
    assert_eq!(dfa.get_state(0).unwrap().len(), 0);
    assert!(dfa.end_states().is_empty());
}

#[test]
fn several_start_states_become_one_start_state() {
    let (dfa, meta_states) = convert_with_meta_states(&with_two_starts());
    assert_eq!(dfa.start_state(), Some(0));
    assert_eq!(meta_states[0], vec![0, 1]);
    assert_eq!(dfa.next_state(0, 'a'), Some(1));
    assert_eq!(meta_states[1], vec![2, 3]);
    assert_eq!(dfa.next_state(0, 'b'), Some(2));
    assert_eq!(meta_states[2], vec![2]);
}

#[test]
fn accepting_start_state_accepts_the_empty_word() {
    let nfa = build(2, &[(0, 1, 'a')], &[0, 1], &[1]);
    let dfa = convert(nfa);
    assert!(dfa.is_end_state(0));
    assert!(dfa_accepts(&dfa, ""));
}

#[test]
fn symbol_that_leads_nowhere_has_no_transition() {
    let (dfa, meta_states) = convert_with_meta_states(&with_two_starts());
    let id = meta_states.iter().position(|members| members == &vec![2]).unwrap();
    assert_eq!(dfa.next_state(id, 'a'), None);
    assert_eq!(dfa.next_state(id, 'b'), None);
    assert_eq!(dfa.get_state(id).unwrap().len(), 1);
    for members in &meta_states[1..] {
        assert!(!members.is_empty());
    }
}

#[test]
fn state_that_no_word_leads_to_is_left_out() {
    let (_, meta_states) = convert_with_meta_states(&with_two_starts());
    assert!(meta_states.iter().all(|members| !members.contains(&4)));
}

#[test]
fn each_state_and_symbol_has_one_target_at_most() {
    let dfa = convert(third_from_end_is_one());
    for state in 0..dfa.state_count() {
        let row = dfa.get_state(state).unwrap();
        for place in 0..row.len() {
            let (symbol, target) = row.nth(place).unwrap();
            assert_eq!(dfa.next_state(state, symbol), Some(*target));
            if place > 0 {
                assert!(row.nth(place - 1).unwrap().0 < symbol);
            }
        }
    }
}

#[test]
fn state_accepts_exactly_if_its_meta_state_holds_an_end_state() {
    for nfa in [ends_in_zero_one(), third_from_end_is_one(), with_two_starts()] {
        let (dfa, meta_states) = convert_with_meta_states(&nfa);
        for (id, members) in meta_states.iter().enumerate() {
            let expected = members.iter().any(|member| nfa.is_end_state(member));
            assert_eq!(dfa.is_end_state(id), expected);
        }
        assert!(dfa.end_states().iter().all(|id| *id < meta_states.len()));
    }
}

#[test]
fn each_meta_state_has_one_id() {
    for nfa in [ends_in_zero_one(), third_from_end_is_one(), with_two_starts()] {
        let (dfa, meta_states) = convert_with_meta_states(&nfa);
        assert_eq!(dfa.state_count(), meta_states.len());
        for first in 0..meta_states.len() {
            for second in 0..first {
                assert_ne!(meta_states[first], meta_states[second]);
            }
        }
    }
}

#[test]
fn every_state_can_be_reached_from_the_start_state() {
    for nfa in [ends_in_zero_one(), third_from_end_is_one(), with_two_starts()] {
        let dfa = convert(nfa);
        let mut reached = set(&[dfa.start_state().unwrap()]);
        let mut queue = VecDeque::from(vec![dfa.start_state().unwrap()]);
        while let Some(state) = queue.pop_front() {
            let row = dfa.get_state(state).unwrap();
            for place in 0..row.len() {
                let target = *row.nth(place).unwrap().1;
                if reached.insert(target) {
                    queue.push_back(target);
                }
            }
        }
        assert_eq!(reached.len(), dfa.state_count());
    }
}

#[test]
fn accepts_the_same_words() {
    let nfa = ends_in_zero_one();
    let (dfa, _) = convert_with_meta_states(&nfa);
    assert!(dfa_accepts(&dfa, "01"));
    assert!(dfa_accepts(&dfa, "1101"));
    assert!(!dfa_accepts(&dfa, ""));
    assert!(!dfa_accepts(&dfa, "010"));
    assert!(!dfa_accepts(&dfa, "012"));
    assert_same_language(&nfa, &dfa, &['0', '1', '2'], 6);

    let nfa = third_from_end_is_one();
    let (dfa, _) = convert_with_meta_states(&nfa);
    assert!(dfa_accepts(&dfa, "100"));
    assert!(!dfa_accepts(&dfa, "0011"));
    assert_same_language(&nfa, &dfa, &['0', '1'], 8);

    let nfa = with_two_starts();
    let (dfa, _) = convert_with_meta_states(&nfa);
    assert_same_language(&nfa, &dfa, &['a', 'b', 'c'], 6);
}

#[test]
fn third_from_end_needs_eight_states() {
    let (dfa, meta_states) = convert_with_meta_states(&third_from_end_is_one());
    assert_eq!(dfa.state_count(), 8);
    assert_eq!(dfa.end_states().len(), 4);
    assert!(meta_states.iter().all(|members| members.contains(&0)));
}

#[test]
fn deterministic_automaton_comes_back_under_other_names() {
    // 0 -b-> 2, 0 -a-> 1, 1 -a-> 3, 2 -a-> 3, 3 -b-> 0; start 0; end 1 and 3.
    let transitions = [(0, 2, 'b'), (0, 1, 'a'), (1, 3, 'a'), (2, 3, 'a'), (3, 0, 'b')];
    let nfa = build(4, &transitions, &[0], &[1, 3]);
    let (dfa, meta_states) = convert_with_meta_states(&nfa);
    assert_eq!(dfa.state_count(), 4);
    assert!(meta_states.iter().all(|members| members.len() == 1));
    let name: Vec<usize> = meta_states.iter().map(|members| members[0]).collect();
    assert_eq!(name.iter().copied().collect::<HashSet<usize>>(), set(&[0, 1, 2, 3]));
    assert_eq!(name[dfa.start_state().unwrap()], 0);
    let mut count = 0;
    for id in 0..4 {
        for symbol in ['a', 'b'] {
            if let Some(target) = dfa.next_state(id, symbol) {
                assert!(transitions.contains(&(name[id], name[target], symbol)));
                count += 1;
            }
        }
        assert_eq!(dfa.is_end_state(id), nfa.is_end_state(&name[id]));
    }
    assert_eq!(count, transitions.len());
}

#[test]
fn deterministic_automaton_loses_the_states_that_no_word_leads_to() {
    let nfa = build(3, &[(0, 1, 'a'), (2, 1, 'a')], &[0], &[1]);
    let (dfa, meta_states) = convert_with_meta_states(&nfa);
    assert_eq!(meta_states, vec![vec![0], vec![1]]);
    assert_eq!(dfa.next_state(0, 'a'), Some(1));
    assert_eq!(dfa.end_states(), &set(&[1]));
}

#[test]
fn ids_follow_a_walk_in_breadth_with_ascending_symbols() {
    // The transitions are entered with the larger symbols first.
    let nfa = build(
        5,
        &[(0, 1, 'z'), (0, 2, 'm'), (0, 3, 'a'), (3, 4, 'b'), (1, 4, 'a'), (2, 0, 'a')],
        &[0],
        &[4],
    );
    let (dfa, meta_states) = convert_with_meta_states(&nfa);
    assert_eq!(meta_states, vec![vec![0], vec![3], vec![2], vec![1], vec![4]]);
    assert_eq!(dfa.next_state(0, 'a'), Some(1));
    assert_eq!(dfa.next_state(0, 'm'), Some(2));
    assert_eq!(dfa.next_state(0, 'z'), Some(3));
    assert_eq!(dfa.next_state(1, 'b'), Some(4));
    assert_eq!(dfa.next_state(2, 'a'), Some(0));
    assert_eq!(dfa.next_state(3, 'a'), Some(4));
}

#[test]
fn order_of_building_does_not_change_the_result() {
    let first = build(3, &[(0, 0, '0'), (0, 0, '1'), (0, 1, '0'), (1, 2, '1')], &[0], &[2]);
    let second = build(3, &[(1, 2, '1'), (0, 1, '0'), (0, 0, '1'), (0, 0, '0')], &[0], &[2]);
    assert_eq!(convert(first), convert(second));
}

#[test]
fn results_are_subset_constructions() {
    assert_is_subset_construction(&ends_in_zero_one(), &['0', '1', '2']);
    assert_is_subset_construction(&third_from_end_is_one(), &['0', '1']);
    assert_is_subset_construction(&with_two_starts(), &['a', 'b', 'c', 'd']);
    assert_is_subset_construction(&NFA::new(), &['a']);
}

#[test]
fn states_are_no_more_than_the_sets_of_states() {
    for (nfa, count) in [
        (ends_in_zero_one(), 3u32),
        (third_from_end_is_one(), 4),
        (with_two_starts(), 5),
        (NFA::new(), 0),
    ] {
        assert_eq!(nfa.state_count(), count as usize);
        let dfa = convert(nfa);
        assert!(dfa.state_count() <= 2usize.pow(count));
    }
}

#[test]
fn every_set_of_states_can_become_a_state() {
    // From state 0 each symbol leads to state 0 and to one state more, so
    // that every set with state 0 in it is met: 4 of the 8 sets.
    let transitions =
        [(0, 0, 'a'), (0, 1, 'a'), (0, 0, 'b'), (0, 2, 'b'), (1, 1, 'b'), (2, 2, 'a')];
    let nfa = build(3, &transitions, &[0], &[]);
    let (dfa, meta_states) = convert_with_meta_states(&nfa);
    assert_eq!(dfa.state_count(), 4);
    assert_eq!(meta_states, vec![vec![0], vec![0, 1], vec![0, 2], vec![0, 1, 2]]);
    assert!(dfa.end_states().is_empty());
}
