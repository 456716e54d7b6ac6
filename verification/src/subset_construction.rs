//! The subset construction as a relation between a nondeterministic
//! automaton, a deterministic one and the sets of states that the states of
//! the second stand for, and what follows from it.

use vstd::prelude::*;
use vstd::set_lib::{lemma_int_range, lemma_len_subset, set_int_range};
use crate::dfa::DfaView;
use crate::language::lemma_accepts_by_reach;
use crate::nfa::{NfaView, StateId, Terminal};

verus! {

/// Whether `states` has a member.
pub open spec fn inhabited(states: Set<StateId>) -> bool {
    exists|state: StateId| states.contains(state)
}

/// Whether an accepting state of `nfa` is among `states`.
pub open spec fn meets_end_states(nfa: NfaView, states: Set<StateId>) -> bool {
    exists|state: StateId| states.contains(state) && nfa.end_states.contains(state)
}

/// Whether a transition leads to `state` from a state with a smaller id.
pub open spec fn follows(dfa: DfaView, state: StateId) -> bool {
    exists|from: StateId, symbol: Terminal|
        from < state && #[trigger] dfa.next(from, symbol) == Some(state)
}

/// Whether a transition leads to `state` that comes before the transition
/// from `from` on `symbol`: from a state with a smaller id than `from`, or
/// from `from` on a smaller symbol than `symbol`.
pub open spec fn met_before(dfa: DfaView, state: StateId, from: StateId, symbol: Terminal) -> bool {
    exists|earlier: StateId, other: Terminal|
        (earlier < from || (earlier == from && other < symbol)) && #[trigger] dfa.next(
            earlier,
            other,
        ) == Some(state)
}

/// The states of `dfa` are numbered as a walk in breadth from state 0 meets
/// them, which takes the states in the order of their ids and the symbols of
/// each in ascending order: a transition to a state comes, for each state
/// with a smaller id but state 0, after some transition to that state.
pub open spec fn is_numbered_in_breadth(dfa: DfaView) -> bool {
    forall|state: StateId, from: StateId, symbol: Terminal|
        0 < state && (dfa.next(from, symbol) matches Some(to) && state < to)
            ==> #[trigger] met_before(dfa, state, from, symbol)
}

/// `dfa` is the subset construction of `nfa`, and `meta[id]` is the set of
/// states of `nfa` that the state `id` of `dfa` stands for.
///
/// State 0 is the start state and stands for the start states of `nfa`. No
/// two states stand for the same set. A symbol leads from a state to the
/// state that stands for the set of all states that the symbol leads to from
/// a member of the first state's set, and nowhere if that set is empty. A
/// state accepts exactly if its set holds an accepting state of `nfa`. Every
/// state but the first has a transition into it from a state with a smaller
/// id.
pub open spec fn is_subset_construction(
    nfa: NfaView,
    dfa: DfaView,
    meta: Seq<Set<StateId>>,
) -> bool {
    &&& meta.len() == dfa.table.len()
    &&& meta.len() > 0
    &&& dfa.start_state == Some(0usize)
    &&& meta[0] == nfa.start_states
    &&& forall|first: int, second: int|
        0 <= first < second < meta.len() ==> meta[first] != meta[second]
    &&& forall|from: StateId, symbol: Terminal|
        dfa.is_state(from) ==> match #[trigger] dfa.next(from, symbol) {
            Some(to) => dfa.is_state(to) && meta[to as int] == nfa.step(
                meta[from as int],
                symbol,
            ) && inhabited(meta[to as int]),
            None => !inhabited(nfa.step(meta[from as int], symbol)),
        }
    &&& forall|state: StateId| #[trigger]
        dfa.end_states.contains(state) <==> dfa.is_state(state) && meets_end_states(
            nfa,
            meta[state as int],
        )
    &&& forall|state: StateId| 0 < state && dfa.is_state(state) ==> #[trigger] follows(dfa, state)
}

/// When the deterministic automaton has read a word, its state stands for
/// the states in which the nondeterministic one may be; it has no state
/// exactly if the other can be in none.
pub proof fn lemma_run_tracks_reach(
    nfa: NfaView,
    dfa: DfaView,
    meta: Seq<Set<StateId>>,
    word: Seq<Terminal>,
)
    requires
        is_subset_construction(nfa, dfa, meta),
    ensures
        match dfa.run(word) {
            Some(state) => dfa.is_state(state) && meta[state as int] == nfa.reach(word),
            None => !inhabited(nfa.reach(word)),
        },
    decreases word.len(),
{
    if word.len() > 0 {
        let shorter = word.drop_last();
        lemma_run_tracks_reach(nfa, dfa, meta, shorter);
        match dfa.run(shorter) {
            Some(from) => {
                let next = dfa.next(from, word.last());
                assert(nfa.reach(word) == nfa.step(meta[from as int], word.last()));
            },
            None => {
                if inhabited(nfa.reach(word)) {
                    let to = choose|to: StateId| nfa.reach(word).contains(to);
                    let from = choose|from: StateId|
                        nfa.reach(shorter).contains(from) && #[trigger] nfa.has_transition(
                            from,
                            to,
                            word.last(),
                        );
                    assert(nfa.reach(shorter).contains(from));
                }
            },
        }
    }
}

/// The subset construction accepts the words that the automaton it was made
/// from accepts, and no others.
pub proof fn lemma_same_language(
    nfa: NfaView,
    dfa: DfaView,
    meta: Seq<Set<StateId>>,
    word: Seq<Terminal>,
)
    requires
        is_subset_construction(nfa, dfa, meta),
    ensures
        dfa.accepts(word) <==> nfa.accepts(word),
{
    lemma_run_tracks_reach(nfa, dfa, meta, word);
    lemma_accepts_by_reach(nfa, word);
    match dfa.run(word) {
        Some(state) => {
            assert(dfa.end_states.contains(state) <==> meets_end_states(nfa, meta[state as int]));
            if meets_end_states(nfa, meta[state as int]) {
                let member = choose|member: StateId|
                    meta[state as int].contains(member) && nfa.end_states.contains(member);
                assert(nfa.reach(word).contains(member) && nfa.end_states.contains(member));
            }
        },
        None => {
            if nfa.accepts(word) {
                let member = choose|member: StateId| #[trigger]
                    nfa.reach(word).contains(member) && nfa.end_states.contains(member);
                assert(nfa.reach(word).contains(member));
            }
        },
    }
}

/// Some word brings the subset construction into any given state of it.
pub proof fn lemma_every_state_reachable(
    nfa: NfaView,
    dfa: DfaView,
    meta: Seq<Set<StateId>>,
    state: StateId,
)
    requires
        is_subset_construction(nfa, dfa, meta),
        dfa.is_state(state),
    ensures
        dfa.reachable(state),
    decreases state,
{
    if state == 0 {
        assert(dfa.run(Seq::<Terminal>::empty()) == Some(state));
    } else {
        assert(follows(dfa, state));
        let (from, symbol) = choose|from: StateId, symbol: Terminal|
            from < state && #[trigger] dfa.next(from, symbol) == Some(state);
        lemma_every_state_reachable(nfa, dfa, meta, from);
        let word = choose|word: Seq<Terminal>| #[trigger] dfa.run(word) == Some(from);
        let longer = word.push(symbol);
        assert(longer.drop_last() == word);
        assert(dfa.run(longer) == Some(state));
    }
}

/// A state of the subset construction accepts exactly if an accepting state
/// is among the states that it stands for.
pub proof fn lemma_accepting_states(
    nfa: NfaView,
    dfa: DfaView,
    meta: Seq<Set<StateId>>,
    state: StateId,
)
    requires
        is_subset_construction(nfa, dfa, meta),
        dfa.is_state(state),
    ensures
        dfa.end_states.contains(state) <==> exists|member: StateId|
            meta[state as int].contains(member) && nfa.end_states.contains(member),
{
}

/// Two states of the subset construction stand for the same set of states
/// only if they are one state.
pub proof fn lemma_ids_name_sets(
    nfa: NfaView,
    dfa: DfaView,
    meta: Seq<Set<StateId>>,
    first: StateId,
    second: StateId,
)
    requires
        is_subset_construction(nfa, dfa, meta),
        dfa.is_state(first),
        dfa.is_state(second),
    ensures
        meta[first as int] == meta[second as int] <==> first == second,
{
}

/// No symbol comes before the symbol with the number zero.
proof fn lemma_symbols_count_from_zero(symbol: Terminal)
    ensures
        0 <= symbol as int,
{
}

/// Two subset constructions of one automaton, both numbered in breadth, agree
/// on the set that a state stands for, for each id that both have. The
/// transition from `from` on `symbol` is one that leads to `state` in the
/// first of them.
proof fn lemma_numbering_fixes_set(
    nfa: NfaView,
    first: DfaView,
    first_meta: Seq<Set<StateId>>,
    second: DfaView,
    second_meta: Seq<Set<StateId>>,
    state: StateId,
    from: StateId,
    symbol: Terminal,
)
    requires
        is_subset_construction(nfa, first, first_meta),
        is_numbered_in_breadth(first),
        is_subset_construction(nfa, second, second_meta),
        is_numbered_in_breadth(second),
        first.is_state(state),
        second.is_state(state),
        state > 0 ==> from < state && first.next(from, symbol) == Some(state),
    ensures
        first_meta[state as int] == second_meta[state as int],
    decreases state, from, symbol as int,
{
    if state > 0 {
        // The source stands for the same set in both, so the transition
        // leads to a state for the same set in the second: to `other`.
        lemma_numbering_fixes_set_at(nfa, first, first_meta, second, second_meta, from);
        let target = first_meta[state as int];
        assert(target == nfa.step(first_meta[from as int], symbol));
        let there = second.next(from, symbol);
        assert(there is Some);
        let other = there.unwrap();
        assert(second_meta[other as int] == target);
        if other < state {
            // Then `other` would stand for the set of `state` in the first.
            lemma_numbering_fixes_set_at(nfa, first, first_meta, second, second_meta, other);
            assert(first_meta[other as int] != first_meta[state as int]);
        } else if other > state {
            // Then an earlier transition leads to `state` in the second. In
            // the first it leads to a state `back` for the same set, which is
            // no state before `state`; so a still earlier transition leads
            // to `state` in the first, and the argument begins again there.
            assert(met_before(second, state, from, symbol));
            let (earlier, before) = choose|earlier: StateId, before: Terminal|
                (earlier < from || (earlier == from && before < symbol)) && #[trigger] second.next(
                    earlier,
                    before,
                ) == Some(state);
            lemma_numbering_fixes_set_at(nfa, first, first_meta, second, second_meta, earlier);
            assert(second_meta[state as int] == nfa.step(second_meta[earlier as int], before));
            let here = first.next(earlier, before);
            assert(here is Some);
            let back = here.unwrap();
            assert(first_meta[back as int] == second_meta[state as int]);
            assert(second_meta[state as int] != second_meta[other as int]);
            if back < state {
                lemma_numbering_fixes_set_at(nfa, first, first_meta, second, second_meta, back);
                assert(second_meta[back as int] != second_meta[state as int]);
            } else {
                assert(back > state);
                assert(met_before(first, state, earlier, before));
                let (sooner, least) = choose|sooner: StateId, least: Terminal|
                    (sooner < earlier || (sooner == earlier && least < before))
                        && #[trigger] first.next(sooner, least) == Some(state);
                assert(sooner < from || (sooner == from && (least as int) < (symbol as int)));
                lemma_symbols_count_from_zero(least);
                lemma_numbering_fixes_set(
                    nfa,
                    first,
                    first_meta,
                    second,
                    second_meta,
                    state,
                    sooner,
                    least,
                );
            }
        }
    }
}

/// Two subset constructions of one automaton, both numbered in breadth, agree
/// on the set that a state stands for, for each id that both have.
proof fn lemma_numbering_fixes_set_at(
    nfa: NfaView,
    first: DfaView,
    first_meta: Seq<Set<StateId>>,
    second: DfaView,
    second_meta: Seq<Set<StateId>>,
    state: StateId,
)
    requires
        is_subset_construction(nfa, first, first_meta),
        is_numbered_in_breadth(first),
        is_subset_construction(nfa, second, second_meta),
        is_numbered_in_breadth(second),
        first.is_state(state),
        second.is_state(state),
    ensures
        first_meta[state as int] == second_meta[state as int],
    decreases state, usize::MAX + 1, 0int,
{
    if state > 0 {
        assert(follows(first, state));
        let (from, symbol) = choose|from: StateId, symbol: Terminal|
            from < state && #[trigger] first.next(from, symbol) == Some(state);
        lemma_numbering_fixes_set(nfa, first, first_meta, second, second_meta, state, from, symbol);
    }
}

/// Of two subset constructions of one automaton, both numbered in breadth,
/// the second has no more states than the first.
proof fn lemma_numbering_fixes_count(
    nfa: NfaView,
    first: DfaView,
    first_meta: Seq<Set<StateId>>,
    second: DfaView,
    second_meta: Seq<Set<StateId>>,
)
    requires
        is_subset_construction(nfa, first, first_meta),
        is_numbered_in_breadth(first),
        is_subset_construction(nfa, second, second_meta),
        is_numbered_in_breadth(second),
        first.table.len() <= usize::MAX,
    ensures
        second.table.len() <= first.table.len(),
{
    if second.table.len() > first.table.len() {
        let state = first.table.len() as StateId;
        assert(follows(second, state));
        let (from, symbol) = choose|from: StateId, symbol: Terminal|
            from < state && #[trigger] second.next(from, symbol) == Some(state);
        lemma_numbering_fixes_set_at(nfa, first, first_meta, second, second_meta, from);
        assert(second_meta[state as int] == nfa.step(second_meta[from as int], symbol));
        let here = first.next(from, symbol);
        assert(here is Some);
        let back = here.unwrap();
        lemma_numbering_fixes_set_at(nfa, first, first_meta, second, second_meta, back);
        assert(second_meta[back as int] != second_meta[state as int]);
    }
}

/// The subset construction of an automaton, numbered in breadth, is one
/// automaton: two of them have the same states, transitions, start state
/// and accepting states, and their states stand for the same sets.
pub proof fn lemma_construction_is_unique(
    nfa: NfaView,
    first: DfaView,
    first_meta: Seq<Set<StateId>>,
    second: DfaView,
    second_meta: Seq<Set<StateId>>,
)
    requires
        is_subset_construction(nfa, first, first_meta),
        is_numbered_in_breadth(first),
        is_subset_construction(nfa, second, second_meta),
        is_numbered_in_breadth(second),
        first.table.len() <= usize::MAX,
        second.table.len() <= usize::MAX,
    ensures
        first == second,
        first_meta == second_meta,
{
    lemma_numbering_fixes_count(nfa, first, first_meta, second, second_meta);
    lemma_numbering_fixes_count(nfa, second, second_meta, first, first_meta);
    assert forall|id: int| 0 <= id < first_meta.len() implies first_meta[id]
        == second_meta[id] by {
        lemma_numbering_fixes_set_at(nfa, first, first_meta, second, second_meta, id as StateId);
    }
    assert(first_meta =~= second_meta);
    assert forall|id: int| 0 <= id < first.table.len() implies first.table[id]
        == second.table[id] by {
        let state = id as StateId;
        assert forall|symbol: Terminal|
            first.table[id].contains_key(symbol) <==> second.table[id].contains_key(
                symbol,
            ) by {
            let here = first.next(state, symbol);
            let there = second.next(state, symbol);
        }
        assert forall|symbol: Terminal|
            first.table[id].contains_key(symbol) implies first.table[id][symbol]
            == second.table[id][symbol] by {
            let here = first.next(state, symbol);
            let there = second.next(state, symbol);
            let to = here.unwrap();
            let other = there.unwrap();
            assert(first_meta[to as int] == first_meta[other as int]);
            if to < other {
                assert(first_meta[to as int] != first_meta[other as int]);
            }
            if other < to {
                assert(first_meta[other as int] != first_meta[to as int]);
            }
        }
        assert(first.table[id] =~= second.table[id]);
    }
    assert(first.table =~= second.table);
    assert(first.end_states =~= second.end_states);
}

/// The number of sets that can be drawn from `width` states.
pub open spec fn subsets_count(width: nat) -> nat
    decreases width,
{
    if width == 0 {
        1
    } else {
        2 * subsets_count((width - 1) as nat)
    }
}

/// A number for each set drawn from the first `width` states: the sum of
/// the numbers of sets that can be drawn from the states before each member.
spec fn subset_number(states: Set<StateId>, width: nat) -> nat
    decreases width,
{
    if width == 0 {
        0
    } else {
        let rest = subset_number(states, (width - 1) as nat);
        if states.contains((width - 1) as StateId) {
            rest + subsets_count((width - 1) as nat)
        } else {
            rest
        }
    }
}

proof fn lemma_subset_number_bound(states: Set<StateId>, width: nat)
    ensures
        subset_number(states, width) < subsets_count(width),
    decreases width,
{
    if width > 0 {
        lemma_subset_number_bound(states, (width - 1) as nat);
    }
}

proof fn lemma_subset_number_tells_members(
    first: Set<StateId>,
    second: Set<StateId>,
    width: nat,
    state: StateId,
)
    requires
        width <= usize::MAX + 1,
        subset_number(first, width) == subset_number(second, width),
        state < width,
    ensures
        first.contains(state) == second.contains(state),
    decreases width,
{
    let less = (width - 1) as nat;
    lemma_subset_number_bound(first, less);
    lemma_subset_number_bound(second, less);
    if state < less {
        lemma_subset_number_tells_members(first, second, less, state);
    }
}

/// There are no more sets that differ from each other and hold only states
/// among the first `width` than can be drawn from that many states.
pub proof fn lemma_distinct_sets_bounded(sets: Seq<Set<StateId>>, width: nat)
    requires
        width <= usize::MAX + 1,
        forall|i: int, state: StateId|
            0 <= i < sets.len() && #[trigger] sets[i].contains(state) ==> state < width,
        forall|i: int, j: int| 0 <= i < j < sets.len() ==> sets[i] != sets[j],
    ensures
        sets.len() <= subsets_count(width),
{
    let numbers = Seq::new(sets.len(), |i: int| subset_number(sets[i], width) as int);
    assert forall|i: int, j: int|
        0 <= i < numbers.len() && 0 <= j < numbers.len() && i != j implies numbers[i]
        != numbers[j] by {
        if numbers[i] == numbers[j] {
            assert forall|state: StateId| sets[i].contains(state) == sets[j].contains(state) by {
                if state < width {
                    lemma_subset_number_tells_members(sets[i], sets[j], width, state);
                }
            }
            assert(sets[i] =~= sets[j]);
        }
    }
    numbers.unique_seq_to_set();
    let range = set_int_range(0, subsets_count(width) as int);
    lemma_int_range(0, subsets_count(width) as int);
    assert forall|number: int| numbers.to_set().contains(number) implies range.contains(
        number,
    ) by {
        let i = choose|i: int| 0 <= i < numbers.len() && numbers[i] == number;
        lemma_subset_number_bound(sets[i], width);
    }
    lemma_len_subset(numbers.to_set(), range);
}

} // verus!
