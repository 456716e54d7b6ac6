//! Nondeterministic automata that happen to be deterministic, and what the
//! subset construction makes of them.

use vstd::prelude::*;
use crate::dfa::DfaView;
use crate::nfa::{NfaView, StateId, Terminal};
use crate::subset_construction::{follows, inhabited, is_subset_construction};

verus! {

/// `member` is the one member of `states`.
pub open spec fn only_member(states: Set<StateId>, member: StateId) -> bool {
    forall|state: StateId| states.contains(state) <==> state == member
}

impl NfaView {
    /// From no state does a symbol lead to two states.
    pub open spec fn is_deterministic(self) -> bool {
        forall|from: StateId, symbol: Terminal, first: StateId, second: StateId|
            #[trigger] self.has_transition(from, first, symbol) && #[trigger] self.has_transition(
                from,
                second,
                symbol,
            ) ==> first == second
    }

    /// The automaton has exactly one start state.
    pub open spec fn has_one_start_state(self) -> bool {
        exists|start: StateId| only_member(self.start_states, start)
    }

    /// The automaton read as a deterministic one: each symbol leads to the
    /// state that it leads to here, the run begins in the start state, and
    /// the accepting states are the same. It says what the automaton does
    /// where the automaton is deterministic and has one start state.
    pub open spec fn as_dfa(self) -> DfaView {
        DfaView {
            table: self.table.map_values(
                |state: Map<Terminal, Set<StateId>>|
                    state.map_values(|targets: Set<StateId>| targets.choose()),
            ),
            start_state: if inhabited(self.start_states) {
                Some(self.start_states.choose())
            } else {
                None
            },
            end_states: self.end_states,
        }
    }
}

/// The states of `first` are states of `second` under other names,
/// `image[state]` being the name in `second` of the state `state` of
/// `first`: two states do not share a name, the start state is the start
/// state, a symbol leads from a state where it leads from it in `second`,
/// and a state accepts exactly if it does in `second`.
pub open spec fn is_embedding(first: DfaView, second: DfaView, image: Seq<StateId>) -> bool {
    &&& image.len() == first.table.len()
    &&& forall|state: StateId|
        first.is_state(state) ==> second.is_state(#[trigger] image[state as int])
    &&& forall|state: StateId, other: StateId|
        #[trigger] first.is_state(state) && #[trigger] first.is_state(other) && state != other
            ==> image[state as int] != image[other as int]
    &&& match first.start_state {
        Some(start) => first.is_state(start) && second.start_state == Some(image[start as int]),
        None => second.start_state is None,
    }
    &&& forall|from: StateId, symbol: Terminal|
        first.is_state(from) ==> match #[trigger] first.next(from, symbol) {
            Some(to) => first.is_state(to) && second.next(image[from as int], symbol) == Some(
                image[to as int],
            ),
            None => second.next(image[from as int], symbol) is None,
        }
    &&& forall|state: StateId|
        first.is_state(state) ==> (#[trigger] first.end_states.contains(state)
            <==> second.end_states.contains(image[state as int]))
}

/// `first` is `second` under other names: an embedding under which every
/// state of `second` has a name in `first`.
pub open spec fn is_isomorphism(first: DfaView, second: DfaView, image: Seq<StateId>) -> bool {
    &&& is_embedding(first, second, image)
    &&& forall|state: StateId| #[trigger]
        second.is_state(state) ==> exists|name: StateId|
            first.is_state(name) && image[name as int] == state
}

/// An automaton that is embedded in another reads every word as the other
/// does.
pub proof fn lemma_embedding_runs(
    first: DfaView,
    second: DfaView,
    image: Seq<StateId>,
    word: Seq<Terminal>,
)
    requires
        is_embedding(first, second, image),
    ensures
        match first.run(word) {
            Some(state) => first.is_state(state) && second.run(word) == Some(
                image[state as int],
            ),
            None => second.run(word) is None,
        },
        first.accepts(word) <==> second.accepts(word),
    decreases word.len(),
{
    if word.len() > 0 {
        lemma_embedding_runs(first, second, image, word.drop_last());
    }
}

/// Where a deterministic automaton with one start state went in, each state
/// of the subset construction stands for a single state.
pub proof fn lemma_single_members(
    nfa: NfaView,
    dfa: DfaView,
    meta: Seq<Set<StateId>>,
    state: StateId,
)
    requires
        nfa.wf(),
        nfa.is_deterministic(),
        nfa.has_one_start_state(),
        is_subset_construction(nfa, dfa, meta),
        dfa.is_state(state),
    ensures
        only_member(meta[state as int], meta[state as int].choose()),
        nfa.is_state(meta[state as int].choose()),
    decreases state,
{
    let members = meta[state as int];
    if state == 0 {
        let start = choose|start: StateId| only_member(nfa.start_states, start);
        assert(members.contains(start));
    } else {
        assert(follows(dfa, state));
        let (from, symbol) = choose|from: StateId, symbol: Terminal|
            from < state && #[trigger] dfa.next(from, symbol) == Some(state);
        lemma_single_members(nfa, dfa, meta, from);
        assert forall|other: StateId| members.contains(other) implies other
            == members.choose() by {}
    }
}

/// The names by which the states of the subset construction of a
/// deterministic automaton go in that automaton: the single member of each.
pub open spec fn single_members(meta: Seq<Set<StateId>>) -> Seq<StateId> {
    Seq::new(meta.len(), |state: int| meta[state].choose())
}

/// The subset construction of an automaton that is deterministic and has one
/// start state is that automaton, read as a deterministic one and without
/// the states that no word leads to, under other names: each of its states
/// stands for a single state, which is its name there.
pub proof fn lemma_deterministic_is_embedded(nfa: NfaView, dfa: DfaView, meta: Seq<Set<StateId>>)
    requires
        nfa.wf(),
        nfa.is_deterministic(),
        nfa.has_one_start_state(),
        is_subset_construction(nfa, dfa, meta),
    ensures
        is_embedding(dfa, nfa.as_dfa(), single_members(meta)),
        forall|state: StateId| #[trigger]
            nfa.as_dfa().reachable(state) ==> exists|name: StateId|
                dfa.is_state(name) && single_members(meta)[name as int] == state,
{
    let direct = nfa.as_dfa();
    let image = single_members(meta);
    assert forall|state: StateId| dfa.is_state(state) implies direct.is_state(
        #[trigger] image[state as int],
    ) by {
        lemma_single_members(nfa, dfa, meta, state);
    }
    assert forall|state: StateId, other: StateId|
        #[trigger] dfa.is_state(state) && #[trigger] dfa.is_state(other) && state
            != other implies image[state as int] != image[other as int] by {
        lemma_single_members(nfa, dfa, meta, state);
        lemma_single_members(nfa, dfa, meta, other);
        if image[state as int] == image[other as int] {
            assert(meta[state as int] =~= meta[other as int]);
        }
    }
    assert(direct.start_state == Some(image[0])) by {
        lemma_single_members(nfa, dfa, meta, 0);
        assert(nfa.start_states.contains(image[0]));
    }
    assert forall|from: StateId, symbol: Terminal| dfa.is_state(from) implies match #[trigger] dfa
        .next(from, symbol) {
        Some(to) => dfa.is_state(to) && direct.next(image[from as int], symbol) == Some(
            image[to as int],
        ),
        None => direct.next(image[from as int], symbol) is None,
    } by {
        lemma_single_members(nfa, dfa, meta, from);
        let source = image[from as int];
        match dfa.next(from, symbol) {
            Some(to) => {
                let targets = nfa.table[source as int][symbol];
                assert(nfa.has_transition(source, targets.choose(), symbol));
            },
            None => {
                if nfa.table[source as int].contains_key(symbol) {
                    let to = choose|to: StateId| nfa.has_transition(source, to, symbol);
                    assert(nfa.step(meta[from as int], symbol).contains(to));
                }
            },
        }
    }
    assert forall|state: StateId| dfa.is_state(state) implies (#[trigger] dfa.end_states.contains(
        state,
    ) <==> direct.end_states.contains(image[state as int])) by {
        lemma_single_members(nfa, dfa, meta, state);
        assert(meta[state as int].contains(image[state as int]));
    }
    assert forall|state: StateId| #[trigger] direct.reachable(state) implies exists|name: StateId|
        dfa.is_state(name) && single_members(meta)[name as int] == state by {
        let word = choose|word: Seq<Terminal>| #[trigger] direct.run(word) == Some(state);
        lemma_embedding_runs(dfa, direct, image, word);
    }
}

/// Turning an automaton that is deterministic already, has one start state
/// and no state that no word leads to, into a deterministic one gives the
/// same automaton under other names, with the same accepting states.
pub proof fn lemma_deterministic_is_kept(nfa: NfaView, dfa: DfaView, meta: Seq<Set<StateId>>)
    requires
        nfa.wf(),
        nfa.is_deterministic(),
        nfa.has_one_start_state(),
        forall|state: StateId| nfa.is_state(state) ==> nfa.as_dfa().reachable(state),
        is_subset_construction(nfa, dfa, meta),
    ensures
        is_isomorphism(dfa, nfa.as_dfa(), single_members(meta)),
{
    lemma_deterministic_is_embedded(nfa, dfa, meta);
    let direct = nfa.as_dfa();
    assert forall|state: StateId| #[trigger] direct.is_state(state) implies exists|name: StateId|
        dfa.is_state(name) && single_members(meta)[name as int] == state by {
        assert(nfa.is_state(state));
    }
}

} // verus!
