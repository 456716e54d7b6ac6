//! Deterministic finite automata: from one state, one symbol leads to at
//! most one state.

use std::collections::HashSet;
use vstd::prelude::*;
use crate::error::AutomatonError;
use crate::nfa::{unknown_member, StateId, Terminal};
use crate::symbol_map::SymbolMap;

verus! {

/// The transitions that leave one state: for each symbol the state that it
/// leads to.
pub type DFAState = SymbolMap<StateId>;

/// A deterministic automaton as a mathematical value.
pub struct DfaView {
    /// For each state, in the order of the ids, the state that each symbol
    /// leads to.
    pub table: Seq<Map<Terminal, StateId>>,
    /// The state in which the run begins, once it has been chosen.
    pub start_state: Option<StateId>,
    /// The accepting states.
    pub end_states: Set<StateId>,
}

impl DfaView {
    /// Whether `state` names a state of the automaton.
    pub open spec fn is_state(self, state: StateId) -> bool {
        state < self.table.len()
    }

    /// The state that `symbol` leads to from `from`, if it leads anywhere.
    pub open spec fn next(self, from: StateId, symbol: Terminal) -> Option<StateId> {
        if self.is_state(from) && self.table[from as int].contains_key(symbol) {
            Some(self.table[from as int][symbol])
        } else {
            None
        }
    }

    /// Whether `symbol` leads from `from` to `to`.
    pub open spec fn has_transition(self, from: StateId, to: StateId, symbol: Terminal) -> bool {
        self.next(from, symbol) == Some(to)
    }

    /// Every id that the automaton mentions names one of its states.
    pub open spec fn wf(self) -> bool {
        &&& forall|from: StateId, to: StateId, symbol: Terminal| #[trigger]
            self.has_transition(from, to, symbol) ==> self.is_state(to)
        &&& self.start_state matches Some(state) ==> self.is_state(state)
        &&& forall|state: StateId| #[trigger]
            self.end_states.contains(state) ==> self.is_state(state)
    }

    /// The automaton without states.
    pub open spec fn empty() -> DfaView {
        DfaView { table: Seq::empty(), start_state: None, end_states: Set::empty() }
    }

    /// The automaton with one more state, which no transition touches.
    pub open spec fn add_state(self) -> DfaView {
        DfaView { table: self.table.push(Map::empty()), ..self }
    }

    /// The automaton in which `symbol` leads from `from` to `to` and to no
    /// other state.
    pub open spec fn set_transition(self, from: StateId, to: StateId, symbol: Terminal) -> DfaView {
        DfaView {
            table: self.table.update(from as int, self.table[from as int].insert(symbol, to)),
            ..self
        }
    }

    /// The automaton with `state` as its start state.
    pub open spec fn set_start_state(self, state: StateId) -> DfaView {
        DfaView { start_state: Some(state), ..self }
    }

    /// The automaton with `states` as its accepting states.
    pub open spec fn set_end_states(self, states: Set<StateId>) -> DfaView {
        DfaView { end_states: states, ..self }
    }
}

/// From one state one symbol leads to one state at most.
pub proof fn lemma_transitions_deterministic(
    dfa: DfaView,
    from: StateId,
    symbol: Terminal,
    first: StateId,
    second: StateId,
)
    requires
        dfa.has_transition(from, first, symbol),
        dfa.has_transition(from, second, symbol),
    ensures
        first == second,
{
}

/// A deterministic finite automaton over characters. States are made one by
/// one and never removed.
#[derive(Debug, PartialEq, Eq)]
pub struct DFA {
    table: Vec<DFAState>,
    start_state: Option<StateId>,
    end_states: HashSet<StateId>,
}

impl View for DFA {
    type V = DfaView;

    closed spec fn view(&self) -> DfaView {
        DfaView {
            table: self.table@.map_values(|state: DFAState| state@),
            start_state: self.start_state,
            end_states: self.end_states@,
        }
    }
}

impl DFA {
    /// Holds of every automaton: its view is well formed.
    #[verifier::type_invariant]
    pub open spec fn well_formed(&self) -> bool {
        self@.wf()
    }

    /// The automaton without states.
    pub fn new() -> (dfa: DFA)
        ensures
            dfa@ == DfaView::empty(),
    {
        let dfa = DFA { table: Vec::new(), start_state: None, end_states: HashSet::new() };
        assert(dfa@.table =~= Seq::empty());
        dfa
    }

    /// Adds the transition from `from_id` to `to_id` on `terminal`, unless
    /// `terminal` leads somewhere from `from_id` already. Both ids must name
    /// states, the target is looked at first.
    pub fn add_transition(
        &mut self,
        from_id: &StateId,
        to_id: StateId,
        terminal: Terminal,
    ) -> (result: Result<(), AutomatonError>)
        ensures
            match result {
                Ok(()) => {
                    &&& old(self)@.is_state(to_id)
                    &&& old(self)@.is_state(*from_id)
                    &&& old(self)@.next(*from_id, terminal) is None
                    &&& final(self)@ == old(self)@.set_transition(*from_id, to_id, terminal)
                },
                Err(error) => {
                    &&& final(self)@ == old(self)@
                    &&& if !old(self)@.is_state(to_id) {
                        error == AutomatonError::UnknownState(to_id)
                    } else if !old(self)@.is_state(*from_id) {
                        error == AutomatonError::UnknownState(*from_id)
                    } else {
                        old(self)@.next(*from_id, terminal) is Some && error
                            == AutomatonError::DuplicateTransition(*from_id, terminal)
                    }
                },
            },
    {
        if !self.is_state(to_id) {
            return Err(AutomatonError::UnknownState(to_id));
        }
        if !self.is_state(*from_id) {
            return Err(AutomatonError::UnknownState(*from_id));
        }
        if self.table[*from_id].contains_key(terminal) {
            return Err(AutomatonError::DuplicateTransition(*from_id, terminal));
        }
        self.set_transition(from_id, to_id, terminal)
    }

    /// Makes `terminal` lead from `from` to `to`, whether or not it led
    /// somewhere from `from` before. Both ids must name states, the target
    /// is looked at first.
    pub fn set_transition(&mut self, from: &StateId, to: StateId, terminal: Terminal) -> (result:
        Result<(), AutomatonError>)
        ensures
            match result {
                Ok(()) => {
                    &&& old(self)@.is_state(to)
                    &&& old(self)@.is_state(*from)
                    &&& final(self)@ == old(self)@.set_transition(*from, to, terminal)
                },
                Err(error) => {
                    &&& final(self)@ == old(self)@
                    &&& if !old(self)@.is_state(to) {
                        error == AutomatonError::UnknownState(to)
                    } else {
                        !old(self)@.is_state(*from) && error == AutomatonError::UnknownState(*from)
                    }
                },
            },
    {
        proof {
            use_type_invariant(&*self);
        }
        if !self.is_state(to) {
            return Err(AutomatonError::UnknownState(to));
        }
        if !self.is_state(*from) {
            return Err(AutomatonError::UnknownState(*from));
        }
        let ghost before = self@;
        // The fields are changed outside `self`, which is well formed whenever it
        // is whole.
        let mut taken = DFA::new();
        core::mem::swap(self, &mut taken);
        let DFA { mut table, start_state, end_states } = taken;
        table[*from].insert(terminal, to);
        proof {
            let after = DfaView {
                table: table@.map_values(|state: DFAState| state@),
                start_state,
                end_states: end_states@,
            };
            let wanted = before.set_transition(*from, to, terminal);
            assert forall|i: int| 0 <= i < after.table.len() implies after.table[i]
                == wanted.table[i] by {}
            assert(after.table =~= wanted.table);
            lemma_set_transition_wf(before, *from, to, terminal);
        }
        *self = DFA { table, start_state, end_states };
        Ok(())
    }

    /// Makes a new state, which no transition touches, and returns its id.
    pub fn add_state(&mut self) -> (state_id: StateId)
        ensures
            state_id == old(self)@.table.len(),
            final(self)@ == old(self)@.add_state(),
    {
        proof {
            use_type_invariant(&*self);
        }
        let ghost before = self@;
        // The fields are changed outside `self`, which is well formed whenever it
        // is whole.
        let mut taken = DFA::new();
        core::mem::swap(self, &mut taken);
        let DFA { mut table, start_state, end_states } = taken;
        let state_id = table.len();
        table.push(SymbolMap::new());
        proof {
            let after = DfaView {
                table: table@.map_values(|state: DFAState| state@),
                start_state,
                end_states: end_states@,
            };
            assert(after.table =~= before.add_state().table);
            lemma_add_state_wf(before);
        }
        *self = DFA { table, start_state, end_states };
        state_id
    }

    /// The number of states.
    pub fn state_count(&self) -> (count: usize)
        ensures
            count == self@.table.len(),
    {
        self.table.len()
    }

    /// The start state, once it has been chosen.
    pub fn start_state(&self) -> (state: Option<StateId>)
        ensures
            state == self@.start_state,
    {
        self.start_state
    }

    /// The accepting states.
    pub fn end_states(&self) -> (states: &HashSet<StateId>)
        ensures
            states@ == self@.end_states,
    {
        &self.end_states
    }

    /// Whether `state` names an accepting state.
    pub fn is_end_state(&self, state: StateId) -> (accepting: bool)
        ensures
            accepting == self@.end_states.contains(state),
    {
        self.end_states.contains(&state)
    }

    /// The transitions that leave the state `state`.
    pub fn get_state(&self, state: StateId) -> (result: Result<&DFAState, AutomatonError>)
        ensures
            match result {
                Ok(transitions) => self@.is_state(state) && transitions@
                    == self@.table[state as int],
                Err(error) => !self@.is_state(state) && error == AutomatonError::UnknownState(
                    state,
                ),
            },
    {
        if state < self.table.len() {
            Ok(&self.table[state])
        } else {
            Err(AutomatonError::UnknownState(state))
        }
    }

    /// The state that `terminal` leads to from `from`, if it leads anywhere.
    pub fn next_state(&self, from: StateId, terminal: Terminal) -> (to: Option<StateId>)
        ensures
            to == self@.next(from, terminal),
    {
        if from < self.table.len() {
            match self.table[from].get(terminal) {
                Some(to) => Some(*to),
                None => None,
            }
        } else {
            None
        }
    }

    /// Whether `state` names a state of the automaton.
    pub fn is_state(&self, state: StateId) -> (known: bool)
        ensures
            known == self@.is_state(state),
    {
        state < self.table.len()
    }

    /// Makes `state` the start state, if it names a state.
    pub fn set_start_state(&mut self, state: StateId) -> (result: Result<(), AutomatonError>)
        ensures
            match result {
                Ok(()) => old(self)@.is_state(state) && final(self)@ == old(self)@.set_start_state(
                    state,
                ),
                Err(error) => !old(self)@.is_state(state) && final(self)@ == old(self)@ && error
                    == AutomatonError::UnknownState(state),
            },
    {
        proof {
            use_type_invariant(&*self);
        }
        if !self.is_state(state) {
            Err(AutomatonError::UnknownState(state))
        } else {
            proof {
                lemma_set_start_state_wf(self@, state);
            }
            self.start_state = Some(state);
            Ok(())
        }
    }

    /// Makes `states` the accepting states, if each of them names a state.
    pub fn set_end_states(&mut self, states: HashSet<StateId>) -> (result: Result<
        (),
        AutomatonError,
    >)
        ensures
            match result {
                Ok(()) => {
                    &&& forall|state: StateId|
                        states@.contains(state) ==> old(self)@.is_state(state)
                    &&& final(self)@ == old(self)@.set_end_states(states@)
                },
                Err(error) => {
                    &&& final(self)@ == old(self)@
                    &&& exists|state: StateId|
                        states@.contains(state) && !old(self)@.is_state(state) && error
                            == AutomatonError::UnknownState(state)
                },
            },
    {
        proof {
            use_type_invariant(&*self);
        }
        match unknown_member(&states, self.table.len()) {
            Some(state) => Err(AutomatonError::UnknownState(state)),
            None => {
                proof {
                    lemma_set_end_states_wf(self@, states@);
                }
                self.end_states = states;
                Ok(())
            },
        }
    }
}

/// A new state keeps an automaton well formed.
pub proof fn lemma_add_state_wf(dfa: DfaView)
    requires
        dfa.wf(),
    ensures
        dfa.add_state().wf(),
{
    let grown = dfa.add_state();
    assert forall|from: StateId, to: StateId, symbol: Terminal| #[trigger]
        grown.has_transition(from, to, symbol) implies grown.is_state(to) by {
        assert(dfa.has_transition(from, to, symbol));
    }
}

/// A transition between states keeps an automaton well formed.
pub proof fn lemma_set_transition_wf(dfa: DfaView, from: StateId, to: StateId, symbol: Terminal)
    requires
        dfa.wf(),
        dfa.is_state(from),
        dfa.is_state(to),
    ensures
        dfa.set_transition(from, to, symbol).wf(),
{
    let changed = dfa.set_transition(from, to, symbol);
    assert forall|f: StateId, t: StateId, c: Terminal| #[trigger]
        changed.has_transition(f, t, c) implies changed.is_state(t) by {
        if f == from && c == symbol {
        } else {
            assert(dfa.has_transition(f, t, c));
        }
    }
}

/// A start state that is a state keeps an automaton well formed.
pub proof fn lemma_set_start_state_wf(dfa: DfaView, start: StateId)
    requires
        dfa.wf(),
        dfa.is_state(start),
    ensures
        dfa.set_start_state(start).wf(),
{
    let changed = dfa.set_start_state(start);
    assert forall|from: StateId, to: StateId, symbol: Terminal| #[trigger]
        changed.has_transition(from, to, symbol) implies changed.is_state(to) by {
        assert(dfa.has_transition(from, to, symbol));
    }
}

/// Accepting states that are states keep an automaton well formed.
pub proof fn lemma_set_end_states_wf(dfa: DfaView, ends: Set<StateId>)
    requires
        dfa.wf(),
        forall|state: StateId| ends.contains(state) ==> dfa.is_state(state),
    ensures
        dfa.set_end_states(ends).wf(),
{
    let changed = dfa.set_end_states(ends);
    assert forall|from: StateId, to: StateId, symbol: Terminal| #[trigger]
        changed.has_transition(from, to, symbol) implies changed.is_state(to) by {
        assert(dfa.has_transition(from, to, symbol));
    }
}

} // verus!
