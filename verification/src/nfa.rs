//! Nondeterministic finite automata: from one state, one symbol may lead to
//! any number of states.

use std::collections::HashSet;
use vstd::prelude::*;
use vstd::std_specs::iter::IteratorSpec;
use crate::error::AutomatonError;
use crate::symbol_map::SymbolMap;

verus! {

/// The name of a state: its place in the order in which the states of its
/// automaton were made, counted from zero.
pub type StateId = usize;

/// An input symbol.
pub type Terminal = char;

/// The transitions that leave one state: for each symbol the states that it
/// leads to.
pub type NFAState = SymbolMap<HashSet<StateId>>;

/// A nondeterministic automaton as a mathematical value.
pub struct NfaView {
    /// For each state, in the order of the ids, the states that each symbol
    /// leads to.
    pub table: Seq<Map<Terminal, Set<StateId>>>,
    /// The states in which a run may begin.
    pub start_states: Set<StateId>,
    /// The accepting states.
    pub end_states: Set<StateId>,
}

impl NfaView {
    /// Whether `state` names a state of the automaton.
    pub open spec fn is_state(self, state: StateId) -> bool {
        state < self.table.len()
    }

    /// The states that `symbol` leads to from `from`.
    pub open spec fn targets(self, from: StateId, symbol: Terminal) -> Set<StateId> {
        if self.is_state(from) && self.table[from as int].contains_key(symbol) {
            self.table[from as int][symbol]
        } else {
            Set::empty()
        }
    }

    /// Whether `symbol` leads from `from` to `to`.
    pub open spec fn has_transition(self, from: StateId, to: StateId, symbol: Terminal) -> bool {
        self.targets(from, symbol).contains(to)
    }

    /// All transitions, each as source, target and symbol.
    pub open spec fn transitions(self) -> Set<(StateId, StateId, Terminal)> {
        Set::new(|t: (StateId, StateId, Terminal)| self.has_transition(t.0, t.1, t.2))
    }

    /// Every id that the automaton mentions names one of its states, and a
    /// symbol that a state has an entry for leads somewhere.
    pub open spec fn wf(self) -> bool {
        &&& forall|from: StateId, symbol: Terminal|
            self.is_state(from) && #[trigger] self.table[from as int].contains_key(symbol)
                ==> exists|to: StateId| self.has_transition(from, to, symbol)
        &&& forall|from: StateId, to: StateId, symbol: Terminal| #[trigger]
            self.has_transition(from, to, symbol) ==> self.is_state(to)
        &&& forall|state: StateId| #[trigger]
            self.start_states.contains(state) ==> self.is_state(state)
        &&& forall|state: StateId| #[trigger]
            self.end_states.contains(state) ==> self.is_state(state)
    }

    /// The automaton without states.
    pub open spec fn empty() -> NfaView {
        NfaView { table: Seq::empty(), start_states: Set::empty(), end_states: Set::empty() }
    }

    /// The automaton with one more state, which no transition touches.
    pub open spec fn add_state(self) -> NfaView {
        NfaView { table: self.table.push(Map::empty()), ..self }
    }

    /// The automaton with the transition from `from` to `to` on `symbol`
    /// added to those it has.
    pub open spec fn add_transition(self, from: StateId, to: StateId, symbol: Terminal) -> NfaView {
        NfaView {
            table: self.table.update(
                from as int,
                self.table[from as int].insert(symbol, self.targets(from, symbol).insert(to)),
            ),
            ..self
        }
    }

    /// The automaton with `states` as its start states.
    pub open spec fn set_start_states(self, states: Set<StateId>) -> NfaView {
        NfaView { start_states: states, ..self }
    }

    /// The automaton with `states` as its accepting states.
    pub open spec fn set_end_states(self, states: Set<StateId>) -> NfaView {
        NfaView { end_states: states, ..self }
    }
}

/// The transitions that leave one state, as a mathematical value.
pub open spec fn state_view(state: NFAState) -> Map<Terminal, Set<StateId>> {
    state@.map_values(|targets: HashSet<StateId>| targets@)
}

/// A member of `states` that is no state of an automaton with `count`
/// states, if there is one.
pub fn unknown_member(states: &HashSet<StateId>, count: usize) -> (found: Option<StateId>)
    ensures
        match found {
            Some(state) => states@.contains(state) && state >= count,
            None => forall|state: StateId| states@.contains(state) ==> state < count,
        },
{
    let ghost members: Seq<StateId> = states.iter().remaining().unref();
    for state in walk: states.iter()
        invariant
            walk.seq().unref() == members,
            members.to_set() == states@,
            forall|i: int| 0 <= i < walk.index() ==> members[i] < count,
    {
        if *state >= count {
            return Some(*state);
        }
    }
    assert forall|state: StateId| states@.contains(state) implies state < count by {}
    None
}

/// Adding an element that a list without repetitions lacks leaves it
/// without repetitions.
proof fn lemma_push_keeps_distinct<A>(list: Seq<A>, element: A)
    requires
        list.no_duplicates(),
        !list.contains(element),
    ensures
        list.push(element).no_duplicates(),
        forall|other: A| list.push(element).contains(other) <==> list.contains(other) || other
            == element,
{
    let longer = list.push(element);
    assert forall|i: int, j: int|
        0 <= i < longer.len() && 0 <= j < longer.len() && i != j implies longer[i]
        != longer[j] by {}
    assert forall|other: A| longer.contains(other) <==> list.contains(other) || other
        == element by {
        if list.contains(other) {
            let i = choose|i: int| 0 <= i < list.len() && list[i] == other;
            assert(longer[i] == other);
        }
        if other == element {
            assert(longer[list.len() as int] == other);
        }
    }
}

/// Appends to `transitions` the transitions from `from` on `terminal` to
/// each state of `targets`.
fn push_targets(
    transitions: &mut Vec<(StateId, StateId, Terminal)>,
    from: StateId,
    terminal: Terminal,
    targets: &HashSet<StateId>,
)
    requires
        old(transitions)@.no_duplicates(),
        forall|to: StateId| !(#[trigger] old(transitions)@.contains((from, to, terminal))),
    ensures
        final(transitions)@.no_duplicates(),
        forall|listed: (StateId, StateId, Terminal)|
            #[trigger] final(transitions)@.contains(listed) <==> old(transitions)@.contains(
                listed,
            ) || (listed.0 == from && listed.2 == terminal && targets@.contains(listed.1)),
{
    let ghost members: Seq<StateId> = targets.iter().remaining().unref();
    assert(members.no_duplicates()) by {
        assert forall|i: int, j: int|
            0 <= i < members.len() && 0 <= j < members.len() && i != j implies members[i]
            != members[j] by {}
    }
    for to in walk: targets.iter()
        invariant
            walk.seq().unref() == members,
            members.to_set() == targets@,
            members.no_duplicates(),
            transitions@.no_duplicates(),
            forall|to: StateId| !(#[trigger] old(transitions)@.contains((from, to, terminal))),
            forall|listed: (StateId, StateId, Terminal)|
                #[trigger] transitions@.contains(listed) <==> old(transitions)@.contains(
                    listed,
                ) || (listed.0 == from && listed.2 == terminal && exists|i: int|
                    0 <= i < walk.index() && members[i] == listed.1),
    {
        proof {
            lemma_push_keeps_distinct(transitions@, (from, *to, terminal));
        }
        let ghost before = transitions@;
        transitions.push((from, *to, terminal));
        assert forall|listed: (StateId, StateId, Terminal)|
            #[trigger] transitions@.contains(listed) <==> old(transitions)@.contains(listed)
                || (listed.0 == from && listed.2 == terminal && exists|i: int|
                0 <= i < walk.index() + 1 && members[i] == listed.1) by {
            if before.contains(listed) && !old(transitions)@.contains(listed) {
                let i = choose|i: int| 0 <= i < walk.index() && members[i] == listed.1;
                assert(0 <= i < walk.index() + 1 && members[i] == listed.1);
            }
            if listed.0 == from && listed.2 == terminal && exists|i: int|
                0 <= i < walk.index() + 1 && members[i] == listed.1 {
                let i = choose|i: int| 0 <= i < walk.index() + 1 && members[i] == listed.1;
                if i < walk.index() {
                    assert(before.contains(listed));
                }
            }
        }
    }
    assert forall|listed: (StateId, StateId, Terminal)|
        #[trigger] transitions@.contains(listed) <==> old(transitions)@.contains(listed) || (
        listed.0 == from && listed.2 == terminal && targets@.contains(listed.1)) by {}
}

/// Appends to `transitions` the transitions that leave the state `from`,
/// whose transitions are `state`.
fn push_state(
    transitions: &mut Vec<(StateId, StateId, Terminal)>,
    from: StateId,
    state: &NFAState,
)
    requires
        old(transitions)@.no_duplicates(),
        forall|to: StateId, terminal: Terminal|
            !(#[trigger] old(transitions)@.contains((from, to, terminal))),
    ensures
        final(transitions)@.no_duplicates(),
        forall|listed: (StateId, StateId, Terminal)|
            #[trigger] final(transitions)@.contains(listed) <==> old(transitions)@.contains(
                listed,
            ) || (listed.0 == from && state_view(*state).contains_key(listed.2) && state_view(
                *state,
            )[listed.2].contains(listed.1)),
{
    proof {
        use_type_invariant(state);
    }
    let ghost entries = state.entries();
    let ghost row = state_view(*state);
    let mut at: usize = 0;
    while at < state.len()
        invariant
            at <= entries.len(),
            entries == state.entries(),
            row == state_view(*state),
            crate::symbol_map::ascending(entries),
            transitions@.no_duplicates(),
            forall|to: StateId, terminal: Terminal|
                !(#[trigger] old(transitions)@.contains((from, to, terminal))),
            forall|listed: (StateId, StateId, Terminal)|
                #[trigger] transitions@.contains(listed) <==> old(transitions)@.contains(
                    listed,
                ) || (listed.0 == from && row.contains_key(listed.2) && row[listed.2].contains(
                    listed.1,
                ) && exists|i: int| 0 <= i < at && (#[trigger] entries[i]).0 == listed.2),
        decreases entries.len() - at,
    {
        let (terminal, targets) = state.nth(at).unwrap();
        let ghost before = transitions@;
        proof {
            crate::symbol_map::lemma_entry_in_map(entries, at as int);
            assert forall|to: StateId| !before.contains((from, to, terminal)) by {}
        }
        push_targets(transitions, from, terminal, targets);
        assert forall|listed: (StateId, StateId, Terminal)|
            #[trigger] transitions@.contains(listed) <==> old(transitions)@.contains(listed) || (
            listed.0 == from && row.contains_key(listed.2) && row[listed.2].contains(
                listed.1,
            ) && exists|i: int| 0 <= i < at + 1 && (#[trigger] entries[i]).0 == listed.2) by {}
        at = at + 1;
    }
    assert forall|listed: (StateId, StateId, Terminal)|
        #[trigger] transitions@.contains(listed) <==> old(transitions)@.contains(listed) || (
        listed.0 == from && row.contains_key(listed.2) && row[listed.2].contains(listed.1)) by {
        if listed.0 == from && row.contains_key(listed.2) && row[listed.2].contains(listed.1) {
            crate::symbol_map::lemma_key_has_entry(entries, listed.2);
        }
    }
}

/// A nondeterministic finite automaton over characters. States are made one
/// by one and never removed.
#[derive(Debug)]
pub struct NFA {
    table: Vec<NFAState>,
    start_states: HashSet<StateId>,
    end_states: HashSet<StateId>,
}

impl View for NFA {
    type V = NfaView;

    closed spec fn view(&self) -> NfaView {
        NfaView {
            table: self.table@.map_values(|state: NFAState| state_view(state)),
            start_states: self.start_states@,
            end_states: self.end_states@,
        }
    }
}

impl NFA {
    /// Holds of every automaton: its view is well formed.
    #[verifier::type_invariant]
    pub open spec fn well_formed(&self) -> bool {
        self@.wf()
    }

    /// The automaton without states.
    pub fn new() -> (nfa: Self)
        ensures
            nfa@ == NfaView::empty(),
    {
        let nfa = NFA {
            table: Vec::new(),
            start_states: HashSet::new(),
            end_states: HashSet::new(),
        };
        assert(nfa@.table =~= Seq::empty());
        nfa
    }

    /// Adds the transition from `from_id` to `to_id` on `terminal` to those
    /// that the automaton has; adding one that it has already changes
    /// nothing. Both ids must name states, the target is looked at first.
    pub fn add_transition(
        &mut self,
        from_id: &StateId,
        to_id: &StateId,
        terminal: Terminal,
    ) -> (result: Result<(), AutomatonError>)
        ensures
            match result {
                Ok(()) => {
                    &&& old(self)@.is_state(*from_id)
                    &&& old(self)@.is_state(*to_id)
                    &&& final(self)@ == old(self)@.add_transition(*from_id, *to_id, terminal)
                },
                Err(error) => {
                    &&& final(self)@ == old(self)@
                    &&& if !old(self)@.is_state(*to_id) {
                        error == AutomatonError::UnknownState(*to_id)
                    } else {
                        !old(self)@.is_state(*from_id) && error == AutomatonError::UnknownState(
                            *from_id,
                        )
                    }
                },
            },
    {
        proof {
            use_type_invariant(&*self);
        }
        if !self.is_state(to_id) {
            return Err(AutomatonError::UnknownState(*to_id));
        }
        if !self.is_state(from_id) {
            return Err(AutomatonError::UnknownState(*from_id));
        }
        let ghost before = self@;
        // The fields are changed outside `self`, which is well formed whenever it
        // is whole.
        let mut taken = NFA::new();
        core::mem::swap(self, &mut taken);
        let NFA { mut table, start_states, end_states } = taken;
        let mut targets = match table[*from_id].remove(terminal) {
            Some(targets) => targets,
            None => HashSet::new(),
        };
        targets.insert(*to_id);
        table[*from_id].insert(terminal, targets);
        proof {
            let after = NfaView {
                table: table@.map_values(|state: NFAState| state_view(state)),
                start_states: start_states@,
                end_states: end_states@,
            };
            let wanted = before.add_transition(*from_id, *to_id, terminal);
            assert forall|i: int| 0 <= i < after.table.len() implies after.table[i]
                == wanted.table[i] by {}
            assert(after.table =~= wanted.table);
            lemma_add_transition_wf(before, *from_id, *to_id, terminal);
        }
        *self = NFA { table, start_states, end_states };
        Ok(())
    }

    /// Makes a new state, which no transition touches, and returns its id.
    pub fn add_state(&mut self) -> (state_id: StateId)
        ensures
            state_id == old(self)@.table.len(),
            final(self)@ == old(self)@.add_state(),
    {
        proof {
            use_type_invariant(&*self);
        }
        let ghost before = self@;
        // The fields are changed outside `self`, which is well formed whenever it
        // is whole.
        let mut taken = NFA::new();
        core::mem::swap(self, &mut taken);
        let NFA { mut table, start_states, end_states } = taken;
        let state_id = table.len();
        table.push(SymbolMap::new());
        proof {
            let after = NfaView {
                table: table@.map_values(|state: NFAState| state_view(state)),
                start_states: start_states@,
                end_states: end_states@,
            };
            assert(state_view(table@[state_id as int]) =~= Map::empty());
            assert(after.table =~= before.add_state().table);
            lemma_add_state_wf(before);
        }
        *self = NFA { table, start_states, end_states };
        state_id
    }

    /// The transitions that leave the state `state_id`.
    pub fn get_state(&self, state_id: &StateId) -> (result: Result<&NFAState, AutomatonError>)
        ensures
            match result {
                Ok(state) => self@.is_state(*state_id) && state_view(*state)
                    == self@.table[*state_id as int],
                Err(error) => !self@.is_state(*state_id) && error == AutomatonError::UnknownState(
                    *state_id,
                ),
            },
    {
        if *state_id < self.table.len() {
            Ok(&self.table[*state_id])
        } else {
            Err(AutomatonError::UnknownState(*state_id))
        }
    }

    /// The number of states.
    pub fn state_count(&self) -> (count: usize)
        ensures
            count == self@.table.len(),
    {
        self.table.len()
    }

    /// The start states.
    pub fn start_states(&self) -> (states: &HashSet<StateId>)
        ensures
            states@ == self@.start_states,
    {
        &self.start_states
    }

    /// The accepting states.
    pub fn end_states(&self) -> (states: &HashSet<StateId>)
        ensures
            states@ == self@.end_states,
    {
        &self.end_states
    }

    /// Whether `state_id` names a state of the automaton.
    pub fn is_state(&self, state_id: &StateId) -> (known: bool)
        ensures
            known == self@.is_state(*state_id),
    {
        *state_id < self.table.len()
    }

    /// Whether `state_id` names an accepting state.
    pub fn is_end_state(&self, state_id: &StateId) -> (accepting: bool)
        ensures
            accepting == self@.end_states.contains(*state_id),
    {
        self.end_states.contains(state_id)
    }

    /// All transitions, each once, as source, target and symbol.
    pub fn get_transitions(&self) -> (transitions: Vec<(StateId, StateId, Terminal)>)
        ensures
            transitions@.to_set() == self@.transitions(),
            transitions@.no_duplicates(),
    {
        let mut transitions: Vec<(StateId, StateId, Terminal)> = Vec::new();
        let mut from: usize = 0;
        while from < self.table.len()
            invariant
                from <= self.table@.len(),
                transitions@.no_duplicates(),
                forall|listed: (StateId, StateId, Terminal)|
                    #[trigger] transitions@.contains(listed) <==> listed.0 < from
                        && self@.has_transition(listed.0, listed.1, listed.2),
            decreases self.table@.len() - from,
        {
            push_state(&mut transitions, from, &self.table[from]);
            from = from + 1;
        }
        transitions
    }

    /// Makes `states` the start states, if each of them names a state.
    pub fn set_start_states(&mut self, states: HashSet<StateId>) -> (result: Result<
        (),
        AutomatonError,
    >)
        ensures
            match result {
                Ok(()) => {
                    &&& forall|state: StateId|
                        states@.contains(state) ==> old(self)@.is_state(state)
                    &&& final(self)@ == old(self)@.set_start_states(states@)
                },
                Err(error) => {
                    &&& final(self)@ == old(self)@
                    &&& exists|state: StateId|
                        states@.contains(state) && !old(self)@.is_state(state) && error
                            == AutomatonError::UnknownState(state)
                },
            },
    {
        proof {
            use_type_invariant(&*self);
        }
        match unknown_member(&states, self.table.len()) {
            Some(state) => Err(AutomatonError::UnknownState(state)),
            None => {
                proof {
                    lemma_set_states_wf(self@, states@);
                }
                self.start_states = states;
                Ok(())
            },
        }
    }

    /// Makes `states` the accepting states, if each of them names a state.
    pub fn set_end_states(&mut self, states: HashSet<StateId>) -> (result: Result<
        (),
        AutomatonError,
    >)
        ensures
            match result {
                Ok(()) => {
                    &&& forall|state: StateId|
                        states@.contains(state) ==> old(self)@.is_state(state)
                    &&& final(self)@ == old(self)@.set_end_states(states@)
                },
                Err(error) => {
                    &&& final(self)@ == old(self)@
                    &&& exists|state: StateId|
                        states@.contains(state) && !old(self)@.is_state(state) && error
                            == AutomatonError::UnknownState(state)
                },
            },
    {
        proof {
            use_type_invariant(&*self);
        }
        match unknown_member(&states, self.table.len()) {
            Some(state) => Err(AutomatonError::UnknownState(state)),
            None => {
                proof {
                    lemma_set_states_wf(self@, states@);
                }
                self.end_states = states;
                Ok(())
            },
        }
    }
}

/// New start or accepting states that are states keep an automaton well
/// formed.
pub proof fn lemma_set_states_wf(nfa: NfaView, states: Set<StateId>)
    requires
        nfa.wf(),
        forall|state: StateId| states.contains(state) ==> nfa.is_state(state),
    ensures
        nfa.set_start_states(states).wf(),
        nfa.set_end_states(states).wf(),
{
    let started = nfa.set_start_states(states);
    let ended = nfa.set_end_states(states);
    assert forall|from: StateId, symbol: Terminal|
        started.is_state(from) && #[trigger] started.table[from as int].contains_key(
            symbol,
        ) implies exists|to: StateId| started.has_transition(from, to, symbol) by {
        let to = choose|to: StateId| nfa.has_transition(from, to, symbol);
        assert(started.has_transition(from, to, symbol));
    }
    assert forall|from: StateId, to: StateId, symbol: Terminal| #[trigger]
        started.has_transition(from, to, symbol) implies started.is_state(to) by {
        assert(nfa.has_transition(from, to, symbol));
    }
    assert forall|from: StateId, symbol: Terminal|
        ended.is_state(from) && #[trigger] ended.table[from as int].contains_key(
            symbol,
        ) implies exists|to: StateId| ended.has_transition(from, to, symbol) by {
        let to = choose|to: StateId| nfa.has_transition(from, to, symbol);
        assert(ended.has_transition(from, to, symbol));
    }
    assert forall|from: StateId, to: StateId, symbol: Terminal| #[trigger]
        ended.has_transition(from, to, symbol) implies ended.is_state(to) by {
        assert(nfa.has_transition(from, to, symbol));
    }
}

/// A new state keeps an automaton well formed.
pub proof fn lemma_add_state_wf(nfa: NfaView)
    requires
        nfa.wf(),
    ensures
        nfa.add_state().wf(),
{
    let grown = nfa.add_state();
    assert forall|from: StateId, symbol: Terminal|
        grown.is_state(from) && #[trigger] grown.table[from as int].contains_key(
            symbol,
        ) implies exists|to: StateId| grown.has_transition(from, to, symbol) by {
        let to = choose|to: StateId| nfa.has_transition(from, to, symbol);
        assert(grown.has_transition(from, to, symbol));
    }
    assert forall|from: StateId, to: StateId, symbol: Terminal| #[trigger]
        grown.has_transition(from, to, symbol) implies grown.is_state(to) by {
        assert(nfa.has_transition(from, to, symbol));
    }
}

/// A new transition between states keeps an automaton well formed.
pub proof fn lemma_add_transition_wf(nfa: NfaView, from: StateId, to: StateId, symbol: Terminal)
    requires
        nfa.wf(),
        nfa.is_state(from),
        nfa.is_state(to),
    ensures
        nfa.add_transition(from, to, symbol).wf(),
{
    let grown = nfa.add_transition(from, to, symbol);
    assert forall|f: StateId, c: Terminal|
        grown.is_state(f) && #[trigger] grown.table[f as int].contains_key(c) implies exists|
        t: StateId,
    |
        grown.has_transition(f, t, c) by {
        if f == from && c == symbol {
            assert(grown.has_transition(f, to, c));
        } else {
            let t = choose|t: StateId| nfa.has_transition(f, t, c);
            assert(grown.has_transition(f, t, c));
        }
    }
    assert forall|f: StateId, t: StateId, c: Terminal| #[trigger]
        grown.has_transition(f, t, c) implies grown.is_state(t) by {
        if f == from && c == symbol && t == to {
        } else {
            assert(nfa.has_transition(f, t, c));
        }
    }
}

} // verus!
