//! Turns a nondeterministic automaton into a deterministic one that accepts
//! the same words, by the subset construction.

use std::collections::HashSet;
use vstd::prelude::*;
use vstd::std_specs::iter::IteratorSpec;
use crate::dfa::{DfaView, DFA};
use crate::nfa::{state_view, NFAState, NfaView, StateId, Terminal, NFA};
use crate::subset_construction::{
    follows, inhabited, is_numbered_in_breadth, is_subset_construction,
    lemma_distinct_sets_bounded, lemma_every_state_reachable, lemma_same_language,
    meets_end_states, met_before, subsets_count,
};
use crate::symbol_map::{ascending, lemma_key_has_entry, SymbolMap};

verus! {

/// The set of states that a row of marks stands for: those at whose place
/// the mark is set.
spec fn marked(marks: Seq<bool>) -> Set<StateId> {
    Set::new(|state: StateId| state < marks.len() && marks[state as int])
}

/// Rows of one length that stand for the same set are the same row.
proof fn lemma_marks_of_set(first: Seq<bool>, second: Seq<bool>)
    requires
        first.len() == second.len(),
        first.len() <= usize::MAX,
        marked(first) == marked(second),
    ensures
        first == second,
{
    assert forall|i: int| 0 <= i < first.len() implies first[i] == second[i] by {
        let state = i as StateId;
        assert(marked(second).contains(state) == second[i]);
    }
}

/// A set of states of a nondeterministic automaton, taken as one state of
/// the deterministic automaton. It is kept as one mark for each state of the
/// nondeterministic automaton, so that equal sets are equal values in
/// whatever order their members were found.
struct MetaState {
    marks: Vec<bool>,
}

impl View for MetaState {
    type V = Set<StateId>;

    closed spec fn view(&self) -> Set<StateId> {
        marked(self.marks@)
    }
}

impl MetaState {
    /// The number of states that the set is drawn from.
    closed spec fn width(&self) -> nat {
        self.marks@.len()
    }

    /// The empty set of states, drawn from `width` states.
    fn empty(width: usize) -> (meta_state: MetaState)
        ensures
            meta_state.width() == width,
            meta_state@ == Set::<StateId>::empty(),
    {
        let mut marks: Vec<bool> = Vec::new();
        while marks.len() < width
            invariant
                marks@.len() <= width,
                forall|i: int| 0 <= i < marks@.len() ==> !marks@[i],
            decreases width - marks@.len(),
        {
            marks.push(false);
        }
        let meta_state = MetaState { marks };
        assert(meta_state@ =~= Set::<StateId>::empty());
        meta_state
    }

    /// Whether `state` is a member.
    fn contains(&self, state: StateId) -> (found: bool)
        ensures
            found == self@.contains(state),
    {
        state < self.marks.len() && self.marks[state]
    }

    /// Makes `state` a member.
    fn insert(&mut self, state: StateId)
        requires
            state < old(self).width(),
        ensures
            final(self).width() == old(self).width(),
            final(self)@ == old(self)@.insert(state),
    {
        self.marks[state] = true;
        assert(self@ =~= old(self)@.insert(state));
    }

    /// Makes every member of `states` a member.
    fn extend(&mut self, states: &HashSet<StateId>)
        requires
            forall|state: StateId| states@.contains(state) ==> state < old(self).width(),
        ensures
            final(self).width() == old(self).width(),
            final(self)@ == old(self)@.union(states@),
    {
        let ghost members: Seq<StateId> = states.iter().remaining().unref();
        for state in walk: states.iter()
            invariant
                walk.seq().unref() == members,
                members.to_set() == states@,
                self.width() == old(self).width(),
                forall|state: StateId| states@.contains(state) ==> state < self.width(),
                forall|state: StateId|
                    self@.contains(state) <==> old(self)@.contains(state) || exists|i: int|
                        0 <= i < walk.index() && members[i] == state,
        {
            assert(states@.contains(*state));
            self.insert(*state);
            assert forall|other: StateId|
                self@.contains(other) <==> old(self)@.contains(other) || exists|i: int|
                    0 <= i < walk.index() + 1 && members[i] == other by {}
        }
        assert forall|state: StateId|
            self@.contains(state) <==> old(self)@.union(states@).contains(state) by {}
    }

    /// Whether the two sets, drawn from equally many states, have the same
    /// members.
    fn same_as(&self, other: &MetaState) -> (same: bool)
        requires
            self.width() == other.width(),
        ensures
            same == (self@ == other@),
    {
        let mut at: usize = 0;
        while at < self.marks.len()
            invariant
                at <= self.marks@.len(),
                self.marks@.len() == other.marks@.len(),
                forall|i: int| 0 <= i < at ==> self.marks@[i] == other.marks@[i],
            decreases self.marks@.len() - at,
        {
            if self.marks[at] != other.marks[at] {
                proof {
                    if self@ == other@ {
                        lemma_marks_of_set(self.marks@, other.marks@);
                    }
                }
                return false;
            }
            at = at + 1;
        }
        assert(self.marks@ =~= other.marks@);
        true
    }

    /// A second value for the same set.
    fn duplicate(&self) -> (copy: MetaState)
        ensures
            copy.width() == self.width(),
            copy@ == self@,
    {
        let mut marks: Vec<bool> = Vec::new();
        while marks.len() < self.marks.len()
            invariant
                marks@.len() <= self.marks@.len(),
                forall|i: int| 0 <= i < marks@.len() ==> marks@[i] == self.marks@[i],
            decreases self.marks@.len() - marks@.len(),
        {
            marks.push(self.marks[marks.len()]);
        }
        MetaState { marks }
    }

    /// The members in ascending order.
    fn members(&self) -> (members: Vec<StateId>)
        ensures
            members@.to_set() == self@,
            forall|i: int, j: int| 0 <= i < j < members@.len() ==> members@[i] < members@[j],
    {
        let mut members: Vec<StateId> = Vec::new();
        let mut state: usize = 0;
        while state < self.marks.len()
            invariant
                state <= self.marks@.len(),
                forall|i: int, j: int| 0 <= i < j < members@.len() ==> members@[i] < members@[j],
                forall|i: int| 0 <= i < members@.len() ==> members@[i] < state,
                forall|member: StateId|
                    members@.contains(member) <==> member < state && self@.contains(member),
            decreases self.marks@.len() - state,
        {
            if self.marks[state] {
                let ghost before = members@;
                members.push(state);
                assert forall|member: StateId|
                    members@.contains(member) <==> member < state + 1 && self@.contains(
                        member,
                    ) by {
                    if members@.contains(member) {
                        let i = choose|i: int| 0 <= i < members@.len() && members@[i] == member;
                    }
                    if member < state && self@.contains(member) {
                        let i = choose|i: int| 0 <= i < before.len() && before[i] == member;
                        assert(members@[i] == member);
                    }
                    if member == state {
                        assert(members@[before.len() as int] == member);
                    }
                }
            }
            state = state + 1;
        }
        members
    }
}

/// Whether one of the first `count` entries carries `symbol`.
spec fn seen<V>(entries: Seq<(Terminal, V)>, count: int, symbol: Terminal) -> bool {
    exists|i: int| 0 <= i < count && (#[trigger] entries[i]).0 == symbol
}

/// The set that `symbol` maps to, the empty set if it maps to none.
spec fn set_at(sets: Map<Terminal, Set<StateId>>, symbol: Terminal) -> Set<StateId> {
    if sets.contains_key(symbol) {
        sets[symbol]
    } else {
        Set::empty()
    }
}

/// The set that `symbol` maps to, the empty set if it maps to none.
spec fn merged_at(merged: Map<Terminal, MetaState>, symbol: Terminal) -> Set<StateId> {
    if merged.contains_key(symbol) {
        merged[symbol]@
    } else {
        Set::empty()
    }
}

/// Every set in `merged` is drawn from `width` states.
spec fn drawn_from(merged: Map<Terminal, MetaState>, width: nat) -> bool {
    forall|symbol: Terminal| #[trigger]
        merged.contains_key(symbol) ==> merged[symbol].width() == width
}

/// Adds the transitions that leave one state to those gathered in `merged`:
/// each symbol then leads to what it led to before and to what it leads to
/// from that state.
fn merge_state(merged: &mut SymbolMap<MetaState>, state: &NFAState, width: usize)
    requires
        drawn_from(old(merged)@, width as nat),
        forall|symbol: Terminal, to: StateId|
            state_view(*state).contains_key(symbol) && #[trigger] state_view(
                *state,
            )[symbol].contains(to) ==> to < width,
    ensures
        drawn_from(final(merged)@, width as nat),
        forall|symbol: Terminal|
            #[trigger] final(merged)@.contains_key(symbol) <==> old(merged)@.contains_key(symbol)
                || state_view(*state).contains_key(symbol),
        forall|symbol: Terminal|
            #[trigger] merged_at(final(merged)@, symbol) == merged_at(old(merged)@, symbol).union(
                set_at(state_view(*state), symbol),
            ),
{
    proof {
        use_type_invariant(state);
    }
    let ghost entries = state.entries();
    let ghost row = state_view(*state);
    let mut at: usize = 0;
    while at < state.len()
        invariant
            at <= entries.len(),
            entries == state.entries(),
            row == state_view(*state),
            ascending(entries),
            drawn_from(merged@, width as nat),
            forall|symbol: Terminal, to: StateId|
                row.contains_key(symbol) && #[trigger] row[symbol].contains(to) ==> to < width,
            forall|symbol: Terminal|
                #[trigger] merged@.contains_key(symbol) <==> old(merged)@.contains_key(symbol)
                    || seen(entries, at as int, symbol),
            forall|symbol: Terminal|
                #[trigger] merged_at(merged@, symbol) == merged_at(old(merged)@, symbol).union(
                    if seen(entries, at as int, symbol) {
                        set_at(row, symbol)
                    } else {
                        Set::empty()
                    },
                ),
        decreases entries.len() - at,
    {
        let ghost before = merged@;
        let (symbol, targets) = state.nth(at).unwrap();
        proof {
            assert(row.contains_key(symbol) && row[symbol] == targets@);
            assert forall|to: StateId| targets@.contains(to) implies to < width by {}
            assert(merged_at(before, symbol) == merged_at(old(merged)@, symbol).union(
                Set::empty(),
            ));
        }
        let mut union = match merged.remove(symbol) {
            Some(gathered) => gathered,
            None => MetaState::empty(width),
        };
        union.extend(targets);
        let ghost united = union@;
        merged.insert(symbol, union);
        proof {
            assert(merged@ =~= before.insert(symbol, merged@[symbol]));
            assert forall|other: Terminal|
                #[trigger] merged@.contains_key(other) <==> old(merged)@.contains_key(other)
                    || seen(entries, at + 1, other) by {
                if seen(entries, at + 1, other) && !seen(entries, at as int, other) {
                    let i = choose|i: int|
                        0 <= i < at + 1 && (#[trigger] entries[i]).0 == other;
                    assert(i == at);
                }
            }
            assert forall|other: Terminal|
                #[trigger] merged_at(merged@, other) == merged_at(
                    old(merged)@,
                    other,
                ).union(
                    if seen(entries, at + 1, other) {
                        set_at(row, other)
                    } else {
                        Set::empty()
                    },
                ) by {
                if other == symbol {
                } else {
                    assert(merged_at(merged@, other) == merged_at(before, other));
                }
            }
        }
        at = at + 1;
    }
    proof {
        assert forall|symbol: Terminal|
            seen(entries, entries.len() as int, symbol) <==> row.contains_key(symbol) by {}
        assert forall|symbol: Terminal|
            #[trigger] merged_at(merged@, symbol) == merged_at(old(merged)@, symbol).union(
                set_at(row, symbol),
            ) by {}
    }
}

/// The members of `states` below `bound`.
spec fn below(states: Set<StateId>, bound: int) -> Set<StateId> {
    Set::new(|state: StateId| state < bound && states.contains(state))
}

/// What a symbol leads to from the members below a bound grows, with the
/// bound, by what it leads to from the state at the bound, if that is a
/// member.
proof fn lemma_step_with_next_state(
    nfa: NfaView,
    states: Set<StateId>,
    state: StateId,
    symbol: Terminal,
)
    ensures
        nfa.step(below(states, state + 1), symbol) == nfa.step(
            below(states, state as int),
            symbol,
        ).union(
            if states.contains(state) {
                nfa.targets(state, symbol)
            } else {
                Set::empty()
            },
        ),
{
    let more = nfa.step(below(states, state + 1), symbol);
    let less = nfa.step(below(states, state as int), symbol);
    let added = if states.contains(state) {
        nfa.targets(state, symbol)
    } else {
        Set::empty()
    };
    assert forall|to: StateId| more.contains(to) <==> less.union(added).contains(to) by {
        if more.contains(to) {
            let from = choose|from: StateId|
                below(states, state + 1).contains(from) && #[trigger] nfa.has_transition(
                    from,
                    to,
                    symbol,
                );
        }
        if added.contains(to) {
            assert(nfa.has_transition(state, to, symbol));
        }
    }
}

/// Gathers, for each symbol, the states that it leads to from a member of
/// `meta_state`. A symbol that leads nowhere from any member gets no entry.
fn merge_transitions(nfa: &NFA, meta_state: &MetaState) -> (merged: SymbolMap<MetaState>)
    requires
        meta_state.width() == nfa@.table.len(),
    ensures
        drawn_from(merged@, nfa@.table.len()),
        forall|symbol: Terminal|
            #[trigger] merged@.contains_key(symbol) <==> inhabited(
                nfa@.step(meta_state@, symbol),
            ),
        forall|symbol: Terminal|
            #[trigger] merged_at(merged@, symbol) == nfa@.step(meta_state@, symbol),
{
    proof {
        use_type_invariant(nfa);
    }
    let count = nfa.state_count();
    let mut merged: SymbolMap<MetaState> = SymbolMap::new();
    let mut state: usize = 0;
    while state < count
        invariant
            state <= count,
            count == nfa@.table.len(),
            nfa@.wf(),
            meta_state.width() == count,
            drawn_from(merged@, count as nat),
            forall|symbol: Terminal|
                #[trigger] merged@.contains_key(symbol) <==> inhabited(
                    nfa@.step(below(meta_state@, state as int), symbol),
                ),
            forall|symbol: Terminal|
                #[trigger] merged_at(merged@, symbol) == nfa@.step(
                    below(meta_state@, state as int),
                    symbol,
                ),
        decreases count - state,
    {
        let ghost before = merged@;
        if meta_state.contains(state) {
            let transitions = nfa.get_state(&state).unwrap();
            proof {
                assert forall|symbol: Terminal, to: StateId|
                    state_view(*transitions).contains_key(symbol) && #[trigger] state_view(
                        *transitions,
                    )[symbol].contains(to) implies to < count by {
                    assert(nfa@.has_transition(state, to, symbol));
                }
            }
            merge_state(&mut merged, transitions, count);
        }
        proof {
            assert forall|symbol: Terminal|
                #[trigger] merged_at(merged@, symbol) == nfa@.step(
                    below(meta_state@, state + 1),
                    symbol,
                ) by {
                lemma_step_with_next_state(nfa@, meta_state@, state, symbol);
                if meta_state@.contains(state) {
                    assert(merged_at(merged@, symbol) == merged_at(before, symbol).union(
                        set_at(nfa@.table[state as int], symbol),
                    ));
                }
            }
            assert forall|symbol: Terminal|
                #[trigger] merged@.contains_key(symbol) <==> inhabited(
                    nfa@.step(below(meta_state@, state + 1), symbol),
                ) by {
                let less = nfa@.step(below(meta_state@, state as int), symbol);
                let more = nfa@.step(below(meta_state@, state + 1), symbol);
                if inhabited(less) {
                    let to = choose|to: StateId| less.contains(to);
                    assert(more.contains(to));
                }
                if meta_state@.contains(state) {
                    if nfa@.table[state as int].contains_key(symbol) {
                        let to = choose|to: StateId| nfa@.has_transition(state, to, symbol);
                        assert(more.contains(to));
                    }
                    if inhabited(more) {
                        let to = choose|to: StateId| more.contains(to);
                        if !less.contains(to) {
                            assert(nfa@.targets(state, symbol).contains(to));
                        }
                    }
                } else {
                    if inhabited(more) {
                        let to = choose|to: StateId| more.contains(to);
                        assert(less.contains(to));
                    }
                }
            }
        }
        state = state + 1;
    }
    proof {
        assert(below(meta_state@, count as int) =~= meta_state@) by {
            assert forall|member: StateId| meta_state@.contains(member) implies member
                < count by {}
        }
    }
    merged
}

/// Whether an accepting state of `nfa` is a member of `meta_state`.
fn holds_end_state(nfa: &NFA, meta_state: &MetaState) -> (found: bool)
    requires
        meta_state.width() == nfa@.table.len(),
    ensures
        found == meets_end_states(nfa@, meta_state@),
{
    let count = nfa.state_count();
    let mut state: usize = 0;
    while state < count
        invariant
            state <= count,
            meta_state.width() == count,
            forall|member: StateId|
                member < state && meta_state@.contains(member) ==> !nfa@.end_states.contains(
                    member,
                ),
        decreases count - state,
    {
        if meta_state.contains(state) && nfa.is_end_state(&state) {
            return true;
        }
        state = state + 1;
    }
    false
}

/// The start states of `nfa` as one meta-state.
fn start_meta_state(nfa: &NFA) -> (meta_state: MetaState)
    ensures
        meta_state.width() == nfa@.table.len(),
        meta_state@ == nfa@.start_states,
{
    proof {
        use_type_invariant(nfa);
    }
    let mut meta_state = MetaState::empty(nfa.state_count());
    meta_state.extend(nfa.start_states());
    assert(meta_state@ =~= nfa@.start_states);
    meta_state
}

/// The id of a meta-state, with whether the meta-state just got it or had it
/// before.
enum Id {
    New(StateId),
    Existed(StateId),
}

impl Id {
    /// The id, however it came about.
    spec fn value(self) -> StateId {
        match self {
            Id::New(id) => id,
            Id::Existed(id) => id,
        }
    }

    /// The id, however it came about.
    fn unpack(self) -> (id: StateId)
        ensures
            id == self.value(),
    {
        match self {
            Id::New(id) => id,
            Id::Existed(id) => id,
        }
    }
}

/// The sets that the meta-states stand for, each at the place of its id.
spec fn sets_of(id_mapping: Seq<MetaState>) -> Seq<Set<StateId>> {
    id_mapping.map_values(|meta_state: MetaState| meta_state@)
}

/// Every meta-state in `id_mapping` is drawn from `width` states.
spec fn all_drawn_from(id_mapping: Seq<MetaState>, width: nat) -> bool {
    forall|id: int| 0 <= id < id_mapping.len() ==> (#[trigger] id_mapping[id]).width() == width
}

/// The id of `meta_state`: the one it has in `id_mapping`, or else the next
/// free one, under which it is then entered.
fn get_state_id(id_mapping: &mut Vec<MetaState>, meta_state: MetaState) -> (id: Id)
    requires
        all_drawn_from(old(id_mapping)@, meta_state.width()),
    ensures
        all_drawn_from(final(id_mapping)@, meta_state.width()),
        match id {
            Id::Existed(id) => {
                &&& final(id_mapping)@ == old(id_mapping)@
                &&& id < old(id_mapping)@.len()
                &&& old(id_mapping)@[id as int]@ == meta_state@
            },
            Id::New(id) => {
                &&& final(id_mapping)@ == old(id_mapping)@.push(meta_state)
                &&& id == old(id_mapping)@.len()
                &&& forall|other: int|
                    0 <= other < old(id_mapping)@.len() ==> (#[trigger] old(
                        id_mapping,
                    )@[other])@ != meta_state@
            },
        },
{
    let mut id: usize = 0;
    while id < id_mapping.len()
        invariant
            id <= id_mapping@.len(),
            id_mapping@ == old(id_mapping)@,
            all_drawn_from(id_mapping@, meta_state.width()),
            forall|other: int| 0 <= other < id ==> (#[trigger] id_mapping@[other])@ != meta_state@,
        decreases id_mapping@.len() - id,
    {
        if id_mapping[id].same_as(&meta_state) {
            return Id::Existed(id);
        }
        id = id + 1;
    }
    id_mapping.push(meta_state);
    Id::New(id)
}

/// How far the construction has come: the states with an id below `current`
/// have all their transitions, the state `current` has those on the symbols
/// in `handled`, and the states after it have none yet.
spec fn progress(
    nfa: NfaView,
    dfa: DfaView,
    meta: Seq<Set<StateId>>,
    current: int,
    handled: Set<Terminal>,
) -> bool {
    &&& meta.len() == dfa.table.len()
    &&& meta.len() > 0
    &&& 0 <= current <= meta.len()
    &&& meta[0] == nfa.start_states
    &&& forall|id: int, state: StateId|
        0 <= id < meta.len() && #[trigger] meta[id].contains(state) ==> nfa.is_state(state)
    &&& forall|first: int, second: int|
        0 <= first < second < meta.len() ==> meta[first] != meta[second]
    &&& forall|from: StateId, symbol: Terminal|
        dfa.is_state(from) ==> match #[trigger] dfa.next(from, symbol) {
            Some(to) => {
                &&& from < current || (from == current && handled.contains(symbol))
                &&& dfa.is_state(to)
                &&& meta[to as int] == nfa.step(meta[from as int], symbol)
                &&& inhabited(meta[to as int])
            },
            None => {
                &&& from < current ==> !inhabited(nfa.step(meta[from as int], symbol))
                &&& from == current ==> !handled.contains(symbol)
            },
        }
    &&& forall|state: StateId| 0 < state && dfa.is_state(state) ==> #[trigger] follows(dfa, state)
    &&& is_numbered_in_breadth(dfa)
}

/// The construction begins with the state for the start states alone.
proof fn lemma_progress_begins(nfa: NfaView)
    requires
        nfa.wf(),
    ensures
        progress(
            nfa,
            DfaView::empty().add_state(),
            seq![nfa.start_states],
            0,
            Set::<Terminal>::empty(),
        ),
{
}

/// Recording the transition from the state `current` on one more symbol
/// carries the construction on, whether or not the target is a new state.
proof fn lemma_progress_records(
    nfa: NfaView,
    dfa: DfaView,
    meta: Seq<Set<StateId>>,
    current: StateId,
    handled: Set<Terminal>,
    symbol: Terminal,
    to: StateId,
    is_new: bool,
)
    requires
        nfa.wf(),
        progress(nfa, dfa, meta, current as int, handled),
        current < meta.len(),
        !handled.contains(symbol),
        forall|other: Terminal| handled.contains(other) ==> other < symbol,
        inhabited(nfa.step(meta[current as int], symbol)),
        is_new ==> to == meta.len() && forall|id: int|
            0 <= id < meta.len() ==> #[trigger] meta[id] != nfa.step(meta[current as int], symbol),
        !is_new ==> to < meta.len() && meta[to as int] == nfa.step(meta[current as int], symbol),
    ensures
        progress(
            nfa,
            (if is_new {
                dfa.add_state()
            } else {
                dfa
            }).set_transition(current, to, symbol),
            if is_new {
                meta.push(nfa.step(meta[current as int], symbol))
            } else {
                meta
            },
            current as int,
            handled.insert(symbol),
        ),
{
    let target = nfa.step(meta[current as int], symbol);
    let grown = if is_new {
        dfa.add_state()
    } else {
        dfa
    };
    let after = grown.set_transition(current, to, symbol);
    let sets = if is_new {
        meta.push(target)
    } else {
        meta
    };
    assert forall|id: int, state: StateId|
        0 <= id < sets.len() && #[trigger] sets[id].contains(state) implies nfa.is_state(
        state,
    ) by {
        if id < meta.len() {
            assert(meta[id].contains(state));
        } else {
            let from = choose|from: StateId|
                meta[current as int].contains(from) && #[trigger] nfa.has_transition(
                    from,
                    state,
                    symbol,
                );
        }
    }
    assert forall|first: int, second: int| 0 <= first < second < sets.len() implies sets[first]
        != sets[second] by {
        if second < meta.len() {
            assert(meta[first] != meta[second]);
        } else {
            assert(meta[first] != target);
        }
    }
    assert forall|from: StateId, c: Terminal| after.is_state(from) implies match #[trigger] after
        .next(from, c) {
        Some(next) => {
            &&& from < current || (from == current && handled.insert(symbol).contains(c))
            &&& after.is_state(next)
            &&& sets[next as int] == nfa.step(sets[from as int], c)
            &&& inhabited(sets[next as int])
        },
        None => {
            &&& from < current ==> !inhabited(nfa.step(sets[from as int], c))
            &&& from == current ==> !handled.insert(symbol).contains(c)
        },
    } by {
        if from == current && c == symbol {
            assert(after.next(from, c) == Some(to));
        } else if dfa.is_state(from) {
            assert(after.next(from, c) == dfa.next(from, c));
        } else {
            assert(after.next(from, c) is None);
        }
    }
    assert forall|state: StateId| 0 < state && after.is_state(state) implies #[trigger] follows(
        after,
        state,
    ) by {
        if dfa.is_state(state) {
            assert(follows(dfa, state));
            let (from, c) = choose|from: StateId, c: Terminal|
                from < state && #[trigger] dfa.next(from, c) == Some(state);
            assert(dfa.is_state(from));
            assert(after.next(from, c) == Some(state));
        } else {
            assert(after.next(current, symbol) == Some(state));
        }
    }
    assert forall|state: StateId, from: StateId, c: Terminal|
        0 < state && (after.next(from, c) matches Some(next) && state < next)
        implies #[trigger] met_before(after, state, from, c) by {
        if from == current && c == symbol {
            assert(follows(dfa, state));
            let (earlier, other) = choose|earlier: StateId, other: Terminal|
                earlier < state && #[trigger] dfa.next(earlier, other) == Some(state);
            assert(dfa.is_state(earlier));
            assert(after.next(earlier, other) == Some(state));
        } else {
            assert(dfa.is_state(from));
            assert(dfa.next(from, c) == after.next(from, c));
            assert(met_before(dfa, state, from, c));
            let (earlier, other) = choose|earlier: StateId, other: Terminal|
                (earlier < from || (earlier == from && other < c)) && #[trigger] dfa.next(
                    earlier,
                    other,
                ) == Some(state);
            assert(after.next(earlier, other) == Some(state));
        }
    }
}

/// When the state `current` has its transitions on all symbols that lead
/// somewhere, the construction goes on to the next state.
proof fn lemma_progress_moves_on(
    nfa: NfaView,
    dfa: DfaView,
    meta: Seq<Set<StateId>>,
    current: StateId,
    handled: Set<Terminal>,
)
    requires
        progress(nfa, dfa, meta, current as int, handled),
        current < meta.len(),
        forall|symbol: Terminal|
            handled.contains(symbol) <==> inhabited(
                #[trigger] nfa.step(meta[current as int], symbol),
            ),
    ensures
        progress(nfa, dfa, meta, current + 1, Set::<Terminal>::empty()),
{
    assert forall|from: StateId, symbol: Terminal| dfa.is_state(from) implies match #[trigger] dfa
        .next(from, symbol) {
        Some(to) => {
            &&& from < current + 1 || (from == current + 1 && Set::<Terminal>::empty().contains(
                symbol,
            ))
            &&& dfa.is_state(to)
            &&& meta[to as int] == nfa.step(meta[from as int], symbol)
            &&& inhabited(meta[to as int])
        },
        None => {
            &&& from < current + 1 ==> !inhabited(nfa.step(meta[from as int], symbol))
            &&& from == current + 1 ==> !Set::<Terminal>::empty().contains(symbol)
        },
    } by {}
}

/// When every state has its transitions, what is left is to name the start
/// state and the accepting states.
proof fn lemma_progress_ends(
    nfa: NfaView,
    dfa: DfaView,
    meta: Seq<Set<StateId>>,
    handled: Set<Terminal>,
    ends: Set<StateId>,
)
    requires
        progress(nfa, dfa, meta, meta.len() as int, handled),
        forall|state: StateId|
            ends.contains(state) <==> state < meta.len() && meets_end_states(
                nfa,
                meta[state as int],
            ),
    ensures
        is_subset_construction(nfa, dfa.set_start_state(0).set_end_states(ends), meta),
        is_numbered_in_breadth(dfa.set_start_state(0).set_end_states(ends)),
{
    let done = dfa.set_start_state(0).set_end_states(ends);
    assert forall|from: StateId, symbol: Terminal| done.is_state(from) implies match #[trigger] done
        .next(from, symbol) {
        Some(to) => done.is_state(to) && meta[to as int] == nfa.step(meta[from as int], symbol)
            && inhabited(meta[to as int]),
        None => !inhabited(nfa.step(meta[from as int], symbol)),
    } by {
        assert(done.next(from, symbol) == dfa.next(from, symbol));
    }
    assert forall|state: StateId| 0 < state && done.is_state(state) implies #[trigger] follows(
        done,
        state,
    ) by {
        assert(follows(dfa, state));
        let (from, symbol) = choose|from: StateId, symbol: Terminal|
            from < state && #[trigger] dfa.next(from, symbol) == Some(state);
        assert(done.next(from, symbol) == Some(state));
    }
    assert forall|state: StateId, from: StateId, symbol: Terminal|
        0 < state && (done.next(from, symbol) matches Some(to) && state < to)
        implies #[trigger] met_before(done, state, from, symbol) by {
        assert(met_before(dfa, state, from, symbol));
        let (earlier, other) = choose|earlier: StateId, other: Terminal|
            (earlier < from || (earlier == from && other < symbol)) && #[trigger] dfa.next(
                earlier,
                other,
            ) == Some(state);
        assert(done.next(earlier, other) == Some(state));
    }
}

/// The symbols of the first `count` entries.
spec fn symbols_seen<V>(entries: Seq<(Terminal, V)>, count: int) -> Set<Terminal> {
    Set::new(|symbol: Terminal| seen(entries, count, symbol))
}

/// The sets of states that lists of members stand for, each at the place
/// of its list.
pub open spec fn member_sets(meta_states: Seq<Vec<StateId>>) -> Seq<Set<StateId>> {
    meta_states.map_values(|members: Vec<StateId>| members@.to_set())
}

/// Builds the deterministic automaton that the subset construction gives for
/// `nfa`, and with it, for each of its states, the states of `nfa` that the
/// state stands for, in ascending order.
///
/// The states are numbered as a walk in breadth meets them: the start state
/// is state 0, and the states that follow are taken up in the order of
/// their ids, each with its symbols in ascending order; a set of states that
/// was not met before gets the next free id.
pub fn convert_with_meta_states(nfa: &NFA) -> (result: (DFA, Vec<Vec<StateId>>))
    ensures
        result.0@.wf(),
        is_subset_construction(nfa@, result.0@, member_sets(result.1@)),
        is_numbered_in_breadth(result.0@),
        forall|id: int, i: int, j: int|
            0 <= id < result.1@.len() && 0 <= i < j < result.1@[id]@.len() ==> result.1@[id]@[i]
                < result.1@[id]@[j],
        forall|word: Seq<Terminal>| result.0@.accepts(word) <==> nfa@.accepts(word),
        forall|state: StateId| result.0@.is_state(state) ==> result.0@.reachable(state),
        result.0@.table.len() <= subsets_count(nfa@.table.len()),
{
    proof {
        use_type_invariant(nfa);
    }
    let count = nfa.state_count();
    let mut dfa = DFA::new();
    let mut id_mapping: Vec<MetaState> = Vec::new();
    let mut new_end_states: HashSet<StateId> = HashSet::new();

    let new_start_state = get_state_id(&mut id_mapping, start_meta_state(nfa)).unpack();
    dfa.add_state();
    proof {
        lemma_progress_begins(nfa@);
        assert(sets_of(id_mapping@) =~= seq![nfa@.start_states]);
    }

    // The meta-states from `current` on are those that wait to be visited.
    let mut current: usize = 0;
    while current < id_mapping.len()
        invariant
            nfa@.wf(),
            count == nfa@.table.len(),
            new_start_state == 0,
            all_drawn_from(id_mapping@, count as nat),
            progress(nfa@, dfa@, sets_of(id_mapping@), current as int, Set::<Terminal>::empty()),
            forall|state: StateId|
                new_end_states@.contains(state) <==> state < current && meets_end_states(
                    nfa@,
                    sets_of(id_mapping@)[state as int],
                ),
        decreases subsets_count(count as nat) - current,
    {
        proof {
            lemma_distinct_sets_bounded(sets_of(id_mapping@), count as nat);
        }
        let ghost source = sets_of(id_mapping@)[current as int];

        // merge all transitions
        let merged = merge_transitions(nfa, &id_mapping[current]);
        proof {
            use_type_invariant(&merged);
        }
        let ghost entries = merged.entries();

        // visit new meta states, and record the transitions to their ids
        let mut at: usize = 0;
        while at < merged.len()
            invariant
                nfa@.wf(),
                count == nfa@.table.len(),
                at <= entries.len(),
                entries == merged.entries(),
                ascending(entries),
                drawn_from(merged@, count as nat),
                forall|symbol: Terminal|
                    #[trigger] merged@.contains_key(symbol) <==> inhabited(
                        nfa@.step(source, symbol),
                    ),
                forall|symbol: Terminal|
                    #[trigger] merged_at(merged@, symbol) == nfa@.step(source, symbol),
                current < id_mapping@.len(),
                sets_of(id_mapping@)[current as int] == source,
                all_drawn_from(id_mapping@, count as nat),
                progress(
                    nfa@,
                    dfa@,
                    sets_of(id_mapping@),
                    current as int,
                    symbols_seen(entries, at as int),
                ),
                forall|state: StateId|
                    new_end_states@.contains(state) <==> state < current && meets_end_states(
                        nfa@,
                        sets_of(id_mapping@)[state as int],
                    ),
            decreases entries.len() - at,
        {
            let (symbol, to_state_ids) = merged.nth(at).unwrap();
            let ghost meta = sets_of(id_mapping@);
            let ghost dfa_before = dfa@;
            let ghost handled = symbols_seen(entries, at as int);
            proof {
                assert(to_state_ids@ == merged_at(merged@, symbol));
                assert forall|other: Terminal| handled.contains(other) implies other
                    < symbol by {}
            }
            let id = get_state_id(&mut id_mapping, to_state_ids.duplicate());
            let ghost is_new = id is New;
            if let Id::New(_) = id {
                dfa.add_state();
            }
            let to = id.unpack();
            assert(dfa_before.next(current, symbol) is None);
            dfa.add_transition(&current, to, symbol).unwrap();
            proof {
                if is_new {
                    assert(sets_of(id_mapping@) =~= meta.push(
                        nfa@.step(source, symbol),
                    ));
                }
                lemma_progress_records(
                    nfa@,
                    dfa_before,
                    meta,
                    current,
                    handled,
                    symbol,
                    to,
                    is_new,
                );
                assert(symbols_seen(entries, at + 1) =~= handled.insert(symbol)) by {
                    assert forall|other: Terminal|
                        symbols_seen(entries, at + 1).contains(other)
                            <==> handled.insert(symbol).contains(other) by {
                        if seen(entries, at + 1, other) {
                            let i = choose|i: int|
                                0 <= i < at + 1 && (#[trigger] entries[i]).0 == other;
                        }
                    }
                }
                assert forall|state: StateId|
                    new_end_states@.contains(state) <==> state < current
                        && meets_end_states(
                        nfa@,
                        sets_of(id_mapping@)[state as int],
                    ) by {}
            }
            at = at + 1;
        }
        proof {
            assert forall|symbol: Terminal|
                symbols_seen(entries, at as int).contains(symbol) <==> inhabited(
                    #[trigger] nfa@.step(sets_of(id_mapping@)[current as int], symbol),
                ) by {
                if merged@.contains_key(symbol) {
                    lemma_key_has_entry(entries, symbol);
                }
            }
            lemma_progress_moves_on(
                nfa@,
                dfa@,
                sets_of(id_mapping@),
                current,
                symbols_seen(entries, at as int),
            );
        }

        // add potential end_states
        if holds_end_state(nfa, &id_mapping[current]) {
            new_end_states.insert(current);
        }
        current = current + 1;
    }

    let ghost meta = sets_of(id_mapping@);
    let ghost table_done = dfa@;
    let ghost ends = new_end_states@;
    dfa.set_start_state(new_start_state).unwrap();
    dfa.set_end_states(new_end_states).unwrap();
    proof {
        lemma_progress_ends(nfa@, table_done, meta, Set::<Terminal>::empty(), ends);
        lemma_distinct_sets_bounded(meta, count as nat);
    }

    let mut meta_states: Vec<Vec<StateId>> = Vec::new();
    let mut id: usize = 0;
    while id < id_mapping.len()
        invariant
            id <= id_mapping@.len(),
            meta_states@.len() == id,
            forall|other: int|
                0 <= other < id ==> (#[trigger] meta_states@[other])@.to_set()
                    == id_mapping@[other]@,
            forall|other: int, i: int, j: int|
                0 <= other < id && 0 <= i < j < meta_states@[other]@.len()
                    ==> meta_states@[other]@[i] < meta_states@[other]@[j],
        decreases id_mapping@.len() - id,
    {
        meta_states.push(id_mapping[id].members());
        id = id + 1;
    }
    proof {
        use_type_invariant(&dfa);
        assert(member_sets(meta_states@) =~= meta);
        assert forall|word: Seq<Terminal>| dfa@.accepts(word) <==> nfa@.accepts(word) by {
            lemma_same_language(nfa@, dfa@, meta, word);
        }
        assert forall|state: StateId| dfa@.is_state(state) implies dfa@.reachable(state) by {
            lemma_every_state_reachable(nfa@, dfa@, meta, state);
        }
    }
    (dfa, meta_states)
}

/// Turns `nfa` into the deterministic automaton that the subset
/// construction gives for it: an automaton that accepts the words that
/// `nfa` accepts and no others, and all of whose states can be reached.
pub fn convert(nfa: NFA) -> (dfa: DFA)
    ensures
        dfa@.wf(),
        exists|meta: Seq<Set<StateId>>| is_subset_construction(nfa@, dfa@, meta),
        is_numbered_in_breadth(dfa@),
        forall|word: Seq<Terminal>| dfa@.accepts(word) <==> nfa@.accepts(word),
        forall|state: StateId| dfa@.is_state(state) ==> dfa@.reachable(state),
        dfa@.table.len() <= subsets_count(nfa@.table.len()),
{
    convert_with_meta_states(&nfa).0
}

impl From<NFA> for DFA {
    /// The deterministic automaton that [`convert`] gives for `nfa`.
    fn from(nfa: NFA) -> (dfa: DFA)
        ensures
            dfa@.wf(),
            exists|meta: Seq<Set<StateId>>| is_subset_construction(nfa@, dfa@, meta),
            is_numbered_in_breadth(dfa@),
            forall|word: Seq<Terminal>| dfa@.accepts(word) <==> nfa@.accepts(word),
            forall|state: StateId| dfa@.is_state(state) ==> dfa@.reachable(state),
            dfa@.table.len() <= subsets_count(nfa@.table.len()),
    {
        convert(nfa)
    }
}

impl vstd::std_specs::convert::FromSpecImpl<NFA> for DFA {
    /// The conversion is stated as a relation, not as a function.
    open spec fn obeys_from_spec() -> bool {
        false
    }

    open spec fn from_spec(nfa: NFA) -> DFA {
        arbitrary()
    }
}

} // verus!
