//! What it means for an automaton to accept a word.

use vstd::prelude::*;
use crate::dfa::DfaView;
use crate::nfa::{NfaView, StateId, Terminal};

verus! {

impl NfaView {
    /// The states that `symbol` leads to from some state of `states`.
    pub open spec fn step(self, states: Set<StateId>, symbol: Terminal) -> Set<StateId> {
        Set::new(
            |to: StateId|
                exists|from: StateId|
                    states.contains(from) && #[trigger] self.has_transition(from, to, symbol),
        )
    }

    /// The states in which the automaton may be when it has read `word`.
    pub open spec fn reach(self, word: Seq<Terminal>) -> Set<StateId>
        decreases word.len(),
    {
        if word.len() == 0 {
            self.start_states
        } else {
            self.step(self.reach(word.drop_last()), word.last())
        }
    }

    /// `run` is a run of the automaton over `word`: it begins in a start
    /// state, and each symbol of `word` leads from one of its states to the
    /// next.
    pub open spec fn is_run(self, run: Seq<StateId>, word: Seq<Terminal>) -> bool {
        &&& run.len() == word.len() + 1
        &&& self.start_states.contains(run[0])
        &&& forall|i: int|
            0 <= i < word.len() ==> self.has_transition(#[trigger] run[i], run[i + 1], word[i])
    }

    /// Some run over `word` ends in an accepting state.
    pub open spec fn accepts(self, word: Seq<Terminal>) -> bool {
        exists|run: Seq<StateId>| #[trigger]
            self.is_run(run, word) && self.end_states.contains(run.last())
    }
}

impl DfaView {
    /// The state in which the automaton is when it has read `word`; none if
    /// it has no start state or met a symbol that led nowhere.
    pub open spec fn run(self, word: Seq<Terminal>) -> Option<StateId>
        decreases word.len(),
    {
        if word.len() == 0 {
            self.start_state
        } else {
            match self.run(word.drop_last()) {
                Some(state) => self.next(state, word.last()),
                None => None,
            }
        }
    }

    /// Reading `word` brings the automaton into an accepting state.
    pub open spec fn accepts(self, word: Seq<Terminal>) -> bool {
        match self.run(word) {
            Some(state) => self.end_states.contains(state),
            None => false,
        }
    }

    /// Some word brings the automaton into `state`.
    pub open spec fn reachable(self, state: StateId) -> bool {
        exists|word: Seq<Terminal>| #[trigger] self.run(word) == Some(state)
    }
}

/// A state ends some run over a word exactly if it is among the states in
/// which the automaton may be when it has read the word.
pub proof fn lemma_runs_end_in_reach(nfa: NfaView, word: Seq<Terminal>, state: StateId)
    ensures
        nfa.reach(word).contains(state) <==> exists|run: Seq<StateId>| #[trigger]
            nfa.is_run(run, word) && run.last() == state,
    decreases word.len(),
{
    if word.len() == 0 {
        if nfa.reach(word).contains(state) {
            let run = seq![state];
            assert(nfa.is_run(run, word));
        }
    } else {
        let shorter = word.drop_last();
        if nfa.reach(word).contains(state) {
            let from = choose|from: StateId|
                nfa.reach(shorter).contains(from) && #[trigger] nfa.has_transition(
                    from,
                    state,
                    word.last(),
                );
            lemma_runs_end_in_reach(nfa, shorter, from);
            let head = choose|run: Seq<StateId>| #[trigger]
                nfa.is_run(run, shorter) && run.last() == from;
            let run = head.push(state);
            assert forall|i: int| 0 <= i < word.len() implies nfa.has_transition(
                #[trigger] run[i],
                run[i + 1],
                word[i],
            ) by {}
            assert(nfa.is_run(run, word));
        }
        if exists|run: Seq<StateId>| #[trigger] nfa.is_run(run, word) && run.last() == state {
            let run = choose|run: Seq<StateId>| #[trigger]
                nfa.is_run(run, word) && run.last() == state;
            let head = run.drop_last();
            let from = head.last();
            assert forall|i: int| 0 <= i < shorter.len() implies nfa.has_transition(
                #[trigger] head[i],
                head[i + 1],
                shorter[i],
            ) by {}
            assert(nfa.is_run(head, shorter));
            lemma_runs_end_in_reach(nfa, shorter, from);
        }
    }
}

/// An automaton accepts a word exactly if an accepting state is among the
/// states in which it may be when it has read the word.
pub proof fn lemma_accepts_by_reach(nfa: NfaView, word: Seq<Terminal>)
    ensures
        nfa.accepts(word) <==> exists|state: StateId| #[trigger]
            nfa.reach(word).contains(state) && nfa.end_states.contains(state),
{
    if nfa.accepts(word) {
        let run = choose|run: Seq<StateId>| #[trigger]
            nfa.is_run(run, word) && nfa.end_states.contains(run.last());
        lemma_runs_end_in_reach(nfa, word, run.last());
    }
    if exists|state: StateId| #[trigger]
        nfa.reach(word).contains(state) && nfa.end_states.contains(state) {
        let state = choose|state: StateId| #[trigger]
            nfa.reach(word).contains(state) && nfa.end_states.contains(state);
        lemma_runs_end_in_reach(nfa, word, state);
    }
}

} // verus!
