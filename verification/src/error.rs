//! The ways in which building an automaton can fail.

use vstd::prelude::*;
use vstd::string::StringExecFns;
use crate::nfa::{StateId, Terminal};

verus! {

/// Why a mutation of an automaton was refused. A refused mutation leaves the
/// automaton as it was.
#[derive(Debug, Clone, Copy, PartialEq, Eq, Structural)]
pub enum AutomatonError {
    /// The given id names no state of the automaton.
    UnknownState(StateId),
    /// The deterministic automaton already has a transition from the given
    /// state on the given symbol.
    DuplicateTransition(StateId, Terminal),
}

/// The character for a number below ten.
pub open spec fn digit(value: nat) -> char {
    if value == 0 {
        '0'
    } else if value == 1 {
        '1'
    } else if value == 2 {
        '2'
    } else if value == 3 {
        '3'
    } else if value == 4 {
        '4'
    } else if value == 5 {
        '5'
    } else if value == 6 {
        '6'
    } else if value == 7 {
        '7'
    } else if value == 8 {
        '8'
    } else {
        '9'
    }
}

/// A number written in base ten, without leading zeros.
pub open spec fn decimal(number: nat) -> Seq<char>
    decreases number,
{
    if number < 10 {
        seq![digit(number)]
    } else {
        decimal(number / 10).push(digit(number % 10))
    }
}

impl AutomatonError {
    /// What went wrong, in words.
    pub open spec fn message_text(self) -> Seq<char> {
        match self {
            AutomatonError::UnknownState(state) => "state "@ + decimal(state as nat)
                + " doesn't exist in this automaton"@,
            AutomatonError::DuplicateTransition(from, symbol) =>
                "there is already a transition from state "@ + decimal(from as nat)
                    + " with character "@ + seq![symbol]
                    + ", use set_transition to override it"@,
        }
    }

    /// What went wrong, in words.
    pub fn message(&self) -> (text: String)
        ensures
            text@ == self.message_text(),
    {
        match self {
            AutomatonError::UnknownState(state) => {
                let mut text = String::from_str("state ");
                append_decimal(&mut text, *state);
                text.append(" doesn't exist in this automaton");
                text
            },
            AutomatonError::DuplicateTransition(from, symbol) => {
                let mut text = String::from_str("there is already a transition from state ");
                append_decimal(&mut text, *from);
                text.append(" with character ");
                push_char(&mut text, *symbol);
                text.append(", use set_transition to override it");
                text
            },
        }
    }
}

/// The text of one digit.
fn digit_text(value: usize) -> (text: &'static str)
    requires
        value < 10,
    ensures
        text@ == seq![digit(value as nat)],
{
    proof {
        reveal_strlit("0");
        reveal_strlit("1");
        reveal_strlit("2");
        reveal_strlit("3");
        reveal_strlit("4");
        reveal_strlit("5");
        reveal_strlit("6");
        reveal_strlit("7");
        reveal_strlit("8");
        reveal_strlit("9");
    }
    let text = if value == 0 {
        "0"
    } else if value == 1 {
        "1"
    } else if value == 2 {
        "2"
    } else if value == 3 {
        "3"
    } else if value == 4 {
        "4"
    } else if value == 5 {
        "5"
    } else if value == 6 {
        "6"
    } else if value == 7 {
        "7"
    } else if value == 8 {
        "8"
    } else {
        "9"
    };
    text
}

/// Appends `number`, written in base ten, to `text`.
fn append_decimal(text: &mut String, number: usize)
    ensures
        final(text)@ == old(text)@ + decimal(number as nat),
    decreases number,
{
    if number >= 10 {
        append_decimal(text, number / 10);
    }
    text.append(digit_text(number % 10));
}

/// `String::push` of the standard library: appends `symbol` to the end of
/// `text`. Its effect is taken from the documentation of the standard
/// library and is not proved here.
#[verifier::external_body]
fn push_char(text: &mut String, symbol: char)
    ensures
        final(text)@ == old(text)@.push(symbol),
{
    text.push(symbol);
}

} // verus!
