//! Asking, of two automata given as text, whether they are equivalent.

use vstd::prelude::*;
use vstd::string::StringExecFns;
use crate::dfa::model::DfaModel;
use crate::dfa::Dfa;
use crate::parser::{dfa, parse};

verus! {

/// What reading one of the two texts gives: the automaton it describes,
/// or why it describes none. `which` says which of the two texts it is.
pub open spec fn read(text: Seq<char>, which: Seq<char>) -> Result<DfaModel, Seq<char>> {
    match parse(text) {
        Err(error) => Err("Error parsing "@ + which + ": "@ + error.text()),
        Ok(parsed) => match parsed.error() {
            Some(error) => Err("Error compiling "@ + which + ": "@ + error.text()),
            None => Ok(parsed.compiled()),
        },
    }
}

/// The answer for two texts: what is wrong with the first, else what is
/// wrong with the second, else whether the automata that they describe
/// are equivalent.
pub open spec fn answer(a: Seq<char>, b: Seq<char>) -> Seq<char> {
    match read(a, "1"@) {
        Err(message) => message,
        Ok(first) => match read(b, "2"@) {
            Err(message) => message,
            Ok(second) => if first.equivalent(second) {
                "Equivalent"@
            } else {
                "Not equivalent"@
            },
        },
    }
}

/// Reads the automaton that `text` describes.
fn read_dfa(text: &str, which: &str) -> (outcome: Result<Dfa, String>)
    ensures
        match outcome {
            Ok(automaton) => read(text@, which@) == Ok::<DfaModel, Seq<char>>(automaton@),
            Err(message) => read(text@, which@) == Err::<DfaModel, Seq<char>>(message@),
        },
{
    let parsed = match dfa(text) {
        Ok(parsed) => parsed,
        Err(error) => {
            let mut message = "Error parsing ".to_owned();
            message.append(which);
            message.append(": ");
            message.append(error.message().as_str());
            return Err(message);
        },
    };
    match Dfa::compile(&parsed) {
        Ok(automaton) => Ok(automaton),
        Err(error) => {
            let mut message = "Error compiling ".to_owned();
            message.append(which);
            message.append(": ");
            message.append(error.message().as_str());
            Err(message)
        },
    }
}

/// Whether the automata that the texts `a` and `b` describe are
/// equivalent: `Equivalent` or `Not equivalent`, or what is wrong with
/// the first text that is at fault.
pub fn check_eq(a: &str, b: &str) -> (report: String)
    ensures
        report@ == answer(a@, b@),
{
    let first = match read_dfa(a, "1") {
        Ok(first) => first,
        Err(message) => {
            return message;
        },
    };
    let second = match read_dfa(b, "2") {
        Ok(second) => second,
        Err(message) => {
            return message;
        },
    };
    if first.equivalent_to(&second) {
        "Equivalent".to_owned()
    } else {
        "Not equivalent".to_owned()
    }
}

} // verus!
