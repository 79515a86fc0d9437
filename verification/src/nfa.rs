//! Non-deterministic finite automata: the broader structure into which a
//! deterministic automaton embeds.

use vstd::prelude::*;
use crate::names::texts;

verus! {

/// One state of an [`Nfa`].
#[derive(Clone, Debug)]
pub struct NfaState {
    /// The display label.
    pub name: String,
    /// Whether this is the start state.
    pub initial: bool,
    /// Whether a word that can end here is accepted.
    pub accepting: bool,
    /// The states that can be entered from here without reading a symbol.
    pub epsilon_transitions: Vec<usize>,
    /// For each symbol of the alphabet, by its position, the states that
    /// can follow: none, one or several.
    pub transitions: Vec<Vec<usize>>,
}

/// A non-deterministic finite automaton.
#[derive(Clone, Debug)]
pub struct Nfa {
    /// The symbols, in their canonical order.
    pub alphabet: Vec<String>,
    /// The states; a state is identified by its index.
    pub states: Vec<NfaState>,
    /// The index of the start state.
    pub initial_state: usize,
}

/// The model of a state of a non-deterministic automaton.
pub struct NfaStateModel {
    pub name: Seq<char>,
    pub initial: bool,
    pub accepting: bool,
    pub epsilon_transitions: Seq<int>,
    pub transitions: Seq<Seq<int>>,
}

/// The model of a non-deterministic automaton.
pub struct NfaModel {
    pub alphabet: Seq<Seq<char>>,
    pub states: Seq<NfaStateModel>,
    pub initial_state: int,
}

/// The state indices of `targets`.
pub open spec fn indices(targets: Seq<usize>) -> Seq<int> {
    targets.map_values(|target: usize| target as int)
}

impl View for NfaState {
    type V = NfaStateModel;

    open spec fn view(&self) -> NfaStateModel {
        NfaStateModel {
            name: self.name@,
            initial: self.initial,
            accepting: self.accepting,
            epsilon_transitions: indices(self.epsilon_transitions@),
            transitions: self.transitions@.map_values(|targets: Vec<usize>| indices(targets@)),
        }
    }
}

impl View for Nfa {
    type V = NfaModel;

    open spec fn view(&self) -> NfaModel {
        NfaModel {
            alphabet: texts(self.alphabet@),
            states: self.states@.map_values(|state: NfaState| state@),
            initial_state: self.initial_state as int,
        }
    }
}

impl NfaModel {
    /// `q` is the index of a state.
    pub open spec fn has_state(self, q: int) -> bool {
        0 <= q < self.states.len()
    }

    /// The automaton is well formed: its symbols are distinct, exactly the
    /// start state is flagged initial, every state has a set of targets
    /// for every symbol, and every target is a state of the automaton.
    pub open spec fn wf(self) -> bool {
        &&& self.alphabet.no_duplicates()
        &&& self.has_state(self.initial_state)
        &&& forall|q: int|
            self.has_state(q) ==> ((#[trigger] self.states[q]).initial <==> q
                == self.initial_state)
        &&& forall|q: int|
            self.has_state(q) ==> (#[trigger] self.states[q]).transitions.len()
                == self.alphabet.len()
        &&& forall|q: int, e: int|
            self.has_state(q) && 0 <= e < self.states[q].epsilon_transitions.len()
                ==> self.has_state(#[trigger] self.states[q].epsilon_transitions[e])
        &&& forall|q: int, a: int, t: int|
            self.has_state(q) && 0 <= a < self.alphabet.len() && 0 <= t
                < self.states[q].transitions[a].len() ==> self.has_state(
                #[trigger] self.states[q].transitions[a][t],
            )
    }
}

} // verus!
