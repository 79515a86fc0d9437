//! Deterministic finite automata.

use vstd::prelude::*;
use crate::dfa::eval::DfaEvaluator;
use crate::dfa::model::{DfaModel, StateModel};
use crate::names::{find, position, str_texts, texts};
use crate::nfa::{indices, Nfa, NfaState};
use crate::table::{render, Table};

pub mod bisimulation;
pub mod equivalence;
pub mod eval;
pub mod laws;
pub mod model;
pub mod parse;
pub mod product;

verus! {

/// One state of a [`Dfa`]. A state is identified by its position in the
/// automaton, never by its name.
#[derive(Debug)]
pub struct DfaState {
    pub(crate) name: String,
    pub(crate) initial: bool,
    pub(crate) accepting: bool,
    pub(crate) transitions: Vec<usize>,
}

impl View for DfaState {
    type V = StateModel;

    closed spec fn view(&self) -> StateModel {
        StateModel {
            name: self.name@,
            initial: self.initial,
            accepting: self.accepting,
            transitions: indices(self.transitions@),
        }
    }
}

impl Clone for DfaState {
    fn clone(&self) -> (copy: Self)
        ensures
            copy@ == self@,
    {
        let copy = DfaState {
            name: self.name.clone(),
            initial: self.initial,
            accepting: self.accepting,
            transitions: self.transitions.clone(),
        };
        assert(copy@.transitions =~= self@.transitions);
        copy
    }
}

impl DfaState {
    /// The state's name.
    pub fn name(&self) -> (name: &str)
        ensures
            name@ == self@.name,
    {
        self.name.as_str()
    }

    /// Whether the state is the start state of its automaton.
    pub fn is_initial(&self) -> (initial: bool)
        ensures
            initial == self@.initial,
    {
        self.initial
    }

    /// Whether the state is accepting.
    pub fn is_accepting(&self) -> (accepting: bool)
        ensures
            accepting == self@.accepting,
    {
        self.accepting
    }

    /// For each symbol of the alphabet, by its position, the index of the
    /// state that follows.
    pub fn transitions(&self) -> (targets: &[usize])
        ensures
            indices(targets@) == self@.transitions,
    {
        self.transitions.as_slice()
    }
}

/// A deterministic finite automaton: total, with exactly one start state.
/// It is immutable once it is built.
#[derive(Debug)]
pub struct Dfa {
    pub(crate) alphabet: Vec<String>,
    pub(crate) states: Vec<DfaState>,
    pub(crate) initial_state: usize,
}

impl View for Dfa {
    type V = DfaModel;

    closed spec fn view(&self) -> DfaModel {
        DfaModel {
            alphabet: texts(self.alphabet@),
            states: self.states@.map_values(|state: DfaState| state@),
            initial_state: self.initial_state as int,
        }
    }
}

/// The conversion of a state is stated on views, by the `ensures` of
/// `from`: values of `NfaState` with one view are not told apart, so no
/// specification names the one that `from` returns.
impl vstd::std_specs::convert::FromSpecImpl<DfaState> for NfaState {
    open spec fn obeys_from_spec() -> bool {
        false
    }

    open spec fn from_spec(value: DfaState) -> NfaState {
        choose|state: NfaState| state@ == value@.to_nfa()
    }
}

impl From<DfaState> for NfaState {
    /// The same state in a non-deterministic automaton.
    fn from(value: DfaState) -> (state: NfaState)
        ensures
            state@ == value@.to_nfa(),
    {
        let DfaState { name, initial, accepting, transitions } = value;
        let mut sets: Vec<Vec<usize>> = Vec::new();
        let mut a: usize = 0;
        while a < transitions.len()
            invariant
                a <= transitions.len(),
                sets@.len() == a,
                forall|k: int| 0 <= k < a ==> (#[trigger] sets@[k])@ == seq![transitions@[k]],
            decreases transitions.len() - a,
        {
            let mut targets: Vec<usize> = Vec::new();
            targets.push(transitions[a]);
            sets.push(targets);
            a += 1;
        }
        let state = NfaState {
            name,
            initial,
            accepting,
            epsilon_transitions: Vec::new(),
            transitions: sets,
        };
        proof {
            assert(state@.epsilon_transitions =~= Seq::empty());
            assert forall|k: int| 0 <= k < state@.transitions.len() implies state@.transitions[k]
                == value@.to_nfa().transitions[k] by {
                assert(state@.transitions[k] =~= seq![transitions@[k] as int]);
            }
            assert(state@.transitions =~= value@.to_nfa().transitions);
        }
        state
    }
}

/// The conversion of an automaton is stated on views, by the `ensures`
/// of `from`, as that of a state is.
impl vstd::std_specs::convert::FromSpecImpl<Dfa> for Nfa {
    open spec fn obeys_from_spec() -> bool {
        false
    }

    open spec fn from_spec(value: Dfa) -> Nfa {
        choose|nfa: Nfa| nfa@ == value@.to_nfa()
    }
}

impl From<Dfa> for Nfa {
    /// The same automaton as a non-deterministic one.
    fn from(value: Dfa) -> (nfa: Nfa)
        ensures
            nfa@ == value@.to_nfa(),
            nfa@.wf(),
    {
        value.to_nfa()
    }
}

impl Clone for Dfa {
    fn clone(&self) -> (copy: Self)
        ensures
            copy@ == self@,
    {
        proof {
            use_type_invariant(self);
        }
        let alphabet = self.alphabet.clone();
        let states = self.states.clone();
        proof {
            assert(texts(alphabet@) =~= texts(self.alphabet@));
            assert(states@.map_values(|state: DfaState| state@) =~= self.states@.map_values(
                |state: DfaState| state@,
            ));
        }
        Dfa { alphabet, states, initial_state: self.initial_state }
    }
}

impl Dfa {
    /// Every automaton is well formed.
    #[verifier::type_invariant]
    pub open spec fn wf(&self) -> bool {
        self@.wf()
    }

    /// The symbols of the alphabet, in their canonical order.
    pub fn alphabet(&self) -> (alphabet: &[String])
        ensures
            texts(alphabet@) == self@.alphabet,
    {
        self.alphabet.as_slice()
    }

    /// The states, each at its index.
    pub fn states(&self) -> (states: &[DfaState])
        ensures
            states@.len() == self@.states.len(),
            forall|q: int| 0 <= q < states@.len() ==> (#[trigger] states@[q])@ == self@.states[q],
    {
        self.states.as_slice()
    }

    /// The index of the start state.
    pub fn initial_state(&self) -> (initial: usize)
        ensures
            initial == self@.initial_state,
    {
        self.initial_state
    }

    /// The position of `symbol` in the alphabet, if the alphabet holds it.
    pub fn symbol_index(&self, symbol: &str) -> (found: Option<usize>)
        ensures
            match found {
                Some(a) => position(self@.alphabet, symbol@) == Some(a as int),
                None => position(self@.alphabet, symbol@) is None,
            },
    {
        find(&self.alphabet, symbol)
    }

    /// The same automaton as a non-deterministic one: every state keeps
    /// its name and flags, each transition leads to its one target, and no
    /// state is entered without a symbol.
    pub fn to_nfa(self) -> (nfa: Nfa)
        ensures
            nfa@ == self@.to_nfa(),
            nfa@.wf(),
    {
        proof {
            use_type_invariant(&self);
            self@.lemma_to_nfa_wf();
        }
        let ghost model = self@;
        let Dfa { alphabet, states, initial_state } = self;
        let ghost described = states@;
        let mut nfa_states: Vec<NfaState> = Vec::new();
        for state in iter: states
            invariant
                iter.seq() == described,
                nfa_states@.len() == iter.index(),
                forall|q: int|
                    0 <= q < iter.index() ==> (#[trigger] nfa_states@[q])@
                        == described[q]@.to_nfa(),
        {
            nfa_states.push(NfaState::from(state));
        }
        let nfa = Nfa { alphabet, states: nfa_states, initial_state };
        proof {
            assert(nfa@.states =~= model.to_nfa().states);
        }
        nfa
    }

    /// The automaton as a table in text: a head row with the alphabet,
    /// then a row for each state with `->` if it is the start state, `*`
    /// if it is accepting, its name, and for each symbol the name of the
    /// state that follows. One space stands between the cells of a row.
    pub fn to_table(&self) -> (text: String)
        ensures
            text@ == render(self@.table(), " "@),
    {
        proof {
            use_type_invariant(self);
        }
        let ghost model = self@;
        let mut table = Table::default();
        let mut head: Vec<&str> = Vec::new();
        head.push("");
        head.push("");
        head.push("");
        let mut a: usize = 0;
        while a < self.alphabet.len()
            invariant
                a <= self.alphabet.len(),
                model == self@,
                str_texts(head@) =~= seq![""@, ""@, ""@] + model.alphabet.take(a as int),
            decreases self.alphabet.len() - a,
        {
            let ghost before = str_texts(head@);
            head.push(self.alphabet[a].as_str());
            assert(model.alphabet[a as int] == self.alphabet@[a as int]@);
            assert(str_texts(head@) =~= before.push(model.alphabet[a as int]));
            assert(model.alphabet.take(a as int + 1) =~= model.alphabet.take(a as int).push(
                model.alphabet[a as int],
            ));
            a += 1;
        }
        assert(model.alphabet.take(a as int) =~= model.alphabet);
        table.push_row(head);
        let mut q: usize = 0;
        while q < self.states.len()
            invariant
                q <= self.states.len(),
                model == self@,
                model.wf(),
                table@ =~= seq![model.table_head()] + Seq::new(
                    q as nat,
                    |q: int| model.table_row(q),
                ),
            decreases self.states.len() - q,
        {
            let state = &self.states[q];
            assert(model.states[q as int] == state@);
            let mut row: Vec<&str> = Vec::new();
            row.push(if state.initial { "->" } else { "" });
            row.push(if state.accepting { "*" } else { "" });
            row.push(state.name.as_str());
            let ghost marks = str_texts(row@);
            let mut a: usize = 0;
            while a < state.transitions.len()
                invariant
                    a <= state.transitions.len(),
                    q < self.states.len(),
                    model == self@,
                    model.wf(),
                    *state == self.states@[q as int],
                    model.states[q as int] == state@,
                    str_texts(row@) =~= marks + Seq::new(
                        a as nat,
                        |a: int| model.states[model.delta(q as int, a)].name,
                    ),
                decreases state.transitions.len() - a,
            {
                let target = state.transitions[a];
                assert(model.has_state(q as int) && model.has_symbol(a as int));
                assert(model.delta(q as int, a as int) == target);
                assert(model.has_state(target as int));
                assert(model.states[target as int] == self.states@[target as int]@);
                let ghost before = str_texts(row@);
                row.push(self.states[target].name.as_str());
                assert(str_texts(row@) =~= before.push(model.states[target as int].name));
                assert(Seq::new(
                    (a + 1) as nat,
                    |a: int| model.states[model.delta(q as int, a)].name,
                ) =~= Seq::new(
                    a as nat,
                    |a: int| model.states[model.delta(q as int, a)].name,
                ).push(model.states[target as int].name));
                a += 1;
            }
            assert(str_texts(row@) =~= model.table_row(q as int));
            table.push_row(row);
            q += 1;
        }
        assert(table@ =~= model.table());
        table.to_string(" ")
    }

    /// Whether the automaton accepts the word `string`. A word that holds a
    /// symbol outside the alphabet is not accepted.
    pub fn accepts(&self, string: &[&str]) -> (accepted: bool)
        ensures
            accepted == self@.accepts(str_texts(string@)),
    {
        let mut eval = self.evaluator();
        proof {
            self@.lemma_run_some_iff_known(self@.initial_state, str_texts(string@));
        }
        match eval.step_multiple(string) {
            Ok(()) => eval.is_accepting(),
            Err(_) => false,
        }
    }

    /// A cursor on this automaton, at its start state.
    pub fn evaluator(&self) -> (cursor: DfaEvaluator<'_>)
        ensures
            cursor.automaton() == self@,
            cursor.state() == self@.initial_state,
    {
        DfaEvaluator::new(self)
    }
}

} // verus!
