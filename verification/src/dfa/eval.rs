//! Reading symbols one at a time.

use vstd::prelude::*;
use crate::dfa::model::DfaModel;
use crate::dfa::{Dfa, DfaState};
use crate::names::{position, str_texts};
use crate::search::{lemma_first_where_is, lemma_first_where_none};

verus! {

/// The symbol handed to a cursor is not in the automaton's alphabet.
#[derive(Clone, Copy, Debug, PartialEq, Eq)]
pub struct UnknownSymbol;

/// A cursor on a [`Dfa`]: the state reached by the symbols read so far.
/// It borrows the automaton and holds nothing but the current state, so
/// copying it is cheap.
#[derive(Clone, Copy, Debug)]
pub struct DfaEvaluator<'a> {
    dfa: &'a Dfa,
    current_state: usize,
}

impl<'a> DfaEvaluator<'a> {
    /// The current state is a state of the automaton.
    #[verifier::type_invariant]
    closed spec fn inv(&self) -> bool {
        self.dfa.wf() && self.current_state < self.dfa.states.len()
    }

    /// The automaton that the cursor reads.
    pub closed spec fn automaton(&self) -> DfaModel {
        self.dfa@
    }

    /// The index of the current state.
    pub closed spec fn state(&self) -> int {
        self.current_state as int
    }

    /// A cursor at the start state of `dfa`.
    pub fn new(dfa: &'a Dfa) -> (cursor: Self)
        ensures
            cursor.automaton() == dfa@,
            cursor.state() == dfa@.initial_state,
    {
        proof {
            use_type_invariant(dfa);
        }
        DfaEvaluator { dfa, current_state: dfa.initial_state }
    }

    /// The index of the current state.
    pub fn current_state_idx(&self) -> (index: usize)
        ensures
            index == self.state(),
            self.automaton().has_state(index as int),
    {
        proof {
            use_type_invariant(self);
        }
        self.current_state
    }

    /// The current state.
    pub fn current_state(&self) -> (state: &DfaState)
        ensures
            state@ == self.automaton().states[self.state()],
    {
        proof {
            use_type_invariant(self);
        }
        &self.dfa.states[self.current_state]
    }

    /// Whether the current state is accepting.
    pub fn is_accepting(&self) -> (accepting: bool)
        ensures
            accepting == self.automaton().states[self.state()].accepting,
    {
        proof {
            use_type_invariant(self);
        }
        self.dfa.states[self.current_state].accepting
    }

    /// Reads one symbol. An unknown symbol is an error and leaves the
    /// cursor where it was.
    pub fn step(&mut self, symbol: &str) -> (read: Result<(), UnknownSymbol>)
        ensures
            final(self).automaton() == old(self).automaton(),
            match old(self).automaton().step(old(self).state(), symbol@) {
                Some(next) => read is Ok && final(self).state() == next,
                None => read is Err && final(self).state() == old(self).state(),
            },
    {
        proof {
            use_type_invariant(&*self);
            use_type_invariant(self.dfa);
        }
        match self.dfa.symbol_index(symbol) {
            Some(a) => {
                proof {
                    crate::names::lemma_position(self.dfa@.alphabet, symbol@);
                }
                self.current_state = self.dfa.states[self.current_state].transitions[a];
                Ok(())
            },
            None => Err(UnknownSymbol),
        }
    }

    /// Moves along the transition for the symbol at position `a`.
    pub(crate) fn step_at(&mut self, a: usize)
        requires
            old(self).automaton().has_symbol(a as int),
        ensures
            final(self).automaton() == old(self).automaton(),
            final(self).state() == old(self).automaton().delta(old(self).state(), a as int),
    {
        proof {
            use_type_invariant(&*self);
            use_type_invariant(self.dfa);
            assert(self.dfa@.has_state(self.current_state as int));
            assert(self.dfa@.states[self.current_state as int]
                == self.dfa.states@[self.current_state as int]@);
            assert(self.dfa@.has_state(self.dfa@.delta(self.current_state as int, a as int)));
        }
        self.current_state = self.dfa.states[self.current_state].transitions[a];
    }

    /// Reads `symbols` in order and stops at the first unknown symbol,
    /// which is an error; the cursor then stays where the symbols before
    /// it led.
    pub fn step_multiple(&mut self, symbols: &[&str]) -> (read: Result<(), UnknownSymbol>)
        ensures
            final(self).automaton() == old(self).automaton(),
            match old(self).automaton().first_unknown(str_texts(symbols@)) {
                None => read is Ok && old(self).automaton().run(
                    old(self).state(),
                    str_texts(symbols@),
                ) == Some(final(self).state()),
                Some(i) => read is Err && old(self).automaton().run(
                    old(self).state(),
                    str_texts(symbols@).take(i),
                ) == Some(final(self).state()),
            },
    {
        let ghost automaton = self.automaton();
        let ghost start = self.state();
        let ghost word = str_texts(symbols@);
        let ghost unknown = |i: int| position(automaton.alphabet, word[i]) is None;
        let mut i: usize = 0;
        while i < symbols.len()
            invariant
                i <= symbols.len(),
                word == str_texts(symbols@),
                unknown == |i: int| position(automaton.alphabet, word[i]) is None,
                self.automaton() == automaton,
                automaton == old(self).automaton(),
                start == old(self).state(),
                automaton.run(start, word.take(i as int)) == Some(self.state()),
                forall|j: int| 0 <= j < i ==> !#[trigger] unknown(j),
            decreases symbols.len() - i,
        {
            proof {
                automaton.lemma_run_take(start, word, i as int);
            }
            if self.step(symbols[i]).is_err() {
                proof {
                    assert(unknown(i as int));
                    lemma_first_where_is(word.len() as int, unknown, i as int);
                }
                return Err(UnknownSymbol);
            }
            i += 1;
        }
        proof {
            assert(word.take(i as int) =~= word);
            lemma_first_where_none(word.len() as int, unknown);
        }
        Ok(())
    }
}

} // verus!
