//! The mathematical model of a deterministic automaton: what its states and
//! transitions are, which words it accepts, and when two automata are
//! equivalent.

use vstd::prelude::*;
use crate::names::{lemma_position, position};
use crate::nfa::{NfaModel, NfaStateModel};
use crate::search::{first_where, lemma_first_where};

verus! {

/// One state of the automaton.
pub struct StateModel {
    /// The display label.
    pub name: Seq<char>,
    /// Whether this is the start state.
    pub initial: bool,
    /// Whether a word that ends here is accepted.
    pub accepting: bool,
    /// The target state for each symbol of the alphabet, by the symbol's position.
    pub transitions: Seq<int>,
}

/// A deterministic automaton over named symbols.
pub struct DfaModel {
    /// The symbols, in their canonical order.
    pub alphabet: Seq<Seq<char>>,
    /// The states; a state is identified by its index.
    pub states: Seq<StateModel>,
    /// The index of the start state.
    pub initial_state: int,
}

impl StateModel {
    /// The same state in a non-deterministic automaton: each transition
    /// leads to its one target, and nothing is entered without a symbol.
    pub open spec fn to_nfa(self) -> NfaStateModel {
        NfaStateModel {
            name: self.name,
            initial: self.initial,
            accepting: self.accepting,
            epsilon_transitions: Seq::empty(),
            transitions: Seq::new(self.transitions.len(), |a: int| seq![self.transitions[a]]),
        }
    }
}

impl DfaModel {
    /// `q` is the index of a state.
    pub open spec fn has_state(self, q: int) -> bool {
        0 <= q < self.states.len()
    }

    /// `a` is the position of a symbol.
    pub open spec fn has_symbol(self, a: int) -> bool {
        0 <= a < self.alphabet.len()
    }

    /// The automaton is well formed: its symbols are distinct, exactly the
    /// start state is flagged initial, and every state has one transition
    /// for every symbol, each to a state of the automaton.
    pub open spec fn wf(self) -> bool {
        &&& self.alphabet.no_duplicates()
        &&& self.has_state(self.initial_state)
        &&& forall|q: int|
            self.has_state(q) ==> ((#[trigger] self.states[q]).initial <==> q
                == self.initial_state)
        &&& forall|q: int|
            self.has_state(q) ==> (#[trigger] self.states[q]).transitions.len()
                == self.alphabet.len()
        &&& forall|q: int, a: int|
            self.has_state(q) && self.has_symbol(a) ==> self.has_state(
                #[trigger] self.states[q].transitions[a],
            )
    }

    /// The state that follows `q` on the symbol at position `a`.
    pub open spec fn delta(self, q: int, a: int) -> int {
        self.states[q].transitions[a]
    }

    /// The state that follows `q` on `symbol`; `None` if the alphabet does
    /// not hold the symbol.
    pub open spec fn step(self, q: int, symbol: Seq<char>) -> Option<int> {
        match position(self.alphabet, symbol) {
            Some(a) => Some(self.delta(q, a)),
            None => None,
        }
    }

    /// The state reached from `q` by reading `word`; `None` as soon as one
    /// of its symbols is unknown.
    pub open spec fn run(self, q: int, word: Seq<Seq<char>>) -> Option<int>
        decreases word.len(),
    {
        if word.len() == 0 {
            Some(q)
        } else {
            match self.run(q, word.drop_last()) {
                Some(r) => self.step(r, word.last()),
                None => None,
            }
        }
    }

    /// The index of the first symbol of `word` that the alphabet does not hold.
    pub open spec fn first_unknown(self, word: Seq<Seq<char>>) -> Option<int> {
        first_where(word.len() as int, |i: int| position(self.alphabet, word[i]) is None)
    }

    /// The automaton accepts `word`: every symbol is known, and reading the
    /// word from the start state ends in an accepting state.
    pub open spec fn accepts(self, word: Seq<Seq<char>>) -> bool {
        match self.run(self.initial_state, word) {
            Some(q) => self.states[q].accepting,
            None => false,
        }
    }

    /// Both automata have alphabets of one size that hold the same symbols,
    /// in whatever order.
    pub open spec fn same_alphabet(self, other: DfaModel) -> bool {
        &&& self.alphabet.len() == other.alphabet.len()
        &&& self.alphabet.to_set() == other.alphabet.to_set()
    }

    /// Both automata accept the same words.
    pub open spec fn same_language(self, other: DfaModel) -> bool {
        forall|word: Seq<Seq<char>>| #[trigger] self.accepts(word) == other.accepts(word)
    }

    /// The automata are equivalent: they share their alphabet and accept the
    /// same words. A difference in alphabet alone makes them inequivalent.
    pub open spec fn equivalent(self, other: DfaModel) -> bool {
        self.same_alphabet(other) && self.same_language(other)
    }

    /// Reading `word`, `self` ends in state `p` and `other` in state `q`.
    pub open spec fn reach(self, other: DfaModel, word: Seq<Seq<char>>, p: int, q: int) -> bool {
        &&& self.run(self.initial_state, word) == Some(p)
        &&& other.run(other.initial_state, word) == Some(q)
    }

    /// Some word takes `self` to `p` and `other` to `q`.
    pub open spec fn reachable(self, other: DfaModel, p: int, q: int) -> bool {
        exists|word: Seq<Seq<char>>| self.reach(other, word, p, q)
    }

    /// The head of the automaton's table: three empty cells, above the
    /// two markers and the name of each state, then the symbols.
    pub open spec fn table_head(self) -> Seq<Seq<char>> {
        seq![""@, ""@, ""@] + self.alphabet
    }

    /// The row of state `q` in the automaton's table: `->` if the state is
    /// the start state, `*` if it is accepting, its name, and for each
    /// symbol the name of the state that follows.
    pub open spec fn table_row(self, q: int) -> Seq<Seq<char>> {
        seq![
            if self.states[q].initial {
                "->"@
            } else {
                ""@
            },
            if self.states[q].accepting {
                "*"@
            } else {
                ""@
            },
            self.states[q].name,
        ] + Seq::new(self.alphabet.len(), |a: int| self.states[self.delta(q, a)].name)
    }

    /// The automaton's table: its head, then one row for each state.
    pub open spec fn table(self) -> Seq<Seq<Seq<char>>> {
        seq![self.table_head()] + Seq::new(self.states.len(), |q: int| self.table_row(q))
    }

    /// The same automaton as a non-deterministic one.
    pub open spec fn to_nfa(self) -> NfaModel {
        NfaModel {
            alphabet: self.alphabet,
            states: Seq::new(self.states.len(), |q: int| self.states[q].to_nfa()),
            initial_state: self.initial_state,
        }
    }

    /// A well-formed automaton stays well formed as a non-deterministic one.
    pub proof fn lemma_to_nfa_wf(self)
        requires
            self.wf(),
        ensures
            self.to_nfa().wf(),
    {
        let nfa = self.to_nfa();
        assert forall|q: int, a: int, t: int|
            nfa.has_state(q) && 0 <= a < nfa.alphabet.len() && 0 <= t
                < nfa.states[q].transitions[a].len() implies nfa.has_state(
            #[trigger] nfa.states[q].transitions[a][t],
        ) by {
            assert(self.has_state(self.states[q].transitions[a]));
        }
    }

    /// Reading a word and then one more symbol is one step from where the
    /// word ended.
    pub proof fn lemma_run_push(self, q: int, word: Seq<Seq<char>>, symbol: Seq<char>)
        ensures
            self.run(q, word.push(symbol)) == match self.run(q, word) {
                Some(r) => self.step(r, symbol),
                None => None,
            },
    {
        assert(word.push(symbol).drop_last() =~= word);
    }

    /// A run that reads a prefix of a word reads that prefix's prefixes too.
    pub proof fn lemma_run_take(self, q: int, word: Seq<Seq<char>>, i: int)
        requires
            0 <= i < word.len(),
        ensures
            self.run(q, word.take(i + 1)) == match self.run(q, word.take(i)) {
                Some(r) => self.step(r, word[i]),
                None => None,
            },
    {
        assert(word.take(i + 1).drop_last() =~= word.take(i));
    }

    /// A run fails exactly on the words that hold an unknown symbol.
    pub proof fn lemma_run_some_iff_known(self, q: int, word: Seq<Seq<char>>)
        ensures
            self.run(q, word) is Some <==> self.first_unknown(word) is None,
        decreases word.len(),
    {
        let unknown = |i: int| position(self.alphabet, word[i]) is None;
        lemma_first_where(word.len() as int, unknown);
        if word.len() > 0 {
            let front = word.drop_last();
            let front_unknown = |i: int| position(self.alphabet, front[i]) is None;
            self.lemma_run_some_iff_known(q, front);
            lemma_first_where(front.len() as int, front_unknown);
            assert(forall|j: int| 0 <= j < front.len() ==> front[j] == word[j]);
            if self.first_unknown(front) is Some {
                let j = self.first_unknown(front).unwrap();
                assert(unknown(j));
            } else {
                assert forall|j: int| 0 <= j < front.len() implies !#[trigger] unknown(j) by {
                    assert(!front_unknown(j));
                }
            }
        }
    }

    /// A step from a state of a well-formed automaton ends in one of its states.
    pub proof fn lemma_step_has_state(self, q: int, symbol: Seq<char>)
        requires
            self.wf(),
            self.has_state(q),
        ensures
            self.step(q, symbol) matches Some(r) ==> self.has_state(r),
    {
        lemma_position(self.alphabet, symbol);
    }

    /// A run from a state of a well-formed automaton ends in one of its states.
    pub proof fn lemma_run_has_state(self, q: int, word: Seq<Seq<char>>)
        requires
            self.wf(),
            self.has_state(q),
        ensures
            self.run(q, word) matches Some(r) ==> self.has_state(r),
        decreases word.len(),
    {
        if word.len() > 0 {
            self.lemma_run_has_state(q, word.drop_last());
            if let Some(r) = self.run(q, word.drop_last()) {
                self.lemma_step_has_state(r, word.last());
            }
        }
    }
}

} // verus!
