//! Laws of equivalence.

use vstd::prelude::*;
use crate::dfa::model::DfaModel;
use crate::dfa::Dfa;
use crate::names::lemma_position;

verus! {

impl DfaModel {
    /// `to` is a permutation of the state indices: it takes each state to
    /// a state, and different states to different states.
    pub open spec fn permuted_by(self, to: Seq<int>) -> bool {
        &&& to.len() == self.states.len()
        &&& forall|q: int| self.has_state(q) ==> self.has_state(#[trigger] to[q])
        &&& forall|p: int, q: int|
            self.has_state(p) && self.has_state(q) && p != q ==> #[trigger] to[p]
                != #[trigger] to[q]
    }

    /// `self` is `original` with its states relabeled: the state at `q`
    /// stands at `to[q]`, under whatever name, with its flags, and its
    /// transitions lead to where their targets now stand.
    pub open spec fn relabels(self, original: DfaModel, to: Seq<int>) -> bool {
        &&& original.permuted_by(to)
        &&& self.alphabet == original.alphabet
        &&& self.states.len() == original.states.len()
        &&& self.initial_state == to[original.initial_state]
        &&& forall|q: int|
            original.has_state(q) ==> {
                &&& self.states[#[trigger] to[q]].initial == original.states[q].initial
                &&& self.states[to[q]].accepting == original.states[q].accepting
            }
        &&& forall|q: int, a: int|
            original.has_state(q) && original.has_symbol(a) ==> self.delta(to[q], a)
                == to[#[trigger] original.delta(q, a)]
    }

    /// A relabeled automaton reads every word as the original does, state
    /// for state.
    pub proof fn lemma_relabeled_run(
        self,
        original: DfaModel,
        to: Seq<int>,
        q: int,
        word: Seq<Seq<char>>,
    )
        requires
            original.wf(),
            self.relabels(original, to),
            original.has_state(q),
        ensures
            match original.run(q, word) {
                Some(end) => original.has_state(end) && self.run(to[q], word) == Some(to[end]),
                None => self.run(to[q], word) is None,
            },
        decreases word.len(),
    {
        if word.len() > 0 {
            self.lemma_relabeled_run(original, to, q, word.drop_last());
            lemma_position(original.alphabet, word.last());
            original.lemma_run_has_state(q, word);
        }
    }

    /// A relabeled automaton accepts the words that the original accepts.
    pub proof fn lemma_relabeled_accepts(self, original: DfaModel, to: Seq<int>)
        requires
            original.wf(),
            self.relabels(original, to),
        ensures
            forall|word: Seq<Seq<char>>| #[trigger] self.accepts(word) == original.accepts(word),
    {
        assert forall|word: Seq<Seq<char>>| #[trigger]
            self.accepts(word) == original.accepts(word) by {
            self.lemma_relabeled_run(original, to, original.initial_state, word);
        }
    }
}

/// Every automaton is equivalent to itself.
pub proof fn lemma_equivalence_reflexive(dfa: Dfa)
    ensures
        dfa@.equivalent(dfa@),
{
}

/// Whether two automata are equivalent does not depend on which of them
/// is asked.
pub proof fn lemma_equivalence_symmetric(a: Dfa, b: Dfa)
    ensures
        a@.equivalent(b@) == b@.equivalent(a@),
{
    if a@.equivalent(b@) {
        assert forall|word: Seq<Seq<char>>| #[trigger] b@.accepts(word) == a@.accepts(word) by {
            assert(a@.accepts(word) == b@.accepts(word));
        }
    }
    if b@.equivalent(a@) {
        assert forall|word: Seq<Seq<char>>| #[trigger] a@.accepts(word) == b@.accepts(word) by {
            assert(b@.accepts(word) == a@.accepts(word));
        }
    }
}

/// Automata whose alphabets differ, in size or in the symbols they hold,
/// are not equivalent, whatever words they accept.
pub proof fn lemma_alphabets_differ(a: Dfa, b: Dfa)
    requires
        a@.alphabet.len() != b@.alphabet.len() || a@.alphabet.to_set() != b@.alphabet.to_set(),
    ensures
        !a@.equivalent(b@),
{
}

/// Relabeling the states of an automaton, by permuting their indices and
/// renaming them at will, does not change whether it is equivalent to
/// another automaton.
pub proof fn lemma_relabeling_invariant(original: Dfa, relabeled: Dfa, to: Seq<int>, other: Dfa)
    requires
        original.wf(),
        relabeled@.relabels(original@, to),
    ensures
        relabeled@.equivalent(other@) == original@.equivalent(other@),
        other@.equivalent(relabeled@) == other@.equivalent(original@),
{
    relabeled@.lemma_relabeled_accepts(original@, to);
    lemma_equivalence_symmetric(relabeled, other);
    lemma_equivalence_symmetric(original, other);
    if original@.equivalent(other@) {
        assert forall|word: Seq<Seq<char>>| #[trigger]
            relabeled@.accepts(word) == other@.accepts(word) by {
            assert(original@.accepts(word) == other@.accepts(word));
        }
    }
    if relabeled@.equivalent(other@) {
        assert forall|word: Seq<Seq<char>>| #[trigger]
            original@.accepts(word) == other@.accepts(word) by {
            assert(relabeled@.accepts(word) == other@.accepts(word));
        }
    }
}

} // verus!
