//! Pairs of states of two automata: which pairs the two reach together,
//! and why a set of agreeing pairs that is closed under steps shows that
//! the automata accept the same words.

use vstd::prelude::*;
use crate::dfa::model::DfaModel;
use crate::names::{lemma_position, lemma_position_some_iff_member, position};

verus! {

impl DfaModel {
    /// The two states of `pair` are both accepting or both rejecting.
    pub open spec fn agree(self, other: DfaModel, pair: (int, int)) -> bool {
        self.states[pair.0].accepting == other.states[pair.1].accepting
    }

    /// The pair of states that follows `pair` when both automata read `symbol`.
    pub open spec fn pair_step(self, other: DfaModel, pair: (int, int), symbol: Seq<char>) -> (
        int,
        int,
    ) {
        (self.step(pair.0, symbol).unwrap(), other.step(pair.1, symbol).unwrap())
    }

    /// `related` holds the pair of start states, only pairs that agree on
    /// acceptance, and with each pair the pairs that follow it.
    pub open spec fn bisimulation(self, other: DfaModel, related: Set<(int, int)>) -> bool {
        &&& related.contains((self.initial_state, other.initial_state))
        &&& forall|pair: (int, int)| related.contains(pair) ==> #[trigger] self.agree(other, pair)
        &&& forall|pair: (int, int), a: int|
            related.contains(pair) && self.has_symbol(a) ==> related.contains(
                #[trigger] self.pair_step(other, pair, self.alphabet[a]),
            )
    }

    /// The pair of start states is reachable.
    pub proof fn lemma_reachable_start(self, other: DfaModel)
        ensures
            self.reachable(other, self.initial_state, other.initial_state),
    {
        assert(self.reach(other, Seq::empty(), self.initial_state, other.initial_state));
    }

    /// What follows a reachable pair on a symbol of both alphabets is reachable.
    pub proof fn lemma_reachable_step(self, other: DfaModel, pair: (int, int), symbol: Seq<char>)
        requires
            self.reachable(other, pair.0, pair.1),
            position(self.alphabet, symbol) is Some,
            position(other.alphabet, symbol) is Some,
        ensures
            ({
                let next = self.pair_step(other, pair, symbol);
                self.reachable(other, next.0, next.1)
            }),
    {
        let word = choose|word: Seq<Seq<char>>| self.reach(other, word, pair.0, pair.1);
        let next = self.pair_step(other, pair, symbol);
        self.lemma_run_push(self.initial_state, word, symbol);
        other.lemma_run_push(other.initial_state, word, symbol);
        assert(self.reach(other, word.push(symbol), next.0, next.1));
    }

    /// A reachable pair is a pair of states of the two automata.
    pub proof fn lemma_reachable_has_state(self, other: DfaModel, p: int, q: int)
        requires
            self.wf(),
            other.wf(),
            self.reachable(other, p, q),
        ensures
            self.has_state(p),
            other.has_state(q),
    {
        let word = choose|word: Seq<Seq<char>>| self.reach(other, word, p, q);
        self.lemma_run_has_state(self.initial_state, word);
        other.lemma_run_has_state(other.initial_state, word);
    }

    /// A reachable pair that disagrees on acceptance shows a word that one
    /// automaton accepts and the other rejects.
    pub proof fn lemma_disagreement(self, other: DfaModel, p: int, q: int)
        requires
            self.reachable(other, p, q),
            !self.agree(other, (p, q)),
        ensures
            !self.same_language(other),
    {
        let word = choose|word: Seq<Seq<char>>| self.reach(other, word, p, q);
        assert(self.accepts(word) != other.accepts(word));
    }

    /// Under a bisimulation, the two automata read every word alike: both
    /// fail, or they end in a related pair.
    pub proof fn lemma_bisimulation_run(
        self,
        other: DfaModel,
        related: Set<(int, int)>,
        word: Seq<Seq<char>>,
    )
        requires
            self.same_alphabet(other),
            self.bisimulation(other, related),
        ensures
            match (self.run(self.initial_state, word), other.run(other.initial_state, word)) {
                (Some(p), Some(q)) => related.contains((p, q)),
                (None, None) => true,
                _ => false,
            },
        decreases word.len(),
    {
        if word.len() > 0 {
            let front = word.drop_last();
            let symbol = word.last();
            self.lemma_bisimulation_run(other, related, front);
            lemma_position_some_iff_member(self.alphabet, symbol);
            lemma_position_some_iff_member(other.alphabet, symbol);
            lemma_position(self.alphabet, symbol);
            if let Some(p) = self.run(self.initial_state, front) {
                let q = other.run(other.initial_state, front).unwrap();
                if let Some(a) = position(self.alphabet, symbol) {
                    assert(related.contains(self.pair_step(other, (p, q), self.alphabet[a])));
                }
            }
        }
    }

    /// Two automata with one alphabet and a bisimulation accept the same
    /// words, and the bisimulation holds every reachable pair.
    pub proof fn lemma_bisimulation(self, other: DfaModel, related: Set<(int, int)>)
        requires
            self.same_alphabet(other),
            self.bisimulation(other, related),
        ensures
            self.same_language(other),
            forall|p: int, q: int| #[trigger]
                self.reachable(other, p, q) ==> related.contains((p, q)),
    {
        assert forall|word: Seq<Seq<char>>| #[trigger]
            self.accepts(word) == other.accepts(word) by {
            self.lemma_bisimulation_run(other, related, word);
            if let Some(p) = self.run(self.initial_state, word) {
                let q = other.run(other.initial_state, word).unwrap();
                assert(self.agree(other, (p, q)));
            }
        }
        assert forall|p: int, q: int| #[trigger]
            self.reachable(other, p, q) implies related.contains((p, q)) by {
            let word = choose|word: Seq<Seq<char>>| self.reach(other, word, p, q);
            self.lemma_bisimulation_run(other, related, word);
        }
    }
}

} // verus!
