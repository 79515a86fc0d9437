//! Deciding whether two automata are equivalent, by a search of the pairs
//! of states that the two reach together: each pair is explored once.

use std::collections::HashSet;
use vstd::prelude::*;
use crate::dfa::eval::DfaEvaluator;
use crate::dfa::model::DfaModel;
use crate::dfa::product::{
    lemma_drop_last_to_set, lemma_search_bound, lemma_search_complete, lemma_search_known,
    lemma_search_new, lemma_search_refuted, lemma_search_start, lemma_search_take, searching, seen,
};
use crate::dfa::Dfa;
use crate::names::{
    lemma_position, lemma_position_distinct, lemma_position_some_iff_member, lemma_same_symbols,
    position,
};

verus! {

/// What a search of two automata found.
#[derive(Clone, Debug, PartialEq, Eq)]
pub struct Exploration {
    /// The pairs of states that were explored, in the order in which they
    /// were: in each pair a state of the first automaton and one of the
    /// second.
    pub pairs: Vec<(usize, usize)>,
    /// Whether the automata are equivalent.
    pub equivalent: bool,
}

/// The pairs of `pairs` as pairs of state indices.
pub open spec fn state_pairs(pairs: Seq<(usize, usize)>) -> Seq<(int, int)> {
    pairs.map_values(|pair: (usize, usize)| (pair.0 as int, pair.1 as int))
}

/// What a search of `a` and `b` explores, and what it finds. With different
/// alphabets it explores nothing. Else it starts at the pair of start
/// states, explores reachable pairs only and none twice, so no more than
/// there are pairs of states, and stops at the first pair that disagrees
/// on acceptance; if there is none, it has explored every reachable pair.
pub open spec fn explores(
    a: DfaModel,
    b: DfaModel,
    explored: Seq<(int, int)>,
    equivalent: bool,
) -> bool {
    if !a.same_alphabet(b) {
        explored.len() == 0
    } else {
        &&& explored.no_duplicates()
        &&& 0 < explored.len() <= a.states.len() * b.states.len()
        &&& explored[0] == (a.initial_state, b.initial_state)
        &&& forall|i: int|
            0 <= i < explored.len() ==> a.reachable(
                b,
                (#[trigger] explored[i]).0,
                explored[i].1,
            )
        &&& forall|i: int| 0 <= i < explored.len() - 1 ==> a.agree(b, #[trigger] explored[i])
        &&& equivalent == a.agree(b, explored.last())
        &&& equivalent ==> forall|p: int, q: int| #[trigger]
            a.reachable(b, p, q) ==> explored.contains((p, q))
    }
}

impl Dfa {
    /// For each symbol of this automaton its position in `other`'s
    /// alphabet, if the two alphabets are the same.
    fn symbol_map(&self, other: &Dfa) -> (map: Option<Vec<usize>>)
        ensures
            map is Some <==> self@.same_alphabet(other@),
            map matches Some(map) ==> {
                &&& map@.len() == self@.alphabet.len()
                &&& forall|s: int|
                    0 <= s < map@.len() ==> position(other@.alphabet, self@.alphabet[s]) == Some(
                        #[trigger] map@[s] as int,
                    )
            },
    {
        proof {
            use_type_invariant(self);
            use_type_invariant(other);
        }
        if self.alphabet.len() != other.alphabet.len() {
            return None;
        }
        let mut map: Vec<usize> = Vec::new();
        let mut s: usize = 0;
        while s < self.alphabet.len()
            invariant
                s <= self.alphabet.len(),
                self.alphabet.len() == self@.alphabet.len(),
                map@.len() == s,
                forall|i: int|
                    0 <= i < s ==> position(other@.alphabet, self@.alphabet[i]) == Some(
                        #[trigger] map@[i] as int,
                    ),
            decreases self.alphabet.len() - s,
        {
            assert(self@.alphabet[s as int] == self.alphabet@[s as int]@);
            match other.symbol_index(self.alphabet[s].as_str()) {
                Some(at) => map.push(at),
                None => {
                    proof {
                        let symbol = self@.alphabet[s as int];
                        lemma_position_some_iff_member(other@.alphabet, symbol);
                        assert(self@.alphabet.contains(symbol));
                    }
                    return None;
                },
            }
            s += 1;
        }
        proof {
            assert forall|i: int| 0 <= i < self@.alphabet.len() implies other@.alphabet.contains(
                #[trigger] self@.alphabet[i],
            ) by {
                assert(position(other@.alphabet, self@.alphabet[i]) == Some(map@[i] as int));
                lemma_position(other@.alphabet, self@.alphabet[i]);
            }
            lemma_same_symbols(self@.alphabet, other@.alphabet);
        }
        Some(map)
    }

    /// Searches the pairs of states that this automaton and `other` reach
    /// together for one that disagrees on acceptance, and says what it
    /// explored and whether the automata are equivalent.
    pub fn explore(&self, other: &Dfa) -> (found: Exploration)
        ensures
            found.equivalent == self@.equivalent(other@),
            explores(self@, other@, state_pairs(found.pairs@), found.equivalent),
    {
        proof {
            use_type_invariant(self);
            use_type_invariant(other);
        }
        let map = match self.symbol_map(other) {
            Some(map) => map,
            None => {
                return Exploration { pairs: Vec::new(), equivalent: false };
            },
        };
        let ghost a = self@;
        let ghost b = other@;
        let ghost symbols = a.alphabet.len() as int;
        let ghost mut pending = seq![(a.initial_state, b.initial_state)];
        let ghost mut explored = Seq::<(int, int)>::empty();
        let first = self.evaluator();
        let second = other.evaluator();
        let mut visited: HashSet<u128> = HashSet::new();
        let mut frontier: Vec<(DfaEvaluator<'_>, DfaEvaluator<'_>)> = Vec::new();
        let mut pairs: Vec<(usize, usize)> = Vec::new();
        visited.insert(key_of(first.current_state_idx(), second.current_state_idx()));
        frontier.push((first, second));
        proof {
            let start = (a.initial_state, b.initial_state);
            lemma_search_start(a, b);
            assert(a.states.len() == self.states.len());
            assert(b.states.len() == other.states.len());
            assert(seen(pending, explored) =~= Set::empty().insert(start)) by {
                assert(pending =~= Seq::empty().push(start));
                Seq::<(int, int)>::empty().lemma_push_to_set_commute(start);
                assert(Seq::<(int, int)>::empty().to_set() =~= Set::empty());
                assert(explored.to_set() =~= Set::empty());
            }
            lemma_keyed_insert(Set::empty(), a, b, Set::empty(), start);
            assert(0 <= a.states.len() * b.states.len()) by (nonlinear_arith);
        }
        while frontier.len() > 0
            invariant
                a == self@,
                b == other@,
                symbols == a.alphabet.len(),
                a.states.len() == self.states.len(),
                b.states.len() == other.states.len(),
                map@.len() == symbols,
                forall|s: int|
                    0 <= s < symbols ==> position(b.alphabet, a.alphabet[s]) == Some(
                        #[trigger] map@[s] as int,
                    ),
                searching(a, b, pending, explored, symbols),
                mirrors(frontier@, a, b, pending),
                explored == state_pairs(pairs@),
                keyed(visited@, a, b, seen(pending, explored)),
                explored.len() <= a.states.len() * b.states.len(),
            decreases a.states.len() * b.states.len() - explored.len(),
        {
            let ghost last = pending.last();
            let (first, second) = frontier.pop().unwrap();
            let p = first.current_state_idx();
            let q = second.current_state_idx();
            pairs.push((p, q));
            assert(state_pairs(pairs@) =~= explored.push(last));
            if first.is_accepting() != second.is_accepting() {
                proof {
                    lemma_search_refuted(a, b, pending, explored, symbols);
                }
                return Exploration { pairs, equivalent: false };
            }
            proof {
                lemma_search_take(a, b, pending, explored, symbols);
                assert(seen(pending.drop_last(), explored.push(last)) =~= seen(
                    pending,
                    explored,
                )) by {
                    lemma_drop_last_to_set(pending);
                    assert(pending.contains(pending[pending.len() - 1]));
                    explored.lemma_push_to_set_commute(last);
                }
                pending = pending.drop_last();
                explored = explored.push(last);
                lemma_search_bound(a, b, pending, explored, 0);
            }
            let mut s: usize = 0;
            while s < map.len()
                invariant
                    a == self@,
                    b == other@,
                    symbols == a.alphabet.len(),
                    a.states.len() == self.states.len(),
                    b.states.len() == other.states.len(),
                    map@.len() == symbols,
                    forall|s: int|
                        0 <= s < symbols ==> position(b.alphabet, a.alphabet[s]) == Some(
                            #[trigger] map@[s] as int,
                        ),
                    0 <= s <= symbols,
                    searching(a, b, pending, explored, s as int),
                    mirrors(frontier@, a, b, pending),
                    explored == state_pairs(pairs@),
                    keyed(visited@, a, b, seen(pending, explored)),
                    explored.len() <= a.states.len() * b.states.len(),
                    explored.len() > 0,
                    explored.last() == (p as int, q as int),
                    first.automaton() == a,
                    second.automaton() == b,
                    first.state() == p,
                    second.state() == q,
                decreases map.len() - s,
            {
                let ghost symbol = a.alphabet[s as int];
                let ghost next = a.pair_step(b, (p as int, q as int), symbol);
                proof {
                    lemma_position_distinct(a.alphabet, s as int);
                    lemma_position(b.alphabet, symbol);
                    assert(position(b.alphabet, symbol) == Some(map@[s as int] as int));
                }
                let mut stepped = first;
                stepped.step_at(s);
                let mut other_stepped = second;
                other_stepped.step_at(map[s]);
                let key = key_of(stepped.current_state_idx(), other_stepped.current_state_idx());
                let ghost keys = visited@;
                assert(key == pair_key(next.0, next.1));
                if visited.insert(key) {
                    frontier.push((stepped, other_stepped));
                    proof {
                        lemma_search_new(a, b, pending, explored, s as int);
                        lemma_keyed_insert(keys, a, b, seen(pending, explored), next);
                        pending.lemma_push_to_set_commute(next);
                        assert(seen(pending.push(next), explored) =~= seen(
                            pending,
                            explored,
                        ).insert(next));
                        pending = pending.push(next);
                    }
                } else {
                    proof {
                        assert(visited@ =~= keys);
                        lemma_search_known(a, b, pending, explored, s as int);
                    }
                }
                s += 1;
            }
        }
        proof {
            assert(pending =~= Seq::empty());
            lemma_search_complete(a, b, explored, symbols);
        }
        Exploration { pairs, equivalent: true }
    }

    /// Whether this automaton and `other` are equivalent: whether they have
    /// the same alphabet and accept the same words.
    pub fn equivalent_to(&self, other: &Dfa) -> (equivalent: bool)
        ensures
            equivalent == self@.equivalent(other@),
    {
        self.explore(other).equivalent
    }
}

/// The key under which the pair `(p, q)` is remembered.
spec fn pair_key(p: int, q: int) -> u128 {
    (p * 0x1_0000_0000_0000_0000 + q) as u128
}

/// `keys` holds the keys of the pairs of `met`, and of no other pair of
/// states of `a` and `b`.
spec fn keyed(keys: Set<u128>, a: DfaModel, b: DfaModel, met: Set<(int, int)>) -> bool {
    forall|p: int, q: int|
        a.has_state(p) && b.has_state(q) ==> (keys.contains(#[trigger] pair_key(p, q))
            <==> met.contains((p, q)))
}

/// Remembering one more pair.
proof fn lemma_keyed_insert(
    keys: Set<u128>,
    a: DfaModel,
    b: DfaModel,
    met: Set<(int, int)>,
    pair: (int, int),
)
    requires
        keyed(keys, a, b, met),
        a.states.len() <= usize::MAX,
        b.states.len() <= usize::MAX,
        a.has_state(pair.0),
        b.has_state(pair.1),
    ensures
        keyed(keys.insert(pair_key(pair.0, pair.1)), a, b, met.insert(pair)),
{
    assert forall|p: int, q: int| a.has_state(p) && b.has_state(q) implies (keys.insert(
        pair_key(pair.0, pair.1),
    ).contains(#[trigger] pair_key(p, q)) <==> met.insert(pair).contains((p, q))) by {
        if pair_key(p, q) == pair_key(pair.0, pair.1) {
            assert(p == pair.0 && q == pair.1);
        }
    }
}

/// The states of the two cursors of each item of `frontier` are the pair
/// at the same place in `pending`.
spec fn mirrors<'a, 'b>(
    frontier: Seq<(DfaEvaluator<'a>, DfaEvaluator<'b>)>,
    a: DfaModel,
    b: DfaModel,
    pending: Seq<(int, int)>,
) -> bool {
    &&& frontier.len() == pending.len()
    &&& forall|i: int|
        0 <= i < frontier.len() ==> {
            &&& (#[trigger] frontier[i]).0.automaton() == a
            &&& frontier[i].1.automaton() == b
            &&& pending[i] == (frontier[i].0.state(), frontier[i].1.state())
        }
}

/// The key under which the pair `(p, q)` is remembered.
fn key_of(p: usize, q: usize) -> (key: u128)
    ensures
        key == pair_key(p as int, q as int),
{
    (p as u128) * 0x1_0000_0000_0000_0000u128 + (q as u128)
}

} // verus!
