//! Why the search of the product is right: what holds of it at every
//! moment, and what follows when it ends.

use vstd::prelude::*;
use vstd::set_lib::{lemma_int_range, lemma_len_subset, set_int_range};
use crate::dfa::equivalence::explores;
use crate::dfa::model::DfaModel;
use crate::names::{lemma_position_distinct, lemma_position_some_iff_member};

verus! {

/// The pairs that a search has met: those that wait to be explored, and
/// those that were explored.
pub open spec fn seen(pending: Seq<(int, int)>, explored: Seq<(int, int)>) -> Set<(int, int)> {
    pending.to_set().union(explored.to_set())
}

/// What holds of a search of `a` and `b` at every moment: no pair is met
/// twice, every pair met is reachable, every explored pair agrees on
/// acceptance, and what follows an explored pair has been met. Of the pair
/// explored last, only the first `done` symbols have been followed.
pub open spec fn searching(
    a: DfaModel,
    b: DfaModel,
    pending: Seq<(int, int)>,
    explored: Seq<(int, int)>,
    done: int,
) -> bool {
    let start = (a.initial_state, b.initial_state);
    &&& a.wf()
    &&& b.wf()
    &&& a.same_alphabet(b)
    &&& pending.no_duplicates()
    &&& explored.no_duplicates()
    &&& pending.to_set().disjoint(explored.to_set())
    &&& if explored.len() == 0 {
        pending == seq![start]
    } else {
        explored[0] == start
    }
    &&& forall|pair: (int, int)| #[trigger]
        seen(pending, explored).contains(pair) ==> a.reachable(b, pair.0, pair.1)
    &&& forall|i: int| 0 <= i < explored.len() ==> a.agree(b, #[trigger] explored[i])
    &&& forall|i: int, s: int|
        0 <= i < explored.len() && a.has_symbol(s) && (i < explored.len() - 1 || s < done) ==> seen(
            pending,
            explored,
        ).contains(#[trigger] a.pair_step(b, explored[i], a.alphabet[s]))
}

/// A sequence without its last item holds what it held but that item.
pub proof fn lemma_drop_last_to_set<A>(items: Seq<A>)
    requires
        items.len() > 0,
        items.no_duplicates(),
    ensures
        items.drop_last().no_duplicates(),
        items.drop_last().to_set() == items.to_set().remove(items.last()),
{
    let front = items.drop_last();
    assert forall|item: A| front.to_set().contains(item) <==> items.to_set().remove(
        items.last(),
    ).contains(item) by {
        if front.to_set().contains(item) {
            let i = choose|i: int| 0 <= i < front.len() && front[i] == item;
            assert(items[i] == item);
        }
        if items.to_set().remove(items.last()).contains(item) {
            let i = choose|i: int| 0 <= i < items.len() && items[i] == item;
            assert(front[i] == item);
        }
    }
    assert(front.to_set() =~= items.to_set().remove(items.last()));
}

/// A sequence with a new item at its end has no duplicates, and holds
/// what it held and that item.
pub proof fn lemma_push_to_set<A>(items: Seq<A>, item: A)
    requires
        items.no_duplicates(),
        !items.to_set().contains(item),
    ensures
        items.push(item).no_duplicates(),
        items.push(item).to_set() == items.to_set().insert(item),
{
    items.lemma_push_to_set_commute(item);
    assert forall|i: int| 0 <= i < items.len() implies items[i] != item by {
        assert(items.contains(items[i]));
    }
}

/// A search starts with the pair of start states waiting.
pub proof fn lemma_search_start(a: DfaModel, b: DfaModel)
    requires
        a.wf(),
        b.wf(),
        a.same_alphabet(b),
    ensures
        searching(a, b, seq![(a.initial_state, b.initial_state)], Seq::empty(), 0),
{
    let start = (a.initial_state, b.initial_state);
    let pending = seq![start];
    let explored = Seq::<(int, int)>::empty();
    a.lemma_reachable_start(b);
    assert forall|pair: (int, int)| #[trigger]
        seen(pending, explored).contains(pair) implies a.reachable(b, pair.0, pair.1) by {
        assert(pending.contains(pair) ==> pair == start);
    }
}

/// Taking the last waiting pair, which agrees on acceptance, to explore it.
pub proof fn lemma_search_take(
    a: DfaModel,
    b: DfaModel,
    pending: Seq<(int, int)>,
    explored: Seq<(int, int)>,
    done: int,
)
    requires
        searching(a, b, pending, explored, done),
        explored.len() > 0 ==> done >= a.alphabet.len(),
        pending.len() > 0,
        a.agree(b, pending.last()),
    ensures
        searching(a, b, pending.drop_last(), explored.push(pending.last()), 0),
{
    let pair = pending.last();
    let rest = pending.drop_last();
    let more = explored.push(pair);
    lemma_drop_last_to_set(pending);
    assert(pending.to_set().contains(pair)) by {
        assert(pending.contains(pending[pending.len() - 1]));
    }
    lemma_push_to_set(explored, pair);
    assert(seen(rest, more) =~= seen(pending, explored));
    assert forall|i: int, s: int|
        0 <= i < more.len() && a.has_symbol(s) && (i < more.len() - 1 || s < 0) implies seen(
        rest,
        more,
    ).contains(#[trigger] a.pair_step(b, more[i], a.alphabet[s])) by {
        assert(more[i] == explored[i]);
        assert(seen(pending, explored).contains(a.pair_step(b, explored[i], a.alphabet[s])));
    }
    assert forall|i: int| 0 <= i < more.len() implies a.agree(b, #[trigger] more[i]) by {
        if i < explored.len() {
            assert(more[i] == explored[i]);
        }
    }
    if explored.len() == 0 {
        assert(pending.len() == 1);
    } else {
        assert(more[0] == explored[0]);
    }
}

/// Following one more symbol from the pair explored last, to a pair that
/// was met before.
pub proof fn lemma_search_known(
    a: DfaModel,
    b: DfaModel,
    pending: Seq<(int, int)>,
    explored: Seq<(int, int)>,
    done: int,
)
    requires
        searching(a, b, pending, explored, done),
        explored.len() > 0,
        0 <= done,
        seen(pending, explored).contains(a.pair_step(b, explored.last(), a.alphabet[done])),
    ensures
        searching(a, b, pending, explored, done + 1),
{
}

/// Following one more symbol from the pair explored last, to a pair that
/// is new and now waits.
pub proof fn lemma_search_new(
    a: DfaModel,
    b: DfaModel,
    pending: Seq<(int, int)>,
    explored: Seq<(int, int)>,
    done: int,
)
    requires
        searching(a, b, pending, explored, done),
        explored.len() > 0,
        a.has_symbol(done),
        !seen(pending, explored).contains(a.pair_step(b, explored.last(), a.alphabet[done])),
    ensures
        searching(
            a,
            b,
            pending.push(a.pair_step(b, explored.last(), a.alphabet[done])),
            explored,
            done + 1,
        ),
{
    let symbol = a.alphabet[done];
    let next = a.pair_step(b, explored.last(), symbol);
    let more = pending.push(next);
    lemma_push_to_set(pending, next);
    assert(seen(more, explored) =~= seen(pending, explored).insert(next));
    assert(a.reachable(b, next.0, next.1)) by {
        assert(explored.to_set().contains(explored.last())) by {
            assert(explored.contains(explored[explored.len() - 1]));
        }
        assert(seen(pending, explored).contains(explored.last()));
        lemma_position_distinct(a.alphabet, done);
        lemma_position_some_iff_member(a.alphabet, symbol);
        lemma_position_some_iff_member(b.alphabet, symbol);
        a.lemma_reachable_step(b, explored.last(), symbol);
    }
    assert forall|pair: (int, int)| #[trigger]
        seen(more, explored).contains(pair) implies a.reachable(b, pair.0, pair.1) by {
        if pair != next {
            assert(seen(pending, explored).contains(pair));
        }
    }
    assert forall|i: int, s: int|
        0 <= i < explored.len() && a.has_symbol(s) && (i < explored.len() - 1 || s < done + 1)
        implies seen(more, explored).contains(
        #[trigger] a.pair_step(b, explored[i], a.alphabet[s]),
    ) by {
        if i < explored.len() - 1 || s < done {
            assert(seen(pending, explored).contains(a.pair_step(b, explored[i], a.alphabet[s])));
        }
    }
}

/// The explored pairs are pairs of states of the two automata, so there
/// are no more of them than the product of the numbers of states.
pub proof fn lemma_search_bound(
    a: DfaModel,
    b: DfaModel,
    pending: Seq<(int, int)>,
    explored: Seq<(int, int)>,
    done: int,
)
    requires
        searching(a, b, pending, explored, done),
    ensures
        explored.len() <= a.states.len() * b.states.len(),
        forall|i: int|
            0 <= i < explored.len() ==> a.has_state((#[trigger] explored[i]).0) && b.has_state(
                explored[i].1,
            ),
{
    assert forall|i: int| 0 <= i < explored.len() implies a.has_state((#[trigger] explored[i]).0)
        && b.has_state(explored[i].1) by {
        assert(explored.contains(explored[i]));
        assert(seen(pending, explored).contains(explored[i]));
        a.lemma_reachable_has_state(b, explored[i].0, explored[i].1);
    }
    lemma_distinct_pairs_bound(explored, a.states.len() as int, b.states.len() as int);
}

/// A search that has nothing left to explore has found a bisimulation:
/// the automata are equivalent, and every reachable pair was explored.
pub proof fn lemma_search_complete(a: DfaModel, b: DfaModel, explored: Seq<(int, int)>, done: int)
    requires
        searching(a, b, Seq::empty(), explored, done),
        done >= a.alphabet.len(),
    ensures
        a.equivalent(b),
        explores(a, b, explored, true),
{
    let pending = Seq::<(int, int)>::empty();
    lemma_search_bound(a, b, pending, explored, done);
    assert forall|i: int| 0 <= i < explored.len() implies a.reachable(
        b,
        (#[trigger] explored[i]).0,
        explored[i].1,
    ) by {
        assert(explored.contains(explored[i]));
        assert(seen(pending, explored).contains(explored[i]));
    }
    let related = explored.to_set();
    assert(seen(pending, explored) =~= related);
    assert(explored.len() > 0) by {
        assert(seq![(a.initial_state, b.initial_state)].len() == 1);
    }
    assert(related.contains((a.initial_state, b.initial_state))) by {
        assert(explored.contains(explored[0]));
    }
    assert forall|pair: (int, int)| related.contains(pair) implies #[trigger] a.agree(b, pair) by {
        let i = choose|i: int| 0 <= i < explored.len() && explored[i] == pair;
        assert(a.agree(b, explored[i]));
    }
    assert forall|pair: (int, int), s: int|
        related.contains(pair) && a.has_symbol(s) implies related.contains(
        #[trigger] a.pair_step(b, pair, a.alphabet[s]),
    ) by {
        let i = choose|i: int| 0 <= i < explored.len() && explored[i] == pair;
        assert(seen(pending, explored).contains(a.pair_step(b, explored[i], a.alphabet[s])));
    }
    a.lemma_bisimulation(b, related);
    assert forall|p: int, q: int| #[trigger] a.reachable(b, p, q) implies explored.contains(
        (p, q),
    ) by {
        assert(related.contains((p, q)));
    }
}

/// A search whose last waiting pair disagrees on acceptance has found
/// that the automata are not equivalent.
pub proof fn lemma_search_refuted(
    a: DfaModel,
    b: DfaModel,
    pending: Seq<(int, int)>,
    explored: Seq<(int, int)>,
    done: int,
)
    requires
        searching(a, b, pending, explored, done),
        pending.len() > 0,
        !a.agree(b, pending.last()),
    ensures
        !a.equivalent(b),
        explores(a, b, explored.push(pending.last()), false),
{
    let pair = pending.last();
    let more = explored.push(pair);
    assert(pending.to_set().contains(pair)) by {
        assert(pending.contains(pending[pending.len() - 1]));
    }
    assert(seen(pending, explored).contains(pair));
    a.lemma_disagreement(b, pair.0, pair.1);
    lemma_push_to_set(explored, pair);
    lemma_search_bound(a, b, pending, explored, done);
    a.lemma_reachable_has_state(b, pair.0, pair.1);
    assert forall|i: int| 0 <= i < more.len() implies a.reachable(
        b,
        (#[trigger] more[i]).0,
        more[i].1,
    ) by {
        if i < explored.len() {
            assert(more[i] == explored[i]);
            assert(explored.contains(explored[i]));
            assert(seen(pending, explored).contains(explored[i]));
        }
    }
    assert forall|i: int| 0 <= i < more.len() implies a.has_state((#[trigger] more[i]).0)
        && b.has_state(more[i].1) by {
        a.lemma_reachable_has_state(b, more[i].0, more[i].1);
    }
    lemma_distinct_pairs_bound(more, a.states.len() as int, b.states.len() as int);
    assert forall|i: int| 0 <= i < more.len() - 1 implies a.agree(b, #[trigger] more[i]) by {
        assert(more[i] == explored[i]);
    }
    if explored.len() == 0 {
        assert(seq![(a.initial_state, b.initial_state)].len() == 1);
    } else {
        assert(more[0] == explored[0]);
    }
}

/// The number that stands for the pair `(p, q)` among the pairs with `q < n`.
pub open spec fn pair_code(pair: (int, int), n: int) -> int {
    pair.0 * n + pair.1
}

/// Distinct pairs from `m` states and `n` states are at most `m * n`.
pub proof fn lemma_distinct_pairs_bound(pairs: Seq<(int, int)>, m: int, n: int)
    requires
        0 <= m,
        0 <= n,
        pairs.no_duplicates(),
        forall|i: int|
            0 <= i < pairs.len() ==> 0 <= (#[trigger] pairs[i]).0 < m && 0 <= pairs[i].1 < n,
    ensures
        pairs.len() <= m * n,
{
    assert(0 <= m * n) by (nonlinear_arith)
        requires
            0 <= m,
            0 <= n,
    ;
    if pairs.len() > 0 {
        let codes = pairs.map_values(|pair: (int, int)| pair_code(pair, n));
        assert forall|i: int| 0 <= i < codes.len() implies 0 <= #[trigger] codes[i] < m * n by {
            let p = pairs[i].0;
            let q = pairs[i].1;
            assert(0 <= p * n + q < m * n) by (nonlinear_arith)
                requires
                    0 <= p < m,
                    0 <= q < n,
            ;
        }
        assert forall|i: int, j: int|
            0 <= i < codes.len() && 0 <= j < codes.len() && i != j implies codes[i]
            != codes[j] by {
            let p = pairs[i].0;
            let q = pairs[i].1;
            let r = pairs[j].0;
            let s = pairs[j].1;
            assert(pairs[i] != pairs[j]);
            assert(p * n + q != r * n + s) by (nonlinear_arith)
                requires
                    0 <= q < n,
                    0 <= s < n,
                    p != r || q != s,
            ;
        }
        assert(codes.no_duplicates());
        codes.unique_seq_to_set();
        lemma_int_range(0, m * n);
        assert(codes.to_set().subset_of(set_int_range(0, m * n))) by {
            assert forall|code: int| codes.to_set().contains(code) implies set_int_range(
                0,
                m * n,
            ).contains(code) by {
                let i = choose|i: int| 0 <= i < codes.len() && codes[i] == code;
                assert(0 <= codes[i] < m * n);
            }
        }
        lemma_len_subset(codes.to_set(), set_int_range(0, m * n));
    }
}

} // verus!
