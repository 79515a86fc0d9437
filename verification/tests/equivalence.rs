use dandy::dfa::parse::{ParsedDfa, ParsedDfaState};
use dandy::dfa::Dfa;

fn row<'a>(
    name: &'a str,
    initial: bool,
    accepting: bool,
    transitions: Vec<&'a str>,
) -> ParsedDfaState<'a> {
    ParsedDfaState { name, initial, accepting, transitions }
}

fn compile(head: Vec<&str>, states: Vec<ParsedDfaState<'_>>) -> Dfa {
    Dfa::compile(&ParsedDfa { head, states }).unwrap()
}

fn ends_in_one() -> Dfa {
    compile(
        vec!["0", "1"],
        vec![
            row("q0", true, false, vec!["q0", "q1"]),
            row("q1", false, true, vec!["q0", "q1"]),
        ],
    )
}

fn ends_in_one_with_three_states() -> Dfa {
    compile(
        vec!["0", "1"],
        vec![
            row("a", true, false, vec!["a", "b"]),
            row("b", false, true, vec!["c", "b"]),
            row("c", false, false, vec!["c", "b"]),
        ],
    )
}

fn ends_in_zero() -> Dfa {
    compile(
        vec!["0", "1"],
        vec![
            row("q0", true, false, vec!["q1", "q0"]),
            row("q1", false, true, vec!["q1", "q0"]),
        ],
    )
}

fn no_duplicates(pairs: &[(usize, usize)]) -> bool {
    for i in 0..pairs.len() {
        for j in 0..i {
            if pairs[i] == pairs[j] {
                return false;
            }
        }
    }
    true
}

#[test]
fn every_automaton_is_equivalent_to_itself() {
    for dfa in [ends_in_one(), ends_in_one_with_three_states(), ends_in_zero()] {
        assert!(dfa.equivalent_to(&dfa));
        assert!(dfa.equivalent_to(&dfa.clone()));
    }
}

#[test]
fn equivalence_does_not_depend_on_the_side() {
    let automata = [ends_in_one(), ends_in_one_with_three_states(), ends_in_zero()];
    for a in &automata {
        for b in &automata {
            assert_eq!(a.equivalent_to(b), b.equivalent_to(a));
        }
    }
}

#[test]
fn automata_of_different_shape_with_one_language_are_equivalent() {
    assert!(ends_in_one().equivalent_to(&ends_in_one_with_three_states()));
    assert!(ends_in_one_with_three_states().equivalent_to(&ends_in_one()));
}

#[test]
fn automata_with_different_languages_are_not_equivalent() {
    assert!(!ends_in_one().equivalent_to(&ends_in_zero()));
    assert!(!ends_in_zero().equivalent_to(&ends_in_one_with_three_states()));
}

#[test]
fn a_larger_alphabet_makes_automata_inequivalent() {
    // Both accept exactly the words over a and b that end in b: the symbol
    // c only leads to a state that accepts nothing.
    let two = compile(
        vec!["a", "b"],
        vec![row("s", true, false, vec!["s", "t"]), row("t", false, true, vec!["s", "t"])],
    );
    let three = compile(
        vec!["a", "b", "c"],
        vec![
            row("s", true, false, vec!["s", "t", "dead"]),
            row("t", false, true, vec!["s", "t", "dead"]),
            row("dead", false, false, vec!["dead", "dead", "dead"]),
        ],
    );
    assert!(!two.equivalent_to(&three));
    assert!(!three.equivalent_to(&two));
    let found = two.explore(&three);
    assert!(!found.equivalent);
    assert_eq!(found.pairs, vec![]);
}

#[test]
fn alphabets_of_one_size_with_other_symbols_make_automata_inequivalent() {
    let first = compile(vec!["a", "b"], vec![row("s", true, true, vec!["s", "s"])]);
    let second = compile(vec!["a", "c"], vec![row("s", true, true, vec!["s", "s"])]);
    assert!(!first.equivalent_to(&second));
    assert!(!second.equivalent_to(&first));
    assert_eq!(first.explore(&second).pairs, vec![]);
}

#[test]
fn the_order_of_the_alphabet_does_not_matter() {
    let reordered = compile(
        vec!["1", "0"],
        vec![
            row("q0", true, false, vec!["q1", "q0"]),
            row("q1", false, true, vec!["q1", "q0"]),
        ],
    );
    assert!(ends_in_one().equivalent_to(&reordered));
    assert!(reordered.equivalent_to(&ends_in_one()));
    assert!(!ends_in_zero().equivalent_to(&reordered));
    // The same table under the other order of the head ends in zero.
    let swapped = compile(
        vec!["1", "0"],
        vec![
            row("q0", true, false, vec!["q0", "q1"]),
            row("q1", false, true, vec!["q0", "q1"]),
        ],
    );
    assert!(swapped.equivalent_to(&ends_in_zero()));
    assert!(!swapped.equivalent_to(&ends_in_one()));
}

#[test]
fn relabeling_the_states_keeps_the_verdict() {
    let original = ends_in_one_with_three_states();
    let relabeled = compile(
        vec!["0", "1"],
        vec![
            row("third", false, false, vec!["third", "second"]),
            row("first", true, false, vec!["first", "second"]),
            row("second", false, true, vec!["third", "second"]),
        ],
    );
    for other in [ends_in_one(), ends_in_zero(), ends_in_one_with_three_states()] {
        assert_eq!(relabeled.equivalent_to(&other), original.equivalent_to(&other));
        assert_eq!(other.equivalent_to(&relabeled), other.equivalent_to(&original));
    }
    assert!(relabeled.equivalent_to(&original));
}

#[test]
fn explore_lists_the_reachable_pairs_of_equivalent_automata() {
    let found = ends_in_one().explore(&ends_in_one_with_three_states());
    assert!(found.equivalent);
    assert_eq!(found.pairs, vec![(0, 0), (1, 1), (0, 2)]);
}

#[test]
fn explore_stops_at_the_first_disagreement() {
    let found = ends_in_one().explore(&ends_in_zero());
    assert!(!found.equivalent);
    // The start states agree; after 1 the first accepts and the second does not.
    assert_eq!(found.pairs, vec![(0, 0), (1, 0)]);
    let accepts_all = compile(vec!["0", "1"], vec![row("s", true, true, vec!["s", "s"])]);
    let found = ends_in_one().explore(&accepts_all);
    assert!(!found.equivalent);
    assert_eq!(found.pairs, vec![(0, 0)]);
}

#[test]
fn explore_visits_no_pair_twice_and_no_more_than_there_are() {
    // Counts modulo 3 and modulo 4: together they reach all twelve pairs.
    let modulo_three = compile(
        vec!["t"],
        vec![
            row("0", true, true, vec!["1"]),
            row("1", false, true, vec!["2"]),
            row("2", false, true, vec!["0"]),
        ],
    );
    let modulo_four = compile(
        vec!["t"],
        vec![
            row("0", true, true, vec!["1"]),
            row("1", false, true, vec!["2"]),
            row("2", false, true, vec!["3"]),
            row("3", false, true, vec!["0"]),
        ],
    );
    let found = modulo_three.explore(&modulo_four);
    assert!(found.equivalent);
    assert_eq!(found.pairs.len(), 12);
    assert!(no_duplicates(&found.pairs));
    assert!(found.pairs.iter().all(|&(p, q)| p < 3 && q < 4));
    assert_eq!(found.pairs[0], (0, 0));

    let found = modulo_three.explore(&modulo_three);
    assert!(found.equivalent);
    assert_eq!(found.pairs, vec![(0, 0), (1, 1), (2, 2)]);
}

#[test]
fn explore_leaves_unreachable_states_alone() {
    let with_unreachable = compile(
        vec!["0", "1"],
        vec![
            row("q0", true, false, vec!["q0", "q1"]),
            row("q1", false, true, vec!["q0", "q1"]),
            row("island", false, true, vec!["island", "q0"]),
        ],
    );
    let found = with_unreachable.explore(&ends_in_one());
    assert!(found.equivalent);
    assert_eq!(found.pairs, vec![(0, 0), (1, 1)]);
    assert!(with_unreachable.equivalent_to(&ends_in_one()));
}

#[test]
fn a_disagreement_deep_in_the_product_is_found() {
    // Accepts words with at least three symbols, against at least four.
    let three = compile(
        vec!["x"],
        vec![
            row("0", true, false, vec!["1"]),
            row("1", false, false, vec!["2"]),
            row("2", false, false, vec!["3"]),
            row("3", false, true, vec!["3"]),
        ],
    );
    let four = compile(
        vec!["x"],
        vec![
            row("0", true, false, vec!["1"]),
            row("1", false, false, vec!["2"]),
            row("2", false, false, vec!["3"]),
            row("3", false, false, vec!["4"]),
            row("4", false, true, vec!["4"]),
        ],
    );
    let found = three.explore(&four);
    assert!(!found.equivalent);
    assert_eq!(found.pairs, vec![(0, 0), (1, 1), (2, 2), (3, 3)]);
    assert!(three.accepts(&["x", "x", "x"]));
    assert!(!four.accepts(&["x", "x", "x"]));
}
