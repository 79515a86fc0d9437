use dandy::dfa::parse::{DfaParseError, ParsedDfa, ParsedDfaState};
use dandy::dfa::Dfa;

fn row<'a>(
    name: &'a str,
    initial: bool,
    accepting: bool,
    transitions: Vec<&'a str>,
) -> ParsedDfaState<'a> {
    ParsedDfaState { name, initial, accepting, transitions }
}

#[test]
fn compile_keeps_alphabet_states_and_flags() {
    let parsed = ParsedDfa {
        head: vec!["a", "b"],
        states: vec![
            row("x", false, true, vec!["y", "x"]),
            row("y", true, false, vec!["y", "z"]),
            row("z", false, true, vec!["x", "x"]),
        ],
    };
    let dfa = Dfa::compile(&parsed).unwrap();
    assert_eq!(dfa.alphabet(), ["a".to_string(), "b".to_string()]);
    assert_eq!(dfa.initial_state(), 1);
    let states = dfa.states();
    assert_eq!(states.len(), 3);
    assert_eq!(states[0].name(), "x");
    assert_eq!(states[1].name(), "y");
    assert_eq!(states[2].name(), "z");
    assert_eq!(states[0].transitions(), [1, 0]);
    assert_eq!(states[1].transitions(), [1, 2]);
    assert_eq!(states[2].transitions(), [0, 0]);
    assert!(!states[0].is_initial());
    assert!(states[1].is_initial());
    assert!(!states[2].is_initial());
    assert!(states[0].is_accepting());
    assert!(!states[1].is_accepting());
    assert!(states[2].is_accepting());
}

#[test]
fn compile_resolves_a_name_to_the_first_state_that_bears_it() {
    let parsed = ParsedDfa {
        head: vec!["a"],
        states: vec![
            row("p", true, false, vec!["twin"]),
            row("twin", false, true, vec!["p"]),
            row("twin", false, false, vec!["twin"]),
        ],
    };
    let dfa = Dfa::compile(&parsed).unwrap();
    assert_eq!(dfa.states()[0].transitions(), [1]);
    assert_eq!(dfa.states()[2].transitions(), [1]);
    assert!(dfa.accepts(&["a"]));
    assert!(!dfa.accepts(&["a", "a"]));
}

#[test]
fn compile_of_an_empty_alphabet() {
    let parsed = ParsedDfa { head: vec![], states: vec![row("only", true, true, vec![])] };
    let dfa = Dfa::compile(&parsed).unwrap();
    assert!(dfa.accepts(&[]));
    assert!(!dfa.accepts(&["a"]));
    assert!(dfa.equivalent_to(&dfa));
}

#[test]
fn compile_fails_on_a_transition_to_an_undefined_state() {
    let parsed = ParsedDfa {
        head: vec!["0", "1"],
        states: vec![
            row("q0", true, false, vec!["q0", "q1"]),
            row("q1", false, true, vec!["q0", "q7"]),
        ],
    };
    let error = Dfa::compile(&parsed).unwrap_err();
    assert_eq!(error, DfaParseError::UndefinedState { state: "q1", target: "q7" });
    assert_eq!(
        error.message(),
        "the state 'q1' has a transition to 'q7', which is not a state"
    );
}

#[test]
fn compile_reports_the_first_undefined_state() {
    let parsed = ParsedDfa {
        head: vec!["0", "1"],
        states: vec![
            row("q0", true, false, vec!["q0", "nowhere"]),
            row("q1", false, true, vec!["void", "q1"]),
        ],
    };
    assert_eq!(
        Dfa::compile(&parsed).unwrap_err(),
        DfaParseError::UndefinedState { state: "q0", target: "nowhere" }
    );
    let parsed = ParsedDfa {
        head: vec!["0", "1"],
        states: vec![row("q0", true, false, vec!["first", "second"])],
    };
    assert_eq!(
        Dfa::compile(&parsed).unwrap_err(),
        DfaParseError::UndefinedState { state: "q0", target: "first" }
    );
}

#[test]
fn compile_fails_without_an_initial_state() {
    let parsed = ParsedDfa {
        head: vec!["0"],
        states: vec![row("q0", false, false, vec!["q1"]), row("q1", false, true, vec!["q0"])],
    };
    let error = Dfa::compile(&parsed).unwrap_err();
    assert_eq!(error, DfaParseError::MissingInitialState);
    assert_eq!(error.message(), "no state is marked as initial");
}

#[test]
fn compile_fails_without_any_state() {
    let parsed = ParsedDfa { head: vec!["0"], states: vec![] };
    assert_eq!(Dfa::compile(&parsed).unwrap_err(), DfaParseError::MissingInitialState);
}

#[test]
fn compile_fails_on_a_second_initial_state() {
    let parsed = ParsedDfa {
        head: vec!["0"],
        states: vec![
            row("q0", false, false, vec!["q1"]),
            row("q1", true, true, vec!["q0"]),
            row("q2", true, true, vec!["q0"]),
            row("q3", true, true, vec!["q0"]),
        ],
    };
    let error = Dfa::compile(&parsed).unwrap_err();
    assert_eq!(error, DfaParseError::MultipleInitialStates { first: "q1", second: "q2" });
    assert_eq!(error.message(), "the states 'q1' and 'q2' are both marked as initial");
}

#[test]
fn compile_fails_on_a_wrong_number_of_transitions() {
    let parsed = ParsedDfa {
        head: vec!["0", "1"],
        states: vec![
            row("q0", true, false, vec!["q0", "q1"]),
            row("q1", false, true, vec!["q0"]),
            row("q2", false, true, vec!["q0", "q1", "q2"]),
        ],
    };
    let error = Dfa::compile(&parsed).unwrap_err();
    assert_eq!(error, DfaParseError::WrongTransitionCount { state: "q1" });
    assert_eq!(
        error.message(),
        "the state 'q1' does not have one transition for each symbol"
    );
    let parsed = ParsedDfa {
        head: vec!["0"],
        states: vec![row("q0", true, false, vec!["q0", "q0"])],
    };
    assert_eq!(
        Dfa::compile(&parsed).unwrap_err(),
        DfaParseError::WrongTransitionCount { state: "q0" }
    );
}

#[test]
fn compile_fails_on_a_repeated_symbol() {
    let parsed = ParsedDfa {
        head: vec!["a", "b", "c", "b", "a"],
        states: vec![row("q0", true, false, vec!["q0", "q0", "q0", "q0", "q0"])],
    };
    let error = Dfa::compile(&parsed).unwrap_err();
    assert_eq!(error, DfaParseError::DuplicateSymbol { symbol: "b" });
    assert_eq!(error.message(), "the symbol 'b' occurs twice in the alphabet");
}

#[test]
fn compile_reports_faults_in_a_fixed_order() {
    // A repeated symbol comes before everything else.
    let parsed = ParsedDfa {
        head: vec!["a", "a"],
        states: vec![row("q0", false, false, vec!["nowhere"])],
    };
    assert_eq!(
        Dfa::compile(&parsed).unwrap_err(),
        DfaParseError::DuplicateSymbol { symbol: "a" }
    );
    // A wrong number of transitions comes before the start states.
    let parsed = ParsedDfa {
        head: vec!["a", "b"],
        states: vec![row("q0", false, false, vec!["nowhere"])],
    };
    assert_eq!(
        Dfa::compile(&parsed).unwrap_err(),
        DfaParseError::WrongTransitionCount { state: "q0" }
    );
    // The start states come before the targets.
    let parsed = ParsedDfa {
        head: vec!["a"],
        states: vec![row("q0", false, false, vec!["nowhere"])],
    };
    assert_eq!(Dfa::compile(&parsed).unwrap_err(), DfaParseError::MissingInitialState);
    let parsed = ParsedDfa {
        head: vec!["a"],
        states: vec![row("q0", true, false, vec!["nowhere"]), row("q1", true, false, vec!["q0"])],
    };
    assert_eq!(
        Dfa::compile(&parsed).unwrap_err(),
        DfaParseError::MultipleInitialStates { first: "q0", second: "q1" }
    );
}

#[test]
fn a_clone_is_the_same_automaton() {
    let parsed = ParsedDfa {
        head: vec!["0", "1"],
        states: vec![
            row("q0", true, false, vec!["q0", "q1"]),
            row("q1", false, true, vec!["q0", "q1"]),
        ],
    };
    let dfa = Dfa::compile(&parsed).unwrap();
    let copy = dfa.clone();
    assert_eq!(copy.alphabet(), dfa.alphabet());
    assert_eq!(copy.initial_state(), dfa.initial_state());
    assert_eq!(copy.states().len(), 2);
    assert_eq!(copy.states()[1].name(), "q1");
    assert_eq!(copy.states()[1].transitions(), [0, 1]);
    assert_eq!(copy.to_table(), dfa.to_table());
    assert!(copy.equivalent_to(&dfa));
}
