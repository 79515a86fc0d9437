use dandy::dfa::Dfa;
use dandy::parser::{decimal_text, dfa, ParseError};
use dandy::query::check_eq;

const ENDS_IN_ONE: &str = "
      0  1
-> q0 q0 q1
 * q1 q0 q1
";

const ENDS_IN_ONE_WITH_THREE_STATES: &str = "
     0 1
-> a a b
 * b c b
   c c b
";

const ENDS_IN_ZERO: &str = "
      0  1
-> q0 q1 q0
 * q1 q1 q0
";

#[test]
fn dfa_reads_head_and_rows() {
    let parsed = dfa("a b\n-> * s s t\nt t s").unwrap();
    assert_eq!(parsed.head, vec!["a", "b"]);
    assert_eq!(parsed.states.len(), 2);
    assert_eq!(parsed.states[0].name, "s");
    assert!(parsed.states[0].initial);
    assert!(parsed.states[0].accepting);
    assert_eq!(parsed.states[0].transitions, vec!["s", "t"]);
    assert_eq!(parsed.states[1].name, "t");
    assert!(!parsed.states[1].initial);
    assert!(!parsed.states[1].accepting);
    assert_eq!(parsed.states[1].transitions, vec!["t", "s"]);
}

#[test]
fn dfa_takes_the_first_line_with_a_cell_as_the_head() {
    let parsed = dfa(ENDS_IN_ONE).unwrap();
    assert_eq!(parsed.head, vec!["0", "1"]);
    assert_eq!(parsed.states.len(), 2);
    assert_eq!(parsed.states[0].name, "q0");
    assert!(parsed.states[0].initial);
    assert!(!parsed.states[0].accepting);
    assert_eq!(parsed.states[0].transitions, vec!["q0", "q1"]);
    assert_eq!(parsed.states[1].name, "q1");
    assert!(!parsed.states[1].initial);
    assert!(parsed.states[1].accepting);
    assert_eq!(parsed.states[1].transitions, vec!["q0", "q1"]);
    let parsed = dfa("\n \t\n\r\n  x\n\n-> s s").unwrap();
    assert_eq!(parsed.head, vec!["x"]);
    assert_eq!(parsed.states.len(), 1);
    assert_eq!(parsed.states[0].name, "s");
}

#[test]
fn dfa_passes_over_blank_lines_and_blanks() {
    let parsed = dfa("x\ty \r\n\n  \t \r\n->\tp  p\tq\r\n\n*   q q p  \n\n").unwrap();
    assert_eq!(parsed.head, vec!["x", "y"]);
    assert_eq!(parsed.states.len(), 2);
    assert_eq!(parsed.states[0].name, "p");
    assert!(parsed.states[0].initial);
    assert!(!parsed.states[0].accepting);
    assert_eq!(parsed.states[0].transitions, vec!["p", "q"]);
    assert_eq!(parsed.states[1].name, "q");
    assert!(!parsed.states[1].initial);
    assert!(parsed.states[1].accepting);
    assert_eq!(parsed.states[1].transitions, vec!["q", "p"]);
}

#[test]
fn dfa_of_empty_text_has_no_symbols_and_no_states() {
    let parsed = dfa("").unwrap();
    assert_eq!(parsed.head, Vec::<&str>::new());
    assert_eq!(parsed.states.len(), 0);
    let parsed = dfa(" \n\t\r\n\n").unwrap();
    assert_eq!(parsed.head, Vec::<&str>::new());
    assert_eq!(parsed.states.len(), 0);
    let parsed = dfa("a b c").unwrap();
    assert_eq!(parsed.head, vec!["a", "b", "c"]);
    assert_eq!(parsed.states.len(), 0);
}

#[test]
fn dfa_reads_names_of_any_characters() {
    let parsed = dfa("α β\n-> ż→ ż→ *x\n* *x -> ż→").unwrap();
    assert_eq!(parsed.head, vec!["α", "β"]);
    assert_eq!(parsed.states[0].name, "ż→");
    assert_eq!(parsed.states[0].transitions, vec!["ż→", "*x"]);
    assert_eq!(parsed.states[1].name, "*x");
    assert!(parsed.states[1].accepting);
    assert_eq!(parsed.states[1].transitions, vec!["->", "ż→"]);
}

#[test]
fn dfa_takes_markers_only_in_their_order() {
    // `*` before `->`: the line is accepting, and no name follows the star.
    assert_eq!(dfa("a\n* -> s s").unwrap_err(), ParseError::MissingName { line: 2 });
    // Only the first cell can be the arrow.
    assert_eq!(dfa("a\n-> -> s s").unwrap_err(), ParseError::MissingName { line: 2 });
    assert_eq!(dfa("a\n-> * * s").unwrap_err(), ParseError::MissingName { line: 2 });
}

#[test]
fn dfa_fails_on_a_line_without_a_name() {
    assert_eq!(dfa("a b\n->\n").unwrap_err(), ParseError::MissingName { line: 2 });
    assert_eq!(dfa("a b\ns s s\n\n -> * \n*").unwrap_err(), ParseError::MissingName { line: 4 });
    assert_eq!(dfa("a b\n*").unwrap_err(), ParseError::MissingName { line: 2 });
    assert_eq!(
        dfa("a b\n*").unwrap_err().message(),
        "line 2: the name of the state is missing"
    );
}

#[test]
fn dfa_reports_the_line_in_decimal() {
    let text = "a\n-> s s\n\n\n\n\n\n\n\n\n\n  *  ";
    let error = dfa(text).unwrap_err();
    assert_eq!(error, ParseError::MissingName { line: 12 });
    assert_eq!(error.message(), "line 12: the name of the state is missing");
}

#[test]
fn decimal_text_writes_numbers() {
    assert_eq!(decimal_text(0), "0");
    assert_eq!(decimal_text(7), "7");
    assert_eq!(decimal_text(10), "10");
    assert_eq!(decimal_text(109), "109");
    assert_eq!(decimal_text(1234567890), "1234567890");
    assert_eq!(decimal_text(usize::MAX), usize::MAX.to_string());
}

#[test]
fn check_eq_says_equivalent() {
    assert_eq!(check_eq(ENDS_IN_ONE, ENDS_IN_ONE_WITH_THREE_STATES), "Equivalent");
    assert_eq!(check_eq(ENDS_IN_ONE, ENDS_IN_ONE), "Equivalent");
}

#[test]
fn check_eq_says_not_equivalent() {
    assert_eq!(check_eq(ENDS_IN_ONE, ENDS_IN_ZERO), "Not equivalent");
    assert_eq!(check_eq(ENDS_IN_ZERO, ENDS_IN_ONE_WITH_THREE_STATES), "Not equivalent");
}

#[test]
fn check_eq_says_not_equivalent_for_different_alphabets() {
    let two = "a b\n-> * s s s";
    let three = "a b c\n-> * s s s s";
    assert_eq!(check_eq(two, three), "Not equivalent");
    assert_eq!(check_eq(three, two), "Not equivalent");
}

#[test]
fn check_eq_names_the_text_that_does_not_parse() {
    let good = ENDS_IN_ONE;
    assert_eq!(
        check_eq("\n0 1\n-> *", good),
        "Error parsing 1: line 3: the name of the state is missing"
    );
    assert_eq!(
        check_eq("0 1\n-> *", good),
        "Error parsing 1: line 2: the name of the state is missing"
    );
    assert_eq!(
        check_eq(good, "0 1\n-> q0 q0 q0\n*\n"),
        "Error parsing 2: line 3: the name of the state is missing"
    );
}

#[test]
fn check_eq_names_the_text_that_does_not_compile() {
    let good = ENDS_IN_ONE;
    let undefined = "0 1\n-> q0 q0 q1\n * q1 q0 q7";
    assert_eq!(
        check_eq(undefined, good),
        "Error compiling 1: the state 'q1' has a transition to 'q7', which is not a state"
    );
    assert_eq!(
        check_eq(good, undefined),
        "Error compiling 2: the state 'q1' has a transition to 'q7', which is not a state"
    );
    assert_eq!(
        check_eq(good, "0 1\nq0 q0 q0"),
        "Error compiling 2: no state is marked as initial"
    );
}

#[test]
fn check_eq_reports_the_first_text_first() {
    assert_eq!(
        check_eq("0 0\n-> q q q", "0\n->"),
        "Error compiling 1: the symbol '0' occurs twice in the alphabet"
    );
    assert_eq!(
        check_eq("0\n->", "0 0\n-> q q q"),
        "Error parsing 1: line 2: the name of the state is missing"
    );
}

#[test]
fn a_parsed_description_compiles() {
    let parsed = dfa(ENDS_IN_ONE).unwrap();
    let automaton = Dfa::compile(&parsed).unwrap();
    assert!(automaton.accepts(&["0", "1"]));
    assert!(!automaton.accepts(&["1", "0"]));
    assert_eq!(automaton.initial_state(), 0);
}
