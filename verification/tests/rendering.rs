use dandy::dfa::parse::{ParsedDfa, ParsedDfaState};
use dandy::dfa::Dfa;
use dandy::parser;
use dandy::table::Table;

fn row<'a>(
    name: &'a str,
    initial: bool,
    accepting: bool,
    transitions: Vec<&'a str>,
) -> ParsedDfaState<'a> {
    ParsedDfaState { name, initial, accepting, transitions }
}

fn ends_in_one() -> Dfa {
    let parsed = ParsedDfa {
        head: vec!["0", "1"],
        states: vec![
            row("q0", true, false, vec!["q0", "q1"]),
            row("q1", false, true, vec!["q0", "q1"]),
        ],
    };
    Dfa::compile(&parsed).unwrap()
}

#[test]
fn table_joins_cells_and_rows() {
    let mut table = Table::default();
    table.push_row(vec!["a", "b", "c"]);
    table.push_row(vec!["d"]);
    table.push_row(vec![]);
    table.push_row(vec!["", "e"]);
    assert_eq!(table.to_string(" "), "a b c\nd\n\n e");
    assert_eq!(table.to_string(" | "), "a | b | c\nd\n\n | e");
    assert_eq!(table.to_string(""), "abc\nd\n\ne");
}

#[test]
fn table_without_rows_is_empty_text() {
    let table = Table::default();
    assert_eq!(table.to_string(" "), "");
    let mut table = Table::default();
    table.push_row(vec!["only"]);
    assert_eq!(table.to_string(", "), "only");
}

#[test]
fn to_table_marks_the_start_state_and_accepting_states() {
    assert_eq!(ends_in_one().to_table(), "   0 1\n->  q0 q0 q1\n * q1 q0 q1");
}

#[test]
fn to_table_of_a_start_state_that_accepts() {
    let parsed = ParsedDfa {
        head: vec!["go"],
        states: vec![row("on", true, true, vec!["off"]), row("off", false, false, vec!["on"])],
    };
    let dfa = Dfa::compile(&parsed).unwrap();
    assert_eq!(dfa.to_table(), "   go\n-> * on off\n  off on");
}

#[test]
fn to_table_can_be_read_back() {
    let dfa = ends_in_one();
    let text = dfa.to_table();
    let parsed = parser::dfa(&text).unwrap();
    let again = Dfa::compile(&parsed).unwrap();
    assert_eq!(again.to_table(), text);
    assert!(again.equivalent_to(&dfa));
}
