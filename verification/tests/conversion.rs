use dandy::dfa::parse::{ParsedDfa, ParsedDfaState};
use dandy::dfa::Dfa;
use dandy::nfa::Nfa;

fn row<'a>(
    name: &'a str,
    initial: bool,
    accepting: bool,
    transitions: Vec<&'a str>,
) -> ParsedDfaState<'a> {
    ParsedDfaState { name, initial, accepting, transitions }
}

fn sample() -> Dfa {
    let parsed = ParsedDfa {
        head: vec!["a", "b"],
        states: vec![
            row("x", false, true, vec!["y", "x"]),
            row("y", true, false, vec!["y", "z"]),
            row("z", false, true, vec!["x", "x"]),
        ],
    };
    Dfa::compile(&parsed).unwrap()
}

#[test]
fn to_nfa_keeps_names_and_flags() {
    let nfa = sample().to_nfa();
    assert_eq!(nfa.alphabet, vec!["a".to_string(), "b".to_string()]);
    assert_eq!(nfa.initial_state, 1);
    assert_eq!(nfa.states.len(), 3);
    let names: Vec<&str> = nfa.states.iter().map(|state| state.name.as_str()).collect();
    assert_eq!(names, vec!["x", "y", "z"]);
    let initial: Vec<bool> = nfa.states.iter().map(|state| state.initial).collect();
    assert_eq!(initial, vec![false, true, false]);
    let accepting: Vec<bool> = nfa.states.iter().map(|state| state.accepting).collect();
    assert_eq!(accepting, vec![true, false, true]);
}

#[test]
fn to_nfa_makes_each_transition_a_set_of_one() {
    let nfa = sample().to_nfa();
    assert_eq!(nfa.states[0].transitions, vec![vec![1], vec![0]]);
    assert_eq!(nfa.states[1].transitions, vec![vec![1], vec![2]]);
    assert_eq!(nfa.states[2].transitions, vec![vec![0], vec![0]]);
}

#[test]
fn to_nfa_adds_no_epsilon_transitions() {
    let nfa = sample().to_nfa();
    for state in &nfa.states {
        assert_eq!(state.epsilon_transitions, Vec::<usize>::new());
    }
}

#[test]
fn from_converts_as_to_nfa_does() {
    let nfa = Nfa::from(sample());
    let same = sample().to_nfa();
    assert_eq!(nfa.alphabet, same.alphabet);
    assert_eq!(nfa.initial_state, same.initial_state);
    assert_eq!(nfa.states.len(), same.states.len());
    for (state, other) in nfa.states.iter().zip(same.states.iter()) {
        assert_eq!(state.name, other.name);
        assert_eq!(state.initial, other.initial);
        assert_eq!(state.accepting, other.accepting);
        assert_eq!(state.epsilon_transitions, other.epsilon_transitions);
        assert_eq!(state.transitions, other.transitions);
    }
}
