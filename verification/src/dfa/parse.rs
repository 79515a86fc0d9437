//! Building an automaton from a description of it: an alphabet and named
//! states, each with its flags and the names of the states it leads to.

use vstd::prelude::*;
use vstd::string::StringExecFns;
use crate::dfa::model::{DfaModel, StateModel};
use crate::dfa::{Dfa, DfaState};
use crate::names::{find, lemma_position, position, str_texts, texts};
use crate::search::{first_where, lemma_first_where, lemma_first_where_is, lemma_first_where_none};

verus! {

/// The description of one state.
#[derive(Clone, Debug)]
pub struct ParsedDfaState<'a> {
    /// The state's name, by which transitions refer to it.
    pub name: &'a str,
    /// Whether the state is marked as the start state.
    pub initial: bool,
    /// Whether the state is marked as accepting.
    pub accepting: bool,
    /// For each symbol of the alphabet, in order, the name of the state
    /// that follows.
    pub transitions: Vec<&'a str>,
}

/// The description of an automaton: its transition table.
#[derive(Clone, Debug)]
pub struct ParsedDfa<'a> {
    /// The alphabet: the head of the table.
    pub head: Vec<&'a str>,
    /// The states: the rows of the table.
    pub states: Vec<ParsedDfaState<'a>>,
}

/// Why a description is not that of an automaton.
#[derive(Clone, Copy, Debug, PartialEq, Eq)]
pub enum DfaParseError<'a> {
    /// A symbol occurs twice in the alphabet.
    DuplicateSymbol { symbol: &'a str },
    /// A state does not have one transition for each symbol.
    WrongTransitionCount { state: &'a str },
    /// No state is marked as the start state.
    MissingInitialState,
    /// More than one state is marked as the start state.
    MultipleInitialStates { first: &'a str, second: &'a str },
    /// A state has a transition to a name that no state bears.
    UndefinedState { state: &'a str, target: &'a str },
}

/// The model of a described state.
pub struct ParsedStateModel {
    pub name: Seq<char>,
    pub initial: bool,
    pub accepting: bool,
    pub transitions: Seq<Seq<char>>,
}

/// The model of a description.
pub struct ParsedModel {
    pub head: Seq<Seq<char>>,
    pub states: Seq<ParsedStateModel>,
}

/// The model of an error.
pub enum ErrorModel {
    DuplicateSymbol { symbol: Seq<char> },
    WrongTransitionCount { state: Seq<char> },
    MissingInitialState,
    MultipleInitialStates { first: Seq<char>, second: Seq<char> },
    UndefinedState { state: Seq<char>, target: Seq<char> },
}

impl<'a> View for ParsedDfaState<'a> {
    type V = ParsedStateModel;

    open spec fn view(&self) -> ParsedStateModel {
        ParsedStateModel {
            name: self.name@,
            initial: self.initial,
            accepting: self.accepting,
            transitions: str_texts(self.transitions@),
        }
    }
}

impl<'a> View for ParsedDfa<'a> {
    type V = ParsedModel;

    open spec fn view(&self) -> ParsedModel {
        ParsedModel {
            head: str_texts(self.head@),
            states: self.states@.map_values(|state: ParsedDfaState<'a>| state@),
        }
    }
}

impl<'a> View for DfaParseError<'a> {
    type V = ErrorModel;

    open spec fn view(&self) -> ErrorModel {
        match *self {
            DfaParseError::DuplicateSymbol { symbol } => ErrorModel::DuplicateSymbol {
                symbol: symbol@,
            },
            DfaParseError::WrongTransitionCount { state } => ErrorModel::WrongTransitionCount {
                state: state@,
            },
            DfaParseError::MissingInitialState => ErrorModel::MissingInitialState,
            DfaParseError::MultipleInitialStates {
                first,
                second,
            } => ErrorModel::MultipleInitialStates { first: first@, second: second@ },
            DfaParseError::UndefinedState { state, target } => ErrorModel::UndefinedState {
                state: state@,
                target: target@,
            },
        }
    }
}

impl ErrorModel {
    /// What the error is, in words.
    pub open spec fn text(self) -> Seq<char> {
        match self {
            ErrorModel::DuplicateSymbol { symbol } => "the symbol '"@ + symbol
                + "' occurs twice in the alphabet"@,
            ErrorModel::WrongTransitionCount { state } => "the state '"@ + state
                + "' does not have one transition for each symbol"@,
            ErrorModel::MissingInitialState => "no state is marked as initial"@,
            ErrorModel::MultipleInitialStates { first, second } => "the states '"@ + first
                + "' and '"@ + second + "' are both marked as initial"@,
            ErrorModel::UndefinedState { state, target } => "the state '"@ + state
                + "' has a transition to '"@ + target + "', which is not a state"@,
        }
    }
}

impl<'a> DfaParseError<'a> {
    /// What the error is, in words.
    pub fn message(&self) -> (message: String)
        ensures
            message@ == self@.text(),
    {
        match *self {
            DfaParseError::DuplicateSymbol { symbol } => {
                let mut message = "the symbol '".to_owned();
                message.append(symbol);
                message.append("' occurs twice in the alphabet");
                message
            },
            DfaParseError::WrongTransitionCount { state } => {
                let mut message = "the state '".to_owned();
                message.append(state);
                message.append("' does not have one transition for each symbol");
                message
            },
            DfaParseError::MissingInitialState => "no state is marked as initial".to_owned(),
            DfaParseError::MultipleInitialStates { first, second } => {
                let mut message = "the states '".to_owned();
                message.append(first);
                message.append("' and '");
                message.append(second);
                message.append("' are both marked as initial");
                message
            },
            DfaParseError::UndefinedState { state, target } => {
                let mut message = "the state '".to_owned();
                message.append(state);
                message.append("' has a transition to '");
                message.append(target);
                message.append("', which is not a state");
                message
            },
        }
    }
}

impl ParsedModel {
    /// The names of the states, in order.
    pub open spec fn names(self) -> Seq<Seq<char>> {
        self.states.map_values(|state: ParsedStateModel| state.name)
    }

    /// The symbol at `j` occurs earlier in the alphabet.
    pub open spec fn repeats(self, j: int) -> bool {
        position(self.head, self.head[j]) != Some(j)
    }

    /// The state at `i` does not have one transition for each symbol.
    pub open spec fn miscounted(self, i: int) -> bool {
        self.states[i].transitions.len() != self.head.len()
    }

    /// The state at `i` is marked initial, and is not the first that is.
    pub open spec fn rival(self, i: int) -> bool {
        self.states[i].initial && self.first_initial() != Some(i)
    }

    /// The transition at `j` of the state at `i` names no state.
    pub open spec fn dangles(self, i: int, j: int) -> bool {
        position(self.names(), self.states[i].transitions[j]) is None
    }

    /// The position of the first symbol that occurs earlier in the alphabet.
    pub open spec fn first_repeat(self) -> Option<int> {
        first_where(self.head.len() as int, |j: int| self.repeats(j))
    }

    /// The index of the first state that does not have one transition for
    /// each symbol.
    pub open spec fn first_miscounted(self) -> Option<int> {
        first_where(self.states.len() as int, |i: int| self.miscounted(i))
    }

    /// The index of the first state marked initial.
    pub open spec fn first_initial(self) -> Option<int> {
        first_where(self.states.len() as int, |i: int| self.states[i].initial)
    }

    /// The index of the second state marked initial.
    pub open spec fn first_rival(self) -> Option<int> {
        first_where(self.states.len() as int, |i: int| self.rival(i))
    }

    /// The place of the first transition of the state at `i` that names no
    /// state.
    pub open spec fn first_dangling(self, i: int) -> Option<int> {
        first_where(self.states[i].transitions.len() as int, |j: int| self.dangles(i, j))
    }

    /// The index of the first state with a transition that names no state.
    pub open spec fn first_dangling_state(self) -> Option<int> {
        first_where(self.states.len() as int, |i: int| self.first_dangling(i) is Some)
    }

    /// What is wrong with the description, if anything. Of several faults,
    /// the one reported is the first of: a repeated symbol, a state with a
    /// wrong number of transitions, no start state, a second start state, a
    /// transition to an undefined state; and of several faults of one
    /// sort, the first in the description.
    pub open spec fn error(self) -> Option<ErrorModel> {
        if let Some(j) = self.first_repeat() {
            Some(ErrorModel::DuplicateSymbol { symbol: self.head[j] })
        } else if let Some(i) = self.first_miscounted() {
            Some(ErrorModel::WrongTransitionCount { state: self.states[i].name })
        } else if self.first_initial() is None {
            Some(ErrorModel::MissingInitialState)
        } else if let Some(i) = self.first_rival() {
            Some(
                ErrorModel::MultipleInitialStates {
                    first: self.states[self.first_initial().unwrap()].name,
                    second: self.states[i].name,
                },
            )
        } else if let Some(i) = self.first_dangling_state() {
            Some(
                ErrorModel::UndefinedState {
                    state: self.states[i].name,
                    target: self.states[i].transitions[self.first_dangling(i).unwrap()],
                },
            )
        } else {
            None
        }
    }

    /// The index of the state that the transition at `j` of the state at
    /// `i` names: the first state of that name.
    pub open spec fn target(self, i: int, j: int) -> int {
        position(self.names(), self.states[i].transitions[j]).unwrap()
    }

    /// The state of the automaton that the state at `i` describes.
    pub open spec fn compiled_state(self, i: int) -> StateModel {
        StateModel {
            name: self.states[i].name,
            initial: self.states[i].initial,
            accepting: self.states[i].accepting,
            transitions: Seq::new(self.head.len(), |j: int| self.target(i, j)),
        }
    }

    /// The automaton that a faultless description describes.
    pub open spec fn compiled(self) -> DfaModel {
        DfaModel {
            alphabet: self.head,
            states: Seq::new(self.states.len(), |i: int| self.compiled_state(i)),
            initial_state: self.first_initial().unwrap(),
        }
    }

    /// A faultless description describes a well-formed automaton.
    pub proof fn lemma_compiled_wf(self)
        requires
            self.error() is None,
        ensures
            self.compiled().wf(),
    {
        let dfa = self.compiled();
        let repeats = |j: int| self.repeats(j);
        let miscounted = |i: int| self.miscounted(i);
        let rival = |i: int| self.rival(i);
        let dangling = |i: int| self.first_dangling(i) is Some;
        lemma_first_where(self.head.len() as int, repeats);
        lemma_first_where(self.states.len() as int, miscounted);
        lemma_first_where(self.states.len() as int, |i: int| self.states[i].initial);
        lemma_first_where(self.states.len() as int, rival);
        lemma_first_where(self.states.len() as int, dangling);
        assert forall|i: int, j: int|
            0 <= i < dfa.alphabet.len() && 0 <= j < dfa.alphabet.len() && i != j
            implies dfa.alphabet[i] != dfa.alphabet[j] by {
            assert(!repeats(i));
            assert(!repeats(j));
        }
        assert forall|q: int| dfa.has_state(q) implies ((#[trigger] dfa.states[q]).initial <==> q
            == dfa.initial_state) by {
            assert(!rival(q));
        }
        assert forall|q: int, a: int| dfa.has_state(q) && dfa.has_symbol(a) implies dfa.has_state(
            #[trigger] dfa.states[q].transitions[a],
        ) by {
            let dangles = |j: int| self.dangles(q, j);
            assert(!miscounted(q));
            assert(!dangling(q));
            lemma_first_where(self.states[q].transitions.len() as int, dangles);
            assert(!dangles(a));
            lemma_position(self.names(), self.states[q].transitions[a]);
        }
    }
}

/// The alphabet that `parsed` describes, unless a symbol repeats.
fn compile_alphabet<'a>(parsed: &ParsedDfa<'a>) -> (compiled: Result<
    Vec<String>,
    DfaParseError<'a>,
>)
    ensures
        match compiled {
            Ok(alphabet) => parsed@.first_repeat() is None && texts(alphabet@) == parsed@.head,
            Err(error) => parsed@.first_repeat() matches Some(j) && error@
                == (ErrorModel::DuplicateSymbol { symbol: parsed@.head[j] }),
        },
{
    let ghost head = parsed@.head;
    let ghost repeats = |j: int| parsed@.repeats(j);
    let mut alphabet: Vec<String> = Vec::new();
    let mut j: usize = 0;
    while j < parsed.head.len()
        invariant
            j <= parsed.head.len(),
            head == parsed@.head,
            head.len() == parsed.head.len(),
            repeats == |j: int| parsed@.repeats(j),
            texts(alphabet@) =~= head.take(j as int),
            forall|i: int| 0 <= i < j ==> !#[trigger] repeats(i),
        decreases parsed.head.len() - j,
    {
        let symbol = parsed.head[j];
        assert(head[j as int] == symbol@);
        let earlier = find(&alphabet, symbol);
        proof {
            lemma_position(head.take(j as int), symbol@);
            lemma_position(head, symbol@);
        }
        if earlier.is_some() {
            proof {
                assert(head.take(j as int)[earlier.unwrap() as int] == symbol@);
                assert(repeats(j as int));
                lemma_first_where_is(head.len() as int, repeats, j as int);
            }
            return Err(DfaParseError::DuplicateSymbol { symbol });
        }
        proof {
            assert forall|i: int| 0 <= i < j implies head[i] != symbol@ by {
                assert(head.take(j as int)[i] == head[i]);
            }
            assert(!repeats(j as int));
        }
        let owned = symbol.to_owned();
        alphabet.push(owned);
        proof {
            assert(texts(alphabet@) =~= head.take(j as int + 1));
        }
        j += 1;
    }
    proof {
        assert(head.take(j as int) =~= head);
        lemma_first_where_none(head.len() as int, repeats);
    }
    Ok(alphabet)
}

/// The names of the states that `parsed` describes, unless one of them
/// does not have one transition for each symbol.
fn compile_names<'a>(parsed: &ParsedDfa<'a>) -> (compiled: Result<Vec<String>, DfaParseError<'a>>)
    ensures
        match compiled {
            Ok(names) => parsed@.first_miscounted() is None && texts(names@) == parsed@.names(),
            Err(error) => parsed@.first_miscounted() matches Some(i) && error@
                == (ErrorModel::WrongTransitionCount { state: parsed@.states[i].name }),
        },
{
    let ghost model = parsed@;
    let ghost miscounted = |i: int| parsed@.miscounted(i);
    let mut names: Vec<String> = Vec::new();
    let mut i: usize = 0;
    while i < parsed.states.len()
        invariant
            i <= parsed.states.len(),
            model == parsed@,
            miscounted == |i: int| parsed@.miscounted(i),
            texts(names@) =~= model.names().take(i as int),
            forall|k: int| 0 <= k < i ==> !#[trigger] miscounted(k),
        decreases parsed.states.len() - i,
    {
        let state = &parsed.states[i];
        assert(model.states[i as int] == parsed.states@[i as int]@);
        if state.transitions.len() != parsed.head.len() {
            proof {
                assert(miscounted(i as int));
                lemma_first_where_is(model.states.len() as int, miscounted, i as int);
            }
            return Err(DfaParseError::WrongTransitionCount { state: state.name });
        }
        proof {
            assert(!miscounted(i as int));
        }
        let owned = state.name.to_owned();
        let ghost before = texts(names@);
        names.push(owned);
        proof {
            assert(model.names()[i as int] == state.name@);
            assert(texts(names@) =~= before.push(state.name@));
            assert(before.push(state.name@) =~= model.names().take(i as int + 1));
        }
        i += 1;
    }
    proof {
        assert(model.names().take(i as int) =~= model.names());
        lemma_first_where_none(model.states.len() as int, miscounted);
    }
    Ok(names)
}

/// The index of the one state that `parsed` marks as the start state.
fn compile_initial<'a>(parsed: &ParsedDfa<'a>) -> (compiled: Result<usize, DfaParseError<'a>>)
    ensures
        match compiled {
            Ok(initial) => parsed@.first_initial() == Some(initial as int)
                && parsed@.first_rival() is None,
            Err(error) => match parsed@.first_initial() {
                None => error@ == ErrorModel::MissingInitialState,
                Some(first) => parsed@.first_rival() matches Some(second) && error@
                    == (ErrorModel::MultipleInitialStates {
                    first: parsed@.states[first].name,
                    second: parsed@.states[second].name,
                }),
            },
        },
{
    let ghost model = parsed@;
    let ghost marked = |i: int| parsed@.states[i].initial;
    let ghost rival = |i: int| parsed@.rival(i);
    let mut initial: Option<usize> = None;
    let mut i: usize = 0;
    while i < parsed.states.len()
        invariant
            i <= parsed.states.len(),
            model == parsed@,
            model.states.len() == parsed.states.len(),
            marked == |i: int| parsed@.states[i].initial,
            rival == |i: int| parsed@.rival(i),
            match initial {
                None => forall|k: int| 0 <= k < i ==> !#[trigger] marked(k),
                Some(first) => {
                    &&& first < i
                    &&& model.first_initial() == Some(first as int)
                    &&& forall|k: int| 0 <= k < i ==> !#[trigger] rival(k)
                },
            },
        decreases parsed.states.len() - i,
    {
        let state = &parsed.states[i];
        assert(model.states[i as int] == parsed.states@[i as int]@);
        if state.initial {
            match initial {
                None => {
                    proof {
                        assert(marked(i as int));
                        lemma_first_where_is(model.states.len() as int, marked, i as int);
                        assert forall|k: int| 0 <= k < i + 1 implies !#[trigger] rival(k) by {
                            assert(!marked(k) || k == i);
                        }
                    }
                    initial = Some(i);
                },
                Some(first) => {
                    proof {
                        assert(rival(i as int));
                        lemma_first_where_is(model.states.len() as int, rival, i as int);
                        assert(model.states[first as int] == parsed.states@[first as int]@);
                    }
                    return Err(
                        DfaParseError::MultipleInitialStates {
                            first: parsed.states[first].name,
                            second: state.name,
                        },
                    );
                },
            }
        } else {
            proof {
                assert(!marked(i as int));
                assert(!rival(i as int));
            }
        }
        i += 1;
    }
    match initial {
        None => {
            proof {
                lemma_first_where_none(model.states.len() as int, marked);
            }
            Err(DfaParseError::MissingInitialState)
        },
        Some(first) => {
            proof {
                lemma_first_where_none(model.states.len() as int, rival);
            }
            Ok(first)
        },
    }
}

/// The targets of the transitions of the state at `i`, by the first state
/// of each name, unless a transition names no state.
fn compile_transitions<'a>(
    parsed: &ParsedDfa<'a>,
    names: &Vec<String>,
    i: usize,
) -> (compiled: Result<Vec<usize>, DfaParseError<'a>>)
    requires
        i < parsed.states.len(),
        texts(names@) == parsed@.names(),
    ensures
        match compiled {
            Ok(targets) => {
                &&& parsed@.first_dangling(i as int) is None
                &&& targets@.len() == parsed@.states[i as int].transitions.len()
                &&& forall|j: int|
                    0 <= j < targets@.len() ==> #[trigger] targets@[j] == parsed@.target(
                        i as int,
                        j,
                    )
                &&& forall|j: int| 0 <= j < targets@.len() ==> #[trigger] targets@[j] < names@.len()
            },
            Err(error) => parsed@.first_dangling(i as int) matches Some(j) && error@
                == (ErrorModel::UndefinedState {
                state: parsed@.states[i as int].name,
                target: parsed@.states[i as int].transitions[j],
            }),
        },
{
    let ghost model = parsed@;
    let ghost dangles = |j: int| parsed@.dangles(i as int, j);
    let state = &parsed.states[i];
    assert(model.states[i as int] == parsed.states@[i as int]@);
    let mut targets: Vec<usize> = Vec::new();
    let mut j: usize = 0;
    while j < state.transitions.len()
        invariant
            j <= state.transitions.len(),
            i < parsed.states.len(),
            model == parsed@,
            *state == parsed.states@[i as int],
            model.states[i as int] == state@,
            texts(names@) == model.names(),
            dangles == |j: int| parsed@.dangles(i as int, j),
            targets@.len() == j,
            forall|k: int| 0 <= k < j ==> !#[trigger] dangles(k),
            forall|k: int| 0 <= k < j ==> #[trigger] targets@[k] == model.target(i as int, k),
            forall|k: int| 0 <= k < j ==> #[trigger] targets@[k] < names@.len(),
        decreases state.transitions.len() - j,
    {
        let target = state.transitions[j];
        assert(model.states[i as int].transitions[j as int] == target@);
        match find(names, target) {
            Some(at) => {
                proof {
                    lemma_position(model.names(), target@);
                    assert(!dangles(j as int));
                }
                targets.push(at);
            },
            None => {
                proof {
                    assert(dangles(j as int));
                    lemma_first_where_is(
                        model.states[i as int].transitions.len() as int,
                        dangles,
                        j as int,
                    );
                }
                return Err(DfaParseError::UndefinedState { state: state.name, target });
            },
        }
        j += 1;
    }
    proof {
        lemma_first_where_none(model.states[i as int].transitions.len() as int, dangles);
    }
    Ok(targets)
}

impl Dfa {
    /// The automaton that `parsed` describes, or what is wrong with the
    /// description. Every transition leads to the first state that bears
    /// the name it gives.
    pub fn compile<'a>(parsed: &ParsedDfa<'a>) -> (compiled: Result<Dfa, DfaParseError<'a>>)
        ensures
            match compiled {
                Ok(dfa) => parsed@.error() is None && dfa@ == parsed@.compiled(),
                Err(error) => parsed@.error() == Some(error@),
            },
    {
        let ghost model = parsed@;
        let ghost dangling = |i: int| parsed@.first_dangling(i) is Some;
        let alphabet = match compile_alphabet(parsed) {
            Ok(alphabet) => alphabet,
            Err(error) => {
                return Err(error);
            },
        };
        let names = match compile_names(parsed) {
            Ok(names) => names,
            Err(error) => {
                return Err(error);
            },
        };
        let initial_state = match compile_initial(parsed) {
            Ok(initial_state) => initial_state,
            Err(error) => {
                return Err(error);
            },
        };
        let mut states: Vec<DfaState> = Vec::new();
        let mut i: usize = 0;
        while i < parsed.states.len()
            invariant
                i <= parsed.states.len(),
                model == parsed@,
                model.states.len() == parsed.states.len(),
                model.first_repeat() is None,
                model.first_miscounted() is None,
                model.first_initial() == Some(initial_state as int),
                model.first_rival() is None,
                dangling == |i: int| parsed@.first_dangling(i) is Some,
                texts(names@) == model.names(),
                states@.len() == i,
                forall|k: int| 0 <= k < i ==> !#[trigger] dangling(k),
                forall|k: int| 0 <= k < i ==> (#[trigger] states@[k])@ == model.compiled_state(k),
            decreases parsed.states.len() - i,
        {
            let state = &parsed.states[i];
            assert(model.states[i as int] == parsed.states@[i as int]@);
            let transitions = match compile_transitions(parsed, &names, i) {
                Ok(transitions) => transitions,
                Err(error) => {
                    proof {
                        assert(dangling(i as int));
                        lemma_first_where_is(model.states.len() as int, dangling, i as int);
                    }
                    return Err(error);
                },
            };
            proof {
                let miscounted = |i: int| model.miscounted(i);
                lemma_first_where(model.states.len() as int, miscounted);
                assert(!miscounted(i as int));
                assert(!dangling(i as int));
            }
            let compiled = DfaState {
                name: state.name.to_owned(),
                initial: state.initial,
                accepting: state.accepting,
                transitions,
            };
            proof {
                assert(compiled@.transitions =~= model.compiled_state(i as int).transitions);
            }
            states.push(compiled);
            i += 1;
        }
        proof {
            lemma_first_where_none(model.states.len() as int, dangling);
            model.lemma_compiled_wf();
            let built = DfaModel {
                alphabet: texts(alphabet@),
                states: states@.map_values(|state: DfaState| state@),
                initial_state: initial_state as int,
            };
            assert(built.states =~= model.compiled().states);
            assert(built == model.compiled());
        }
        Ok(Dfa { alphabet, states, initial_state })
    }
}

} // verus!
