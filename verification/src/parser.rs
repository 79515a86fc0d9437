//! Reading the description of an automaton from text: a table with the
//! alphabet in its first line and one state in each line below it.

use vstd::prelude::*;
use vstd::string::{StrSliceExecFns, StringExecFns};
use crate::dfa::parse::{ParsedDfa, ParsedDfaState, ParsedModel, ParsedStateModel};
use crate::names::{same_text, str_texts};
use crate::search::{first_where, lemma_first_where, lemma_first_where_is, lemma_first_where_none};

verus! {

/// Why a text is not the description of an automaton.
#[derive(Clone, Copy, Debug, PartialEq, Eq)]
pub enum ParseError {
    /// The line with this number, counted from 1, marks a state but does
    /// not name it.
    MissingName { line: usize },
}

/// The character for the digit `d`.
pub open spec fn digit(d: int) -> char {
    if d == 0 {
        '0'
    } else if d == 1 {
        '1'
    } else if d == 2 {
        '2'
    } else if d == 3 {
        '3'
    } else if d == 4 {
        '4'
    } else if d == 5 {
        '5'
    } else if d == 6 {
        '6'
    } else if d == 7 {
        '7'
    } else if d == 8 {
        '8'
    } else {
        '9'
    }
}

/// The number `n` in decimal digits.
pub open spec fn decimal(n: nat) -> Seq<char>
    decreases n,
{
    if n < 10 {
        seq![digit(n as int)]
    } else {
        decimal(n / 10).push(digit((n % 10) as int))
    }
}

impl ParseError {
    /// What the error is, in words.
    pub open spec fn text(self) -> Seq<char> {
        match self {
            ParseError::MissingName { line } => "line "@ + decimal(line as nat)
                + ": the name of the state is missing"@,
        }
    }

    /// What the error is, in words.
    pub fn message(&self) -> (message: String)
        ensures
            message@ == self.text(),
    {
        match *self {
            ParseError::MissingName { line } => {
                let mut message = "line ".to_owned();
                message.append(decimal_text(line).as_str());
                message.append(": the name of the state is missing");
                message
            },
        }
    }
}

/// The text of the digit `d`.
fn digit_text(d: usize) -> (text: &'static str)
    requires
        d < 10,
    ensures
        text@ == seq![digit(d as int)],
{
    proof {
        reveal_strlit("0");
        reveal_strlit("1");
        reveal_strlit("2");
        reveal_strlit("3");
        reveal_strlit("4");
        reveal_strlit("5");
        reveal_strlit("6");
        reveal_strlit("7");
        reveal_strlit("8");
        reveal_strlit("9");
    }
    let text = if d == 0 {
        "0"
    } else if d == 1 {
        "1"
    } else if d == 2 {
        "2"
    } else if d == 3 {
        "3"
    } else if d == 4 {
        "4"
    } else if d == 5 {
        "5"
    } else if d == 6 {
        "6"
    } else if d == 7 {
        "7"
    } else if d == 8 {
        "8"
    } else {
        "9"
    };
    assert(text@ =~= seq![digit(d as int)]);
    text
}

/// The number `n` in decimal digits.
pub fn decimal_text(n: usize) -> (text: String)
    ensures
        text@ == decimal(n as nat),
    decreases n,
{
    if n < 10 {
        digit_text(n).to_owned()
    } else {
        let mut text = decimal_text(n / 10);
        text.append(digit_text(n % 10));
        assert(text@ =~= decimal(n as nat));
        text
    }
}

/// The characters that separate the cells of a line.
pub open spec fn is_blank(c: char) -> bool {
    c == ' ' || c == '\t' || c == '\r'
}

/// The length of the first line of `text`: the number of characters
/// before the first line break.
pub open spec fn line_length(text: Seq<char>) -> int {
    match first_where(text.len() as int, |i: int| text[i] == '\n') {
        Some(n) => n,
        None => text.len() as int,
    }
}

/// The lines of `text`: what stands between its line breaks. A text
/// without a line break is one line.
pub open spec fn split_lines(text: Seq<char>) -> Seq<Seq<char>>
    decreases text.len(),
{
    let n = line_length(text);
    if 0 <= n < text.len() {
        seq![text.take(n)] + split_lines(text.skip(n + 1))
    } else {
        seq![text]
    }
}

/// The length of the cell at the start of `line`: the number of
/// characters before the first blank.
pub open spec fn cell_length(line: Seq<char>) -> int {
    match first_where(line.len() as int, |i: int| is_blank(line[i])) {
        Some(n) => n,
        None => line.len() as int,
    }
}

/// The cells of `line`: its longest stretches without a blank.
pub open spec fn split_cells(line: Seq<char>) -> Seq<Seq<char>>
    decreases line.len(),
{
    if line.len() == 0 {
        Seq::empty()
    } else if is_blank(line[0]) {
        split_cells(line.drop_first())
    } else {
        let n = cell_length(line);
        if 0 < n <= line.len() {
            seq![line.take(n)] + split_cells(line.skip(n))
        } else {
            Seq::empty()
        }
    }
}

/// `cell` is one of the two markers that may stand before a state's name.
pub open spec fn is_marker(cell: Seq<char>) -> bool {
    cell == "->"@ || cell == "*"@
}

/// The state that the cells of a line describe: `->` first if it is the
/// start state, then `*` if it is accepting, then its name, then the
/// names of the states that follow it. `None` if no name stands where it
/// should.
pub open spec fn parse_state(cells: Seq<Seq<char>>) -> Option<ParsedStateModel> {
    let initial = cells.len() > 0 && cells[0] == "->"@;
    let unmarked = if initial {
        cells.skip(1)
    } else {
        cells
    };
    let accepting = unmarked.len() > 0 && unmarked[0] == "*"@;
    let named = if accepting {
        unmarked.skip(1)
    } else {
        unmarked
    };
    if named.len() == 0 || is_marker(named[0]) {
        None
    } else {
        Some(ParsedStateModel { name: named[0], initial, accepting, transitions: named.skip(1) })
    }
}

/// The index of the head: of the first line that holds a cell.
pub open spec fn head_line(lines: Seq<Seq<char>>) -> Option<int> {
    first_where(lines.len() as int, |i: int| split_cells(lines[i]).len() > 0)
}

/// The states that the lines after the line `head` and before the line
/// `n` describe. Lines without a cell are passed over.
pub open spec fn parse_states(lines: Seq<Seq<char>>, head: int, n: int) -> Result<
    Seq<ParsedStateModel>,
    ParseError,
>
    decreases n - head,
{
    if n <= head + 1 {
        Ok(Seq::empty())
    } else {
        match parse_states(lines, head, n - 1) {
            Err(error) => Err(error),
            Ok(states) => {
                let cells = split_cells(lines[n - 1]);
                if cells.len() == 0 {
                    Ok(states)
                } else {
                    match parse_state(cells) {
                        Some(state) => Ok(states.push(state)),
                        None => Err(ParseError::MissingName { line: n as usize }),
                    }
                }
            },
        }
    }
}

/// The description that `text` holds. Lines without a cell are passed
/// over. The cells of the first line that holds any are the alphabet,
/// and each later line describes a state. A text without a cell
/// describes an automaton without symbols and without states.
pub open spec fn parse(text: Seq<char>) -> Result<ParsedModel, ParseError> {
    let lines = split_lines(text);
    match head_line(lines) {
        None => Ok(ParsedModel { head: Seq::empty(), states: Seq::empty() }),
        Some(head) => match parse_states(lines, head, lines.len() as int) {
            Err(error) => Err(error),
            Ok(states) => Ok(ParsedModel { head: split_cells(lines[head]), states }),
        },
    }
}

/// The stretches of `text` between the bounds of `bounds`.
pub open spec fn stretches(text: Seq<char>, bounds: Seq<(usize, usize)>) -> Seq<Seq<char>> {
    bounds.map_values(|bound: (usize, usize)| text.subrange(bound.0 as int, bound.1 as int))
}

/// The characters of `text`, one by one.
fn characters(text: &str) -> (chars: Vec<char>)
    ensures
        chars@ == text@,
{
    let mut chars: Vec<char> = Vec::new();
    for c in iter: text.chars()
        invariant
            iter.seq() == text@,
            chars@ == iter.seq().take(iter.index() as int),
    {
        chars.push(c);
        assert(iter.seq().take(iter.index() + 1) =~= iter.seq().take(iter.index() as int).push(c));
    }
    assert(text@.take(text@.len() as int) =~= text@);
    chars
}

/// Whether `c` separates the cells of a line.
fn blank(c: char) -> (blank: bool)
    ensures
        blank == is_blank(c),
{
    c == ' ' || c == '\t' || c == '\r'
}

/// Where each line of `chars` starts and ends.
fn line_bounds(chars: &Vec<char>) -> (bounds: Vec<(usize, usize)>)
    ensures
        stretches(chars@, bounds@) == split_lines(chars@),
        forall|k: int|
            0 <= k < bounds@.len() ==> (#[trigger] bounds@[k]).0 <= bounds@[k].1 <= chars@.len(),
{
    let ghost text = chars@;
    let mut bounds: Vec<(usize, usize)> = Vec::new();
    let mut start: usize = 0;
    assert(text.skip(0) =~= text);
    loop
        invariant_except_break
            stretches(text, bounds@) + split_lines(text.skip(start as int)) =~= split_lines(text),
        invariant
            text == chars@,
            start <= chars.len(),
            forall|k: int|
                0 <= k < bounds@.len() ==> (#[trigger] bounds@[k]).0 <= bounds@[k].1 <= text.len(),
        ensures
            stretches(text, bounds@) == split_lines(text),
            forall|k: int|
                0 <= k < bounds@.len() ==> (#[trigger] bounds@[k]).0 <= bounds@[k].1 <= text.len(),
        decreases chars.len() - start,
    {
        let ghost rest = text.skip(start as int);
        let ghost breaks = |i: int| rest[i] == '\n';
        let mut end: usize = start;
        while end < chars.len() && chars[end] != '\n'
            invariant
                text == chars@,
                rest == text.skip(start as int),
                breaks == |i: int| rest[i] == '\n',
                start <= end <= chars.len(),
                forall|i: int| 0 <= i < end - start ==> !#[trigger] breaks(i),
            decreases chars.len() - end,
        {
            assert(!breaks(end - start));
            end += 1;
        }
        let ghost before = stretches(text, bounds@);
        bounds.push((start, end));
        proof {
            assert(stretches(text, bounds@) =~= before.push(
                text.subrange(start as int, end as int),
            ));
            if end < chars.len() {
                assert(breaks(end - start));
                lemma_first_where_is(rest.len() as int, breaks, end - start);
                assert(rest.take(end - start) =~= text.subrange(start as int, end as int));
                assert(rest.skip(end - start + 1) =~= text.skip(end + 1));
            } else {
                lemma_first_where_none(rest.len() as int, breaks);
                assert(rest =~= text.subrange(start as int, end as int));
            }
        }
        if end >= chars.len() {
            break ;
        }
        start = end + 1;
    }
    bounds
}

/// The cells of the stretch of `text` from `from` to `to`.
fn cells<'a>(text: &'a str, chars: &Vec<char>, from: usize, to: usize) -> (cells: Vec<&'a str>)
    requires
        chars@ == text@,
        from <= to <= chars.len(),
    ensures
        str_texts(cells@) == split_cells(text@.subrange(from as int, to as int)),
{
    let ghost line = text@.subrange(from as int, to as int);
    let mut cells: Vec<&'a str> = Vec::new();
    let mut at: usize = from;
    assert(line.skip(0) =~= line);
    while at < to
        invariant
            chars@ == text@,
            from <= at <= to <= chars.len(),
            line == text@.subrange(from as int, to as int),
            str_texts(cells@) + split_cells(line.skip(at - from)) =~= split_cells(line),
        decreases to - at,
    {
        let ghost rest = line.skip(at - from);
        assert(rest[0] == chars@[at as int]);
        if blank(chars[at]) {
            proof {
                assert(rest.drop_first() =~= line.skip(at + 1 - from));
            }
            at += 1;
        } else {
            let ghost blanks = |i: int| is_blank(rest[i]);
            let start = at;
            while at < to && !blank(chars[at])
                invariant
                    chars@ == text@,
                    from <= start <= at <= to <= chars.len(),
                    line == text@.subrange(from as int, to as int),
                    rest == line.skip(start - from),
                    blanks == |i: int| is_blank(rest[i]),
                    forall|i: int| 0 <= i < at - start ==> !#[trigger] blanks(i),
                decreases to - at,
            {
                assert(rest[at - start] == chars@[at as int]);
                assert(!blanks(at - start));
                at += 1;
            }
            let cell = text.substring_char(start, at);
            let ghost before = str_texts(cells@);
            cells.push(cell);
            proof {
                assert(str_texts(cells@) =~= before.push(cell@));
                if at < to {
                    assert(rest[at - start] == chars@[at as int]);
                    assert(blanks(at - start));
                    lemma_first_where_is(rest.len() as int, blanks, at - start);
                } else {
                    lemma_first_where_none(rest.len() as int, blanks);
                }
                assert(at > start) by {
                    assert(!is_blank(rest[0]));
                    if at == start {
                        assert(rest[0] == chars@[at as int]);
                    }
                }
                assert(rest.take(at - start) =~= cell@);
                assert(rest.skip(at - start) =~= line.skip(at - from));
            }
        }
    }
    proof {
        assert(line.skip(at - from).len() == 0);
    }
    cells
}

/// Once a line is at fault, the lines after it change nothing.
pub proof fn lemma_parse_states_fails(lines: Seq<Seq<char>>, head: int, n: int, m: int)
    requires
        n <= m,
        parse_states(lines, head, n) is Err,
    ensures
        parse_states(lines, head, m) == parse_states(lines, head, n),
    decreases m - n,
{
    if n < m {
        lemma_parse_states_fails(lines, head, n, m - 1);
    }
}

/// The state that the cells of a line describe, if a name stands where
/// it should.
fn state<'a>(cells: &Vec<&'a str>) -> (state: Option<ParsedDfaState<'a>>)
    ensures
        match state {
            Some(state) => parse_state(str_texts(cells@)) == Some(state@),
            None => parse_state(str_texts(cells@)) is None,
        },
{
    let ghost all = str_texts(cells@);
    let mut at: usize = 0;
    let initial = at < cells.len() && same_text(cells[at], "->");
    if initial {
        at += 1;
    }
    let ghost unmarked = all.skip(at as int);
    assert(all.skip(0) =~= all);
    let accepting = at < cells.len() && same_text(cells[at], "*");
    if accepting {
        at += 1;
    }
    let ghost named = all.skip(at as int);
    assert(unmarked.skip(0) =~= unmarked);
    assert(accepting ==> unmarked.skip(1) =~= named);
    if at >= cells.len() || same_text(cells[at], "->") || same_text(cells[at], "*") {
        return None;
    }
    let name = cells[at];
    let mut transitions: Vec<&'a str> = Vec::new();
    let mut next: usize = at + 1;
    while next < cells.len()
        invariant
            at < next <= cells.len(),
            all == str_texts(cells@),
            str_texts(transitions@) =~= all.subrange(at + 1, next as int),
        decreases cells.len() - next,
    {
        let ghost before = str_texts(transitions@);
        transitions.push(cells[next]);
        assert(str_texts(transitions@) =~= before.push(all[next as int]));
        next += 1;
    }
    assert(named.skip(1) =~= all.subrange(at + 1, next as int));
    Some(ParsedDfaState { name, initial, accepting, transitions })
}

/// Reads the description of an automaton from `text`. The cells of a
/// line are its stretches without a blank, and a line without a cell is
/// passed over. The cells of the first line are the alphabet. Each later
/// line describes a state: `->` first if it is the start state, then `*`
/// if it is accepting, then its name, then for each symbol the name of
/// the state that follows.
pub fn dfa<'a>(text: &'a str) -> (parsed: Result<ParsedDfa<'a>, ParseError>)
    ensures
        match parsed {
            Ok(found) => parse(text@) == Ok::<ParsedModel, ParseError>(found@),
            Err(error) => parse(text@) == Err::<ParsedModel, ParseError>(error),
        },
{
    let chars = characters(text);
    let bounds = line_bounds(&chars);
    let ghost lines = split_lines(text@);
    let ghost filled = |i: int| split_cells(lines[i]).len() > 0;
    let mut head: Vec<&'a str> = Vec::new();
    let mut states: Vec<ParsedDfaState<'a>> = Vec::new();
    let mut k: usize = 0;
    while k < bounds.len() && head.len() == 0
        invariant
            k <= bounds.len(),
            chars@ == text@,
            lines == split_lines(text@),
            stretches(chars@, bounds@) == lines,
            filled == |i: int| split_cells(lines[i]).len() > 0,
            forall|k: int|
                0 <= k < bounds@.len() ==> (#[trigger] bounds@[k]).0 <= bounds@[k].1
                    <= chars@.len(),
            states@.len() == 0,
            if head@.len() == 0 {
                forall|i: int| 0 <= i < k ==> !#[trigger] filled(i)
            } else {
                head_line(lines) == Some(k - 1) && str_texts(head@) == split_cells(lines[k - 1])
            },
        decreases bounds.len() - k,
    {
        assert(lines[k as int] == text@.subrange(
            bounds@[k as int].0 as int,
            bounds@[k as int].1 as int,
        ));
        head = cells(text, &chars, bounds[k].0, bounds[k].1);
        proof {
            if head@.len() > 0 {
                assert(filled(k as int));
                lemma_first_where_is(lines.len() as int, filled, k as int);
            } else {
                assert(!filled(k as int));
            }
        }
        k += 1;
    }
    if head.len() == 0 {
        proof {
            lemma_first_where_none(lines.len() as int, filled);
            assert(str_texts(head@) =~= Seq::empty());
            assert(states@.map_values(|state: ParsedDfaState<'a>| state@) =~= Seq::empty());
        }
        return Ok(ParsedDfa { head, states });
    }
    let ghost at = k - 1;
    assert(states@.map_values(|state: ParsedDfaState<'a>| state@) =~= Seq::empty());
    while k < bounds.len()
        invariant
            at < k <= bounds.len(),
            head_line(lines) == Some(at as int),
            str_texts(head@) == split_cells(lines[at as int]),
            chars@ == text@,
            lines == split_lines(text@),
            stretches(chars@, bounds@) == lines,
            forall|k: int|
                0 <= k < bounds@.len() ==> (#[trigger] bounds@[k]).0 <= bounds@[k].1
                    <= chars@.len(),
            parse_states(lines, at, k as int) == Ok::<Seq<ParsedStateModel>, ParseError>(
                states@.map_values(|state: ParsedDfaState<'a>| state@),
            ),
        decreases bounds.len() - k,
    {
        assert(lines[k as int] == text@.subrange(
            bounds@[k as int].0 as int,
            bounds@[k as int].1 as int,
        ));
        let row = cells(text, &chars, bounds[k].0, bounds[k].1);
        if row.len() > 0 {
            match state(&row) {
                Some(state) => {
                    let ghost before = states@.map_values(|state: ParsedDfaState<'a>| state@);
                    states.push(state);
                    assert(states@.map_values(|state: ParsedDfaState<'a>| state@) =~= before.push(
                        state@,
                    ));
                },
                None => {
                    proof {
                        lemma_parse_states_fails(lines, at, k + 1, lines.len() as int);
                    }
                    return Err(ParseError::MissingName { line: k + 1 });
                },
            }
        }
        k += 1;
    }
    Ok(ParsedDfa { head, states })
}

} // verus!
