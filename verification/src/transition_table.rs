//! The DFA transition table: its structured form, its textual form, and the
//! verified translations between them.
//!
//! A table is a sequence of rows; each row records whether its state accepts,
//! the state's id, and one transition per input symbol.  The text form holds
//! one row per line: an accepting marker (`+` or `-`), the id, then one token
//! per transition, either a decimal target id or the sentinel `E`.

use crate::numeral::{
    append_uint, dec_rep, parse_uint, parse_uint_token, uint_error_str, uint_error_text, UintError,
};
use crate::sorting::{sort_rows, sort_table_rows};
use crate::text::{chars_of_str, lines_of, split_lines, split_tokens, split_ws, views};
use vstd::prelude::*;
use vstd::string::StringExecFns;

verus! {

/// A transition in the DFA transition table.
#[derive(Clone, Debug, Eq, Hash, PartialEq, Structural)]
pub enum TransitionTableTransition {
    /// A transition to the state with the given id.
    Goto(usize),
    /// A transition to an error state.
    ErrorTransition,
}

/// The starting state id.
pub const STARTING_STATE_ID: usize = 0;

/// A state (row) in the DFA transition table.
#[derive(Clone, Debug, PartialEq)]
pub struct TransitionTableRow {
    /// Whether the row is for an accepting state (`+`) or not (`-`).
    pub accepting: bool,
    /// The row's state id (0 means the starting state).
    pub id: usize,
    /// The row's state transitions, one per input symbol.
    pub transitions: Vec<TransitionTableTransition>,
}

/// A DFA transition table.
#[derive(Clone, Debug, PartialEq)]
pub struct TransitionTable {
    /// The rows in the table; after parsing, sorted ascending by state id.
    pub rows: Vec<TransitionTableRow>,
}

/// An error from parsing or serializing a transition table.
#[derive(Debug)]
pub struct ParseSerializeError {
    /// The error message.
    pub message: String,
}

/// The mathematical value of a row.
pub ghost struct SpecRow {
    pub accepting: bool,
    pub id: usize,
    pub transitions: Seq<TransitionTableTransition>,
}

impl View for TransitionTableRow {
    type V = SpecRow;

    open spec fn view(&self) -> SpecRow {
        SpecRow { accepting: self.accepting, id: self.id, transitions: self.transitions@ }
    }
}

/// The views of a sequence of rows.
pub open spec fn row_views(rs: Seq<TransitionTableRow>) -> Seq<SpecRow> {
    rs.map_values(|r: TransitionTableRow| r@)
}

impl View for TransitionTable {
    type V = Seq<SpecRow>;

    open spec fn view(&self) -> Seq<SpecRow> {
        row_views(self.rows@)
    }
}

impl View for ParseSerializeError {
    type V = Seq<char>;

    open spec fn view(&self) -> Seq<char> {
        self.message@
    }
}

// ------------------------------------------------------------------
// Error messages.
// ------------------------------------------------------------------

/// The message for a line with fewer than two columns.
pub open spec fn msg_too_few_columns(line: nat) -> Seq<char> {
    "Line "@ + dec_rep(line) + " has too few columns"@
}

/// The message for a line whose column count differs from the first line's.
pub open spec fn msg_column_count(line: nat) -> Seq<char> {
    "Line "@ + dec_rep(line) + " has a different number of columns than the previous lines"@
}

/// The message for an accepting-state marker other than `+` or `-`.
pub open spec fn msg_bad_marker(line: nat) -> Seq<char> {
    "Line "@ + dec_rep(line) + " has an invalid accepting state"@
}

/// The message for a state id that is not an unsigned integer.
pub open spec fn msg_bad_id(line: nat, e: UintError) -> Seq<char> {
    "Line "@ + dec_rep(line) + " has an invalid state ID: "@ + uint_error_text(e)
}

/// The message for a transition token that is neither `E` nor an unsigned
/// integer, naming the 1-based column.
pub open spec fn msg_bad_transition(line: nat, col: nat, e: UintError) -> Seq<char> {
    "Line "@ + dec_rep(line) + " column "@ + dec_rep(col) + " has an invalid transition: "@
        + uint_error_text(e)
}

// ------------------------------------------------------------------
// What parsing means.
// ------------------------------------------------------------------

/// The accepting flag named by a marker token: exactly `+` or exactly `-`.
pub open spec fn marker_of(tok: Seq<char>) -> Option<bool> {
    if tok.len() == 1 && tok[0] == '+' {
        Some(true)
    } else if tok.len() == 1 && tok[0] == '-' {
        Some(false)
    } else {
        None
    }
}

/// The transition named by a token: the sentinel `E`, or a decimal target id.
pub open spec fn transition_of_token(tok: Seq<char>) -> Result<
    TransitionTableTransition,
    UintError,
> {
    if tok.len() == 1 && tok[0] == 'E' {
        Ok(TransitionTableTransition::ErrorTransition)
    } else {
        match parse_uint(tok) {
            Ok(v) => Ok(TransitionTableTransition::Goto(v as usize)),
            Err(e) => Err(e),
        }
    }
}

/// Parses the transition tokens in order; `col` is the 1-based column of the
/// first of them, and a failure names the column it happened in.
pub open spec fn parse_transitions(toks: Seq<Seq<char>>, col: nat) -> Result<
    Seq<TransitionTableTransition>,
    (nat, UintError),
>
    decreases toks.len(),
{
    if toks.len() == 0 {
        Ok(seq![])
    } else {
        match transition_of_token(toks[0]) {
            Err(e) => Err((col, e)),
            Ok(tr) => match parse_transitions(toks.drop_first(), col + 1) {
                Err(p) => Err(p),
                Ok(rest) => Ok(seq![tr] + rest),
            },
        }
    }
}

/// Parses one line's tokens into a row: marker, id, then transitions.
pub open spec fn parse_line_tokens(toks: Seq<Seq<char>>, line: nat) -> Result<SpecRow, Seq<char>>
    recommends
        toks.len() >= 2,
{
    match marker_of(toks[0]) {
        None => Err(msg_bad_marker(line)),
        Some(acc) => match parse_uint(toks[1]) {
            Err(e) => Err(msg_bad_id(line, e)),
            Ok(id) => match parse_transitions(toks.skip(2), 3) {
                Err((col, e)) => Err(msg_bad_transition(line, col, e)),
                Ok(trs) => Ok(SpecRow { accepting: acc, id: id as usize, transitions: trs }),
            },
        },
    }
}

/// Parses the lines in order.  `line` is the 1-based number of the first of
/// them; `expected` is the column count fixed by the first line of the whole
/// input, or `None` while no line has been seen.
pub open spec fn parse_lines(ls: Seq<Seq<char>>, line: nat, expected: Option<nat>) -> Result<
    Seq<SpecRow>,
    Seq<char>,
>
    decreases ls.len(),
{
    if ls.len() == 0 {
        Ok(seq![])
    } else {
        let toks = split_ws(ls[0]);
        if toks.len() < 2 {
            Err(msg_too_few_columns(line))
        } else if expected is Some && expected->0 != toks.len() {
            Err(msg_column_count(line))
        } else {
            match parse_line_tokens(toks, line) {
                Err(m) => Err(m),
                Ok(row) => match parse_lines(ls.drop_first(), line + 1, Some(toks.len())) {
                    Err(m) => Err(m),
                    Ok(rest) => Ok(seq![row] + rest),
                },
            }
        }
    }
}

/// What parsing a whole text yields: its lines parsed in order, then the rows
/// sorted ascending by id, stably.
pub open spec fn parse_table(s: Seq<char>) -> Result<Seq<SpecRow>, Seq<char>> {
    match parse_lines(lines_of(s), 1, None) {
        Err(m) => Err(m),
        Ok(rows) => Ok(sort_rows(rows)),
    }
}

// ------------------------------------------------------------------
// What serializing means.
// ------------------------------------------------------------------

/// The token a transition serializes to.
pub open spec fn transition_token(t: TransitionTableTransition) -> Seq<char> {
    match t {
        TransitionTableTransition::Goto(sid) => dec_rep(sid as nat),
        TransitionTableTransition::ErrorTransition => seq!['E'],
    }
}

/// The text of a row's transitions: a space before each token.
pub open spec fn render_transitions(ts: Seq<TransitionTableTransition>) -> Seq<char>
    decreases ts.len(),
{
    if ts.len() == 0 {
        seq![]
    } else {
        seq![' '] + transition_token(ts[0]) + render_transitions(ts.drop_first())
    }
}

/// The text of one row: marker, space, id, then the transitions.
pub open spec fn render_row(r: SpecRow) -> Seq<char> {
    (if r.accepting {
        seq!['+']
    } else {
        seq!['-']
    }) + seq![' '] + dec_rep(r.id as nat) + render_transitions(r.transitions)
}

/// The text of a table: its rows joined by `\n`, with no trailing newline.
pub open spec fn render_table(rows: Seq<SpecRow>) -> Seq<char>
    decreases rows.len(),
{
    if rows.len() == 0 {
        seq![]
    } else if rows.len() == 1 {
        render_row(rows[0])
    } else {
        render_row(rows[0]) + seq!['\n'] + render_table(rows.drop_first())
    }
}

/// Appending a row to a table appends its text, after a `\n` unless the
/// table was empty.
pub proof fn lemma_render_table_push(rows: Seq<SpecRow>, x: SpecRow)
    ensures
        render_table(rows.push(x)) == if rows.len() == 0 {
            render_row(x)
        } else {
            render_table(rows) + seq!['\n'] + render_row(x)
        },
    decreases rows.len(),
{
    if rows.len() == 0 {
        assert(rows.push(x).len() == 1);
        assert(rows.push(x)[0] == x);
    } else if rows.len() == 1 {
        assert(rows.push(x)[0] == rows[0]);
        assert(rows.push(x).drop_first() =~= seq![x]);
        assert(seq![x].len() == 1 && seq![x][0] == x);
        assert(render_table(seq![x]) == render_row(x));
        assert(render_table(rows.push(x)) =~= render_table(rows) + seq!['\n'] + render_row(x));
    } else {
        lemma_render_table_push(rows.drop_first(), x);
        assert(rows.push(x)[0] == rows[0]);
        assert(rows.push(x).drop_first() =~= rows.drop_first().push(x));
        assert(render_table(rows.push(x)) =~= render_table(rows) + seq!['\n'] + render_row(x));
    }
}

/// Rendering transitions distributes over concatenation.
pub proof fn lemma_render_transitions_concat(
    a: Seq<TransitionTableTransition>,
    b: Seq<TransitionTableTransition>,
)
    ensures
        render_transitions(a + b) == render_transitions(a) + render_transitions(b),
    decreases a.len(),
{
    if a.len() == 0 {
        assert(a + b =~= b);
        assert(render_transitions(a) + render_transitions(b) =~= render_transitions(b));
    } else {
        lemma_render_transitions_concat(a.drop_first(), b);
        assert((a + b).drop_first() =~= a.drop_first() + b);
        assert((a + b)[0] == a[0]);
        assert(render_transitions(a + b) =~= render_transitions(a) + render_transitions(b));
    }
}

// ------------------------------------------------------------------
// Building errors.
// ------------------------------------------------------------------

/// The error for a line with fewer than two columns.
fn err_too_few_columns(line: usize) -> (e: ParseSerializeError)
    ensures
        e@ == msg_too_few_columns(line as nat),
{
    let mut m = String::new();
    m.append("Line ");
    append_uint(&mut m, line);
    m.append(" has too few columns");
    ParseSerializeError { message: m }
}

/// The error for a line whose column count differs from the first line's.
fn err_column_count(line: usize) -> (e: ParseSerializeError)
    ensures
        e@ == msg_column_count(line as nat),
{
    let mut m = String::new();
    m.append("Line ");
    append_uint(&mut m, line);
    m.append(" has a different number of columns than the previous lines");
    ParseSerializeError { message: m }
}

/// The error for an invalid accepting-state marker.
fn err_bad_marker(line: usize) -> (e: ParseSerializeError)
    ensures
        e@ == msg_bad_marker(line as nat),
{
    let mut m = String::new();
    m.append("Line ");
    append_uint(&mut m, line);
    m.append(" has an invalid accepting state");
    ParseSerializeError { message: m }
}

/// The error for an invalid state id.
fn err_bad_id(line: usize, reason: UintError) -> (e: ParseSerializeError)
    ensures
        e@ == msg_bad_id(line as nat, reason),
{
    let mut m = String::new();
    m.append("Line ");
    append_uint(&mut m, line);
    m.append(" has an invalid state ID: ");
    m.append(uint_error_str(reason));
    ParseSerializeError { message: m }
}

/// The error for an invalid transition token.
fn err_bad_transition(line: usize, col: usize, reason: UintError) -> (e: ParseSerializeError)
    ensures
        e@ == msg_bad_transition(line as nat, col as nat, reason),
{
    let mut m = String::new();
    m.append("Line ");
    append_uint(&mut m, line);
    m.append(" column ");
    append_uint(&mut m, col);
    m.append(" has an invalid transition: ");
    m.append(uint_error_str(reason));
    ParseSerializeError { message: m }
}

// ------------------------------------------------------------------
// The executable parser and serializer.
// ------------------------------------------------------------------

impl TransitionTable {
    /// Parses a transition table from its textual form, exactly as
    /// [`parse_table`] says: either the sorted rows, or the error message for
    /// the first offending line.
    #[verifier::loop_isolation(false)]
    pub fn parse(input: &str) -> (r: Result<Self, ParseSerializeError>)
        ensures
            match r {
                Ok(t) => parse_table(input@) == Ok::<Seq<SpecRow>, Seq<char>>(t@),
                Err(e) => parse_table(input@) == Err::<Seq<SpecRow>, Seq<char>>(e@),
            },
    {
        let chars = chars_of_str(input);
        let lines = split_lines(&chars);
        let ghost ls = lines_of(input@);
        let mut rows: Vec<TransitionTableRow> = Vec::new();
        let mut expected: Option<usize> = None;
        let ghost spec_expected: Option<nat> = None;
        assert(ls.skip(0) =~= ls);
        let mut i: usize = 0;
        while i < lines.len()
            invariant
                i <= lines@.len(),
                spec_expected == match expected {
                    Some(v) => Some(v as nat),
                    None => None::<nat>,
                },
                parse_lines(ls, 1, None) == match parse_lines(
                    ls.skip(i as int),
                    i as nat + 1,
                    spec_expected,
                ) {
                    Ok(rest) => Ok::<Seq<SpecRow>, Seq<char>>(row_views(rows@) + rest),
                    Err(m) => Err::<Seq<SpecRow>, Seq<char>>(m),
                },
            decreases lines@.len() - i,
        {
            let ghost tail = ls.skip(i as int);
            assert(tail[0] == ls[i as int]);
            assert(tail.drop_first() =~= ls.skip(i as int + 1));
            let toks = split_tokens(&lines[i]);
            let ghost tv = split_ws(ls[i as int]);
            assert(views(toks@) == tv);
            assert(toks@.len() == tv.len());
            if toks.len() < 2 {
                return Err(err_too_few_columns(i + 1));
            }
            match expected {
                Some(e) => {
                    if toks.len() != e {
                        return Err(err_column_count(i + 1));
                    }
                },
                None => {},
            }
            expected = Some(toks.len());
            proof {
                spec_expected = Some(toks@.len() as nat);
            }
            // The accepting-state marker: exactly `+` or `-`.
            let accepting: bool;
            let marker = &toks[0];
            if marker.len() == 1 && marker[0] == '+' {
                accepting = true;
            } else if marker.len() == 1 && marker[0] == '-' {
                accepting = false;
            } else {
                assert(marker_of(tv[0]) is None);
                return Err(err_bad_marker(i + 1));
            }
            assert(marker_of(tv[0]) == Some(accepting));
            // The state id.
            let id: usize;
            match parse_uint_token(&toks[1]) {
                Ok(v) => {
                    id = v;
                },
                Err(e) => {
                    return Err(err_bad_id(i + 1, e));
                },
            }
            // The transitions, one token per symbol column.
            let mut transitions: Vec<TransitionTableTransition> = Vec::new();
            let mut k: usize = 2;
            while k < toks.len()
                invariant
                    2 <= k <= toks@.len(),
                    parse_transitions(tv.skip(2), 3) == match parse_transitions(
                        tv.skip(k as int),
                        k as nat + 1,
                    ) {
                        Ok(rest) => Ok::<Seq<TransitionTableTransition>, (nat, UintError)>(
                            transitions@ + rest,
                        ),
                        Err(p) => Err::<Seq<TransitionTableTransition>, (nat, UintError)>(p),
                    },
                decreases toks@.len() - k,
            {
                assert(tv.skip(k as int)[0] == tv[k as int]);
                assert(tv.skip(k as int).drop_first() =~= tv.skip(k as int + 1));
                let tok = &toks[k];
                let tr: TransitionTableTransition;
                if tok.len() == 1 && tok[0] == 'E' {
                    tr = TransitionTableTransition::ErrorTransition;
                } else {
                    assert(!(tv[k as int].len() == 1 && tv[k as int][0] == 'E'));
                    match parse_uint_token(tok) {
                        Ok(v) => {
                            tr = TransitionTableTransition::Goto(v);
                        },
                        Err(e) => {
                            return Err(err_bad_transition(i + 1, k + 1, e));
                        },
                    }
                }
                assert(transition_of_token(tv[k as int]) == Ok::<
                    TransitionTableTransition,
                    UintError,
                >(tr));
                let ghost before = transitions@;
                transitions.push(tr);
                proof {
                    let after = parse_transitions(tv.skip(k as int + 1), k as nat + 2);
                    if after is Ok {
                        assert(before + (seq![tr] + after->Ok_0) =~= transitions@ + after->Ok_0);
                    }
                }
                k = k + 1;
            }
            assert(tv.skip(k as int) =~= Seq::<Seq<char>>::empty());
            assert(parse_transitions(tv.skip(2), 3) == Ok::<
                Seq<TransitionTableTransition>,
                (nat, UintError),
            >(transitions@ + Seq::<TransitionTableTransition>::empty()));
            assert(transitions@ + Seq::<TransitionTableTransition>::empty() =~= transitions@);
            let row = TransitionTableRow { accepting, id, transitions };
            assert(parse_line_tokens(tv, i as nat + 1) == Ok::<SpecRow, Seq<char>>(row@));
            let ghost rows_before = rows@;
            rows.push(row);
            proof {
                assert(row_views(rows@) =~= row_views(rows_before).push(row@));
                let after = parse_lines(ls.skip(i as int + 1), i as nat + 2, spec_expected);
                if after is Ok {
                    assert(row_views(rows_before) + (seq![row@] + after->Ok_0) =~= row_views(rows@)
                        + after->Ok_0);
                }
            }
            i = i + 1;
        }
        assert(ls.skip(i as int) =~= Seq::<Seq<char>>::empty());
        let sorted = sort_table_rows(rows);
        Ok(TransitionTable { rows: sorted })
    }

    /// Serializes the table to its textual form, exactly as [`render_table`]
    /// says: rows in their current order, joined by `\n`, with no trailing
    /// newline.  Serialization cannot fail; the `Result` mirrors the parser.
    #[verifier::loop_isolation(false)]
    pub fn serialize(&self) -> (r: Result<String, ParseSerializeError>)
        ensures
            r is Ok,
            r->Ok_0@ == render_table(self@),
    {
        proof {
            reveal_strlit("\n");
        }
        let mut out = String::new();
        assert(self@.take(0) =~= Seq::<SpecRow>::empty());
        let mut i: usize = 0;
        while i < self.rows.len()
            invariant
                i <= self.rows@.len(),
                out@ == render_table(self@.take(i as int)),
            decreases self.rows@.len() - i,
        {
            if i > 0 {
                out.append("\n");
            }
            append_row(&mut out, &self.rows[i]);
            proof {
                lemma_render_table_push(self@.take(i as int), self@[i as int]);
                assert(self@.take(i as int).push(self@[i as int]) =~= self@.take(i as int + 1));
                assert(out@ =~= render_table(self@.take(i as int + 1)));
            }
            i = i + 1;
        }
        assert(self@.take(self.rows@.len() as int) =~= self@);
        Ok(out)
    }
}

/// Appends the text of one row to `out`.
#[verifier::loop_isolation(false)]
fn append_row(out: &mut String, row: &TransitionTableRow)
    ensures
        final(out)@ == old(out)@ + render_row(row@),
{
    proof {
        reveal_strlit("+");
        reveal_strlit("-");
        reveal_strlit(" ");
        reveal_strlit("E");
    }
    if row.accepting {
        out.append("+");
    } else {
        out.append("-");
    }
    out.append(" ");
    append_uint(out, row.id);
    assert(out@ =~= old(out)@ + (if row@.accepting {
        seq!['+']
    } else {
        seq!['-']
    }) + seq![' '] + dec_rep(row@.id as nat));
    let ghost base = out@;
    assert(row@.transitions.take(0) =~= Seq::<TransitionTableTransition>::empty());
    let mut k: usize = 0;
    while k < row.transitions.len()
        invariant
            k <= row.transitions@.len(),
            out@ == base + render_transitions(row@.transitions.take(k as int)),
        decreases row.transitions@.len() - k,
    {
        out.append(" ");
        match &row.transitions[k] {
            TransitionTableTransition::Goto(sid) => {
                append_uint(out, *sid);
            },
            TransitionTableTransition::ErrorTransition => {
                out.append("E");
            },
        }
        proof {
            lemma_render_transitions_concat(
                row@.transitions.take(k as int),
                seq![row@.transitions[k as int]],
            );
            assert(row@.transitions.take(k as int) + seq![row@.transitions[k as int]]
                =~= row@.transitions.take(k as int + 1));
            assert(seq![row@.transitions[k as int]][0] == row@.transitions[k as int]);
            assert(seq![row@.transitions[k as int]].drop_first() =~= Seq::<
                TransitionTableTransition,
            >::empty());
            assert(render_transitions(Seq::<TransitionTableTransition>::empty()) == Seq::<
                char,
            >::empty());
            assert(render_transitions(seq![row@.transitions[k as int]]) =~= seq![' ']
                + transition_token(row@.transitions[k as int]));
            assert(out@ =~= base + render_transitions(row@.transitions.take(k as int + 1)));
        }
        k = k + 1;
    }
    assert(row@.transitions.take(row.transitions@.len() as int) =~= row@.transitions);
    assert(out@ =~= old(out)@ + render_row(row@));
}

} // verus!
