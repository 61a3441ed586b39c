//! The laws relating parsing and serialization.
//!
//! - Serializing any table whose rows share one transition width and parsing
//!   the result yields the stable id-ascending sort of its rows
//!   ([`lemma_serialize_then_parse`]).
//! - For a table already sorted by id, the round trip is the identity, so
//!   serializing, parsing, and serializing again reproduces the text exactly
//!   ([`lemma_canonical_round_trip`]).
//! - Two successfully parsed texts holding the same rows, in whatever order,
//!   parse to the same table, provided no id repeats
//!   ([`lemma_parse_order_independent`]).

use crate::numeral::{
    dec_rep, is_digit, lemma_dec_rep_digits, lemma_parse_dec_rep, parse_uint, UintError,
};
use crate::sorting::{
    distinct_ids, lemma_sort_rows_multiset, lemma_sort_rows_of_sorted, lemma_sort_rows_sorted,
    lemma_sorted_unique, sort_rows, sorted_by_id,
};
use crate::text::{
    is_ws, lemma_lines_concat, lemma_lines_single, lemma_split_ws_sep, lemma_split_ws_single,
    lines_of, no_line_breaks, no_ws, split_ws,
};
use crate::transition_table::{
    marker_of, parse_line_tokens, parse_lines, parse_table, parse_transitions, render_row,
    render_table, render_transitions, transition_of_token, transition_token, SpecRow,
    TransitionTableTransition,
};
use vstd::prelude::*;
use vstd::seq_lib::group_to_multiset_ensures;

verus! {

/// The marker token of a row: `+` when accepting, `-` otherwise.
pub open spec fn marker_token(accepting: bool) -> Seq<char> {
    if accepting {
        seq!['+']
    } else {
        seq!['-']
    }
}

/// The tokens of a row's transitions, in order.
pub open spec fn transition_tokens(ts: Seq<TransitionTableTransition>) -> Seq<Seq<char>> {
    ts.map_values(|t: TransitionTableTransition| transition_token(t))
}

/// All the tokens of one rendered row: marker, id, transitions.
pub open spec fn row_tokens(r: SpecRow) -> Seq<Seq<char>> {
    seq![marker_token(r.accepting), dec_rep(r.id as nat)] + transition_tokens(r.transitions)
}

/// The rendered lines of a table, one per row.
pub open spec fn row_lines(rows: Seq<SpecRow>) -> Seq<Seq<char>> {
    rows.map_values(|r: SpecRow| render_row(r))
}

/// Whether every row of `rows` has exactly `width` transitions.
pub open spec fn uniform_width(rows: Seq<SpecRow>, width: nat) -> bool {
    forall|i: int| 0 <= i < rows.len() ==> (#[trigger] rows[i]).transitions.len() == width
}

/// A transition token is nonempty, free of whitespace and line breaks, and
/// parses back to the transition it was rendered from.
proof fn lemma_transition_token_chars(t: TransitionTableTransition)
    ensures
        transition_token(t).len() >= 1,
        no_ws(transition_token(t)),
        no_line_breaks(transition_token(t)),
        transition_of_token(transition_token(t)) == Ok::<TransitionTableTransition, UintError>(t),
{
    match t {
        TransitionTableTransition::Goto(sid) => {
            lemma_dec_rep_digits(sid as nat);
            let tok = dec_rep(sid as nat);
            assert forall|i: int| 0 <= i < tok.len() implies !is_ws(#[trigger] tok[i]) && tok[i]
                != '\n' && tok[i] != '\r' && tok[i] != 'E' by {
                assert(is_digit(tok[i]));
            }
            lemma_parse_dec_rep(sid as nat);
        },
        TransitionTableTransition::ErrorTransition => {
            let tok = seq!['E'];
            assert(tok[0] == 'E');
            assert(!is_ws('E'));
        },
    }
}

/// Parsing the rendered transition tokens gives back the transitions.
proof fn lemma_parse_transition_tokens(ts: Seq<TransitionTableTransition>, col: nat)
    ensures
        parse_transitions(transition_tokens(ts), col) == Ok::<
            Seq<TransitionTableTransition>,
            (nat, UintError),
        >(ts),
    decreases ts.len(),
{
    let toks = transition_tokens(ts);
    if ts.len() == 0 {
        assert(ts =~= Seq::<TransitionTableTransition>::empty());
        assert(toks.len() == 0);
    } else {
        assert(toks[0] == transition_token(ts[0]));
        lemma_transition_token_chars(ts[0]);
        lemma_parse_transition_tokens(ts.drop_first(), col + 1);
        assert(toks.drop_first() =~~= transition_tokens(ts.drop_first()));
        assert(seq![ts[0]] + ts.drop_first() =~= ts);
    }
}

/// Splitting a whitespace-free token followed by rendered transitions gives
/// the token and then the transition tokens.
proof fn lemma_split_token_then_transitions(tok: Seq<char>, ts: Seq<TransitionTableTransition>)
    requires
        tok.len() >= 1,
        no_ws(tok),
    ensures
        split_ws(tok + render_transitions(ts)) == seq![tok] + transition_tokens(ts),
    decreases ts.len(),
{
    if ts.len() == 0 {
        assert(tok + render_transitions(ts) =~= tok);
        lemma_split_ws_single(tok);
        assert(seq![tok] + transition_tokens(ts) =~~= seq![tok]);
    } else {
        lemma_transition_token_chars(ts[0]);
        lemma_split_token_then_transitions(transition_token(ts[0]), ts.drop_first());
        lemma_split_ws_sep(
            tok,
            transition_token(ts[0]) + render_transitions(ts.drop_first()),
        );
        assert(tok + render_transitions(ts) =~= tok + seq![' '] + (transition_token(ts[0])
            + render_transitions(ts.drop_first())));
        assert(split_ws(tok + render_transitions(ts)) =~~= seq![tok] + (seq![
            transition_token(ts[0]),
        ] + transition_tokens(ts.drop_first())));
        assert(seq![transition_token(ts[0])] + transition_tokens(ts.drop_first())
            =~~= transition_tokens(ts));
    }
}

/// A rendered row is a nonempty line without line breaks, and splits into
/// exactly its tokens.
proof fn lemma_render_row_tokens(r: SpecRow)
    ensures
        render_row(r).len() >= 1,
        no_line_breaks(render_row(r)),
        split_ws(render_row(r)) == row_tokens(r),
{
    let m = marker_token(r.accepting);
    let idtok = dec_rep(r.id as nat);
    lemma_dec_rep_digits(r.id as nat);
    assert(!is_ws(m[0]));
    assert(no_ws(m));
    assert forall|i: int| 0 <= i < idtok.len() implies !is_ws(#[trigger] idtok[i]) && idtok[i]
        != '\n' && idtok[i] != '\r' by {
        assert(is_digit(idtok[i]));
    }
    assert(no_ws(idtok));
    lemma_split_token_then_transitions(idtok, r.transitions);
    lemma_split_ws_sep(m, idtok + render_transitions(r.transitions));
    assert(render_row(r) =~= m + seq![' '] + (idtok + render_transitions(r.transitions)));
    assert(split_ws(render_row(r)) =~~= seq![m] + (seq![idtok] + transition_tokens(
        r.transitions,
    )));
    assert(seq![m] + (seq![idtok] + transition_tokens(r.transitions)) =~~= row_tokens(r));
    // No line breaks anywhere in the row's text.
    lemma_render_transitions_no_breaks(r.transitions);
    assert forall|i: int| 0 <= i < render_row(r).len() implies #[trigger] render_row(r)[i] != '\n'
        && render_row(r)[i] != '\r' by {
        let body = idtok + render_transitions(r.transitions);
        if i >= m.len() + 1 {
            assert(render_row(r)[i] == body[i - m.len() - 1]);
            if i - m.len() - 1 >= idtok.len() {
                assert(body[i - m.len() - 1] == render_transitions(r.transitions)[i - m.len() - 1
                    - idtok.len()]);
            }
        }
    }
}

/// Rendered transitions contain no line breaks.
proof fn lemma_render_transitions_no_breaks(ts: Seq<TransitionTableTransition>)
    ensures
        no_line_breaks(render_transitions(ts)),
    decreases ts.len(),
{
    if ts.len() > 0 {
        lemma_transition_token_chars(ts[0]);
        lemma_render_transitions_no_breaks(ts.drop_first());
        let tok = transition_token(ts[0]);
        let rest = render_transitions(ts.drop_first());
        assert forall|i: int| 0 <= i < render_transitions(ts).len() implies #[trigger]
        render_transitions(ts)[i] != '\n' && render_transitions(ts)[i] != '\r' by {
            if 1 <= i < 1 + tok.len() {
                assert(render_transitions(ts)[i] == tok[i - 1]);
            } else if i >= 1 + tok.len() {
                assert(render_transitions(ts)[i] == rest[i - 1 - tok.len()]);
            }
        }
    }
}

/// The lines of a rendered table are its rendered rows.
proof fn lemma_lines_of_render_table(rows: Seq<SpecRow>)
    ensures
        lines_of(render_table(rows)) == row_lines(rows),
    decreases rows.len(),
{
    if rows.len() == 0 {
        assert(lines_of(render_table(rows)) =~~= row_lines(rows));
    } else if rows.len() == 1 {
        lemma_render_row_tokens(rows[0]);
        lemma_lines_single(render_row(rows[0]));
        assert(lines_of(render_table(rows)) =~~= row_lines(rows));
    } else {
        lemma_render_row_tokens(rows[0]);
        lemma_lines_of_render_table(rows.drop_first());
        lemma_lines_concat(render_row(rows[0]), render_table(rows.drop_first()));
        assert(lines_of(render_table(rows)) =~~= seq![render_row(rows[0])] + row_lines(
            rows.drop_first(),
        ));
        assert(seq![render_row(rows[0])] + row_lines(rows.drop_first()) =~~= row_lines(rows));
    }
}

/// Parsing the rendered lines of a uniform-width table succeeds and gives
/// back exactly its rows, in order.
proof fn lemma_parse_row_lines(rows: Seq<SpecRow>, line: nat, width: nat, expected: Option<nat>)
    requires
        uniform_width(rows, width),
        expected is Some ==> expected->0 == width + 2,
    ensures
        parse_lines(row_lines(rows), line, expected) == Ok::<Seq<SpecRow>, Seq<char>>(rows),
    decreases rows.len(),
{
    let ls = row_lines(rows);
    if rows.len() == 0 {
        assert(rows =~= Seq::<SpecRow>::empty());
        assert(ls.len() == 0);
    } else {
        let r = rows[0];
        assert(ls[0] == render_row(r));
        lemma_render_row_tokens(r);
        let toks = row_tokens(r);
        assert(transition_tokens(r.transitions).len() == r.transitions.len());
        assert(r.transitions.len() == width);
        assert(toks.len() == width + 2);
        assert(toks[0] == marker_token(r.accepting));
        assert(marker_of(toks[0]) == Some(r.accepting));
        assert(toks[1] == dec_rep(r.id as nat));
        lemma_parse_dec_rep(r.id as nat);
        assert(toks.skip(2) =~~= transition_tokens(r.transitions));
        lemma_parse_transition_tokens(r.transitions, 3);
        assert(parse_line_tokens(toks, line) == Ok::<SpecRow, Seq<char>>(r));
        assert(uniform_width(rows.drop_first(), width));
        lemma_parse_row_lines(rows.drop_first(), line + 1, width, Some((width + 2) as nat));
        assert(ls.drop_first() =~~= row_lines(rows.drop_first()));
        assert(seq![r] + rows.drop_first() =~= rows);
    }
}

/// **Round trip, structure first.**  Serializing any table whose rows share
/// one transition width and parsing the result succeeds and yields exactly
/// the stable id-ascending sort of its rows.
pub proof fn lemma_serialize_then_parse(rows: Seq<SpecRow>, width: nat)
    requires
        uniform_width(rows, width),
    ensures
        parse_table(render_table(rows)) == Ok::<Seq<SpecRow>, Seq<char>>(sort_rows(rows)),
{
    lemma_lines_of_render_table(rows);
    lemma_parse_row_lines(rows, 1, width, None::<nat>);
}

/// **Round trip, text first.**  A table already sorted ascending by id parses
/// back from its own rendering unchanged; hence for canonical sorted text
/// `s == render_table(rows)`, serializing the parse of `s` reproduces `s`.
pub proof fn lemma_canonical_round_trip(rows: Seq<SpecRow>, width: nat)
    requires
        uniform_width(rows, width),
        sorted_by_id(rows),
    ensures
        parse_table(render_table(rows)) == Ok::<Seq<SpecRow>, Seq<char>>(rows),
{
    lemma_serialize_then_parse(rows, width);
    lemma_sort_rows_of_sorted(rows);
}

/// A permutation of rows with no repeated id keeps its ids distinct.
proof fn lemma_distinct_ids_permutation(a: Seq<SpecRow>, b: Seq<SpecRow>)
    requires
        distinct_ids(a),
        a.to_multiset() == b.to_multiset(),
    ensures
        distinct_ids(b),
{
    broadcast use group_to_multiset_ensures;

    assert forall|i: int, j: int|
        0 <= i < a.len() && 0 <= j < a.len() && i != j implies a[i] != a[j] by {
        assert(a[i].id != a[j].id);
    }
    a.lemma_multiset_has_no_duplicates();
    b.lemma_multiset_has_no_duplicates_conv();
    assert forall|i: int, j: int| 0 <= i < j < b.len() implies b[i].id != b[j].id by {
        if b[i].id == b[j].id {
            assert(b[i] != b[j]);
            assert(b.to_multiset().count(b[i]) > 0);
            assert(a.contains(b[i]));
            assert(b.to_multiset().count(b[j]) > 0);
            assert(a.contains(b[j]));
            let p = choose|p: int| 0 <= p < a.len() && a[p] == b[i];
            let q = choose|q: int| 0 <= q < a.len() && a[q] == b[j];
            assert(p != q);
            assert(a[p].id != a[q].id);
        }
    }
}

/// **Order independence.**  Two texts that parse line-by-line to the same
/// rows, in whatever order, parse to the same table, provided no state id
/// repeats.  (With a repeated id the tie is broken by input order, so two
/// presentations may differ.)
pub proof fn lemma_parse_order_independent(
    s1: Seq<char>,
    s2: Seq<char>,
    r1: Seq<SpecRow>,
    r2: Seq<SpecRow>,
)
    requires
        parse_lines(lines_of(s1), 1, None::<nat>) == Ok::<Seq<SpecRow>, Seq<char>>(r1),
        parse_lines(lines_of(s2), 1, None::<nat>) == Ok::<Seq<SpecRow>, Seq<char>>(r2),
        r1.to_multiset() == r2.to_multiset(),
        distinct_ids(r1),
    ensures
        parse_table(s1) == parse_table(s2),
{
    lemma_sort_rows_sorted(r1);
    lemma_sort_rows_sorted(r2);
    lemma_sort_rows_multiset(r1);
    lemma_sort_rows_multiset(r2);
    lemma_distinct_ids_permutation(r1, sort_rows(r1));
    lemma_sorted_unique(sort_rows(r1), sort_rows(r2));
}

} // verus!
