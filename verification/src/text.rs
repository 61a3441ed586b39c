//! Text shape of the table format: splitting input into lines and lines into
//! whitespace-delimited tokens.
//!
//! [`lines_of`] mirrors standard line iteration: lines end at `\n` or `\r\n`,
//! a final line without a terminator is kept, and a carriage return is part
//! of the line unless it stands directly before a line feed.  [`split_ws`]
//! splits a line at runs of whitespace, dropping leading and trailing runs.

use vstd::prelude::*;
use vstd::string::StrSliceExecFns;

verus! {

/// Whether `c` is a whitespace character (the Unicode white-space set).
pub open spec fn is_ws(c: char) -> bool {
    let u = c as u32;
    ||| u == 0x09
    ||| u == 0x0A
    ||| u == 0x0B
    ||| u == 0x0C
    ||| u == 0x0D
    ||| u == 0x20
    ||| u == 0x85
    ||| u == 0xA0
    ||| u == 0x1680
    ||| (0x2000 <= u && u <= 0x200A)
    ||| u == 0x2028
    ||| u == 0x2029
    ||| u == 0x202F
    ||| u == 0x205F
    ||| u == 0x3000
}

/// The lines of `s`: pieces ended by `\n` or `\r\n`, terminators removed,
/// with a final unterminated piece kept unless it is empty.
pub open spec fn lines_of(s: Seq<char>) -> Seq<Seq<char>>
    decreases s.len(),
{
    if s.len() == 0 {
        seq![]
    } else if s[0] == '\n' {
        seq![Seq::<char>::empty()] + lines_of(s.drop_first())
    } else if s.len() >= 2 && s[0] == '\r' && s[1] == '\n' {
        seq![Seq::<char>::empty()] + lines_of(s.skip(2))
    } else if s.len() == 1 {
        seq![seq![s[0]]]
    } else {
        let rest = lines_of(s.drop_first());
        rest.update(0, seq![s[0]] + rest[0])
    }
}

/// The whitespace-delimited tokens of `s`, in order.
pub open spec fn split_ws(s: Seq<char>) -> Seq<Seq<char>>
    decreases s.len(),
{
    if s.len() == 0 {
        seq![]
    } else if is_ws(s[0]) {
        split_ws(s.drop_first())
    } else if s.len() == 1 {
        seq![seq![s[0]]]
    } else if is_ws(s[1]) {
        seq![seq![s[0]]] + split_ws(s.drop_first())
    } else {
        let rest = split_ws(s.drop_first());
        rest.update(0, seq![s[0]] + rest[0])
    }
}

/// The views of a sequence of character vectors.
pub open spec fn views(vs: Seq<Vec<char>>) -> Seq<Seq<char>> {
    vs.map_values(|v: Vec<char>| v@)
}

/// A nonempty text has at least one line.
pub proof fn lemma_lines_nonempty(s: Seq<char>)
    requires
        s.len() > 0,
    ensures
        lines_of(s).len() >= 1,
    decreases s.len(),
{
    if s.len() >= 2 {
        lemma_lines_nonempty(s.drop_first());
    }
}

/// A line that starts with a non-whitespace character has at least one token.
pub proof fn lemma_split_ws_nonempty(s: Seq<char>)
    requires
        s.len() > 0,
        !is_ws(s[0]),
    ensures
        split_ws(s).len() >= 1,
    decreases s.len(),
{
    if s.len() > 1 && !is_ws(s[1]) {
        lemma_split_ws_nonempty(s.drop_first());
    }
}

/// Whether no character of `s` is whitespace.
pub open spec fn no_ws(s: Seq<char>) -> bool {
    forall|i: int| 0 <= i < s.len() ==> !is_ws(#[trigger] s[i])
}

/// Whether `s` contains neither a line feed nor a carriage return.
pub open spec fn no_line_breaks(s: Seq<char>) -> bool {
    forall|i: int| 0 <= i < s.len() ==> #[trigger] s[i] != '\n' && s[i] != '\r'
}

/// A nonempty text without line breaks is one line.
pub proof fn lemma_lines_single(a: Seq<char>)
    requires
        a.len() > 0,
        no_line_breaks(a),
    ensures
        lines_of(a) == seq![a],
    decreases a.len(),
{
    if a.len() == 1 {
        assert(lines_of(a) =~~= seq![a]);
    } else {
        assert(no_line_breaks(a.drop_first()));
        lemma_lines_single(a.drop_first());
        assert(seq![a[0]] + a.drop_first() =~= a);
        assert(lines_of(a) =~~= seq![a]);
    }
}

/// A line feed after a text without line breaks ends exactly that line.
pub proof fn lemma_lines_concat(a: Seq<char>, b: Seq<char>)
    requires
        no_line_breaks(a),
    ensures
        lines_of(a + seq!['\n'] + b) == seq![a] + lines_of(b),
    decreases a.len(),
{
    let s = a + seq!['\n'] + b;
    if a.len() == 0 {
        assert(s[0] == '\n');
        assert(s.drop_first() =~= b);
        assert(lines_of(s) =~~= seq![a] + lines_of(b));
    } else {
        assert(no_line_breaks(a.drop_first()));
        lemma_lines_concat(a.drop_first(), b);
        assert(s[0] == a[0]);
        assert(s.len() >= 2);
        assert(s.drop_first() =~= a.drop_first() + seq!['\n'] + b);
        assert(lines_of(s.drop_first())[0] == a.drop_first());
        assert(seq![a[0]] + a.drop_first() =~= a);
        assert(lines_of(s) =~~= seq![a] + lines_of(b));
    }
}

/// A nonempty token without whitespace is one token.
pub proof fn lemma_split_ws_single(tok: Seq<char>)
    requires
        tok.len() > 0,
        no_ws(tok),
    ensures
        split_ws(tok) == seq![tok],
    decreases tok.len(),
{
    if tok.len() == 1 {
        assert(split_ws(tok) =~~= seq![tok]);
    } else {
        assert(no_ws(tok.drop_first()));
        lemma_split_ws_single(tok.drop_first());
        assert(seq![tok[0]] + tok.drop_first() =~= tok);
        assert(split_ws(tok) =~~= seq![tok]);
    }
}

/// A space after a whitespace-free token ends exactly that token.
pub proof fn lemma_split_ws_sep(tok: Seq<char>, rest: Seq<char>)
    requires
        tok.len() > 0,
        no_ws(tok),
    ensures
        split_ws(tok + seq![' '] + rest) == seq![tok] + split_ws(rest),
    decreases tok.len(),
{
    let s = tok + seq![' '] + rest;
    assert(s[0] == tok[0]);
    if tok.len() == 1 {
        assert(s.len() >= 2);
        assert(is_ws(s[1]));
        assert(s.drop_first() =~= seq![' '] + rest);
        assert((seq![' '] + rest).drop_first() =~= rest);
        assert(split_ws(seq![' '] + rest) == split_ws(rest));
        assert(seq![s[0]] =~= tok);
        assert(split_ws(s) =~~= seq![tok] + split_ws(rest));
    } else {
        assert(no_ws(tok.drop_first()));
        lemma_split_ws_sep(tok.drop_first(), rest);
        assert(s[1] == tok[1]);
        assert(!is_ws(s[1]));
        assert(s.drop_first() =~= tok.drop_first() + seq![' '] + rest);
        assert(split_ws(s.drop_first())[0] == tok.drop_first());
        assert(seq![tok[0]] + tok.drop_first() =~= tok);
        assert(split_ws(s) =~~= seq![tok] + split_ws(rest));
    }
}

/// Whether `c` is whitespace (executable form).
pub fn is_ws_char(c: char) -> (r: bool)
    ensures
        r == is_ws(c),
{
    let u = c as u32;
    u == 0x09 || u == 0x0A || u == 0x0B || u == 0x0C || u == 0x0D || u == 0x20 || u == 0x85 || u
        == 0xA0 || u == 0x1680 || (0x2000 <= u && u <= 0x200A) || u == 0x2028 || u == 0x2029 || u
        == 0x202F || u == 0x205F || u == 0x3000
}

/// The characters of `s`, as a vector.
pub fn chars_of_str(s: &str) -> (r: Vec<char>)
    ensures
        r@ == s@,
{
    let n = s.unicode_len();
    let mut r: Vec<char> = Vec::new();
    let mut i: usize = 0;
    while i < n
        invariant
            i <= n,
            n == s@.len(),
            r@ == s@.take(i as int),
        decreases n - i,
    {
        r.push(s.get_char(i));
        assert(r@ =~= s@.take(i as int + 1));
        i = i + 1;
    }
    assert(s@.take(n as int) =~= s@);
    r
}

/// Splits `s` into its lines, exactly as [`lines_of`] says.
pub fn split_lines(s: &Vec<char>) -> (r: Vec<Vec<char>>)
    ensures
        views(r@) == lines_of(s@),
{
    let mut r: Vec<Vec<char>> = Vec::new();
    assert(views(r@) =~~= lines_of(s@.skip(s@.len() as int)));
    let mut i: usize = s.len();
    while i > 0
        invariant
            i <= s@.len(),
            views(r@) == lines_of(s@.skip(i as int)),
        decreases i,
    {
        i = i - 1;
        let c = s[i];
        assert(s@.skip(i as int)[0] == c);
        assert(s@.skip(i as int).drop_first() =~= s@.skip(i as int + 1));
        if c == '\n' {
            r.insert(0, Vec::new());
            assert(views(r@) =~~= lines_of(s@.skip(i as int)));
        } else if i + 1 < s.len() && c == '\r' && s[i + 1] == '\n' {
            assert(s@.skip(i as int).skip(2) =~= s@.skip(i as int + 2));
            assert(s@.skip(i as int + 1)[0] == '\n');
            assert(s@.skip(i as int + 1).drop_first() =~= s@.skip(i as int + 2));
            assert(lines_of(s@.skip(i as int + 1)) == seq![Seq::<char>::empty()] + lines_of(
                s@.skip(i as int + 2),
            ));
            assert(views(r@) =~~= lines_of(s@.skip(i as int)));
        } else if i + 1 == s.len() {
            let mut line: Vec<char> = Vec::new();
            line.push(c);
            r.insert(0, line);
            assert(views(r@) =~~= lines_of(s@.skip(i as int)));
        } else {
            proof {
                lemma_lines_nonempty(s@.skip(i as int + 1));
            }
            let mut first = r.remove(0);
            first.insert(0, c);
            r.insert(0, first);
            assert(views(r@) =~~= lines_of(s@.skip(i as int)));
        }
    }
    assert(s@.skip(0) =~= s@);
    r
}

/// Splits a line into its tokens, exactly as [`split_ws`] says.
pub fn split_tokens(line: &Vec<char>) -> (r: Vec<Vec<char>>)
    ensures
        views(r@) == split_ws(line@),
{
    let mut r: Vec<Vec<char>> = Vec::new();
    assert(views(r@) =~~= split_ws(line@.skip(line@.len() as int)));
    let mut i: usize = line.len();
    while i > 0
        invariant
            i <= line@.len(),
            views(r@) == split_ws(line@.skip(i as int)),
        decreases i,
    {
        i = i - 1;
        let c = line[i];
        assert(line@.skip(i as int)[0] == c);
        assert(line@.skip(i as int).drop_first() =~= line@.skip(i as int + 1));
        if is_ws_char(c) {
            assert(views(r@) =~~= split_ws(line@.skip(i as int)));
        } else if i + 1 == line.len() || is_ws_char(line[i + 1]) {
            let mut tok: Vec<char> = Vec::new();
            tok.push(c);
            r.insert(0, tok);
            assert(views(r@) =~~= split_ws(line@.skip(i as int)));
        } else {
            proof {
                lemma_split_ws_nonempty(line@.skip(i as int + 1));
            }
            let mut first = r.remove(0);
            first.insert(0, c);
            r.insert(0, first);
            assert(views(r@) =~~= split_ws(line@.skip(i as int)));
        }
    }
    assert(line@.skip(0) =~= line@);
    r
}

} // verus!
