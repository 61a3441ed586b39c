//! Decimal numerals: parsing tokens as unsigned integers and rendering
//! unsigned integers back to decimal text.
//!
//! The parser accepts an optional leading `+` followed by one or more ASCII
//! digits and rejects everything else; a value that does not fit in `usize`
//! is an overflow.  The renderer produces the canonical numeral: no sign, no
//! leading zeros (except for the numeral `0` itself).

use vstd::prelude::*;
use vstd::string::StringExecFns;

verus! {

/// Why a token failed to parse as an unsigned integer.
#[derive(Clone, Copy, Debug, PartialEq, Eq, Structural)]
pub enum UintError {
    /// The token was empty.
    Empty,
    /// A character of the token was not an ASCII digit.
    InvalidDigit,
    /// The numeral's value does not fit in `usize`.
    Overflow,
}

/// The text a failed number parse is reported with.
pub open spec fn uint_error_text(e: UintError) -> Seq<char> {
    match e {
        UintError::Empty => "cannot parse integer from empty string"@,
        UintError::InvalidDigit => "invalid digit found in string"@,
        UintError::Overflow => "number too large to fit in target type"@,
    }
}

/// The text a failed number parse is reported with (executable form).
pub fn uint_error_str(e: UintError) -> (s: &'static str)
    ensures
        s@ == uint_error_text(e),
{
    match e {
        UintError::Empty => "cannot parse integer from empty string",
        UintError::InvalidDigit => "invalid digit found in string",
        UintError::Overflow => "number too large to fit in target type",
    }
}

/// Whether `c` is an ASCII decimal digit.
pub open spec fn is_digit(c: char) -> bool {
    48 <= c as u32 <= 57
}

/// The numeric value of the ASCII digit `c`.
pub open spec fn digit_val(c: char) -> nat
    recommends
        is_digit(c),
{
    (c as u32 - 48) as nat
}

/// The ASCII digit character with value `d`.
pub open spec fn digit_char(d: nat) -> char
    recommends
        d < 10,
{
    if d == 0 {
        '0'
    } else if d == 1 {
        '1'
    } else if d == 2 {
        '2'
    } else if d == 3 {
        '3'
    } else if d == 4 {
        '4'
    } else if d == 5 {
        '5'
    } else if d == 6 {
        '6'
    } else if d == 7 {
        '7'
    } else if d == 8 {
        '8'
    } else {
        '9'
    }
}

/// Scans the digits of `t` left to right, starting from the accumulated
/// value `acc`, exactly as the executable parser does: the first non-digit
/// is an invalid digit, and a step that would exceed `usize::MAX` is an
/// overflow.
pub open spec fn scan_uint(t: Seq<char>, acc: nat) -> Result<nat, UintError>
    decreases t.len(),
{
    if t.len() == 0 {
        Ok(acc)
    } else if !is_digit(t[0]) {
        Err(UintError::InvalidDigit)
    } else if acc * 10 + digit_val(t[0]) > usize::MAX {
        Err(UintError::Overflow)
    } else {
        scan_uint(t.drop_first(), acc * 10 + digit_val(t[0]))
    }
}

/// Parses a whole token as an unsigned integer: an optional leading `+`,
/// then one or more digits, with the value bounded by `usize::MAX`.
pub open spec fn parse_uint(t: Seq<char>) -> Result<nat, UintError> {
    if t.len() == 0 {
        Err(UintError::Empty)
    } else {
        let body = if t[0] == '+' {
            t.drop_first()
        } else {
            t
        };
        if body.len() == 0 {
            Err(UintError::InvalidDigit)
        } else {
            scan_uint(body, 0)
        }
    }
}

/// The decimal numeral of `n`, most significant digit first.
pub open spec fn dec_rep(n: nat) -> Seq<char>
    decreases n,
{
    if n < 10 {
        seq![digit_char(n)]
    } else {
        dec_rep(n / 10).push(digit_char(n % 10))
    }
}

/// A numeral is nonempty and consists of digits.
pub proof fn lemma_dec_rep_digits(n: nat)
    ensures
        dec_rep(n).len() >= 1,
        forall|i: int| 0 <= i < dec_rep(n).len() ==> is_digit(#[trigger] dec_rep(n)[i]),
    decreases n,
{
    if n < 10 {
        assert(is_digit(digit_char(n)));
    } else {
        lemma_dec_rep_digits(n / 10);
        assert(is_digit(digit_char(n % 10)));
        assert forall|i: int| 0 <= i < dec_rep(n).len() implies is_digit(
            #[trigger] dec_rep(n)[i],
        ) by {
            if i < dec_rep(n / 10).len() {
                assert(dec_rep(n)[i] == dec_rep(n / 10)[i]);
            }
        }
    }
}

/// Scanning a concatenation scans the first part, then the second from the
/// value the first part reached.
pub proof fn lemma_scan_uint_concat(s1: Seq<char>, s2: Seq<char>, acc: nat)
    ensures
        scan_uint(s1 + s2, acc) == match scan_uint(s1, acc) {
            Ok(v) => scan_uint(s2, v),
            Err(e) => Err::<nat, UintError>(e),
        },
    decreases s1.len(),
{
    if s1.len() == 0 {
        assert(s1 + s2 =~= s2);
    } else {
        assert((s1 + s2)[0] == s1[0]);
        if is_digit(s1[0]) && acc * 10 + digit_val(s1[0]) <= usize::MAX {
            lemma_scan_uint_concat(s1.drop_first(), s2, acc * 10 + digit_val(s1[0]));
            assert((s1 + s2).drop_first() =~= s1.drop_first() + s2);
        }
    }
}

/// Scanning the numeral of `n` yields `n`.
proof fn lemma_scan_dec_rep(n: nat)
    requires
        n <= usize::MAX,
    ensures
        scan_uint(dec_rep(n), 0) == Ok::<nat, UintError>(n),
    decreases n,
{
    if n < 10 {
        assert(seq![digit_char(n)][0] == digit_char(n));
        assert(is_digit(digit_char(n)));
        assert(digit_val(digit_char(n)) == n);
        assert(seq![digit_char(n)].drop_first() =~= Seq::<char>::empty());
        assert(scan_uint(Seq::<char>::empty(), n) == Ok::<nat, UintError>(n));
    } else {
        lemma_scan_dec_rep(n / 10);
        lemma_scan_uint_concat(dec_rep(n / 10), seq![digit_char(n % 10)], 0);
        assert(dec_rep(n) =~= dec_rep(n / 10) + seq![digit_char(n % 10)]);
        assert(is_digit(digit_char(n % 10)));
        assert(digit_val(digit_char(n % 10)) == n % 10);
        assert(n / 10 * 10 + n % 10 == n) by {
            vstd::arithmetic::div_mod::lemma_fundamental_div_mod(n as int, 10);
        }
        assert(seq![digit_char(n % 10)][0] == digit_char(n % 10));
        assert(seq![digit_char(n % 10)].drop_first() =~= Seq::<char>::empty());
        assert(scan_uint(Seq::<char>::empty(), n) == Ok::<nat, UintError>(n));
        assert(scan_uint(seq![digit_char(n % 10)], n / 10) == Ok::<nat, UintError>(n));
    }
}

/// Parsing the numeral of `n` yields `n`: rendering and parsing are inverse.
pub proof fn lemma_parse_dec_rep(n: nat)
    requires
        n <= usize::MAX,
    ensures
        parse_uint(dec_rep(n)) == Ok::<nat, UintError>(n),
{
    lemma_dec_rep_digits(n);
    lemma_scan_dec_rep(n);
    assert(is_digit(dec_rep(n)[0]));
    assert(dec_rep(n)[0] != '+');
}

/// Whether `c` is an ASCII decimal digit (executable form).
pub fn is_digit_char(c: char) -> (r: bool)
    ensures
        r == is_digit(c),
{
    let u = c as u32;
    48 <= u && u <= 57
}

/// Parses a token as an unsigned integer, exactly as [`parse_uint`] says.
pub fn parse_uint_token(t: &Vec<char>) -> (r: Result<usize, UintError>)
    ensures
        match r {
            Ok(v) => parse_uint(t@) == Ok::<nat, UintError>(v as nat),
            Err(e) => parse_uint(t@) == Err::<nat, UintError>(e),
        },
{
    if t.len() == 0 {
        return Err(UintError::Empty);
    }
    let start: usize = if t[0] == '+' {
        1
    } else {
        0
    };
    if t.len() == start {
        assert(t@.drop_first().len() == 0);
        return Err(UintError::InvalidDigit);
    }
    proof {
        if start == 1 {
            assert(t@.skip(1) =~= t@.drop_first());
        } else {
            assert(t@.skip(0) =~= t@);
        }
    }
    let mut acc: usize = 0;
    let mut i: usize = start;
    while i < t.len()
        invariant
            start <= i <= t@.len(),
            parse_uint(t@) == scan_uint(t@.skip(i as int), acc as nat),
        decreases t@.len() - i,
    {
        let c = t[i];
        assert(t@.skip(i as int)[0] == c);
        if !is_digit_char(c) {
            return Err(UintError::InvalidDigit);
        }
        let d = (c as u32 - 48) as usize;
        let step = match acc.checked_mul(10) {
            Some(m) => m.checked_add(d),
            None => None,
        };
        match step {
            None => {
                return Err(UintError::Overflow);
            },
            Some(v) => {
                acc = v;
            },
        }
        assert(t@.skip(i as int).drop_first() =~= t@.skip(i as int + 1));
        i = i + 1;
    }
    assert(t@.skip(i as int) =~= Seq::<char>::empty());
    Ok(acc)
}

/// A one-character string holding the ASCII digit with value `d`.
pub fn digit_str(d: usize) -> (s: &'static str)
    requires
        d < 10,
    ensures
        s@ == seq![digit_char(d as nat)],
{
    proof {
        reveal_strlit("0");
        reveal_strlit("1");
        reveal_strlit("2");
        reveal_strlit("3");
        reveal_strlit("4");
        reveal_strlit("5");
        reveal_strlit("6");
        reveal_strlit("7");
        reveal_strlit("8");
        reveal_strlit("9");
    }
    let s = match d {
        0 => "0",
        1 => "1",
        2 => "2",
        3 => "3",
        4 => "4",
        5 => "5",
        6 => "6",
        7 => "7",
        8 => "8",
        _ => "9",
    };
    proof {
        assert(s@ =~= seq![digit_char(d as nat)]);
    }
    s
}

/// Appends the decimal numeral of `n` to `out`.
pub fn append_uint(out: &mut String, n: usize)
    ensures
        final(out)@ == old(out)@ + dec_rep(n as nat),
    decreases n,
{
    if n < 10 {
        out.append(digit_str(n));
        assert(out@ =~= old(out)@ + dec_rep(n as nat));
    } else {
        append_uint(out, n / 10);
        out.append(digit_str(n % 10));
        assert(out@ =~= old(out)@ + dec_rep(n as nat));
    }
}

} // verus!
