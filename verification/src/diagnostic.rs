//! The text of a diagnostic: the unmet expectation, the offending token and
//! its line, and the trail of rules that the failure passed through.
use crate::lexer::Token;
use vstd::prelude::*;
use vstd::string::StringExecFns;

verus! {

/// The numeral of one decimal digit.
pub open spec fn digit_text(d: nat) -> Seq<char> {
    if d == 0 {
        "0"@
    } else if d == 1 {
        "1"@
    } else if d == 2 {
        "2"@
    } else if d == 3 {
        "3"@
    } else if d == 4 {
        "4"@
    } else if d == 5 {
        "5"@
    } else if d == 6 {
        "6"@
    } else if d == 7 {
        "7"@
    } else if d == 8 {
        "8"@
    } else {
        "9"@
    }
}

/// The decimal numeral of `n`, without leading zeros.
pub open spec fn decimal(n: nat) -> Seq<char>
    decreases n,
{
    if n < 10 {
        digit_text(n)
    } else {
        decimal(n / 10) + digit_text(n % 10)
    }
}

/// The complaint about a token that is there but is not what was expected.
pub open spec fn unexpected(reason: Seq<char>, line: nat, text: Seq<char>) -> Seq<char> {
    "Unexpected token: "@ + reason + " \n at line "@ + decimal(line)
        + " while trying to parse: '"@ + text + "'"@
}

/// The complaint about the end of the input where a token was expected.
pub open spec fn at_end(reason: Seq<char>) -> Seq<char> {
    reason + ". Reached EOF"@
}

/// The complaint that `reason` was expected where `found` is.
pub open spec fn complaint(reason: Seq<char>, found: Option<Token>) -> Seq<char> {
    match found {
        Some(t) => unexpected(reason, t.line, t.text),
        None => at_end(reason),
    }
}

/// The numeral of the decimal digit `d`.
fn digit_str(d: usize) -> (r: &'static str)
    requires
        d < 10,
    ensures
        r@ == digit_text(d as nat),
{
    if d == 0 {
        "0"
    } else if d == 1 {
        "1"
    } else if d == 2 {
        "2"
    } else if d == 3 {
        "3"
    } else if d == 4 {
        "4"
    } else if d == 5 {
        "5"
    } else if d == 6 {
        "6"
    } else if d == 7 {
        "7"
    } else if d == 8 {
        "8"
    } else {
        "9"
    }
}

/// Appends the decimal numeral of `n` to `out`.
pub fn push_decimal(out: &mut String, n: usize)
    ensures
        final(out)@ == old(out)@ + decimal(n as nat),
    decreases n,
{
    if n >= 10 {
        push_decimal(out, n / 10);
    }
    out.append(digit_str(n % 10));
    assert(final(out)@ =~= old(out)@ + decimal(n as nat));
}

/// Writes the complaint that `reason` was expected where a token with the
/// given line and text is, or where the input ends.
pub fn complain(reason: &str, found: Option<(usize, &str)>) -> (r: String)
    ensures
        r@ == (match found {
            Some(f) => unexpected(reason@, f.0 as nat, f.1@),
            None => at_end(reason@),
        }),
{
    match found {
        Some(f) => {
            let mut out = String::from_str("Unexpected token: ");
            out.append(reason);
            out.append(" \n at line ");
            push_decimal(&mut out, f.0);
            out.append(" while trying to parse: '");
            out.append(f.1);
            out.append("'");
            out
        },
        None => {
            let mut out = String::from_str(reason);
            out.append(". Reached EOF");
            out
        },
    }
}

} // verus!
