//! The lexemes of each category, said without regard to what surrounds
//! them, and the rule by which the scanner chooses among them: of the
//! lexemes that begin at an offset the longest is taken.
use crate::scan::{byte_is, exponent_end, in_class, is_letter, lemma_exponent_end, lemma_lexeme};
use crate::scan::{lemma_run_end, lexeme, run_end, word_kind, ByteClass, C1Token};
use crate::scan::{AMPERSAND, BANG, COMMA, DOT, EQUALS, GREATER, LEFT_BRACE, LEFT_PAREN, LESS};
use crate::scan::{LOWER_E, MINUS, PIPE, PLUS, QUOTE, RIGHT_BRACE, RIGHT_PAREN, SEMICOLON, SLASH};
use crate::scan::{STAR, UPPER_E};
use vstd::prelude::*;
use vstd::string::StringSliceAdditionalSpecFns;
use vstd::utf8::is_ascii_chars_encode_utf8;

verus! {

/// Whether the bytes `a..e` of `s` are all of the class `c`.
pub open spec fn all_of(s: Seq<u8>, a: int, e: int, c: ByteClass) -> bool {
    forall|k: int| a <= k < e ==> in_class(c, #[trigger] s[k])
}

/// One or more digits.
pub open spec fn digits(s: Seq<u8>, a: int, e: int) -> bool {
    0 <= a < e <= s.len() && all_of(s, a, e, ByteClass::Digit)
}

/// An exponent: `e` or `E`, an optional sign, digits.
pub open spec fn exponent(s: Seq<u8>, a: int, e: int) -> bool {
    &&& byte_is(s, a, LOWER_E) || byte_is(s, a, UPPER_E)
    &&& digits(s, a + 1, e) || ((byte_is(s, a + 1, PLUS) || byte_is(s, a + 1, MINUS)) && digits(
        s,
        a + 2,
        e,
    ))
}

/// A float literal: digits, a dot and digits; or a dot and digits, with or
/// without an exponent; or digits and an exponent.
pub open spec fn float(s: Seq<u8>, a: int, e: int) -> bool {
    ||| exists|d: int| #[trigger] digits(s, a, d) && byte_is(s, d, DOT) && digits(s, d + 1, e)
    ||| byte_is(s, a, DOT) && digits(s, a + 1, e)
    ||| exists|x: int| byte_is(s, a, DOT) && #[trigger] digits(s, a + 1, x) && exponent(s, x, e)
    ||| exists|x: int| #[trigger] digits(s, a, x) && exponent(s, x, e)
}

/// A string literal: a double quote, any bytes but line feeds and double
/// quotes, a double quote.
pub open spec fn string(s: Seq<u8>, a: int, e: int) -> bool {
    &&& 0 <= a && a + 2 <= e <= s.len()
    &&& s[a] == QUOTE
    &&& s[e - 1] == QUOTE
    &&& all_of(s, a + 1, e - 1, ByteClass::StringBody)
}

/// A word: a letter, then letters and digits.
pub open spec fn word(s: Seq<u8>, a: int, e: int) -> bool {
    &&& 0 <= a < e <= s.len()
    &&& is_letter(s[a])
    &&& all_of(s, a, e, ByteClass::Alnum)
}

/// The one byte `b`.
pub open spec fn one(s: Seq<u8>, a: int, e: int, b: u8) -> bool {
    byte_is(s, a, b) && e == a + 1
}

/// The two bytes `b` and `c`.
pub open spec fn two(s: Seq<u8>, a: int, e: int, b: u8, c: u8) -> bool {
    byte_is(s, a, b) && byte_is(s, a + 1, c) && e == a + 2
}

/// Whether the bytes `a..e` of `s` are a lexeme of the category `kind`. A
/// word is of the category that it spells: a keyword, a boolean literal or,
/// where it spells neither, an identifier. Nothing is a lexeme of the
/// categories that stand for a lexical error and for discarded text.
pub open spec fn fits(kind: C1Token, s: Seq<u8>, a: int, e: int) -> bool {
    match kind {
        C1Token::Plus => one(s, a, e, PLUS),
        C1Token::Minus => one(s, a, e, MINUS),
        C1Token::Asterisk => one(s, a, e, STAR),
        C1Token::Slash => one(s, a, e, SLASH),
        C1Token::Assign => one(s, a, e, EQUALS),
        C1Token::Equal => two(s, a, e, EQUALS, EQUALS),
        C1Token::NotEqual => two(s, a, e, BANG, EQUALS),
        C1Token::Less => one(s, a, e, LESS),
        C1Token::Greater => one(s, a, e, GREATER),
        C1Token::LessEqual => two(s, a, e, LESS, EQUALS),
        C1Token::GreaterEqual => two(s, a, e, GREATER, EQUALS),
        C1Token::And => two(s, a, e, AMPERSAND, AMPERSAND),
        C1Token::Or => two(s, a, e, PIPE, PIPE),
        C1Token::Comma => one(s, a, e, COMMA),
        C1Token::Semicolon => one(s, a, e, SEMICOLON),
        C1Token::LeftParenthesis => one(s, a, e, LEFT_PAREN),
        C1Token::RightParenthesis => one(s, a, e, RIGHT_PAREN),
        C1Token::LeftBrace => one(s, a, e, LEFT_BRACE),
        C1Token::RightBrace => one(s, a, e, RIGHT_BRACE),
        C1Token::ConstInt => digits(s, a, e),
        C1Token::ConstFloat => float(s, a, e),
        C1Token::ConstString => string(s, a, e),
        C1Token::CComment | C1Token::CPPComment | C1Token::Whitespace | C1Token::Linebreak
        | C1Token::Error => false,
        _ => word(s, a, e) && word_kind(s.subrange(a, e)) == kind,
    }
}

/// A stretch of bytes of a class ends no later than the longest run of the
/// class that begins where it begins.
pub proof fn lemma_run_covers(s: Seq<u8>, a: int, e: int, c: ByteClass)
    requires
        0 <= a <= e <= s.len(),
        all_of(s, a, e, c),
    ensures
        e <= run_end(s, a, c),
    decreases e - a,
{
    lemma_run_end(s, a, c);
    if a < e {
        assert(in_class(c, s[a]));
        lemma_run_covers(s, a + 1, e, c);
    }
}

/// A stretch of bytes of a class behind which the text ends, or a byte that
/// is not of the class stands, is the longest run of the class that begins
/// where it begins.
pub proof fn lemma_run_stops(s: Seq<u8>, a: int, e: int, c: ByteClass)
    requires
        0 <= a <= e <= s.len(),
        all_of(s, a, e, c),
        e < s.len() ==> !in_class(c, s[e]),
    ensures
        run_end(s, a, c) == e,
    decreases e - a,
{
    if a < e {
        assert(in_class(c, s[a]));
        lemma_run_stops(s, a + 1, e, c);
    }
}

/// The longest run of a class is a stretch of bytes of the class.
pub proof fn lemma_run_is_all(s: Seq<u8>, a: int, c: ByteClass)
    requires
        0 <= a <= s.len(),
    ensures
        all_of(s, a, run_end(s, a, c), c),
{
    lemma_run_end(s, a, c);
}

/// An exponent ends no later than the exponent that the scanner finds where
/// it begins, and that one is not empty.
pub proof fn lemma_exponent_covers(s: Seq<u8>, a: int, e: int)
    requires
        0 <= a,
        exponent(s, a, e),
    ensures
        a < e <= exponent_end(s, a),
{
    if digits(s, a + 1, e) {
        assert(in_class(ByteClass::Digit, s[a + 1]));
        lemma_run_covers(s, a + 1, e, ByteClass::Digit);
    } else {
        assert(in_class(ByteClass::Digit, s[a + 2]));
        lemma_run_covers(s, a + 2, e, ByteClass::Digit);
    }
}

/// The exponent that the scanner finds is an exponent, where it is not
/// empty.
pub proof fn lemma_exponent_found(s: Seq<u8>, a: int)
    requires
        0 <= a <= s.len(),
        a < exponent_end(s, a),
    ensures
        exponent(s, a, exponent_end(s, a)),
{
    let q = if byte_is(s, a + 1, PLUS) || byte_is(s, a + 1, MINUS) {
        a + 2
    } else {
        a + 1
    };
    lemma_run_end(s, q, ByteClass::Digit);
    lemma_run_is_all(s, q, ByteClass::Digit);
    lemma_run_end(s, q + 1, ByteClass::Digit);
}

/// Digits end where the longest run of digits ends, if a byte that is no
/// digit stands behind them.
pub proof fn lemma_digits_stop(s: Seq<u8>, a: int, d: int)
    requires
        digits(s, a, d),
        d < s.len(),
        !in_class(ByteClass::Digit, s[d]),
    ensures
        run_end(s, a, ByteClass::Digit) == d,
{
    lemma_run_stops(s, a, d, ByteClass::Digit);
}

/// What the scanner takes where a lexeme begins is a lexeme of its category.
pub proof fn lemma_lexeme_fits(s: Seq<u8>, at: int)
    requires
        0 <= at < s.len(),
        lexeme(s, at).0 != C1Token::Error,
    ensures
        fits(lexeme(s, at).0, s, at, lexeme(s, at).1),
{
    let b = s[at];
    let kind = lexeme(s, at).0;
    let e = lexeme(s, at).1;
    lemma_lexeme(s, at);
    if is_letter(b) {
        lemma_run_is_all(s, at, ByteClass::Alnum);
        assert(word(s, at, e));
        assert(kind != C1Token::CComment && kind != C1Token::CPPComment && kind
            != C1Token::Whitespace && kind != C1Token::Linebreak);
    } else if in_class(ByteClass::Digit, b) {
        let d = run_end(s, at, ByteClass::Digit);
        lemma_run_end(s, at, ByteClass::Digit);
        lemma_run_is_all(s, at, ByteClass::Digit);
        assert(digits(s, at, d));
        if byte_is(s, d, DOT) && crate::scan::digit_at(s, d + 1) {
            lemma_run_end(s, d + 1, ByteClass::Digit);
            lemma_run_end(s, d + 2, ByteClass::Digit);
            lemma_run_is_all(s, d + 1, ByteClass::Digit);
            assert(digits(s, d + 1, e));
        } else if d < exponent_end(s, d) {
            lemma_exponent_found(s, d);
        }
    } else if b == DOT {
        let f = run_end(s, at + 1, ByteClass::Digit);
        lemma_run_end(s, at + 1, ByteClass::Digit);
        lemma_run_end(s, at + 2, ByteClass::Digit);
        lemma_run_is_all(s, at + 1, ByteClass::Digit);
        assert(digits(s, at + 1, f));
        lemma_exponent_end(s, f);
        if f < exponent_end(s, f) {
            lemma_exponent_found(s, f);
        }
    } else if b == QUOTE {
        lemma_run_end(s, at + 1, ByteClass::StringBody);
        lemma_run_is_all(s, at + 1, ByteClass::StringBody);
    } else {
        lemma_run_end(s, at + 1, ByteClass::Continuation);
    }
}

/// A word is no longer than the word that the scanner takes where it
/// begins, and of the same category if as long.
pub proof fn lemma_longest_word(s: Seq<u8>, at: int, kind: C1Token, e: int)
    requires
        word(s, at, e),
        word_kind(s.subrange(at, e)) == kind,
    ensures
        e <= lexeme(s, at).1,
        e == lexeme(s, at).1 ==> lexeme(s, at).0 == kind,
{
    lemma_run_covers(s, at, e, ByteClass::Alnum);
}

/// Digits are no longer than the number that the scanner takes where they
/// begin, and that number is an integer if as long.
pub proof fn lemma_longest_digits(s: Seq<u8>, at: int, e: int)
    requires
        digits(s, at, e),
    ensures
        e <= lexeme(s, at).1,
        e == lexeme(s, at).1 ==> lexeme(s, at).0 == C1Token::ConstInt,
{
    let d = run_end(s, at, ByteClass::Digit);
    assert(in_class(ByteClass::Digit, s[at]));
    lemma_run_covers(s, at, e, ByteClass::Digit);
    lemma_run_end(s, at, ByteClass::Digit);
    lemma_exponent_end(s, d);
    if byte_is(s, d, DOT) && crate::scan::digit_at(s, d + 1) {
        lemma_run_end(s, d + 1, ByteClass::Digit);
        lemma_run_end(s, d + 2, ByteClass::Digit);
    }
}

/// A float literal is no longer than the float literal that the scanner
/// takes where it begins.
pub proof fn lemma_longest_float(s: Seq<u8>, at: int, e: int)
    requires
        0 <= at,
        float(s, at, e),
    ensures
        e <= lexeme(s, at).1,
        lexeme(s, at).0 == C1Token::ConstFloat,
{
    if byte_is(s, at, DOT) {
        let f = run_end(s, at + 1, ByteClass::Digit);
        lemma_run_end(s, at + 1, ByteClass::Digit);
        lemma_exponent_end(s, f);
        if digits(s, at + 1, e) {
            assert(in_class(ByteClass::Digit, s[at + 1]));
            lemma_run_covers(s, at + 1, e, ByteClass::Digit);
        } else {
            let x = choose|x: int| #[trigger] digits(s, at + 1, x) && exponent(s, x, e);
            assert(in_class(ByteClass::Digit, s[at + 1]));
            lemma_digits_stop(s, at + 1, x);
            lemma_exponent_covers(s, x, e);
        }
    } else {
        let d = run_end(s, at, ByteClass::Digit);
        lemma_run_end(s, at, ByteClass::Digit);
        if exists|m: int| #[trigger] digits(s, at, m) && byte_is(s, m, DOT) && digits(s, m + 1, e) {
            let m = choose|m: int|
                #[trigger] digits(s, at, m) && byte_is(s, m, DOT) && digits(s, m + 1, e);
            assert(in_class(ByteClass::Digit, s[at]));
            lemma_digits_stop(s, at, m);
            assert(in_class(ByteClass::Digit, s[m + 1]));
            lemma_run_covers(s, m + 1, e, ByteClass::Digit);
        } else {
            let x = choose|x: int| #[trigger] digits(s, at, x) && exponent(s, x, e);
            assert(in_class(ByteClass::Digit, s[at]));
            lemma_digits_stop(s, at, x);
            lemma_exponent_covers(s, x, e);
        }
    }
}

/// A string literal is the string literal that the scanner takes where it
/// begins.
pub proof fn lemma_longest_string(s: Seq<u8>, at: int, e: int)
    requires
        string(s, at, e),
    ensures
        lexeme(s, at) == (C1Token::ConstString, e),
{
    lemma_run_stops(s, at + 1, e - 1, ByteClass::StringBody);
}

/// What begins with a letter or a digit is no lexical error.
pub proof fn lemma_word_or_number(s: Seq<u8>, at: int)
    requires
        0 <= at < s.len(),
        is_letter(s[at]) || in_class(ByteClass::Digit, s[at]),
    ensures
        lexeme(s, at).0 != C1Token::Error,
{
}

/// The longest match wins: a lexeme of any category that begins at `at` is
/// no longer than what the scanner takes there, and what the scanner takes
/// is of that category if it is as long. So the scanner takes a lexical
/// error only where no lexeme begins.
pub proof fn lemma_longest_match(s: Seq<u8>, at: int, kind: C1Token, e: int)
    requires
        0 <= at,
        fits(kind, s, at, e),
    ensures
        at < e <= lexeme(s, at).1,
        e == lexeme(s, at).1 ==> lexeme(s, at).0 == kind,
        lexeme(s, at).0 != C1Token::Error,
{
    match kind {
        C1Token::ConstInt => {
            lemma_longest_digits(s, at, e);
            assert(in_class(ByteClass::Digit, s[at]));
            lemma_word_or_number(s, at);
        },
        C1Token::ConstFloat => {
            lemma_longest_float(s, at, e);
        },
        C1Token::ConstString => {
            lemma_longest_string(s, at, e);
        },
        C1Token::Plus | C1Token::Minus | C1Token::Asterisk | C1Token::Slash | C1Token::Assign
        | C1Token::Equal | C1Token::NotEqual | C1Token::Less | C1Token::Greater
        | C1Token::LessEqual | C1Token::GreaterEqual | C1Token::And | C1Token::Or | C1Token::Comma
        | C1Token::Semicolon | C1Token::LeftParenthesis | C1Token::RightParenthesis
        | C1Token::LeftBrace | C1Token::RightBrace => {
            lemma_run_end(s, at + 1, ByteClass::Continuation);
        },
        C1Token::CComment | C1Token::CPPComment | C1Token::Whitespace | C1Token::Linebreak
        | C1Token::Error => {},
        _ => {
            lemma_longest_word(s, at, kind, e);
            lemma_word_or_number(s, at);
        },
    }
}

/// Whether `w` is a word, and one of the category `kind`.
pub open spec fn spells(w: Seq<u8>, kind: C1Token) -> bool {
    fits(kind, w, 0, w.len() as int)
}

/// The keywords and the boolean literals are words, each of its own
/// category.
pub proof fn lemma_keywords()
    ensures
        spells("bool".spec_bytes(), C1Token::KwBoolean),
        spells("do".spec_bytes(), C1Token::KwDo),
        spells("else".spec_bytes(), C1Token::KwElse),
        spells("float".spec_bytes(), C1Token::KwFloat),
        spells("for".spec_bytes(), C1Token::KwFor),
        spells("if".spec_bytes(), C1Token::KwIf),
        spells("int".spec_bytes(), C1Token::KwInt),
        spells("printf".spec_bytes(), C1Token::KwPrintf),
        spells("return".spec_bytes(), C1Token::KwReturn),
        spells("void".spec_bytes(), C1Token::KwVoid),
        spells("while".spec_bytes(), C1Token::KwWhile),
        spells("true".spec_bytes(), C1Token::ConstBoolean),
        spells("false".spec_bytes(), C1Token::ConstBoolean),
{
    reveal_strlit("bool");
    is_ascii_chars_encode_utf8("bool"@);
    reveal_strlit("do");
    is_ascii_chars_encode_utf8("do"@);
    reveal_strlit("else");
    is_ascii_chars_encode_utf8("else"@);
    reveal_strlit("float");
    is_ascii_chars_encode_utf8("float"@);
    reveal_strlit("for");
    is_ascii_chars_encode_utf8("for"@);
    reveal_strlit("if");
    is_ascii_chars_encode_utf8("if"@);
    reveal_strlit("int");
    is_ascii_chars_encode_utf8("int"@);
    reveal_strlit("printf");
    is_ascii_chars_encode_utf8("printf"@);
    reveal_strlit("return");
    is_ascii_chars_encode_utf8("return"@);
    reveal_strlit("void");
    is_ascii_chars_encode_utf8("void"@);
    reveal_strlit("while");
    is_ascii_chars_encode_utf8("while"@);
    reveal_strlit("true");
    is_ascii_chars_encode_utf8("true"@);
    reveal_strlit("false");
    is_ascii_chars_encode_utf8("false"@);
    let b = "bool".spec_bytes();
    assert(b.subrange(0, b.len() as int) =~= b);
    let d = "do".spec_bytes();
    assert(d.subrange(0, d.len() as int) =~= d);
    let e = "else".spec_bytes();
    assert(e.subrange(0, e.len() as int) =~= e);
    let f = "float".spec_bytes();
    assert(f.subrange(0, f.len() as int) =~= f);
    let o = "for".spec_bytes();
    assert(o.subrange(0, o.len() as int) =~= o);
    let i = "if".spec_bytes();
    assert(i.subrange(0, i.len() as int) =~= i);
    let n = "int".spec_bytes();
    assert(n.subrange(0, n.len() as int) =~= n);
    let p = "printf".spec_bytes();
    assert(p.subrange(0, p.len() as int) =~= p);
    let r = "return".spec_bytes();
    assert(r.subrange(0, r.len() as int) =~= r);
    let v = "void".spec_bytes();
    assert(v.subrange(0, v.len() as int) =~= v);
    let w = "while".spec_bytes();
    assert(w.subrange(0, w.len() as int) =~= w);
    let t = "true".spec_bytes();
    assert(t.subrange(0, t.len() as int) =~= t);
    let a = "false".spec_bytes();
    assert(a.subrange(0, a.len() as int) =~= a);
    assert(f[1] != a[1]);
}

} // verus!
