//! The lexical rules of C1, stated over the UTF-8 bytes of the source text,
//! and the scanner that follows them.
use vstd::prelude::*;
use vstd::string::StringSliceAdditionalSpecFns;
use vstd::utf8::*;

verus! {

/// The lexical categories of C1.
///
/// The last five are bookkeeping categories: `Error` stands for a character
/// that begins no lexeme, and the four before it name what the scanner
/// discards, so they never occur in a token stream.
#[derive(Debug, PartialEq, Eq, Clone, Copy, Structural)]
pub enum C1Token {
    KwBoolean,
    KwDo,
    KwElse,
    KwFloat,
    KwFor,
    KwIf,
    KwInt,
    KwPrintf,
    KwReturn,
    KwVoid,
    KwWhile,
    Plus,
    Minus,
    Asterisk,
    Slash,
    /// =
    Assign,
    /// ==
    Equal,
    /// !=
    NotEqual,
    /// <
    Less,
    /// >
    Greater,
    /// <=
    LessEqual,
    /// >=
    GreaterEqual,
    /// &&
    And,
    /// ||
    Or,
    Comma,
    Semicolon,
    /// (
    LeftParenthesis,
    /// )
    RightParenthesis,
    /// {
    LeftBrace,
    /// }
    RightBrace,
    ConstInt,
    ConstFloat,
    ConstBoolean,
    ConstString,
    Identifier,
    CComment,
    CPPComment,
    Whitespace,
    Linebreak,
    Error,
}

// The ASCII bytes that the lexical rules name.
pub const TAB: u8 = 0x09;

pub const LINE_FEED: u8 = 0x0a;

pub const FORM_FEED: u8 = 0x0c;

pub const CARRIAGE_RETURN: u8 = 0x0d;

pub const SPACE: u8 = 0x20;

pub const BANG: u8 = 0x21;

pub const QUOTE: u8 = 0x22;

pub const AMPERSAND: u8 = 0x26;

pub const LEFT_PAREN: u8 = 0x28;

pub const RIGHT_PAREN: u8 = 0x29;

pub const STAR: u8 = 0x2a;

pub const PLUS: u8 = 0x2b;

pub const COMMA: u8 = 0x2c;

pub const MINUS: u8 = 0x2d;

pub const DOT: u8 = 0x2e;

pub const SLASH: u8 = 0x2f;

pub const DIGIT_ZERO: u8 = 0x30;

pub const DIGIT_NINE: u8 = 0x39;

pub const SEMICOLON: u8 = 0x3b;

pub const LESS: u8 = 0x3c;

pub const EQUALS: u8 = 0x3d;

pub const GREATER: u8 = 0x3e;

pub const UPPER_A: u8 = 0x41;

pub const UPPER_E: u8 = 0x45;

pub const UPPER_Z: u8 = 0x5a;

pub const LOWER_A: u8 = 0x61;

pub const LOWER_E: u8 = 0x65;

pub const LOWER_Z: u8 = 0x7a;

pub const LEFT_BRACE: u8 = 0x7b;

pub const PIPE: u8 = 0x7c;

pub const RIGHT_BRACE: u8 = 0x7d;

/// `0` to `9`.
pub open spec fn is_digit(b: u8) -> bool {
    DIGIT_ZERO <= b <= DIGIT_NINE
}

/// The letters `A` to `Z` and `a` to `z`.
pub open spec fn is_letter(b: u8) -> bool {
    (UPPER_A <= b <= UPPER_Z) || (LOWER_A <= b <= LOWER_Z)
}

/// Blanks and the bytes of newline sequences.
pub open spec fn is_space(b: u8) -> bool {
    b == SPACE || b == TAB || b == FORM_FEED || b == CARRIAGE_RETURN || b == LINE_FEED
}

/// The sets of bytes of which some lexeme holds a longest run.
#[derive(Clone, Copy)]
pub enum ByteClass {
    /// `0` to `9`.
    Digit,
    /// Letters and digits.
    Alnum,
    /// Everything but a line feed: the body of a line comment.
    LineBody,
    /// Everything but a line feed and a double quote: the body of a string.
    StringBody,
    /// The bytes that continue a character begun by an earlier byte.
    Continuation,
}

/// Whether the byte `b` is of the class `c`.
pub open spec fn in_class(c: ByteClass, b: u8) -> bool {
    match c {
        ByteClass::Digit => is_digit(b),
        ByteClass::Alnum => is_letter(b) || is_digit(b),
        ByteClass::LineBody => b != LINE_FEED,
        ByteClass::StringBody => b != LINE_FEED && b != QUOTE,
        ByteClass::Continuation => is_continuation_byte(b),
    }
}

/// Whether byte `i` of `s` exists and is `b`.
pub open spec fn byte_is(s: Seq<u8>, i: int, b: u8) -> bool {
    0 <= i < s.len() && s[i] == b
}

/// Whether byte `i` of `s` exists and is a digit.
pub open spec fn digit_at(s: Seq<u8>, i: int) -> bool {
    0 <= i < s.len() && is_digit(s[i])
}

/// Where the longest run of bytes of class `c` that begins at `at` ends.
pub open spec fn run_end(s: Seq<u8>, at: int, c: ByteClass) -> int
    decreases s.len() - at,
{
    if 0 <= at < s.len() && in_class(c, s[at]) {
        run_end(s, at + 1, c)
    } else {
        at
    }
}

/// The offset just past the first `*/` that begins at or after `p`.
pub open spec fn comment_close(s: Seq<u8>, p: int) -> Option<int>
    decreases s.len() - p,
{
    if p < 0 || p + 1 >= s.len() {
        None
    } else if s[p] == STAR && s[p + 1] == SLASH {
        Some(p + 2)
    } else {
        comment_close(s, p + 1)
    }
}

/// Where the discarded unit that begins at `at` ends; `at` itself where none
/// begins there. The units are: one blank or newline byte; a line comment,
/// from `//` up to the next line feed; a block comment, from `/*` through the
/// first `*/` after it.
pub open spec fn trivia_end(s: Seq<u8>, at: int) -> int {
    if !(0 <= at < s.len()) {
        at
    } else if is_space(s[at]) {
        at + 1
    } else if s[at] == SLASH && byte_is(s, at + 1, SLASH) {
        run_end(s, at + 2, ByteClass::LineBody)
    } else if s[at] == SLASH && byte_is(s, at + 1, STAR) {
        match comment_close(s, at + 2) {
            Some(e) => e,
            None => at,
        }
    } else {
        at
    }
}

/// The first offset at or after `at` at which no discarded unit begins.
pub open spec fn skip_trivia(s: Seq<u8>, at: int) -> int
    decreases s.len() - at,
{
    if 0 <= at < s.len() && at < trivia_end(s, at) {
        proof {
            lemma_trivia_end(s, at);
        }
        skip_trivia(s, trivia_end(s, at))
    } else {
        at
    }
}

/// What a word (a letter followed by letters and digits) is: a keyword, a
/// boolean literal, or an identifier.
pub open spec fn word_kind(w: Seq<u8>) -> C1Token {
    if w == "bool".spec_bytes() {
        C1Token::KwBoolean
    } else if w == "do".spec_bytes() {
        C1Token::KwDo
    } else if w == "else".spec_bytes() {
        C1Token::KwElse
    } else if w == "float".spec_bytes() {
        C1Token::KwFloat
    } else if w == "for".spec_bytes() {
        C1Token::KwFor
    } else if w == "if".spec_bytes() {
        C1Token::KwIf
    } else if w == "int".spec_bytes() {
        C1Token::KwInt
    } else if w == "printf".spec_bytes() {
        C1Token::KwPrintf
    } else if w == "return".spec_bytes() {
        C1Token::KwReturn
    } else if w == "void".spec_bytes() {
        C1Token::KwVoid
    } else if w == "while".spec_bytes() {
        C1Token::KwWhile
    } else if w == "true".spec_bytes() || w == "false".spec_bytes() {
        C1Token::ConstBoolean
    } else {
        C1Token::Identifier
    }
}

/// Where the exponent (`e` or `E`, an optional sign, digits) that begins at
/// `p` ends; `p` itself where none begins there.
pub open spec fn exponent_end(s: Seq<u8>, p: int) -> int {
    if byte_is(s, p, LOWER_E) || byte_is(s, p, UPPER_E) {
        let q = if byte_is(s, p + 1, PLUS) || byte_is(s, p + 1, MINUS) {
            p + 2
        } else {
            p + 1
        };
        if digit_at(s, q) {
            run_end(s, q, ByteClass::Digit)
        } else {
            p
        }
    } else {
        p
    }
}

/// The literal that begins with the digit at `at`: digits, a dot and digits
/// is a float; digits and an exponent is a float; digits alone are an integer.
pub open spec fn number(s: Seq<u8>, at: int) -> (C1Token, int) {
    let d = run_end(s, at, ByteClass::Digit);
    if byte_is(s, d, DOT) && digit_at(s, d + 1) {
        (C1Token::ConstFloat, run_end(s, d + 1, ByteClass::Digit))
    } else if d < exponent_end(s, d) {
        (C1Token::ConstFloat, exponent_end(s, d))
    } else {
        (C1Token::ConstInt, d)
    }
}

/// The lexical-error unit at `at`: the one character that begins there.
pub open spec fn stray(s: Seq<u8>, at: int) -> (C1Token, int) {
    (C1Token::Error, run_end(s, at + 1, ByteClass::Continuation))
}

/// One of two operators that share their first byte: the longer one where
/// `second` follows, else the shorter.
pub open spec fn one_or_two(s: Seq<u8>, at: int, second: u8, long: C1Token, short: C1Token) -> (
    C1Token,
    int,
) {
    if byte_is(s, at + 1, second) {
        (long, at + 2)
    } else {
        (short, at + 1)
    }
}

/// The operator of two bytes that begins at `at`, where `second` follows;
/// else a lexical error.
pub open spec fn two_or_stray(s: Seq<u8>, at: int, second: u8, long: C1Token) -> (C1Token, int) {
    if byte_is(s, at + 1, second) {
        (long, at + 2)
    } else {
        stray(s, at)
    }
}

/// The lexeme that begins at `at`, where no discarded unit begins: its
/// category and the offset at which it ends. Of the lexemes that match there
/// the longest wins; a word that spells a keyword or a boolean literal is
/// that and no identifier.
pub open spec fn lexeme(s: Seq<u8>, at: int) -> (C1Token, int)
    recommends
        0 <= at < s.len(),
{
    let b = s[at];
    if is_letter(b) {
        let e = run_end(s, at, ByteClass::Alnum);
        (word_kind(s.subrange(at, e)), e)
    } else if is_digit(b) {
        number(s, at)
    } else if b == DOT {
        if digit_at(s, at + 1) {
            (C1Token::ConstFloat, exponent_end(s, run_end(s, at + 1, ByteClass::Digit)))
        } else {
            stray(s, at)
        }
    } else if b == QUOTE {
        let e = run_end(s, at + 1, ByteClass::StringBody);
        if byte_is(s, e, QUOTE) {
            (C1Token::ConstString, e + 1)
        } else {
            stray(s, at)
        }
    } else if b == PLUS {
        (C1Token::Plus, at + 1)
    } else if b == MINUS {
        (C1Token::Minus, at + 1)
    } else if b == STAR {
        (C1Token::Asterisk, at + 1)
    } else if b == SLASH {
        (C1Token::Slash, at + 1)
    } else if b == EQUALS {
        one_or_two(s, at, EQUALS, C1Token::Equal, C1Token::Assign)
    } else if b == LESS {
        one_or_two(s, at, EQUALS, C1Token::LessEqual, C1Token::Less)
    } else if b == GREATER {
        one_or_two(s, at, EQUALS, C1Token::GreaterEqual, C1Token::Greater)
    } else if b == BANG {
        two_or_stray(s, at, EQUALS, C1Token::NotEqual)
    } else if b == AMPERSAND {
        two_or_stray(s, at, AMPERSAND, C1Token::And)
    } else if b == PIPE {
        two_or_stray(s, at, PIPE, C1Token::Or)
    } else if b == COMMA {
        (C1Token::Comma, at + 1)
    } else if b == SEMICOLON {
        (C1Token::Semicolon, at + 1)
    } else if b == LEFT_PAREN {
        (C1Token::LeftParenthesis, at + 1)
    } else if b == RIGHT_PAREN {
        (C1Token::RightParenthesis, at + 1)
    } else if b == LEFT_BRACE {
        (C1Token::LeftBrace, at + 1)
    } else if b == RIGHT_BRACE {
        (C1Token::RightBrace, at + 1)
    } else {
        stray(s, at)
    }
}

/// A lexeme of a text: its category and the bytes `start..end` that it spans.
pub struct Lexeme {
    pub kind: C1Token,
    pub start: int,
    pub end: int,
}

/// The lexemes of `s` from offset `at` on, in order.
pub open spec fn lexemes_from(s: Seq<u8>, at: int) -> Seq<Lexeme>
    decreases s.len() - at,
{
    let p = skip_trivia(s, at);
    if 0 <= at && p < s.len() {
        proof {
            lemma_skip_trivia(s, at);
            lemma_lexeme(s, p);
        }
        seq![Lexeme { kind: lexeme(s, p).0, start: p, end: lexeme(s, p).1 }] + lexemes_from(
            s,
            lexeme(s, p).1,
        )
    } else {
        seq![]
    }
}

/// The lexemes of `s`, in order.
pub open spec fn lexemes(s: Seq<u8>) -> Seq<Lexeme> {
    lexemes_from(s, 0)
}

/// Whether byte `i` of `s` ends a newline sequence: a line feed, or a carriage
/// return that no line feed follows.
pub open spec fn ends_line(s: Seq<u8>, i: int) -> bool {
    byte_is(s, i, LINE_FEED) || (byte_is(s, i, CARRIAGE_RETURN) && !byte_is(s, i + 1, LINE_FEED))
}

/// The number of newline sequences that end before offset `upto`.
pub open spec fn breaks(s: Seq<u8>, upto: int) -> nat
    decreases upto,
{
    if upto <= 0 {
        0
    } else {
        breaks(s, upto - 1) + if ends_line(s, upto - 1) {
            1nat
        } else {
            0nat
        }
    }
}

/// The 1-based line of the source on which offset `at` lies.
pub open spec fn line_of(s: Seq<u8>, at: int) -> nat {
    1 + breaks(s, at)
}

/// A run ends at or after its start, within the text; its bytes are of the
/// class, and the byte that follows it is not.
pub proof fn lemma_run_end(s: Seq<u8>, at: int, c: ByteClass)
    requires
        0 <= at <= s.len(),
    ensures
        at <= run_end(s, at, c) <= s.len(),
        forall|k: int| at <= k < run_end(s, at, c) ==> in_class(c, #[trigger] s[k]),
        run_end(s, at, c) < s.len() ==> !in_class(c, s[run_end(s, at, c)]),
    decreases s.len() - at,
{
    if at < s.len() && in_class(c, s[at]) {
        lemma_run_end(s, at + 1, c);
    }
}

/// A comment closes, if it does, within the text, behind a `*/`.
pub proof fn lemma_comment_close(s: Seq<u8>, p: int)
    requires
        0 <= p,
    ensures
        comment_close(s, p) matches Some(e) ==> p + 2 <= e <= s.len() && s[e - 1] == SLASH,
    decreases s.len() - p,
{
    if p + 1 < s.len() && !(s[p] == STAR && s[p + 1] == SLASH) {
        lemma_comment_close(s, p + 1);
    }
}

/// A discarded unit ends within the text.
pub proof fn lemma_trivia_end(s: Seq<u8>, at: int)
    requires
        0 <= at <= s.len(),
    ensures
        at <= trivia_end(s, at) <= s.len(),
{
    if at < s.len() {
        if byte_is(s, at + 1, SLASH) {
            lemma_run_end(s, at + 2, ByteClass::LineBody);
        }
        lemma_comment_close(s, at + 2);
    }
}

/// Skipping moves forward, stays within the text, and ends where no
/// discarded unit begins.
pub proof fn lemma_skip_trivia(s: Seq<u8>, at: int)
    requires
        0 <= at,
    ensures
        at <= skip_trivia(s, at),
        at <= s.len() ==> skip_trivia(s, at) <= s.len(),
        trivia_end(s, skip_trivia(s, at)) == skip_trivia(s, at),
    decreases s.len() - at,
{
    if at < s.len() {
        lemma_trivia_end(s, at);
        if at < trivia_end(s, at) {
            lemma_skip_trivia(s, trivia_end(s, at));
        }
    }
}

/// An exponent ends at or after its start, within the text.
pub proof fn lemma_exponent_end(s: Seq<u8>, p: int)
    requires
        0 <= p <= s.len(),
    ensures
        p <= exponent_end(s, p) <= s.len(),
        p < exponent_end(s, p) ==> is_digit(s[exponent_end(s, p) - 1]),
{
    if byte_is(s, p, LOWER_E) || byte_is(s, p, UPPER_E) {
        let q = if byte_is(s, p + 1, PLUS) || byte_is(s, p + 1, MINUS) {
            p + 2
        } else {
            p + 1
        };
        if digit_at(s, q) {
            lemma_run_end(s, q, ByteClass::Digit);
            lemma_run_end(s, q + 1, ByteClass::Digit);
        }
    }
}

/// A lexeme is not empty and ends within the text.
pub proof fn lemma_lexeme(s: Seq<u8>, at: int)
    requires
        0 <= at < s.len(),
    ensures
        at < lexeme(s, at).1 <= s.len(),
{
    lemma_run_end(s, at, ByteClass::Alnum);
    lemma_run_end(s, at, ByteClass::Digit);
    lemma_run_end(s, at + 1, ByteClass::Alnum);
    lemma_run_end(s, at + 1, ByteClass::Digit);
    lemma_run_end(s, at + 1, ByteClass::StringBody);
    lemma_run_end(s, at + 1, ByteClass::Continuation);
    let d = run_end(s, at, ByteClass::Digit);
    lemma_exponent_end(s, d);
    if d + 1 <= s.len() {
        lemma_run_end(s, d + 1, ByteClass::Digit);
    }
    let f = run_end(s, at + 1, ByteClass::Digit);
    lemma_exponent_end(s, f);
}

/// Whether `k` is one of the categories that stand for discarded text.
pub open spec fn is_discarded(k: C1Token) -> bool {
    k == C1Token::CComment || k == C1Token::CPPComment || k == C1Token::Whitespace || k
        == C1Token::Linebreak
}

/// No lexeme is of a category that stands for discarded text.
pub proof fn lemma_lexeme_kind(s: Seq<u8>, at: int)
    ensures
        !is_discarded(lexeme(s, at).0),
{
}

/// What the lexemes of a text are: each is the lexeme that begins at its
/// start, and it starts at the first offset, behind the lexeme before it,
/// at which no discarded unit begins.
pub proof fn lemma_lexemes(s: Seq<u8>, at: int, k: int)
    requires
        0 <= at,
        0 <= k < lexemes_from(s, at).len(),
    ensures
        ({
            let l = lexemes_from(s, at)[k];
            let from = if k == 0 {
                at
            } else {
                lexemes_from(s, at)[k - 1].end
            };
            &&& from <= l.start < l.end <= s.len()
            &&& l.start == skip_trivia(s, from)
            &&& (l.kind, l.end) == lexeme(s, l.start)
            &&& !is_discarded(l.kind)
        }),
    decreases k,
{
    let p = skip_trivia(s, at);
    lemma_skip_trivia(s, at);
    lemma_lexeme(s, p);
    lemma_lexeme_kind(s, p);
    let first = Lexeme { kind: lexeme(s, p).0, start: p, end: lexeme(s, p).1 };
    let rest = lexemes_from(s, first.end);
    assert(lexemes_from(s, at) == seq![first] + rest);
    if k > 0 {
        assert(lexemes_from(s, at)[k] == rest[k - 1]);
        if k > 1 {
            assert(lexemes_from(s, at)[k - 1] == rest[k - 2]);
        }
        lemma_lexemes(s, first.end, k - 1);
    }
}

/// In well-formed UTF-8 a character begins behind every ASCII byte.
pub proof fn lemma_after_ascii(s: Seq<u8>, i: int)
    requires
        valid_utf8(s),
        0 <= i < s.len(),
        s[i] < 0x80,
    ensures
        is_char_boundary(s, i + 1),
{
    is_char_boundary_iff_not_is_continuation_byte(s, i);
    if i + 1 == s.len() {
        is_char_boundary_start_end_of_seq(s);
    } else {
        valid_utf8_split(s, i);
        let t = s.subrange(i, s.len() as int);
        assert(t[0] == s[i]);
        assert(t[1] == s[i + 1]);
        assert(length_of_first_scalar(t) == 1);
        assert(valid_utf8(pop_first_scalar(t)));
        assert(is_char_boundary(t, 1)) by {
            reveal_with_fuel(is_char_boundary, 2);
        }
        is_char_boundary_iff_not_is_continuation_byte(t, 1);
        is_char_boundary_iff_not_is_continuation_byte(s, i + 1);
    }
}

/// In well-formed UTF-8 a character begins at the end of the text and at
/// every byte that continues none.
pub proof fn lemma_boundary(s: Seq<u8>, i: int)
    requires
        valid_utf8(s),
        0 <= i <= s.len(),
        i < s.len() ==> !is_continuation_byte(s[i]),
    ensures
        is_char_boundary(s, i),
{
    if i == s.len() {
        is_char_boundary_start_end_of_seq(s);
    } else {
        is_char_boundary_iff_not_is_continuation_byte(s, i);
    }
}

/// In well-formed UTF-8 a discarded unit ends where a character begins.
pub proof fn lemma_trivia_boundary(s: Seq<u8>, at: int)
    requires
        valid_utf8(s),
        0 <= at < s.len(),
        at < trivia_end(s, at),
    ensures
        is_char_boundary(s, trivia_end(s, at)),
{
    let e = trivia_end(s, at);
    if is_space(s[at]) {
        lemma_after_ascii(s, at);
    } else if byte_is(s, at + 1, SLASH) {
        lemma_run_end(s, at + 2, ByteClass::LineBody);
        lemma_boundary(s, e);
    } else {
        lemma_comment_close(s, at + 2);
        lemma_after_ascii(s, e - 1);
    }
}

/// In well-formed UTF-8 skipping ends where a character begins, if it began
/// at one.
pub proof fn lemma_skip_boundary(s: Seq<u8>, at: int)
    requires
        valid_utf8(s),
        0 <= at <= s.len(),
        is_char_boundary(s, at),
    ensures
        is_char_boundary(s, skip_trivia(s, at)),
    decreases s.len() - at,
{
    if at < s.len() && at < trivia_end(s, at) {
        lemma_trivia_end(s, at);
        lemma_trivia_boundary(s, at);
        lemma_skip_boundary(s, trivia_end(s, at));
    }
}

/// In well-formed UTF-8 a lexeme ends where a character begins.
pub proof fn lemma_lexeme_boundary(s: Seq<u8>, at: int)
    requires
        valid_utf8(s),
        0 <= at < s.len(),
    ensures
        is_char_boundary(s, lexeme(s, at).1),
{
    lemma_lexeme(s, at);
    let e = lexeme(s, at).1;
    if lexeme(s, at) == stray(s, at) {
        lemma_run_end(s, at + 1, ByteClass::Continuation);
        lemma_boundary(s, e);
    } else {
        assert(s[e - 1] < 0x80) by {
            lemma_run_end(s, at, ByteClass::Alnum);
            lemma_run_end(s, at, ByteClass::Digit);
            lemma_run_end(s, at + 1, ByteClass::Digit);
            lemma_run_end(s, at + 1, ByteClass::StringBody);
            let d = run_end(s, at, ByteClass::Digit);
            lemma_exponent_end(s, d);
            if d + 1 <= s.len() {
                lemma_run_end(s, d + 1, ByteClass::Digit);
            }
            lemma_exponent_end(s, run_end(s, at + 1, ByteClass::Digit));
        }
        lemma_after_ascii(s, e - 1);
    }
}

/// The number of newline sequences that end in `from..to`.
pub open spec fn breaks_between(s: Seq<u8>, from: int, to: int) -> nat {
    (breaks(s, to) - breaks(s, from)) as nat
}

/// No more newline sequences end before an offset than bytes lie before it,
/// and none is lost as the offset grows.
pub proof fn lemma_breaks(s: Seq<u8>, from: int, to: int)
    requires
        0 <= from <= to,
    ensures
        breaks(s, from) <= breaks(s, to) <= breaks(s, from) + (to - from),
        breaks(s, from) <= from,
    decreases to,
{
    if from < to {
        lemma_breaks(s, from, to - 1);
    } else if 0 < from {
        lemma_breaks(s, from - 1, from - 1);
    }
}

/// Whether the byte `b` is of the class `c`.
fn class_holds(c: ByteClass, b: u8) -> (r: bool)
    ensures
        r == in_class(c, b),
{
    match c {
        ByteClass::Digit => DIGIT_ZERO <= b && b <= DIGIT_NINE,
        ByteClass::Alnum => (UPPER_A <= b && b <= UPPER_Z) || (LOWER_A <= b && b <= LOWER_Z) || (
        DIGIT_ZERO <= b && b <= DIGIT_NINE),
        ByteClass::LineBody => b != LINE_FEED,
        ByteClass::StringBody => b != LINE_FEED && b != QUOTE,
        ByteClass::Continuation => 0x80 <= b && b <= 0xbf,
    }
}

/// Whether byte `i` exists and is `b`.
fn holds(bytes: &[u8], i: usize, b: u8) -> (r: bool)
    ensures
        r == byte_is(bytes@, i as int, b),
{
    i < bytes.len() && bytes[i] == b
}

/// Whether byte `i` exists and is a digit.
fn holds_digit(bytes: &[u8], i: usize) -> (r: bool)
    ensures
        r == digit_at(bytes@, i as int),
{
    i < bytes.len() && DIGIT_ZERO <= bytes[i] && bytes[i] <= DIGIT_NINE
}

/// Finds where the longest run of bytes of class `c` from `at` on ends.
fn scan_run(bytes: &[u8], at: usize, c: ByteClass) -> (r: usize)
    requires
        at <= bytes.len(),
    ensures
        r == run_end(bytes@, at as int, c),
        at <= r <= bytes.len(),
{
    let mut i: usize = at;
    while i < bytes.len() && class_holds(c, bytes[i])
        invariant
            at <= i <= bytes.len(),
            run_end(bytes@, i as int, c) == run_end(bytes@, at as int, c),
        decreases bytes.len() - i,
    {
        i += 1;
    }
    i
}

/// Finds the offset just past the first `*/` at or after `p`.
fn scan_comment_close(bytes: &[u8], p: usize) -> (r: Option<usize>)
    requires
        p <= bytes.len(),
    ensures
        match r {
            Some(e) => comment_close(bytes@, p as int) == Some(e as int) && p + 2 <= e
                <= bytes.len(),
            None => comment_close(bytes@, p as int) is None,
        },
{
    let mut i: usize = p;
    while i < bytes.len() && i + 1 < bytes.len()
        invariant
            p <= i <= bytes.len(),
            comment_close(bytes@, i as int) == comment_close(bytes@, p as int),
        decreases bytes.len() - i,
    {
        if bytes[i] == STAR && bytes[i + 1] == SLASH {
            return Some(i + 2);
        }
        i += 1;
    }
    None
}

/// Finds where the discarded unit that begins at `at` ends.
fn scan_trivia_end(bytes: &[u8], at: usize) -> (r: usize)
    requires
        at < bytes.len(),
    ensures
        r == trivia_end(bytes@, at as int),
        at <= r <= bytes.len(),
{
    let b = bytes[at];
    if b == SPACE || b == TAB || b == FORM_FEED || b == CARRIAGE_RETURN || b == LINE_FEED {
        at + 1
    } else if b == SLASH && holds(bytes, at + 1, SLASH) {
        scan_run(bytes, at + 2, ByteClass::LineBody)
    } else if b == SLASH && holds(bytes, at + 1, STAR) {
        match scan_comment_close(bytes, at + 2) {
            Some(e) => e,
            None => at,
        }
    } else {
        at
    }
}

/// Finds the first offset at or after `at` at which no discarded unit begins.
fn scan_skip(bytes: &[u8], at: usize) -> (r: usize)
    requires
        at <= bytes.len(),
    ensures
        r == skip_trivia(bytes@, at as int),
        at <= r <= bytes.len(),
{
    let mut i: usize = at;
    let mut more = true;
    while more
        invariant
            at <= i <= bytes.len(),
            skip_trivia(bytes@, i as int) == skip_trivia(bytes@, at as int),
            !more ==> skip_trivia(bytes@, i as int) == i,
        decreases bytes.len() - i, if more { 1int } else { 0int },
    {
        if i < bytes.len() {
            let e = scan_trivia_end(bytes, i);
            if i < e {
                i = e;
            } else {
                more = false;
            }
        } else {
            more = false;
        }
    }
    i
}

/// Whether the bytes `from..to` are those of `word`.
fn spells(bytes: &[u8], from: usize, to: usize, word: &str) -> (r: bool)
    requires
        from <= to <= bytes.len(),
    ensures
        r == (bytes@.subrange(from as int, to as int) == word.spec_bytes()),
{
    let w = word.as_bytes();
    if w.len() != to - from {
        return false;
    }
    let mut i: usize = 0;
    while i < w.len()
        invariant
            from <= to <= bytes.len(),
            w@.len() == to - from,
            w@ == word.spec_bytes(),
            i <= w@.len(),
            forall|k: int| 0 <= k < i ==> bytes@[from + k] == w@[k],
        decreases w@.len() - i,
    {
        if bytes[from + i] != w[i] {
            assert(bytes@.subrange(from as int, to as int)[i as int] != w@[i as int]);
            return false;
        }
        i += 1;
    }
    assert(bytes@.subrange(from as int, to as int) =~= w@);
    true
}

/// What the word in the bytes `from..to` is.
fn scan_word_kind(bytes: &[u8], from: usize, to: usize) -> (r: C1Token)
    requires
        from <= to <= bytes.len(),
    ensures
        r == word_kind(bytes@.subrange(from as int, to as int)),
{
    if spells(bytes, from, to, "bool") {
        C1Token::KwBoolean
    } else if spells(bytes, from, to, "do") {
        C1Token::KwDo
    } else if spells(bytes, from, to, "else") {
        C1Token::KwElse
    } else if spells(bytes, from, to, "float") {
        C1Token::KwFloat
    } else if spells(bytes, from, to, "for") {
        C1Token::KwFor
    } else if spells(bytes, from, to, "if") {
        C1Token::KwIf
    } else if spells(bytes, from, to, "int") {
        C1Token::KwInt
    } else if spells(bytes, from, to, "printf") {
        C1Token::KwPrintf
    } else if spells(bytes, from, to, "return") {
        C1Token::KwReturn
    } else if spells(bytes, from, to, "void") {
        C1Token::KwVoid
    } else if spells(bytes, from, to, "while") {
        C1Token::KwWhile
    } else if spells(bytes, from, to, "true") || spells(bytes, from, to, "false") {
        C1Token::ConstBoolean
    } else {
        C1Token::Identifier
    }
}

/// Finds where the exponent that begins at `p` ends.
fn scan_exponent_end(bytes: &[u8], p: usize) -> (r: usize)
    requires
        p <= bytes.len(),
    ensures
        r == exponent_end(bytes@, p as int),
        p <= r <= bytes.len(),
{
    if holds(bytes, p, LOWER_E) || holds(bytes, p, UPPER_E) {
        let q: usize = if holds(bytes, p + 1, PLUS) || holds(bytes, p + 1, MINUS) {
            p + 2
        } else {
            p + 1
        };
        if holds_digit(bytes, q) {
            scan_run(bytes, q, ByteClass::Digit)
        } else {
            p
        }
    } else {
        p
    }
}

/// Scans the literal that begins with the digit at `at`.
fn scan_number(bytes: &[u8], at: usize) -> (r: (C1Token, usize))
    requires
        at < bytes.len(),
    ensures
        r.0 == number(bytes@, at as int).0,
        r.1 == number(bytes@, at as int).1,
{
    let d = scan_run(bytes, at, ByteClass::Digit);
    if holds(bytes, d, DOT) && holds_digit(bytes, d + 1) {
        (C1Token::ConstFloat, scan_run(bytes, d + 1, ByteClass::Digit))
    } else {
        let x = scan_exponent_end(bytes, d);
        if d < x {
            (C1Token::ConstFloat, x)
        } else {
            (C1Token::ConstInt, d)
        }
    }
}

/// Scans the one character at `at` as a lexical error.
fn scan_stray(bytes: &[u8], at: usize) -> (r: (C1Token, usize))
    requires
        at < bytes.len(),
    ensures
        r.0 == stray(bytes@, at as int).0,
        r.1 == stray(bytes@, at as int).1,
{
    (C1Token::Error, scan_run(bytes, at + 1, ByteClass::Continuation))
}

/// Scans one of two operators that share their first byte.
fn scan_one_or_two(bytes: &[u8], at: usize, second: u8, long: C1Token, short: C1Token) -> (r: (
    C1Token,
    usize,
))
    requires
        at < bytes.len(),
    ensures
        r.0 == one_or_two(bytes@, at as int, second, long, short).0,
        r.1 == one_or_two(bytes@, at as int, second, long, short).1,
{
    if holds(bytes, at + 1, second) {
        (long, at + 2)
    } else {
        (short, at + 1)
    }
}

/// Scans an operator of two bytes, or its first byte as a lexical error.
fn scan_two_or_stray(bytes: &[u8], at: usize, second: u8, long: C1Token) -> (r: (C1Token, usize))
    requires
        at < bytes.len(),
    ensures
        r.0 == two_or_stray(bytes@, at as int, second, long).0,
        r.1 == two_or_stray(bytes@, at as int, second, long).1,
{
    if holds(bytes, at + 1, second) {
        (long, at + 2)
    } else {
        scan_stray(bytes, at)
    }
}

/// Scans the lexeme that begins at `at`.
fn scan_lexeme(bytes: &[u8], at: usize) -> (r: (C1Token, usize))
    requires
        at < bytes.len(),
    ensures
        r.0 == lexeme(bytes@, at as int).0,
        r.1 == lexeme(bytes@, at as int).1,
        at < r.1 <= bytes.len(),
{
    proof {
        lemma_lexeme(bytes@, at as int);
    }
    let b = bytes[at];
    if (UPPER_A <= b && b <= UPPER_Z) || (LOWER_A <= b && b <= LOWER_Z) {
        let e = scan_run(bytes, at, ByteClass::Alnum);
        (scan_word_kind(bytes, at, e), e)
    } else if DIGIT_ZERO <= b && b <= DIGIT_NINE {
        scan_number(bytes, at)
    } else if b == DOT {
        if holds_digit(bytes, at + 1) {
            let f = scan_run(bytes, at + 1, ByteClass::Digit);
            (C1Token::ConstFloat, scan_exponent_end(bytes, f))
        } else {
            scan_stray(bytes, at)
        }
    } else if b == QUOTE {
        let e = scan_run(bytes, at + 1, ByteClass::StringBody);
        if holds(bytes, e, QUOTE) {
            (C1Token::ConstString, e + 1)
        } else {
            scan_stray(bytes, at)
        }
    } else if b == PLUS {
        (C1Token::Plus, at + 1)
    } else if b == MINUS {
        (C1Token::Minus, at + 1)
    } else if b == STAR {
        (C1Token::Asterisk, at + 1)
    } else if b == SLASH {
        (C1Token::Slash, at + 1)
    } else if b == EQUALS {
        scan_one_or_two(bytes, at, EQUALS, C1Token::Equal, C1Token::Assign)
    } else if b == LESS {
        scan_one_or_two(bytes, at, EQUALS, C1Token::LessEqual, C1Token::Less)
    } else if b == GREATER {
        scan_one_or_two(bytes, at, EQUALS, C1Token::GreaterEqual, C1Token::Greater)
    } else if b == BANG {
        scan_two_or_stray(bytes, at, EQUALS, C1Token::NotEqual)
    } else if b == AMPERSAND {
        scan_two_or_stray(bytes, at, AMPERSAND, C1Token::And)
    } else if b == PIPE {
        scan_two_or_stray(bytes, at, PIPE, C1Token::Or)
    } else if b == COMMA {
        (C1Token::Comma, at + 1)
    } else if b == SEMICOLON {
        (C1Token::Semicolon, at + 1)
    } else if b == LEFT_PAREN {
        (C1Token::LeftParenthesis, at + 1)
    } else if b == RIGHT_PAREN {
        (C1Token::RightParenthesis, at + 1)
    } else if b == LEFT_BRACE {
        (C1Token::LeftBrace, at + 1)
    } else if b == RIGHT_BRACE {
        (C1Token::RightBrace, at + 1)
    } else {
        scan_stray(bytes, at)
    }
}

/// Counts the newline sequences that end in the bytes `from..to`.
fn count_breaks(bytes: &[u8], from: usize, to: usize) -> (r: usize)
    requires
        from <= to <= bytes.len(),
    ensures
        r == breaks_between(bytes@, from as int, to as int),
        r <= to - from,
{
    let mut n: usize = 0;
    let mut i: usize = from;
    while i < to
        invariant
            from <= i <= to <= bytes.len(),
            n == breaks_between(bytes@, from as int, i as int),
            n <= i - from,
        decreases to - i,
    {
        proof {
            lemma_breaks(bytes@, from as int, i as int);
        }
        if bytes[i] == LINE_FEED || (bytes[i] == CARRIAGE_RETURN && !holds(
            bytes,
            i + 1,
            LINE_FEED,
        )) {
            n += 1;
        }
        i += 1;
    }
    n
}

/// What the scanner found: a lexeme, and the number of newline sequences
/// that end before it and inside it.
pub struct Scanned {
    pub kind: C1Token,
    pub start: usize,
    pub end: usize,
    pub breaks_before: usize,
    pub breaks_within: usize,
}

/// Finds the first lexeme at or after offset `at`, if there is one.
pub fn scan(bytes: &[u8], at: usize) -> (r: Option<Scanned>)
    requires
        at <= bytes.len(),
    ensures
        match r {
            Some(t) => {
                &&& t.start == skip_trivia(bytes@, at as int)
                &&& at <= t.start < t.end <= bytes.len()
                &&& (t.kind, t.end as int) == lexeme(bytes@, t.start as int)
                &&& t.breaks_before == breaks_between(bytes@, at as int, t.start as int)
                &&& t.breaks_within == breaks_between(bytes@, t.start as int, t.end as int)
            },
            None => skip_trivia(bytes@, at as int) >= bytes.len(),
        },
{
    let start = scan_skip(bytes, at);
    if start < bytes.len() {
        let (kind, end) = scan_lexeme(bytes, start);
        let breaks_before = count_breaks(bytes, at, start);
        let breaks_within = count_breaks(bytes, start, end);
        Some(Scanned { kind, start, end, breaks_before, breaks_within })
    } else {
        None
    }
}

} // verus!
