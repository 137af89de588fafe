//! The token stream of a text, and the buffer that lets a recognizer read it
//! speculatively: peek, advance, mark, undo and release.
use crate::scan::{breaks, lemma_breaks, lemma_lexeme_boundary, lemma_skip_boundary, lemma_skip_trivia};
use crate::scan::{lexeme, lexemes, lexemes_from, line_of, scan, Lexeme};
use vstd::prelude::*;
use vstd::string::StringSliceAdditionalSpecFns;
use vstd::utf8::*;

pub use crate::scan::C1Token;

verus! {

/// A token: its category, the exact text that was matched, and the 1-based
/// line of the source on which it starts.
pub struct Token {
    pub kind: C1Token,
    pub text: Seq<char>,
    pub line: nat,
}

/// The token that lexeme `l` of the text `s` stands for.
pub open spec fn token_of(s: Seq<u8>, l: Lexeme) -> Token {
    Token { kind: l.kind, text: decode_utf8(s.subrange(l.start, l.end)), line: line_of(s, l.start) }
}

/// The tokens of the text whose UTF-8 bytes are `s`, in order.
pub open spec fn tokens(s: Seq<u8>) -> Seq<Token> {
    Seq::new(lexemes(s).len(), |i: int| token_of(s, lexemes(s)[i]))
}

/// The data of one token, as the buffer holds it.
#[derive(Copy, Clone, Debug)]
pub struct TokenData<'a> {
    token_type: C1Token,
    token_text: &'a str,
    token_line: usize,
}

impl<'a> View for TokenData<'a> {
    type V = Token;

    closed spec fn view(&self) -> Token {
        Token { kind: self.token_type, text: self.token_text@, line: self.token_line as nat }
    }
}

/// The tokens of a text behind a cursor, with checkpoints that nest.
///
/// A checkpoint is the value of the cursor at the moment `mark` was called.
/// While a region is open every token from `retained_from` on can be read
/// again; with none open nothing behind the cursor is kept. The text is
/// scanned as the cursor moves on, and what is held in memory grows only
/// while a region is open.
pub struct C1Lexer<'a> {
    text: &'a str,
    /// The bytes before this offset have been scanned.
    offset: usize,
    /// The newline sequences that end before `offset`.
    breaks: usize,
    /// The tokens that are kept: those of the stream from `base` on, as far
    /// as they have been scanned.
    past: Vec<TokenData<'a>>,
    base: usize,
    /// The cursor, counted from `base`.
    position: usize,
    /// The checkpoints of the open regions, the outermost first.
    open: Vec<usize>,
}

impl<'a> C1Lexer<'a> {
    /// The text that is read.
    pub closed spec fn source(&self) -> Seq<char> {
        self.text@
    }

    /// All tokens of the text.
    pub open spec fn stream(&self) -> Seq<Token> {
        tokens(encode_utf8(self.source()))
    }

    /// The number of tokens that lie before the current one.
    pub closed spec fn cursor(&self) -> nat {
        (self.base + self.position) as nat
    }

    /// The number of regions that are open.
    pub closed spec fn open_marks(&self) -> nat {
        self.open@.len()
    }

    /// The least cursor value that `undo` can go back to.
    pub closed spec fn retained_from(&self) -> nat {
        if self.open@.len() == 0 {
            self.cursor()
        } else {
            self.base as nat
        }
    }

    /// The number of tokens that the buffer holds in memory.
    pub closed spec fn held(&self) -> nat {
        self.past@.len()
    }

    /// The token at the cursor, if the cursor is not at the end.
    pub open spec fn current(&self) -> Option<Token> {
        if self.cursor() < self.stream().len() {
            Some(self.stream()[self.cursor() as int])
        } else {
            None
        }
    }

    /// Whether `self` is `pre` with nothing changed but, perhaps, the cursor.
    pub open spec fn same_regions(self, pre: Self) -> bool {
        &&& self.wf()
        &&& self.source() == pre.source()
        &&& self.open_marks() == pre.open_marks()
        &&& self.retained_from() == (if pre.open_marks() == 0 {
            self.cursor()
        } else {
            pre.retained_from()
        })
    }

    /// What `mark` does: `self` is `pre` with one more region open, and `m`
    /// is the cursor.
    pub open spec fn marked(self, pre: Self, m: usize) -> bool {
        &&& self.wf()
        &&& self.source() == pre.source()
        &&& m == pre.cursor()
        &&& self.cursor() == pre.cursor()
        &&& self.open_marks() == pre.open_marks() + 1
        &&& self.retained_from() == pre.retained_from()
    }

    /// What `undo` does: the cursor of `self` is `marker` where `marker` lies
    /// in what `pre` retains and not behind its cursor, else that of `pre`.
    pub open spec fn undone(self, pre: Self, marker: usize) -> bool {
        &&& self.same_regions(pre)
        &&& self.cursor() == (if pre.retained_from() <= marker <= pre.cursor() {
            marker as nat
        } else {
            pre.cursor()
        })
    }

    /// What `pop_mark` does: `self` is `pre` with its innermost region
    /// closed, if one was open.
    pub open spec fn released(self, pre: Self) -> bool {
        &&& self.wf()
        &&& self.source() == pre.source()
        &&& self.cursor() == pre.cursor()
        &&& self.open_marks() == (if pre.open_marks() > 0 {
            pre.open_marks() - 1
        } else {
            0
        })
        &&& self.retained_from() == (if self.open_marks() == 0 {
            self.cursor()
        } else {
            pre.retained_from()
        })
    }

    /// What `advance` does: the cursor of `self` is one token behind that of
    /// `pre`, or at the end of the stream with it.
    pub open spec fn advanced(self, pre: Self) -> bool {
        &&& self.same_regions(pre)
        &&& self.cursor() == (if pre.cursor() < pre.stream().len() {
            pre.cursor() + 1
        } else {
            pre.cursor()
        })
    }

    /// Whether `self` can be reached from `pre` by reading on: the cursor is
    /// not before that of `pre`, and the same regions are open.
    pub open spec fn read_on(self, pre: Self) -> bool {
        &&& self.same_regions(pre)
        &&& pre.cursor() <= self.cursor()
    }

    /// The number of tokens that have been scanned.
    spec fn scanned(&self) -> int {
        self.base + self.past@.len()
    }

    /// What holds of the buffer also while a token is being fetched.
    spec fn inv(&self) -> bool {
        let s = self.text.spec_bytes();
        &&& self.offset <= s.len()
        &&& is_char_boundary(s, self.offset as int)
        &&& self.breaks == breaks(s, self.offset as int)
        &&& self.scanned() <= lexemes(s).len()
        &&& self.scanned() <= self.offset
        &&& lexemes_from(s, self.offset as int) == lexemes(s).skip(self.scanned())
        &&& forall|i: int|
            0 <= i < self.past@.len() ==> (#[trigger] self.past@[i])@ == token_of(
                s,
                lexemes(s)[self.base + i],
            )
        &&& self.position <= self.past@.len()
    }

    /// The buffer's invariant: what is kept is a stretch of the stream, the
    /// cursor lies in it, and it lies at its end only at the end of the stream.
    pub closed spec fn wf(&self) -> bool {
        &&& self.inv()
        &&& self.position == self.past@.len() ==> self.scanned() == lexemes(
            self.text.spec_bytes(),
        ).len()
    }

    /// In a well-formed buffer the cursor lies within the stream and what is
    /// retained lies at or before it; with no region open nothing is retained.
    pub proof fn lemma_bounds(&self)
        requires
            self.wf(),
        ensures
            self.retained_from() <= self.cursor() <= self.stream().len(),
            self.open_marks() == 0 ==> self.retained_from() == self.cursor(),
    {
    }

    /// Checkpoints nest. Let a region be opened at checkpoint `a`, then, after
    /// reading on, a second one at checkpoint `b`. After reading on again,
    /// `undo(b)` puts the cursor exactly where `b` was taken, and a following
    /// `undo(a)` puts it exactly where `a` was taken.
    pub proof fn lemma_nested_marks(
        start: Self,
        at_a: Self,
        before_b: Self,
        at_b: Self,
        ahead: Self,
        back_at_b: Self,
        back_at_a: Self,
        a: usize,
        b: usize,
    )
        requires
            start.wf(),
            at_a.marked(start, a),
            before_b.read_on(at_a),
            at_b.marked(before_b, b),
            ahead.read_on(at_b),
            back_at_b.undone(ahead, b),
            back_at_a.undone(back_at_b, a),
        ensures
            back_at_b.cursor() == before_b.cursor(),
            back_at_a.cursor() == start.cursor(),
            back_at_a.open_marks() == start.open_marks() + 2,
    {
        start.lemma_bounds();
    }

    /// What `current_token`, `current_text` and `current_line_number` return
    /// depends on the text and the cursor alone: without `advance` between
    /// them, and whatever regions were opened, closed or gone back to the
    /// same place in, two calls return the same.
    pub proof fn lemma_current_is_stable(self, other: Self)
        requires
            self.source() == other.source(),
            self.cursor() == other.cursor(),
        ensures
            self.current() == other.current(),
    {
    }

    /// How the cursor moves: `advance` moves it on by one token, or not at
    /// all; `undo` never moves it forward; `mark` and `pop_mark` keep it.
    pub proof fn lemma_cursor_moves(self, pre: Self, m: usize)
        ensures
            self.advanced(pre) ==> pre.cursor() <= self.cursor() <= pre.cursor() + 1,
            self.undone(pre, m) ==> self.cursor() <= pre.cursor(),
            self.marked(pre, m) ==> self.cursor() == pre.cursor(),
            self.released(pre) ==> self.cursor() == pre.cursor(),
    {
    }

    /// To advance is to read on.
    pub proof fn lemma_advance_reads_on(self, pre: Self)
        requires
            pre.wf(),
            self.advanced(pre),
        ensures
            self.read_on(pre),
    {
    }

    /// Scans the next token of the text, if there is one, and keeps it.
    #[verifier::rlimit(30)]
    fn pull(&mut self) -> (got: bool)
        requires
            old(self).inv(),
        ensures
            final(self).inv(),
            final(self).text == old(self).text,
            final(self).base == old(self).base,
            final(self).position == old(self).position,
            final(self).open == old(self).open,
            got ==> final(self).past@.len() == old(self).past@.len() + 1,
            !got ==> final(self).past@ == old(self).past@ && final(self).scanned() == lexemes(
                final(self).text.spec_bytes(),
            ).len(),
    {
        let text: &'a str = self.text;
        let bytes = text.as_bytes();
        let ghost s = text.spec_bytes();
        let ghost n = self.scanned();
        proof {
            encode_utf8_valid_utf8(text@);
            lemma_skip_trivia(s, self.offset as int);
            lemma_skip_boundary(s, self.offset as int);
        }
        match scan(bytes, self.offset) {
            Some(t) => {
                let ghost lx = Lexeme { kind: t.kind, start: t.start as int, end: t.end as int };
                let ghost rest = lexemes_from(s, t.end as int);
                proof {
                    lemma_lexeme_boundary(s, t.start as int);
                    lemma_breaks(s, self.offset as int, t.start as int);
                    lemma_breaks(s, t.start as int, t.end as int);
                    lemma_breaks(s, 0, t.end as int);
                    assert(lexemes(s).skip(n) == seq![lx] + rest);
                    assert(lexemes(s).skip(n).len() >= 1);
                    assert(lexemes(s)[n] == (seq![lx] + rest)[0]);
                    assert(lexemes(s).skip(n + 1) =~= lexemes(s).skip(n).skip(1));
                    assert((seq![lx] + rest).skip(1) =~= rest);
                }
                let (head, _) = text.split_at(t.end);
                proof {
                    valid_utf8_split(s, t.end as int);
                    is_char_boundary_iff_not_is_continuation_byte(s, t.start as int);
                    is_char_boundary_iff_not_is_continuation_byte(
                        head.spec_bytes(),
                        t.start as int,
                    );
                }
                let (_, word) = head.split_at(t.start);
                proof {
                    assert(word.spec_bytes() =~= s.subrange(t.start as int, t.end as int));
                    encode_utf8_valid_utf8(word@);
                    encode_utf8_decode_utf8(word@);
                }
                let token = TokenData {
                    token_type: t.kind,
                    token_text: word,
                    token_line: self.breaks + t.breaks_before + 1,
                };
                assert(token@ == token_of(s, lx));
                self.past.push(token);
                self.breaks = self.breaks + t.breaks_before + t.breaks_within;
                self.offset = t.end;
                true
            },
            None => {
                assert(lexemes(s).skip(n).len() == 0);
                false
            },
        }
    }

    /// A buffer over the tokens of `text`, with the cursor at the first token
    /// and no region open.
    pub fn new(text: &'a str) -> (lexer: C1Lexer<'a>)
        ensures
            lexer.wf(),
            lexer.source() == text@,
            lexer.cursor() == 0,
            lexer.open_marks() == 0,
            lexer.retained_from() == 0,
            lexer.held() <= 1,
    {
        let mut lexer = C1Lexer {
            text,
            offset: 0,
            breaks: 0,
            past: Vec::new(),
            base: 0,
            position: 0,
            open: Vec::new(),
        };
        proof {
            let s = text.spec_bytes();
            encode_utf8_valid_utf8(text@);
            is_char_boundary_start_end_of_seq(s);
            assert(lexemes(s).skip(0) =~= lexemes(s));
        }
        lexer.pull();
        lexer
    }

    /// The category of the current token, without consuming it.
    pub fn current_token(&self) -> (r: Option<C1Token>)
        requires
            self.wf(),
        ensures
            r == match self.current() {
                Some(t) => Some(t.kind),
                None => None,
            },
    {
        if self.position < self.past.len() {
            Some(self.past[self.position].token_type)
        } else {
            None
        }
    }

    /// The text of the current token.
    pub fn current_text(&self) -> (r: Option<&str>)
        requires
            self.wf(),
        ensures
            match r {
                Some(text) => self.current() matches Some(t) && text@ == t.text,
                None => self.current() is None,
            },
    {
        if self.position < self.past.len() {
            Some(self.past[self.position].token_text)
        } else {
            None
        }
    }

    /// The line on which the current token starts.
    pub fn current_line_number(&self) -> (r: Option<usize>)
        requires
            self.wf(),
        ensures
            match r {
                Some(line) => self.current() matches Some(t) && line == t.line,
                None => self.current() is None,
            },
    {
        if self.position < self.past.len() {
            Some(self.past[self.position].token_line)
        } else {
            None
        }
    }

    /// Opens a region at the cursor and returns its checkpoint.
    pub fn mark(&mut self) -> (m: usize)
        requires
            old(self).wf(),
        ensures
            (*final(self)).marked(*old(self), m),
            final(self).held() <= old(self).held(),
    {
        if self.open.len() == 0 && self.position > 0 {
            let kept = self.past.split_off(self.position);
            self.past = kept;
            self.base = self.base + self.position;
            self.position = 0;
        }
        let m = self.base + self.position;
        self.open.push(m);
        m
    }

    /// Moves the cursor back to the checkpoint `marker`, if `marker` lies in
    /// what is retained and not behind the cursor; else the cursor stays.
    pub fn undo(&mut self, marker: usize)
        requires
            old(self).wf(),
        ensures
            (*final(self)).undone(*old(self), marker),
            final(self).held() == old(self).held(),
    {
        if self.open.len() > 0 && self.base <= marker && marker <= self.base + self.position {
            self.position = marker - self.base;
        }
    }

    /// Closes the innermost open region, if there is one; the cursor stays.
    pub fn pop_mark(&mut self)
        requires
            old(self).wf(),
        ensures
            (*final(self)).released(*old(self)),
            final(self).held() == old(self).held(),
    {
        self.open.pop();
    }

    /// Moves the cursor to the next token; at the end of the stream it stays.
    pub fn advance(&mut self)
        requires
            old(self).wf(),
        ensures
            (*final(self)).advanced(*old(self)),
            old(self).open_marks() > 0 ==> final(self).held() <= old(self).held() + 1,
            old(self).open_marks() == 0 ==> final(self).held() <= old(self).held()
                || final(self).held() <= 1,
    {
        if self.position < self.past.len() {
            if self.position + 1 < self.past.len() {
                self.position += 1;
            } else if self.open.len() == 0 {
                self.base = self.base + self.past.len();
                self.past.clear();
                self.position = 0;
                self.pull();
            } else {
                self.pull();
                self.position += 1;
            }
        }
    }
}

} // verus!
