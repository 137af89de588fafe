//! The recognizer: one operation for each rule of the grammar, each built on
//! the buffer's checkpoints.
use crate::diagnostic;
use crate::grammar::{generated, kinds};
use crate::lexer::{tokens, C1Lexer, C1Token};
use crate::rules;
use crate::rules::{left, Outcome};
use crate::soundness::lemma_accepts_the_language;
use crate::ParseResult;
use vstd::prelude::*;
use vstd::string::StringExecFns;
use vstd::utf8::encode_utf8;

verus! {

/// A recognizer for a text; it reads the text through the buffer it holds.
pub struct C1Parser<'a>(pub C1Lexer<'a>);

impl<'a> core::ops::Deref for C1Parser<'a> {
    type Target = C1Lexer<'a>;

    fn deref(&self) -> (r: &C1Lexer<'a>)
        ensures
            *r == self.0,
    {
        &self.0
    }
}

impl<'a> core::ops::DerefMut for C1Parser<'a> {
    fn deref_mut(&mut self) -> (r: &mut C1Lexer<'a>)
        ensures
            *r == old(self).0,
            final(self).0 == *final(r),
    {
        &mut self.0
    }
}

impl<'a> C1Parser<'a> {
    /// Whether an operation that began in state `pre`, ended in state `self`
    /// and returned `r` did what `o` says: the cursor moved on by `o.used`
    /// tokens, every region that the operation opened is closed again, and
    /// `r` is the diagnostic of `o` or, without one, acceptance.
    pub open spec fn did(self, pre: Self, r: ParseResult, o: Outcome) -> bool {
        &&& self.0.read_on(pre.0)
        &&& self.0.cursor() == pre.0.cursor() + o.used
        &&& match r {
            Ok(_) => o.failure is None,
            Err(e) => o.failure == Some(e@),
        }
    }

    /// Decides whether `text` is a program of C1: accepts exactly if the
    /// grammar generates the tokens of `text`, and else fails with the
    /// diagnostic of the rule `program`.
    pub fn parse(text: &str) -> (r: ParseResult)
        ensures
            r is Ok <==> generated(kinds(tokens(encode_utf8(text@)))),
            match r {
                Ok(_) => rules::program(tokens(encode_utf8(text@)), 0).failure is None,
                Err(e) => rules::program(tokens(encode_utf8(text@)), 0).failure == Some(e@),
            },
    {
        let mut parser = Self::initialize_parser(text);
        proof {
            lemma_accepts_the_language(parser.0.stream());
        }
        parser.program()
    }

    /// A recognizer at the first token of `text`.
    pub fn initialize_parser(text: &str) -> (parser: C1Parser<'_>)
        ensures
            parser.0.wf(),
            parser.0.source() == text@,
            parser.0.cursor() == 0,
            parser.0.open_marks() == 0,
    {
        C1Parser(C1Lexer::new(text))
    }

    /// Whether the current token is of the category `token`.
    pub fn current_matches(&self, token: &C1Token) -> (r: bool)
        requires
            self.0.wf(),
        ensures
            r == rules::kind_at(self.0.stream(), self.0.cursor(), *token),
    {
        match self.0.current_token() {
            None => false,
            Some(current) => current == *token,
        }
    }

    /// The complaint that `reason` was expected at the cursor.
    fn complain(&self, reason: &str) -> (e: String)
        requires
            self.0.wf(),
        ensures
            e@ == diagnostic::complaint(reason@, rules::found(self.0.stream(), self.0.cursor())),
    {
        let line = self.0.current_line_number();
        let text = self.0.current_text();
        match (line, text) {
            (Some(l), Some(t)) => diagnostic::complain(reason, Some((l, t))),
            _ => diagnostic::complain(reason, None),
        }
    }

    /// Consumes the current token if it is of the category `token`; else
    /// fails with the complaint that `reason` was expected.
    pub fn check_and_eat_token(&mut self, token: &C1Token, reason: &str) -> (r: ParseResult)
        requires
            old(self).0.wf(),
        ensures
            (*final(self)).did(
                *old(self),
                r,
                rules::expect(old(self).0.stream(), old(self).0.cursor(), *token, reason@),
            ),
    {
        proof {
            self.0.lemma_bounds();
        }
        if self.current_matches(token) {
            self.0.advance();
            Ok(())
        } else {
            Err(self.complain(reason))
        }
    }

    /// Consumes the current token if it is of one of the categories `token`;
    /// else fails with the complaint that `reason` was expected.
    pub fn any_match_and_eat(&mut self, token: &[C1Token], reason: &str) -> (r: ParseResult)
        requires
            old(self).0.wf(),
        ensures
            (*final(self)).did(
                *old(self),
                r,
                rules::expect_any(old(self).0.stream(), old(self).0.cursor(), token@, reason@),
            ),
    {
        proof {
            self.0.lemma_bounds();
        }
        let mut i: usize = 0;
        while i < token.len() && !self.current_matches(&token[i])
            invariant
                self.0.wf(),
                i <= token@.len(),
                forall|j: int|
                    0 <= j < i ==> !rules::kind_at(self.0.stream(), self.0.cursor(), token@[j]),
            decreases token@.len() - i,
        {
            i += 1;
        }
        if i < token.len() {
            self.0.advance();
            Ok(())
        } else {
            Err(self.complain(reason))
        }
    }

    /// The result `r` as the rule named in `trail` hands it on: a diagnostic
    /// has the rule's name behind it.
    fn within(r: ParseResult, trail: &str) -> (out: ParseResult)
        ensures
            match r {
                Ok(_) => out is Ok,
                Err(e) => out matches Err(d) && d@ == e@ + trail@,
            },
    {
        match r {
            Ok(_) => Ok(()),
            Err(e) => Err(e.concat(trail)),
        }
    }

    /// program ::= functiondefinition*, up to the end of the input
    pub fn program(&mut self) -> (r: ParseResult)
        requires
            old(self).0.wf(),
        ensures
            (*final(self)).did(
                *old(self),
                r,
                rules::program(old(self).0.stream(), old(self).0.cursor()),
            ),
            r is Ok ==> final(self).0.cursor() == final(self).0.stream().len(),
            old(self).0.cursor() == 0 ==> (r is Ok <==> generated(kinds(old(self).0.stream()))),
    {
        proof {
            rules::lemma_program_unfolds(self.0.stream(), self.0.cursor());
        }
        let ghost pre = *self;
        proof {
            lemma_accepts_the_language(self.0.stream());
        }
        let ghost ts = self.0.stream();
        let ghost start = self.0.cursor();
        proof {
            self.0.lemma_bounds();
        }
        while self.0.current_token().is_some()
            invariant
                pre == *old(self),
                self.0.read_on(pre.0),
                self.0.stream() == ts,
                ts == pre.0.stream(),
                start == pre.0.cursor(),
                rules::program(ts, 0).accepted() <==> generated(kinds(ts)),
                self.0.cursor() <= ts.len(),
                rules::program(ts, start) == rules::program(ts, self.0.cursor()).after(
                    (self.0.cursor() - start) as nat,
                ),
            decreases left(ts, self.0.cursor()),
        {
            let ghost here = self.0.cursor();
            let definition = self.function_definition();
            proof {
                rules::lemma_program_unfolds(ts, here);
                self.0.lemma_bounds();
            }
            if definition.is_err() {
                return Self::within(definition, ", in program");
            }
            proof {
                rules::lemma_definition_advances(ts, here);
            }
        }
        proof {
            rules::lemma_program_unfolds(ts, self.0.cursor());
        }
        Ok(())
    }

    /// functiondefinition ::= type ID "(" ")" "{" statementlist "}"
    pub fn function_definition(&mut self) -> (r: ParseResult)
        requires
            old(self).0.wf(),
        ensures
            (*final(self)).did(
                *old(self),
                r,
                rules::function_definition(old(self).0.stream(), old(self).0.cursor()),
            ),
    {
        let mut res = self.p_type();
        if res.is_ok() {
            res = self.check_and_eat_token(&C1Token::Identifier, "Expected function name");
        }
        if res.is_ok() {
            res = self.check_and_eat_token(&C1Token::LeftParenthesis, "Expected \"(\"");
        }
        if res.is_ok() {
            res = self.check_and_eat_token(&C1Token::RightParenthesis, "Expected \")\"");
        }
        if res.is_ok() {
            res = self.check_and_eat_token(&C1Token::LeftBrace, "Expected \"{\"");
        }
        if res.is_ok() {
            res = self.statementlist();
        }
        if res.is_ok() {
            res = self.check_and_eat_token(&C1Token::RightBrace, "Expected \"}\"");
        }
        Self::within(res, ", in function definition")
    }

    /// functioncall ::= ID "(" ")"
    pub fn functioncall(&mut self) -> (r: ParseResult)
        requires
            old(self).0.wf(),
        ensures
            (*final(self)).did(
                *old(self),
                r,
                rules::functioncall(old(self).0.stream(), old(self).0.cursor()),
            ),
    {
        let mut res = self.check_and_eat_token(&C1Token::Identifier, "Expected <ID>");
        if res.is_ok() {
            res = self.check_and_eat_token(&C1Token::LeftParenthesis, "Expected \"(\"");
        }
        if res.is_ok() {
            res = self.check_and_eat_token(&C1Token::RightParenthesis, "Expected \")\"");
        }
        Self::within(res, ", in functioncall")
    }

    /// statementlist ::= block*
    pub fn statementlist(&mut self) -> (r: ParseResult)
        requires
            old(self).0.wf(),
        ensures
            (*final(self)).did(
                *old(self),
                r,
                rules::statementlist(old(self).0.stream(), old(self).0.cursor()),
            ),
            r is Ok,
        decreases left(old(self).0.stream(), old(self).0.cursor()), 4nat,
    {
        proof {
            rules::lemma_statementlist_unfolds(self.0.stream(), self.0.cursor());
        }
        let ghost pre = *self;
        let ghost ts = self.0.stream();
        let ghost start = self.0.cursor();
        proof {
            self.0.lemma_bounds();
        }
        let mut m = self.0.mark();
        let mut going = true;
        while going
            invariant
                self.0.wf(),
                self.0.source() == pre.0.source(),
                self.0.stream() == ts,
                ts == pre.0.stream(),
                start == pre.0.cursor(),
                pre == *old(self),
                self.0.open_marks() == pre.0.open_marks() + 1,
                pre.0.open_marks() > 0 ==> self.0.retained_from() == pre.0.retained_from(),
                self.0.retained_from() <= m,
                start <= m <= self.0.cursor() <= ts.len(),
                going ==> m == self.0.cursor(),
                rules::statementlist(ts, start) == rules::statementlist(ts, m as nat).after(
                    (m - start) as nat,
                ),
                !going ==> rules::statementlist(ts, m as nat) == rules::accept(0),
            decreases left(ts, m as nat), if going { 1nat } else { 0nat },
        {
            let attempt = self.block();
            proof {
                rules::lemma_statementlist_unfolds(ts, m as nat);
                self.0.lemma_bounds();
            }
            if attempt.is_ok() {
                proof {
                    rules::lemma_block_advances(ts, m as nat);
                }
                self.0.pop_mark();
                m = self.0.mark();
            } else {
                going = false;
            }
        }
        self.0.undo(m);
        self.0.pop_mark();
        Ok(())
    }

    /// "{" statementlist "}", the first alternative of block
    pub fn braced(&mut self) -> (r: ParseResult)
        requires
            old(self).0.wf(),
        ensures
            (*final(self)).did(
                *old(self),
                r,
                rules::braced(old(self).0.stream(), old(self).0.cursor()),
            ),
        decreases left(old(self).0.stream(), old(self).0.cursor()), 2nat,
    {
        proof {
            rules::lemma_braced_unfolds(self.0.stream(), self.0.cursor());
        }
        proof {
            self.0.lemma_bounds();
        }
        let mut res = self.check_and_eat_token(&C1Token::LeftBrace, "Expected \"{\"");
        if res.is_ok() {
            res = self.statementlist();
        }
        if res.is_ok() {
            res = self.check_and_eat_token(&C1Token::RightBrace, "Expected \"}\"");
        }
        res
    }

    /// block ::= "{" statementlist "}" | statement
    pub fn block(&mut self) -> (r: ParseResult)
        requires
            old(self).0.wf(),
        ensures
            (*final(self)).did(
                *old(self),
                r,
                rules::block(old(self).0.stream(), old(self).0.cursor()),
            ),
            r is Err ==> final(self).0.cursor() == old(self).0.cursor(),
        decreases left(old(self).0.stream(), old(self).0.cursor()), 3nat,
    {
        proof {
            rules::lemma_block_unfolds(self.0.stream(), self.0.cursor());
        }
        proof {
            self.0.lemma_bounds();
        }
        let m = self.0.mark();
        let mut res = self.braced();
        if res.is_err() {
            self.0.undo(m);
            res = Self::within(self.statement(), ", in block");
        }
        self.0.pop_mark();
        res
    }

    /// The result `so_far` of a rule, followed by a semicolon if the rule
    /// accepted.
    fn terminated(&mut self, so_far: ParseResult, reason: &str) -> (r: ParseResult)
        requires
            old(self).0.wf(),
        ensures
            so_far is Err ==> r == so_far && *final(self) == *old(self),
            so_far is Ok ==> (*final(self)).did(
                *old(self),
                r,
                rules::expect(
                    old(self).0.stream(),
                    old(self).0.cursor(),
                    C1Token::Semicolon,
                    reason@,
                ),
            ),
    {
        if so_far.is_ok() {
            self.check_and_eat_token(&C1Token::Semicolon, reason)
        } else {
            so_far
        }
    }

    /// statement ::= ifstatement | returnstatement ";" | printf ";"
    ///             | statassignment ";" | functioncall ";"
    #[verifier::rlimit(30)]
    pub fn statement(&mut self) -> (r: ParseResult)
        requires
            old(self).0.wf(),
        ensures
            (*final(self)).did(
                *old(self),
                r,
                rules::statement(old(self).0.stream(), old(self).0.cursor()),
            ),
            r is Err ==> final(self).0.cursor() == old(self).0.cursor(),
        decreases left(old(self).0.stream(), old(self).0.cursor()), 1nat,
    {
        proof {
            rules::lemma_statement_unfolds(self.0.stream(), self.0.cursor());
        }
        proof {
            self.0.lemma_bounds();
        }
        let m = self.0.mark();
        let mut res = self.ifstatement();
        if res.is_err() {
            self.0.undo(m);
            let rule = self.returnstatement();
            res = self.terminated(rule, "Expected semicolon after return statement");
        }
        if res.is_err() {
            self.0.undo(m);
            let rule = self.printf();
            res = self.terminated(rule, "Expected semicolon after printf");
        }
        if res.is_err() {
            self.0.undo(m);
            let rule = self.statassignment();
            res = self.terminated(rule, "Expected semicolon after stat assignment");
        }
        if res.is_err() {
            self.0.undo(m);
            let rule = self.functioncall();
            res = self.terminated(rule, "Expected semicolon after function call");
        }
        if res.is_err() {
            self.0.undo(m);
        }
        self.0.pop_mark();
        Self::within(res, ", in statement")
    }

    /// ifstatement ::= "if" "(" assignment ")" block
    pub fn ifstatement(&mut self) -> (r: ParseResult)
        requires
            old(self).0.wf(),
        ensures
            (*final(self)).did(
                *old(self),
                r,
                rules::ifstatement(old(self).0.stream(), old(self).0.cursor()),
            ),
        decreases left(old(self).0.stream(), old(self).0.cursor()), 0nat,
    {
        proof {
            rules::lemma_ifstatement_unfolds(self.0.stream(), self.0.cursor());
        }
        proof {
            self.0.lemma_bounds();
        }
        let mut res = self.check_and_eat_token(&C1Token::KwIf, "Expected \"if\"");
        if res.is_ok() {
            res = self.check_and_eat_token(&C1Token::LeftParenthesis, "Expected \"(\"");
        }
        if res.is_ok() {
            res = self.assignment();
        }
        if res.is_ok() {
            res = self.check_and_eat_token(&C1Token::RightParenthesis, "Expected \")\"");
        }
        if res.is_ok() {
            proof {
                self.0.lemma_bounds();
            }
            res = self.block();
        }
        Self::within(res, ", in ifstatement")
    }

    /// returnstatement ::= "return" assignment?
    pub fn returnstatement(&mut self) -> (r: ParseResult)
        requires
            old(self).0.wf(),
        ensures
            (*final(self)).did(
                *old(self),
                r,
                rules::returnstatement(old(self).0.stream(), old(self).0.cursor()),
            ),
    {
        let keyword = self.check_and_eat_token(&C1Token::KwReturn, "Expected \"return\"");
        if keyword.is_err() {
            return Self::within(keyword, ", in returnstatement");
        }
        proof {
            self.0.lemma_bounds();
        }
        let m = self.0.mark();
        let value = self.assignment();
        if value.is_err() {
            self.0.undo(m);
        }
        self.0.pop_mark();
        Ok(())
    }

    /// printf ::= "printf" "(" assignment ")"
    pub fn printf(&mut self) -> (r: ParseResult)
        requires
            old(self).0.wf(),
        ensures
            (*final(self)).did(
                *old(self),
                r,
                rules::printf(old(self).0.stream(), old(self).0.cursor()),
            ),
    {
        let mut res = self.check_and_eat_token(&C1Token::KwPrintf, "Expected \"printf\"");
        if res.is_ok() {
            res = self.check_and_eat_token(&C1Token::LeftParenthesis, "Expected \"(\"");
        }
        if res.is_ok() {
            res = self.assignment();
        }
        if res.is_ok() {
            res = self.check_and_eat_token(&C1Token::RightParenthesis, "Expected \")\"");
        }
        Self::within(res, ", in printf")
    }

    /// type ::= "bool" | "float" | "int" | "void"
    pub fn p_type(&mut self) -> (r: ParseResult)
        requires
            old(self).0.wf(),
        ensures
            (*final(self)).did(
                *old(self),
                r,
                rules::p_type(old(self).0.stream(), old(self).0.cursor()),
            ),
    {
        let kinds = [C1Token::KwBoolean, C1Token::KwFloat, C1Token::KwInt, C1Token::KwVoid];
        assert(kinds@ =~= rules::type_keywords());
        let res = self.any_match_and_eat(kinds.as_slice(), "Expected type");
        Self::within(res, ", in type")
    }

    /// statassignment ::= ID "=" assignment
    pub fn statassignment(&mut self) -> (r: ParseResult)
        requires
            old(self).0.wf(),
        ensures
            (*final(self)).did(
                *old(self),
                r,
                rules::statassignment(old(self).0.stream(), old(self).0.cursor()),
            ),
    {
        let mut res = self.check_and_eat_token(&C1Token::Identifier, "Expected <ID>");
        if res.is_ok() {
            res = self.check_and_eat_token(&C1Token::Assign, "Expected \"=\"");
        }
        if res.is_ok() {
            res = self.assignment();
        }
        Self::within(res, ", in statassignment")
    }

    /// ID "=" assignment, the first alternative of assignment
    pub fn chained(&mut self) -> (r: ParseResult)
        requires
            old(self).0.wf(),
        ensures
            (*final(self)).did(
                *old(self),
                r,
                rules::chained(old(self).0.stream(), old(self).0.cursor()),
            ),
        decreases left(old(self).0.stream(), old(self).0.cursor()), 8nat,
    {
        proof {
            rules::lemma_chained_unfolds(self.0.stream(), self.0.cursor());
        }
        proof {
            self.0.lemma_bounds();
        }
        let mut res = self.check_and_eat_token(&C1Token::Identifier, "Expected \"<ID>\"");
        if res.is_ok() {
            res = self.check_and_eat_token(&C1Token::Assign, "Expected \"=\"");
        }
        if res.is_ok() {
            res = self.assignment();
        }
        res
    }

    /// assignment ::= ID "=" assignment | expr
    pub fn assignment(&mut self) -> (r: ParseResult)
        requires
            old(self).0.wf(),
        ensures
            (*final(self)).did(
                *old(self),
                r,
                rules::assignment(old(self).0.stream(), old(self).0.cursor()),
            ),
            r is Err ==> final(self).0.cursor() == old(self).0.cursor(),
        decreases left(old(self).0.stream(), old(self).0.cursor()), 9nat,
    {
        proof {
            rules::lemma_assignment_unfolds(self.0.stream(), self.0.cursor());
        }
        proof {
            self.0.lemma_bounds();
        }
        let m = self.0.mark();
        let mut res = self.chained();
        if res.is_err() {
            self.0.undo(m);
            res = self.expr();
        }
        if res.is_err() {
            self.0.undo(m);
        }
        self.0.pop_mark();
        Self::within(res, ", in assignment")
    }

    /// relop simpexpr, the optional part of expr
    pub fn comparison(&mut self) -> (r: ParseResult)
        requires
            old(self).0.wf(),
        ensures
            (*final(self)).did(
                *old(self),
                r,
                rules::comparison(old(self).0.stream(), old(self).0.cursor()),
            ),
        decreases left(old(self).0.stream(), old(self).0.cursor()), 6nat,
    {
        proof {
            rules::lemma_comparison_unfolds(self.0.stream(), self.0.cursor());
        }
        proof {
            self.0.lemma_bounds();
        }
        let kinds = [
            C1Token::Equal,
            C1Token::NotEqual,
            C1Token::LessEqual,
            C1Token::GreaterEqual,
            C1Token::Less,
            C1Token::Greater,
        ];
        assert(kinds@ =~= rules::relational_operators());
        let mut res = self.any_match_and_eat(kinds.as_slice(), "");
        if res.is_ok() {
            res = self.simpexpr();
        }
        res
    }

    /// expr ::= simpexpr ( relop simpexpr )?
    pub fn expr(&mut self) -> (r: ParseResult)
        requires
            old(self).0.wf(),
        ensures
            (*final(self)).did(
                *old(self),
                r,
                rules::expr(old(self).0.stream(), old(self).0.cursor()),
            ),
        decreases left(old(self).0.stream(), old(self).0.cursor()), 7nat,
    {
        proof {
            rules::lemma_expr_unfolds(self.0.stream(), self.0.cursor());
        }
        proof {
            self.0.lemma_bounds();
        }
        let first = self.simpexpr();
        if first.is_err() {
            return Self::within(first, ", in expr");
        }
        proof {
            self.0.lemma_bounds();
        }
        let m = self.0.mark();
        let second = self.comparison();
        if second.is_err() {
            self.0.undo(m);
        }
        self.0.pop_mark();
        Ok(())
    }

    /// ( ("+" | "-" | "||") term )*
    pub fn simpexpr_tail(&mut self) -> (r: ParseResult)
        requires
            old(self).0.wf(),
        ensures
            (*final(self)).did(
                *old(self),
                r,
                rules::simpexpr_tail(old(self).0.stream(), old(self).0.cursor()),
            ),
            r is Ok,
        decreases left(old(self).0.stream(), old(self).0.cursor()), 4nat,
    {
        proof {
            rules::lemma_simpexpr_tail_unfolds(self.0.stream(), self.0.cursor());
        }
        let ghost pre = *self;
        let ghost ts = self.0.stream();
        let ghost start = self.0.cursor();
        proof {
            self.0.lemma_bounds();
        }
        let mut m = self.0.mark();
        let mut going = true;
        while going
            invariant
                self.0.wf(),
                self.0.source() == pre.0.source(),
                self.0.stream() == ts,
                ts == pre.0.stream(),
                start == pre.0.cursor(),
                pre == *old(self),
                self.0.open_marks() == pre.0.open_marks() + 1,
                pre.0.open_marks() > 0 ==> self.0.retained_from() == pre.0.retained_from(),
                self.0.retained_from() <= m,
                start <= m <= self.0.cursor() <= ts.len(),
                going ==> m == self.0.cursor(),
                rules::simpexpr_tail(ts, start) == rules::simpexpr_tail(ts, m as nat).after(
                    (m - start) as nat,
                ),
                !going ==> rules::simpexpr_tail(ts, m as nat) == rules::accept(0),
            decreases left(ts, m as nat), if going { 1nat } else { 0nat },
        {
            let kinds = [C1Token::Plus, C1Token::Minus, C1Token::Or];
            assert(kinds@ =~= rules::additive_operators());
            let mut attempt = self.any_match_and_eat(kinds.as_slice(), "");
            if attempt.is_ok() {
                attempt = self.term();
            }
            proof {
                rules::lemma_simpexpr_tail_unfolds(ts, m as nat);
                self.0.lemma_bounds();
            }
            if attempt.is_ok() {
                self.0.pop_mark();
                m = self.0.mark();
            } else {
                going = false;
            }
        }
        self.0.undo(m);
        self.0.pop_mark();
        Ok(())
    }

    /// simpexpr ::= "-"? term ( ("+" | "-" | "||") term )*
    pub fn simpexpr(&mut self) -> (r: ParseResult)
        requires
            old(self).0.wf(),
        ensures
            (*final(self)).did(
                *old(self),
                r,
                rules::simpexpr(old(self).0.stream(), old(self).0.cursor()),
            ),
        decreases left(old(self).0.stream(), old(self).0.cursor()), 5nat,
    {
        proof {
            rules::lemma_simpexpr_unfolds(self.0.stream(), self.0.cursor());
        }
        proof {
            self.0.lemma_bounds();
        }
        let _ = self.check_and_eat_token(&C1Token::Minus, "");
        let first = Self::within(self.term(), ", in simpexpr");
        if first.is_err() {
            return first;
        }
        proof {
            self.0.lemma_bounds();
        }
        self.simpexpr_tail()
    }

    /// ( ("*" | "/" | "&&") factor )*
    pub fn term_tail(&mut self) -> (r: ParseResult)
        requires
            old(self).0.wf(),
        ensures
            (*final(self)).did(
                *old(self),
                r,
                rules::term_tail(old(self).0.stream(), old(self).0.cursor()),
            ),
            r is Ok,
        decreases left(old(self).0.stream(), old(self).0.cursor()), 2nat,
    {
        proof {
            rules::lemma_term_tail_unfolds(self.0.stream(), self.0.cursor());
        }
        let ghost pre = *self;
        let ghost ts = self.0.stream();
        let ghost start = self.0.cursor();
        proof {
            self.0.lemma_bounds();
        }
        let mut m = self.0.mark();
        let mut going = true;
        while going
            invariant
                self.0.wf(),
                self.0.source() == pre.0.source(),
                self.0.stream() == ts,
                ts == pre.0.stream(),
                start == pre.0.cursor(),
                pre == *old(self),
                self.0.open_marks() == pre.0.open_marks() + 1,
                pre.0.open_marks() > 0 ==> self.0.retained_from() == pre.0.retained_from(),
                self.0.retained_from() <= m,
                start <= m <= self.0.cursor() <= ts.len(),
                going ==> m == self.0.cursor(),
                rules::term_tail(ts, start) == rules::term_tail(ts, m as nat).after(
                    (m - start) as nat,
                ),
                !going ==> rules::term_tail(ts, m as nat) == rules::accept(0),
            decreases left(ts, m as nat), if going { 1nat } else { 0nat },
        {
            let kinds = [C1Token::Asterisk, C1Token::Slash, C1Token::And];
            assert(kinds@ =~= rules::multiplicative_operators());
            let mut attempt = self.any_match_and_eat(kinds.as_slice(), "");
            if attempt.is_ok() {
                attempt = self.factor();
            }
            proof {
                rules::lemma_term_tail_unfolds(ts, m as nat);
                self.0.lemma_bounds();
            }
            if attempt.is_ok() {
                self.0.pop_mark();
                m = self.0.mark();
            } else {
                going = false;
            }
        }
        self.0.undo(m);
        self.0.pop_mark();
        Ok(())
    }

    /// term ::= factor ( ("*" | "/" | "&&") factor )*
    pub fn term(&mut self) -> (r: ParseResult)
        requires
            old(self).0.wf(),
        ensures
            (*final(self)).did(
                *old(self),
                r,
                rules::term(old(self).0.stream(), old(self).0.cursor()),
            ),
        decreases left(old(self).0.stream(), old(self).0.cursor()), 3nat,
    {
        proof {
            rules::lemma_term_unfolds(self.0.stream(), self.0.cursor());
        }
        proof {
            self.0.lemma_bounds();
        }
        let first = Self::within(self.factor(), ", in term");
        if first.is_err() {
            return first;
        }
        proof {
            self.0.lemma_bounds();
        }
        self.term_tail()
    }

    /// "(" assignment ")", the last alternative of factor
    pub fn parenthesized(&mut self) -> (r: ParseResult)
        requires
            old(self).0.wf(),
        ensures
            (*final(self)).did(
                *old(self),
                r,
                rules::parenthesized(old(self).0.stream(), old(self).0.cursor()),
            ),
        decreases left(old(self).0.stream(), old(self).0.cursor()), 0nat,
    {
        proof {
            rules::lemma_parenthesized_unfolds(self.0.stream(), self.0.cursor());
        }
        proof {
            self.0.lemma_bounds();
        }
        let mut res = self.check_and_eat_token(&C1Token::LeftParenthesis, "Expected <FACTOR>");
        if res.is_ok() {
            res = self.assignment();
        }
        if res.is_ok() {
            res = self.check_and_eat_token(&C1Token::RightParenthesis, "Expected ')'");
        }
        res
    }

    /// factor ::= INT | FLOAT | BOOL | functioncall | ID | "(" assignment ")"
    pub fn factor(&mut self) -> (r: ParseResult)
        requires
            old(self).0.wf(),
        ensures
            (*final(self)).did(
                *old(self),
                r,
                rules::factor(old(self).0.stream(), old(self).0.cursor()),
            ),
            r is Err ==> final(self).0.cursor() == old(self).0.cursor(),
        decreases left(old(self).0.stream(), old(self).0.cursor()), 1nat,
    {
        proof {
            rules::lemma_factor_unfolds(self.0.stream(), self.0.cursor());
        }
        proof {
            self.0.lemma_bounds();
        }
        let m = self.0.mark();
        let mut res = self.check_and_eat_token(&C1Token::ConstInt, "");
        if res.is_err() {
            self.0.undo(m);
            res = self.check_and_eat_token(&C1Token::ConstFloat, "");
        }
        if res.is_err() {
            self.0.undo(m);
            res = self.check_and_eat_token(&C1Token::ConstBoolean, "");
        }
        if res.is_err() {
            self.0.undo(m);
            res = self.functioncall();
        }
        if res.is_err() {
            self.0.undo(m);
            res = self.check_and_eat_token(&C1Token::Identifier, "");
        }
        if res.is_err() {
            self.0.undo(m);
            res = self.parenthesized();
        }
        if res.is_err() {
            self.0.undo(m);
        }
        self.0.pop_mark();
        Self::within(res, ", in factor")
    }
}

} // verus!
