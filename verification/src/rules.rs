//! What each recognizing operation does, as a function of the token stream
//! and the cursor: how many tokens it consumes, and the diagnostic if it
//! fails.
//!
//! A sequence stops at its first failure and leaves the cursor there. An
//! ordered alternation takes the first alternative that accepts; if none
//! does it fails with the diagnostic of the last one, and consumes nothing.
//! An option and a repetition never fail: an attempt that fails consumes
//! nothing. A rule of the grammar that fails puts its name behind the
//! diagnostic, so that the diagnostic ends in the trail of the rules that
//! the failure passed through, the innermost first.
use crate::diagnostic::complaint;
use crate::lexer::Token;
use crate::scan::C1Token;
use vstd::prelude::*;

verus! {

/// What a recognizing operation did: the number of tokens that it moved the
/// cursor by, and its diagnostic if it failed.
pub struct Outcome {
    pub used: nat,
    pub failure: Option<Seq<char>>,
}

impl Outcome {
    /// Whether the operation accepted.
    pub open spec fn accepted(self) -> bool {
        self.failure is None
    }

    /// This outcome, of an operation that began when `k` tokens had been
    /// consumed already.
    pub open spec fn after(self, k: nat) -> Outcome {
        Outcome { used: k + self.used, failure: self.failure }
    }

    /// This outcome as the rule named in `trail` hands it on: a failure has
    /// the rule's name behind it.
    pub open spec fn within(self, trail: Seq<char>) -> Outcome {
        match self.failure {
            Some(why) => Outcome { used: self.used, failure: Some(why + trail) },
            None => self,
        }
    }

    /// This outcome with the cursor put back where the operation began, if
    /// it failed.
    pub open spec fn restored(self) -> Outcome {
        if self.accepted() {
            self
        } else {
            Outcome { used: 0, failure: self.failure }
        }
    }

    /// This outcome as an option takes it: a failure is an acceptance of
    /// nothing.
    pub open spec fn optional(self) -> Outcome {
        if self.accepted() {
            self
        } else {
            accept(0)
        }
    }

    /// Whether a repetition goes on behind this outcome, which began at
    /// cursor `i`: it accepted, and consumed tokens of the stream.
    pub open spec fn advances(self, ts: Seq<Token>, i: nat) -> bool {
        self.accepted() && 0 < self.used && i + self.used <= ts.len()
    }
}

/// The outcome of an operation that accepted and consumed `used` tokens.
pub open spec fn accept(used: nat) -> Outcome {
    Outcome { used, failure: None }
}

/// The outcome of an operation that failed with the diagnostic `why`, the
/// cursor `used` tokens behind where it began.
pub open spec fn reject(used: nat, why: Seq<char>) -> Outcome {
    Outcome { used, failure: Some(why) }
}

/// The number of tokens from cursor `i` to the end of the stream.
pub open spec fn left(ts: Seq<Token>, i: nat) -> nat {
    if i <= ts.len() {
        (ts.len() - i) as nat
    } else {
        0
    }
}

/// The token at cursor `i`, if there is one.
pub open spec fn found(ts: Seq<Token>, i: nat) -> Option<Token> {
    if i < ts.len() {
        Some(ts[i as int])
    } else {
        None
    }
}

/// Whether the token at cursor `i` is of category `kind`.
pub open spec fn kind_at(ts: Seq<Token>, i: nat, kind: C1Token) -> bool {
    i < ts.len() && ts[i as int].kind == kind
}

/// Whether the token at cursor `i` is of one of the categories `kinds`.
pub open spec fn any_kind_at(ts: Seq<Token>, i: nat, kinds: Seq<C1Token>) -> bool {
    i < ts.len() && kinds.contains(ts[i as int].kind)
}

/// Consumes the token at cursor `i` if it is of category `kind`.
pub open spec fn expect(ts: Seq<Token>, i: nat, kind: C1Token, reason: Seq<char>) -> Outcome {
    if kind_at(ts, i, kind) {
        accept(1)
    } else {
        reject(0, complaint(reason, found(ts, i)))
    }
}

/// Consumes the token at cursor `i` if it is of one of the categories `kinds`.
pub open spec fn expect_any(ts: Seq<Token>, i: nat, kinds: Seq<C1Token>, reason: Seq<char>) -> Outcome {
    if any_kind_at(ts, i, kinds) {
        accept(1)
    } else {
        reject(0, complaint(reason, found(ts, i)))
    }
}

/// A rule that accepted, followed by a semicolon.
pub open spec fn terminated(ts: Seq<Token>, i: nat, o: Outcome, reason: Seq<char>) -> Outcome {
    if o.accepted() {
        expect(ts, i + o.used, C1Token::Semicolon, reason).after(o.used)
    } else {
        o
    }
}

/// The keywords that name a type.
pub open spec fn type_keywords() -> Seq<C1Token> {
    seq![C1Token::KwBoolean, C1Token::KwFloat, C1Token::KwInt, C1Token::KwVoid]
}

/// The operators that `comparison` takes.
pub open spec fn relational_operators() -> Seq<C1Token> {
    seq![
        C1Token::Equal,
        C1Token::NotEqual,
        C1Token::LessEqual,
        C1Token::GreaterEqual,
        C1Token::Less,
        C1Token::Greater,
    ]
}

/// The operators that `simpexpr` takes between terms.
pub open spec fn additive_operators() -> Seq<C1Token> {
    seq![C1Token::Plus, C1Token::Minus, C1Token::Or]
}

/// The operators that `term` takes between factors.
pub open spec fn multiplicative_operators() -> Seq<C1Token> {
    seq![C1Token::Asterisk, C1Token::Slash, C1Token::And]
}

/// Whether `k` is a keyword that names a type.
pub open spec fn is_type_keyword(k: C1Token) -> bool {
    k == C1Token::KwBoolean || k == C1Token::KwFloat || k == C1Token::KwInt || k
        == C1Token::KwVoid
}

/// Whether `k` is a relational operator.
pub open spec fn is_relational(k: C1Token) -> bool {
    k == C1Token::Equal || k == C1Token::NotEqual || k == C1Token::LessEqual || k
        == C1Token::GreaterEqual || k == C1Token::Less || k == C1Token::Greater
}

/// Whether `k` is an additive operator.
pub open spec fn is_additive(k: C1Token) -> bool {
    k == C1Token::Plus || k == C1Token::Minus || k == C1Token::Or
}

/// Whether `k` is a multiplicative operator.
pub open spec fn is_multiplicative(k: C1Token) -> bool {
    k == C1Token::Asterisk || k == C1Token::Slash || k == C1Token::And
}

/// Whether each of the four lists of categories holds `k`.
pub proof fn lemma_token_sets(k: C1Token)
    ensures
        type_keywords().contains(k) <==> is_type_keyword(k),
        relational_operators().contains(k) <==> is_relational(k),
        additive_operators().contains(k) <==> is_additive(k),
        multiplicative_operators().contains(k) <==> is_multiplicative(k),
{
    let t = type_keywords();
    assert(t[0] == C1Token::KwBoolean && t[1] == C1Token::KwFloat && t[2] == C1Token::KwInt
        && t[3] == C1Token::KwVoid);
    let r = relational_operators();
    assert(r[0] == C1Token::Equal && r[1] == C1Token::NotEqual && r[2] == C1Token::LessEqual
        && r[3] == C1Token::GreaterEqual && r[4] == C1Token::Less && r[5] == C1Token::Greater);
    let a = additive_operators();
    assert(a[0] == C1Token::Plus && a[1] == C1Token::Minus && a[2] == C1Token::Or);
    let m = multiplicative_operators();
    assert(m[0] == C1Token::Asterisk && m[1] == C1Token::Slash && m[2] == C1Token::And);
}

/// Whether the token at cursor `i` is of one of the categories of each of
/// the four lists.
pub proof fn lemma_token_sets_at(ts: Seq<Token>, i: nat)
    ensures
        any_kind_at(ts, i, type_keywords()) <==> i < ts.len() && is_type_keyword(
            ts[i as int].kind,
        ),
        any_kind_at(ts, i, relational_operators()) <==> i < ts.len() && is_relational(
            ts[i as int].kind,
        ),
        any_kind_at(ts, i, additive_operators()) <==> i < ts.len() && is_additive(
            ts[i as int].kind,
        ),
        any_kind_at(ts, i, multiplicative_operators()) <==> i < ts.len() && is_multiplicative(
            ts[i as int].kind,
        ),
{
    if i < ts.len() {
        lemma_token_sets(ts[i as int].kind);
    }
}

/// type ::= "bool" | "float" | "int" | "void"
pub open spec fn p_type(ts: Seq<Token>, i: nat) -> Outcome {
    expect_any(ts, i, type_keywords(), "Expected type"@).within(", in type"@)
}

/// functioncall ::= ID "(" ")"
pub open spec fn functioncall(ts: Seq<Token>, i: nat) -> Outcome {
    let name = expect(ts, i, C1Token::Identifier, "Expected <ID>"@);
    if !name.accepted() {
        name.within(", in functioncall"@)
    } else {
        let open = expect(ts, i + 1, C1Token::LeftParenthesis, "Expected \"(\""@).after(1);
        if !open.accepted() {
            open.within(", in functioncall"@)
        } else {
            expect(ts, i + 2, C1Token::RightParenthesis, "Expected \")\""@).after(2).within(
                ", in functioncall"@,
            )
        }
    }
}

/// "(" assignment ")", the last alternative of factor
#[verifier::opaque]
pub open spec fn parenthesized(ts: Seq<Token>, i: nat) -> Outcome
    decreases left(ts, i), 0nat,
{
    let open = expect(ts, i, C1Token::LeftParenthesis, "Expected <FACTOR>"@);
    if !open.accepted() {
        open
    } else {
        let inner = assignment(ts, i + 1).after(1);
        if !inner.accepted() {
            inner
        } else {
            expect(ts, i + inner.used, C1Token::RightParenthesis, "Expected ')'"@).after(
                inner.used,
            )
        }
    }
}

/// factor ::= INT | FLOAT | BOOL | functioncall | ID | "(" assignment ")"
#[verifier::opaque]
pub open spec fn factor(ts: Seq<Token>, i: nat) -> Outcome
    decreases left(ts, i), 1nat,
{
    if kind_at(ts, i, C1Token::ConstInt) || kind_at(ts, i, C1Token::ConstFloat) || kind_at(
        ts,
        i,
        C1Token::ConstBoolean,
    ) {
        accept(1)
    } else if functioncall(ts, i).accepted() {
        functioncall(ts, i)
    } else if kind_at(ts, i, C1Token::Identifier) {
        accept(1)
    } else {
        parenthesized(ts, i).restored().within(", in factor"@)
    }
}

/// ( ("*" | "/" | "&&") factor )*
#[verifier::opaque]
pub open spec fn term_tail(ts: Seq<Token>, i: nat) -> Outcome
    decreases left(ts, i), 2nat,
{
    if !any_kind_at(ts, i, multiplicative_operators()) {
        accept(0)
    } else {
        let operand = factor(ts, i + 1);
        if !operand.accepted() {
            accept(0)
        } else {
            term_tail(ts, i + 1 + operand.used).after(1 + operand.used)
        }
    }
}

/// term ::= factor ( ("*" | "/" | "&&") factor )*
#[verifier::opaque]
pub open spec fn term(ts: Seq<Token>, i: nat) -> Outcome
    decreases left(ts, i), 3nat,
{
    let first = factor(ts, i).within(", in term"@);
    if !first.accepted() {
        first
    } else {
        term_tail(ts, i + first.used).after(first.used)
    }
}

/// ( ("+" | "-" | "||") term )*
#[verifier::opaque]
pub open spec fn simpexpr_tail(ts: Seq<Token>, i: nat) -> Outcome
    decreases left(ts, i), 4nat,
{
    if !any_kind_at(ts, i, additive_operators()) {
        accept(0)
    } else {
        let operand = term(ts, i + 1);
        if !operand.accepted() {
            accept(0)
        } else {
            simpexpr_tail(ts, i + 1 + operand.used).after(1 + operand.used)
        }
    }
}

/// simpexpr ::= "-"? term ( ("+" | "-" | "||") term )*
#[verifier::opaque]
pub open spec fn simpexpr(ts: Seq<Token>, i: nat) -> Outcome
    decreases left(ts, i), 5nat,
{
    let sign: nat = if kind_at(ts, i, C1Token::Minus) {
        1
    } else {
        0
    };
    let first = term(ts, i + sign).within(", in simpexpr"@).after(sign);
    if !first.accepted() {
        first
    } else {
        simpexpr_tail(ts, i + first.used).after(first.used)
    }
}

/// relop simpexpr, the optional part of expr
#[verifier::opaque]
pub open spec fn comparison(ts: Seq<Token>, i: nat) -> Outcome
    decreases left(ts, i), 6nat,
{
    let operator = expect_any(ts, i, relational_operators(), ""@);
    if !operator.accepted() {
        operator
    } else {
        simpexpr(ts, i + 1).after(1)
    }
}

/// expr ::= simpexpr ( relop simpexpr )?
#[verifier::opaque]
pub open spec fn expr(ts: Seq<Token>, i: nat) -> Outcome
    decreases left(ts, i), 7nat,
{
    let left = simpexpr(ts, i);
    if !left.accepted() {
        left.within(", in expr"@)
    } else {
        comparison(ts, i + left.used).optional().after(left.used)
    }
}

/// ID "=" assignment, the first alternative of assignment
#[verifier::opaque]
pub open spec fn chained(ts: Seq<Token>, i: nat) -> Outcome
    decreases left(ts, i), 8nat,
{
    let name = expect(ts, i, C1Token::Identifier, "Expected \"<ID>\""@);
    if !name.accepted() {
        name
    } else {
        let sign = expect(ts, i + 1, C1Token::Assign, "Expected \"=\""@).after(1);
        if !sign.accepted() {
            sign
        } else {
            assignment(ts, i + 2).after(2)
        }
    }
}

/// assignment ::= ID "=" assignment | expr
#[verifier::opaque]
pub open spec fn assignment(ts: Seq<Token>, i: nat) -> Outcome
    decreases left(ts, i), 9nat,
{
    if chained(ts, i).accepted() {
        chained(ts, i)
    } else {
        expr(ts, i).restored().within(", in assignment"@)
    }
}

/// statassignment ::= ID "=" assignment
pub open spec fn statassignment(ts: Seq<Token>, i: nat) -> Outcome {
    let name = expect(ts, i, C1Token::Identifier, "Expected <ID>"@);
    (if !name.accepted() {
        name
    } else {
        let sign = expect(ts, i + 1, C1Token::Assign, "Expected \"=\""@).after(1);
        if !sign.accepted() {
            sign
        } else {
            assignment(ts, i + 2).after(2)
        }
    }).within(", in statassignment"@)
}

/// returnstatement ::= "return" assignment?
pub open spec fn returnstatement(ts: Seq<Token>, i: nat) -> Outcome {
    let keyword = expect(ts, i, C1Token::KwReturn, "Expected \"return\""@);
    if !keyword.accepted() {
        keyword.within(", in returnstatement"@)
    } else {
        assignment(ts, i + 1).optional().after(1)
    }
}

/// printf ::= "printf" "(" assignment ")"
pub open spec fn printf(ts: Seq<Token>, i: nat) -> Outcome {
    let keyword = expect(ts, i, C1Token::KwPrintf, "Expected \"printf\""@);
    (if !keyword.accepted() {
        keyword
    } else {
        let open = expect(ts, i + 1, C1Token::LeftParenthesis, "Expected \"(\""@).after(1);
        if !open.accepted() {
            open
        } else {
            let value = assignment(ts, i + 2).after(2);
            if !value.accepted() {
                value
            } else {
                expect(ts, i + value.used, C1Token::RightParenthesis, "Expected \")\""@).after(
                    value.used,
                )
            }
        }
    }).within(", in printf"@)
}

/// ifstatement ::= "if" "(" assignment ")" block
#[verifier::opaque]
pub open spec fn ifstatement(ts: Seq<Token>, i: nat) -> Outcome
    decreases left(ts, i), 0nat,
{
    let keyword = expect(ts, i, C1Token::KwIf, "Expected \"if\""@);
    (if !keyword.accepted() {
        keyword
    } else {
        let open = expect(ts, i + 1, C1Token::LeftParenthesis, "Expected \"(\""@).after(1);
        if !open.accepted() {
            open
        } else {
            let condition = assignment(ts, i + 2).after(2);
            if !condition.accepted() {
                condition
            } else {
                let close = expect(
                    ts,
                    i + condition.used,
                    C1Token::RightParenthesis,
                    "Expected \")\""@,
                ).after(condition.used);
                if !close.accepted() {
                    close
                } else {
                    block(ts, i + close.used).after(close.used)
                }
            }
        }
    }).within(", in ifstatement"@)
}

/// statement ::= ifstatement | returnstatement ";" | printf ";"
///             | statassignment ";" | functioncall ";"
#[verifier::opaque]
pub open spec fn statement(ts: Seq<Token>, i: nat) -> Outcome
    decreases left(ts, i), 1nat,
{
    let conditional = ifstatement(ts, i);
    let returning = terminated(
        ts,
        i,
        returnstatement(ts, i),
        "Expected semicolon after return statement"@,
    );
    let printing = terminated(ts, i, printf(ts, i), "Expected semicolon after printf"@);
    let assigning = terminated(
        ts,
        i,
        statassignment(ts, i),
        "Expected semicolon after stat assignment"@,
    );
    let calling = terminated(
        ts,
        i,
        functioncall(ts, i),
        "Expected semicolon after function call"@,
    );
    if conditional.accepted() {
        conditional
    } else if returning.accepted() {
        returning
    } else if printing.accepted() {
        printing
    } else if assigning.accepted() {
        assigning
    } else {
        calling.restored().within(", in statement"@)
    }
}

/// "{" statementlist "}", the first alternative of block
#[verifier::opaque]
pub open spec fn braced(ts: Seq<Token>, i: nat) -> Outcome
    decreases left(ts, i), 2nat,
{
    let open = expect(ts, i, C1Token::LeftBrace, "Expected \"{\""@);
    if !open.accepted() {
        open
    } else {
        let body = statementlist(ts, i + 1).after(1);
        expect(ts, i + body.used, C1Token::RightBrace, "Expected \"}\""@).after(body.used)
    }
}

/// block ::= "{" statementlist "}" | statement
#[verifier::opaque]
pub open spec fn block(ts: Seq<Token>, i: nat) -> Outcome
    decreases left(ts, i), 3nat,
{
    if braced(ts, i).accepted() {
        braced(ts, i)
    } else {
        statement(ts, i).within(", in block"@)
    }
}

/// statementlist ::= block*
#[verifier::opaque]
pub open spec fn statementlist(ts: Seq<Token>, i: nat) -> Outcome
    decreases left(ts, i), 4nat,
{
    let first = block(ts, i);
    if first.advances(ts, i) {
        statementlist(ts, i + first.used).after(first.used)
    } else {
        accept(0)
    }
}

/// functiondefinition ::= type ID "(" ")" "{" statementlist "}"
pub open spec fn function_definition(ts: Seq<Token>, i: nat) -> Outcome {
    let kind = p_type(ts, i);
    if !kind.accepted() {
        kind.within(", in function definition"@)
    } else {
        let name = expect(ts, i + 1, C1Token::Identifier, "Expected function name"@).after(1);
        if !name.accepted() {
            name.within(", in function definition"@)
        } else {
            let open = expect(ts, i + 2, C1Token::LeftParenthesis, "Expected \"(\""@).after(2);
            if !open.accepted() {
                open.within(", in function definition"@)
            } else {
                let close = expect(ts, i + 3, C1Token::RightParenthesis, "Expected \")\""@).after(
                    3,
                );
                if !close.accepted() {
                    close.within(", in function definition"@)
                } else {
                    let brace = expect(ts, i + 4, C1Token::LeftBrace, "Expected \"{\""@).after(4);
                    if !brace.accepted() {
                        brace.within(", in function definition"@)
                    } else {
                        let body = statementlist(ts, i + 5).after(5);
                        expect(ts, i + body.used, C1Token::RightBrace, "Expected \"}\""@).after(
                            body.used,
                        ).within(", in function definition"@)
                    }
                }
            }
        }
    }
}

/// program ::= functiondefinition*, up to the end of the input
#[verifier::opaque]
pub open spec fn program(ts: Seq<Token>, i: nat) -> Outcome
    decreases left(ts, i),
{
    if i >= ts.len() {
        accept(0)
    } else {
        let first = function_definition(ts, i);
        if first.advances(ts, i) {
            program(ts, i + first.used).after(first.used)
        } else {
            first.within(", in program"@)
        }
    }
}

/// What `parenthesized` is at cursor `i`, in terms of the rules that it calls.
pub proof fn lemma_parenthesized_unfolds(ts: Seq<Token>, i: nat)
    ensures
        parenthesized(ts, i) == ({
            let open = expect(ts, i, C1Token::LeftParenthesis, "Expected <FACTOR>"@);
            if !open.accepted() {
                open
            } else {
                let inner = assignment(ts, i + 1).after(1);
                if !inner.accepted() {
                    inner
                } else {
                    expect(ts, i + inner.used, C1Token::RightParenthesis, "Expected ')'"@).after(
                        inner.used,
                    )
                }
            }
        }),
{
    reveal(parenthesized);
    reveal(assignment);
}

/// What `factor` is at cursor `i`, in terms of the rules that it calls.
pub proof fn lemma_factor_unfolds(ts: Seq<Token>, i: nat)
    ensures
        factor(ts, i) == ({
            if kind_at(ts, i, C1Token::ConstInt) || kind_at(ts, i, C1Token::ConstFloat) || kind_at(
                ts,
                i,
                C1Token::ConstBoolean,
            ) {
                accept(1)
            } else if functioncall(ts, i).accepted() {
                functioncall(ts, i)
            } else if kind_at(ts, i, C1Token::Identifier) {
                accept(1)
            } else {
                parenthesized(ts, i).restored().within(", in factor"@)
            }
        }),
{
    reveal(factor);
    reveal(parenthesized);
}

/// What `term_tail` is at cursor `i`, in terms of the rules that it calls.
pub proof fn lemma_term_tail_unfolds(ts: Seq<Token>, i: nat)
    ensures
        term_tail(ts, i) == ({
            if !any_kind_at(ts, i, multiplicative_operators()) {
                accept(0)
            } else {
                let operand = factor(ts, i + 1);
                if !operand.accepted() {
                    accept(0)
                } else {
                    term_tail(ts, i + 1 + operand.used).after(1 + operand.used)
                }
            }
        }),
{
    reveal(term_tail);
    reveal(factor);
}

/// What `term` is at cursor `i`, in terms of the rules that it calls.
pub proof fn lemma_term_unfolds(ts: Seq<Token>, i: nat)
    ensures
        term(ts, i) == ({
            let first = factor(ts, i).within(", in term"@);
            if !first.accepted() {
                first
            } else {
                term_tail(ts, i + first.used).after(first.used)
            }
        }),
{
    reveal(term);
    reveal(factor);
    reveal(term_tail);
}

/// What `simpexpr_tail` is at cursor `i`, in terms of the rules that it calls.
pub proof fn lemma_simpexpr_tail_unfolds(ts: Seq<Token>, i: nat)
    ensures
        simpexpr_tail(ts, i) == ({
            if !any_kind_at(ts, i, additive_operators()) {
                accept(0)
            } else {
                let operand = term(ts, i + 1);
                if !operand.accepted() {
                    accept(0)
                } else {
                    simpexpr_tail(ts, i + 1 + operand.used).after(1 + operand.used)
                }
            }
        }),
{
    reveal(simpexpr_tail);
    reveal(term);
}

/// What `simpexpr` is at cursor `i`, in terms of the rules that it calls.
pub proof fn lemma_simpexpr_unfolds(ts: Seq<Token>, i: nat)
    ensures
        simpexpr(ts, i) == ({
            let sign: nat = if kind_at(ts, i, C1Token::Minus) {
                1
            } else {
                0
            };
            let first = term(ts, i + sign).within(", in simpexpr"@).after(sign);
            if !first.accepted() {
                first
            } else {
                simpexpr_tail(ts, i + first.used).after(first.used)
            }
        }),
{
    reveal(simpexpr);
    reveal(term);
    reveal(simpexpr_tail);
}

/// What `comparison` is at cursor `i`, in terms of the rules that it calls.
pub proof fn lemma_comparison_unfolds(ts: Seq<Token>, i: nat)
    ensures
        comparison(ts, i) == ({
            let operator = expect_any(ts, i, relational_operators(), ""@);
            if !operator.accepted() {
                operator
            } else {
                simpexpr(ts, i + 1).after(1)
            }
        }),
{
    reveal(comparison);
    reveal(simpexpr);
}

/// What `expr` is at cursor `i`, in terms of the rules that it calls.
pub proof fn lemma_expr_unfolds(ts: Seq<Token>, i: nat)
    ensures
        expr(ts, i) == ({
            let left = simpexpr(ts, i);
            if !left.accepted() {
                left.within(", in expr"@)
            } else {
                comparison(ts, i + left.used).optional().after(left.used)
            }
        }),
{
    reveal(expr);
    reveal(simpexpr);
    reveal(comparison);
}

/// What `chained` is at cursor `i`, in terms of the rules that it calls.
pub proof fn lemma_chained_unfolds(ts: Seq<Token>, i: nat)
    ensures
        chained(ts, i) == ({
            let name = expect(ts, i, C1Token::Identifier, "Expected \"<ID>\""@);
            if !name.accepted() {
                name
            } else {
                let sign = expect(ts, i + 1, C1Token::Assign, "Expected \"=\""@).after(1);
                if !sign.accepted() {
                    sign
                } else {
                    assignment(ts, i + 2).after(2)
                }
            }
        }),
{
    reveal(chained);
    reveal(assignment);
}

/// What `assignment` is at cursor `i`, in terms of the rules that it calls.
pub proof fn lemma_assignment_unfolds(ts: Seq<Token>, i: nat)
    ensures
        assignment(ts, i) == ({
            if chained(ts, i).accepted() {
                chained(ts, i)
            } else {
                expr(ts, i).restored().within(", in assignment"@)
            }
        }),
{
    reveal(assignment);
    reveal(chained);
    reveal(expr);
}

/// What `ifstatement` is at cursor `i`, in terms of the rules that it calls.
pub proof fn lemma_ifstatement_unfolds(ts: Seq<Token>, i: nat)
    ensures
        ifstatement(ts, i) == ({
            let keyword = expect(ts, i, C1Token::KwIf, "Expected \"if\""@);
            (if !keyword.accepted() {
                keyword
            } else {
                let open = expect(ts, i + 1, C1Token::LeftParenthesis, "Expected \"(\""@).after(1);
                if !open.accepted() {
                    open
                } else {
                    let condition = assignment(ts, i + 2).after(2);
                    if !condition.accepted() {
                        condition
                    } else {
                        let close = expect(
                            ts,
                            i + condition.used,
                            C1Token::RightParenthesis,
                            "Expected \")\""@,
                        ).after(condition.used);
                        if !close.accepted() {
                            close
                        } else {
                            block(ts, i + close.used).after(close.used)
                        }
                    }
                }
            }).within(", in ifstatement"@)
        }),
{
    reveal(ifstatement);
    reveal(block);
}

/// What `statement` is at cursor `i`, in terms of the rules that it calls.
pub proof fn lemma_statement_unfolds(ts: Seq<Token>, i: nat)
    ensures
        statement(ts, i) == ({
            let conditional = ifstatement(ts, i);
            let returning = terminated(
                ts,
                i,
                returnstatement(ts, i),
                "Expected semicolon after return statement"@,
            );
            let printing = terminated(ts, i, printf(ts, i), "Expected semicolon after printf"@);
            let assigning = terminated(
                ts,
                i,
                statassignment(ts, i),
                "Expected semicolon after stat assignment"@,
            );
            let calling = terminated(
                ts,
                i,
                functioncall(ts, i),
                "Expected semicolon after function call"@,
            );
            if conditional.accepted() {
                conditional
            } else if returning.accepted() {
                returning
            } else if printing.accepted() {
                printing
            } else if assigning.accepted() {
                assigning
            } else {
                calling.restored().within(", in statement"@)
            }
        }),
{
    reveal(statement);
    reveal(ifstatement);
}

/// What `braced` is at cursor `i`, in terms of the rules that it calls.
pub proof fn lemma_braced_unfolds(ts: Seq<Token>, i: nat)
    ensures
        braced(ts, i) == ({
            let open = expect(ts, i, C1Token::LeftBrace, "Expected \"{\""@);
            if !open.accepted() {
                open
            } else {
                let body = statementlist(ts, i + 1).after(1);
                expect(ts, i + body.used, C1Token::RightBrace, "Expected \"}\""@).after(body.used)
            }
        }),
{
    reveal(braced);
    reveal(statementlist);
}

/// What `block` is at cursor `i`, in terms of the rules that it calls.
pub proof fn lemma_block_unfolds(ts: Seq<Token>, i: nat)
    ensures
        block(ts, i) == ({
            if braced(ts, i).accepted() {
                braced(ts, i)
            } else {
                statement(ts, i).within(", in block"@)
            }
        }),
{
    reveal(block);
    reveal(braced);
    reveal(statement);
}

/// What `statementlist` is at cursor `i`, in terms of the rules that it calls.
pub proof fn lemma_statementlist_unfolds(ts: Seq<Token>, i: nat)
    ensures
        statementlist(ts, i) == ({
            let first = block(ts, i);
            if first.advances(ts, i) {
                statementlist(ts, i + first.used).after(first.used)
            } else {
                accept(0)
            }
        }),
{
    reveal(statementlist);
    reveal(block);
}

/// What `program` is at cursor `i`, in terms of the rules that it calls.
pub proof fn lemma_program_unfolds(ts: Seq<Token>, i: nat)
    ensures
        program(ts, i) == ({
            if i >= ts.len() {
                accept(0)
            } else {
                let first = function_definition(ts, i);
                if first.advances(ts, i) {
                    program(ts, i + first.used).after(first.used)
                } else {
                    first.within(", in program"@)
                }
            }
        }),
{
    reveal(program);
}

/// An option and a repetition never fail.
pub proof fn lemma_repetition_accepts(ts: Seq<Token>, i: nat)
    ensures
        term_tail(ts, i).accepted(),
        simpexpr_tail(ts, i).accepted(),
        statementlist(ts, i).accepted(),
        returnstatement(ts, i).accepted() <==> kind_at(ts, i, C1Token::KwReturn),
        expr(ts, i).accepted() <==> simpexpr(ts, i).accepted(),
    decreases left(ts, i),
{
    lemma_term_tail_unfolds(ts, i);
    lemma_simpexpr_tail_unfolds(ts, i);
    lemma_statementlist_unfolds(ts, i);
    lemma_expr_unfolds(ts, i);
    if any_kind_at(ts, i, multiplicative_operators()) && factor(ts, i + 1).accepted() {
        lemma_repetition_accepts(ts, i + 1 + factor(ts, i + 1).used);
    }
    if any_kind_at(ts, i, additive_operators()) && term(ts, i + 1).accepted() {
        lemma_repetition_accepts(ts, i + 1 + term(ts, i + 1).used);
    }
    if block(ts, i).advances(ts, i) {
        lemma_repetition_accepts(ts, i + block(ts, i).used);
    }
}

/// A block that is accepted has consumed a token.
pub proof fn lemma_block_advances(ts: Seq<Token>, i: nat)
    requires
        block(ts, i).accepted(),
    ensures
        block(ts, i).used > 0,
{
    lemma_block_unfolds(ts, i);
    lemma_braced_unfolds(ts, i);
    lemma_statement_unfolds(ts, i);
    lemma_ifstatement_unfolds(ts, i);
}

/// A function definition that is accepted has consumed a token.
pub proof fn lemma_definition_advances(ts: Seq<Token>, i: nat)
    requires
        function_definition(ts, i).accepted(),
    ensures
        function_definition(ts, i).used > 0,
{
}

/// A rule built from an ordered alternation consumes nothing where it fails,
/// however far its alternatives went.
pub proof fn lemma_alternation_restores(ts: Seq<Token>, i: nat)
    ensures
        !factor(ts, i).accepted() ==> factor(ts, i).used == 0,
        !assignment(ts, i).accepted() ==> assignment(ts, i).used == 0,
        !statement(ts, i).accepted() ==> statement(ts, i).used == 0,
        !block(ts, i).accepted() ==> block(ts, i).used == 0,
{
    lemma_factor_unfolds(ts, i);
    lemma_assignment_unfolds(ts, i);
    lemma_statement_unfolds(ts, i);
    lemma_block_unfolds(ts, i);
}

} // verus!
