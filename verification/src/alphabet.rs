//! The terminals of the grammar: every token of a generated text is one of
//! them, so a text with any other token is rejected.
use crate::grammar::{assignment_tokens, block_tokens, call_tokens, definition_tokens};
use crate::grammar::{definitions_tokens, expr_tokens, factor_tokens, kinds, product_tokens};
use crate::grammar::{program_tokens, sign_tokens, simpexpr_tokens, statement_tokens};
use crate::grammar::{statementlist_tokens, sum_tokens, term_tokens};
use crate::grammar::{AddOp, Assignment, Block, Definition, Expr, Factor, MulOp, Program};
use crate::grammar::{SimpExpr, Statement, Term};
use crate::lexer::Token;
use crate::rules;
use crate::scan::C1Token;
use crate::soundness::lemma_accepted_is_generated;
use vstd::prelude::*;

verus! {

/// Whether the grammar has the category `k` as a terminal. It has no string
/// literals, no commas, none of the keywords `do`, `else`, `for` and
/// `while`, and nothing of what stands for a lexical error or for discarded
/// text.
pub open spec fn is_terminal(k: C1Token) -> bool {
    !(k == C1Token::KwDo || k == C1Token::KwElse || k == C1Token::KwFor || k == C1Token::KwWhile
        || k == C1Token::Comma || k == C1Token::ConstString || k == C1Token::CComment || k
        == C1Token::CPPComment || k == C1Token::Whitespace || k == C1Token::Linebreak || k
        == C1Token::Error)
}

/// Whether all of `y` are terminals of the grammar.
#[verifier::opaque]
pub open spec fn terminals(y: Seq<C1Token>) -> bool {
    forall|k: int| 0 <= k < y.len() ==> is_terminal(#[trigger] y[k])
}

/// Terminals followed by terminals are terminals.
pub proof fn lemma_terminals_join(a: Seq<C1Token>, b: Seq<C1Token>)
    requires
        terminals(a),
        terminals(b),
    ensures
        terminals(a + b),
{
    reveal(terminals);
    let y = a + b;
    assert forall|k: int| 0 <= k < y.len() implies is_terminal(#[trigger] y[k]) by {
        if k < a.len() {
            assert(y[k] == a[k]);
        } else {
            assert(y[k] == b[k - a.len()]);
        }
    }
}

/// One terminal is terminals.
pub proof fn lemma_terminals_one(k: C1Token)
    requires
        is_terminal(k),
    ensures
        terminals(seq![k]),
{
    reveal(terminals);
}

/// Nothing is terminals.
pub proof fn lemma_terminals_none()
    ensures
        terminals(Seq::<C1Token>::empty()),
{
    reveal(terminals);
}

/// Each of some terminals is a terminal.
pub proof fn lemma_terminals_at(y: Seq<C1Token>, k: int)
    requires
        terminals(y),
        0 <= k < y.len(),
    ensures
        is_terminal(y[k]),
{
    reveal(terminals);
}

/// A function call generates terminals only.
pub proof fn lemma_call_terminals()
    ensures
        terminals(call_tokens()),
{
    reveal(terminals);
}

/// A factor generates terminals only.
pub proof fn lemma_factor_terminals(f: Factor)
    ensures
        terminals(factor_tokens(f)),
    decreases f,
{
    match f {
        Factor::Int => lemma_terminals_one(C1Token::ConstInt),
        Factor::Float => lemma_terminals_one(C1Token::ConstFloat),
        Factor::Bool => lemma_terminals_one(C1Token::ConstBoolean),
        Factor::Call => lemma_call_terminals(),
        Factor::Name => lemma_terminals_one(C1Token::Identifier),
        Factor::Group(a) => {
            lemma_assignment_terminals(*a);
            lemma_terminals_one(C1Token::LeftParenthesis);
            lemma_terminals_one(C1Token::RightParenthesis);
            lemma_terminals_join(seq![C1Token::LeftParenthesis], assignment_tokens(*a));
            lemma_terminals_join(
                seq![C1Token::LeftParenthesis] + assignment_tokens(*a),
                seq![C1Token::RightParenthesis],
            );
        },
    }
}

/// The operators and factors behind the first factor of a term generate
/// terminals only.
pub proof fn lemma_product_terminals(rest: Seq<(MulOp, Factor)>)
    ensures
        terminals(product_tokens(rest)),
    decreases rest,
{
    if rest.len() == 0 {
        lemma_terminals_none();
    } else {
        let operator = seq![crate::grammar::mulop_token(rest[0].0)];
        let operand = factor_tokens(rest[0].1);
        let more = rest.subrange(1, rest.len() as int);
        lemma_terminals_one(crate::grammar::mulop_token(rest[0].0));
        lemma_factor_terminals(rest[0].1);
        lemma_product_terminals(more);
        lemma_terminals_join(operator, operand);
        lemma_terminals_join(operator + operand, product_tokens(more));
    }
}

/// A term generates terminals only.
pub proof fn lemma_term_terminals(t: Term)
    ensures
        terminals(term_tokens(t)),
    decreases t,
{
    lemma_factor_terminals(t.first);
    lemma_product_terminals(t.rest);
    lemma_terminals_join(factor_tokens(t.first), product_tokens(t.rest));
}

/// The operators and terms behind the first term of a simpexpr generate
/// terminals only.
pub proof fn lemma_sum_terminals(rest: Seq<(AddOp, Term)>)
    ensures
        terminals(sum_tokens(rest)),
    decreases rest,
{
    if rest.len() == 0 {
        lemma_terminals_none();
    } else {
        let operator = seq![crate::grammar::addop_token(rest[0].0)];
        let operand = term_tokens(rest[0].1);
        let more = rest.subrange(1, rest.len() as int);
        lemma_terminals_one(crate::grammar::addop_token(rest[0].0));
        lemma_term_terminals(rest[0].1);
        lemma_sum_terminals(more);
        lemma_terminals_join(operator, operand);
        lemma_terminals_join(operator + operand, sum_tokens(more));
    }
}

/// A simpexpr generates terminals only.
pub proof fn lemma_simpexpr_terminals(e: SimpExpr)
    ensures
        terminals(simpexpr_tokens(e)),
    decreases e,
{
    if e.negated {
        lemma_terminals_one(C1Token::Minus);
    } else {
        lemma_terminals_none();
    }
    lemma_term_terminals(e.first);
    lemma_sum_terminals(e.rest);
    lemma_terminals_join(sign_tokens(e.negated), term_tokens(e.first));
    lemma_terminals_join(sign_tokens(e.negated) + term_tokens(e.first), sum_tokens(e.rest));
}

/// An expr generates terminals only.
pub proof fn lemma_expr_terminals(e: Expr)
    ensures
        terminals(expr_tokens(e)),
    decreases e,
{
    lemma_simpexpr_terminals(e.left);
    match e.right {
        Some(r) => {
            lemma_terminals_one(crate::grammar::relop_token(r.0));
            lemma_simpexpr_terminals(r.1);
            lemma_terminals_join(seq![crate::grammar::relop_token(r.0)], simpexpr_tokens(r.1));
            lemma_terminals_join(
                simpexpr_tokens(e.left),
                seq![crate::grammar::relop_token(r.0)] + simpexpr_tokens(r.1),
            );
        },
        None => {
            lemma_terminals_none();
            lemma_terminals_join(simpexpr_tokens(e.left), seq![]);
        },
    }
}

/// An assignment generates terminals only.
pub proof fn lemma_assignment_terminals(a: Assignment)
    ensures
        terminals(assignment_tokens(a)),
    decreases a,
{
    match a {
        Assignment::Store(value) => {
            let head = seq![C1Token::Identifier, C1Token::Assign];
            assert(terminals(head)) by {
                reveal(terminals);
            }
            lemma_assignment_terminals(*value);
            lemma_terminals_join(head, assignment_tokens(*value));
        },
        Assignment::Value(e) => {
            lemma_expr_terminals(e);
        },
    }
}

/// A statement generates terminals only.
pub proof fn lemma_statement_terminals(s: Statement)
    ensures
        terminals(statement_tokens(s)),
    decreases s,
{
    let semicolon = seq![C1Token::Semicolon];
    lemma_terminals_one(C1Token::Semicolon);
    match s {
        Statement::If(condition, body) => {
            let head = seq![C1Token::KwIf, C1Token::LeftParenthesis];
            let close = seq![C1Token::RightParenthesis];
            assert(terminals(head)) by {
                reveal(terminals);
            }
            lemma_terminals_one(C1Token::RightParenthesis);
            lemma_assignment_terminals(condition);
            lemma_block_terminals(*body);
            lemma_terminals_join(head, assignment_tokens(condition));
            lemma_terminals_join(head + assignment_tokens(condition), close);
            lemma_terminals_join(head + assignment_tokens(condition) + close, block_tokens(*body));
        },
        Statement::Return(value) => {
            let head = seq![C1Token::KwReturn];
            lemma_terminals_one(C1Token::KwReturn);
            let inner = match value {
                Some(a) => assignment_tokens(a),
                None => seq![],
            };
            match value {
                Some(a) => lemma_assignment_terminals(a),
                None => lemma_terminals_none(),
            }
            lemma_terminals_join(head, inner);
            lemma_terminals_join(head + inner, semicolon);
        },
        Statement::Print(value) => {
            let head = seq![C1Token::KwPrintf, C1Token::LeftParenthesis];
            let end = seq![C1Token::RightParenthesis, C1Token::Semicolon];
            assert(terminals(head) && terminals(end)) by {
                reveal(terminals);
            }
            lemma_assignment_terminals(value);
            lemma_terminals_join(head, assignment_tokens(value));
            lemma_terminals_join(head + assignment_tokens(value), end);
        },
        Statement::Store(value) => {
            let head = seq![C1Token::Identifier, C1Token::Assign];
            assert(terminals(head)) by {
                reveal(terminals);
            }
            lemma_assignment_terminals(value);
            lemma_terminals_join(head, assignment_tokens(value));
            lemma_terminals_join(head + assignment_tokens(value), semicolon);
        },
        Statement::Call => {
            lemma_call_terminals();
            lemma_terminals_join(call_tokens(), semicolon);
        },
    }
}

/// A block generates terminals only.
pub proof fn lemma_block_terminals(b: Block)
    ensures
        terminals(block_tokens(b)),
    decreases b,
{
    match b {
        Block::Braces(body) => {
            lemma_terminals_one(C1Token::LeftBrace);
            lemma_terminals_one(C1Token::RightBrace);
            lemma_statementlist_terminals(body);
            lemma_terminals_join(seq![C1Token::LeftBrace], statementlist_tokens(body));
            lemma_terminals_join(
                seq![C1Token::LeftBrace] + statementlist_tokens(body),
                seq![C1Token::RightBrace],
            );
        },
        Block::Single(s) => {
            lemma_statement_terminals(s);
        },
    }
}

/// A statement list generates terminals only.
pub proof fn lemma_statementlist_terminals(blocks: Seq<Block>)
    ensures
        terminals(statementlist_tokens(blocks)),
    decreases blocks,
{
    if blocks.len() == 0 {
        lemma_terminals_none();
    } else {
        let more = blocks.subrange(1, blocks.len() as int);
        lemma_block_terminals(blocks[0]);
        lemma_statementlist_terminals(more);
        lemma_terminals_join(block_tokens(blocks[0]), statementlist_tokens(more));
    }
}

/// A function definition generates terminals only.
pub proof fn lemma_definition_terminals(d: Definition)
    ensures
        terminals(definition_tokens(d)),
{
    let head = seq![
        crate::grammar::type_token(d.kind),
        C1Token::Identifier,
        C1Token::LeftParenthesis,
        C1Token::RightParenthesis,
        C1Token::LeftBrace,
    ];
    assert(terminals(head)) by {
        reveal(terminals);
    }
    lemma_terminals_one(C1Token::RightBrace);
    lemma_statementlist_terminals(d.body);
    lemma_terminals_join(head, statementlist_tokens(d.body));
    lemma_terminals_join(head + statementlist_tokens(d.body), seq![C1Token::RightBrace]);
}

/// Function definitions generate terminals only.
pub proof fn lemma_definitions_terminals(definitions: Seq<Definition>)
    ensures
        terminals(definitions_tokens(definitions)),
    decreases definitions.len(),
{
    if definitions.len() == 0 {
        lemma_terminals_none();
    } else {
        let more = definitions.subrange(1, definitions.len() as int);
        lemma_definition_terminals(definitions[0]);
        lemma_definitions_terminals(more);
        lemma_terminals_join(definition_tokens(definitions[0]), definitions_tokens(more));
    }
}

/// Every token of a generated program is a terminal of the grammar.
pub proof fn lemma_generated_terminals(p: Program)
    ensures
        terminals(program_tokens(p)),
{
    lemma_definitions_terminals(p.definitions);
}

/// A text with a token that is no terminal of the grammar is rejected,
/// whatever else it holds: so is every text in which a lexical error, or any
/// other such token, stands where a terminal was required.
pub proof fn lemma_stray_token_is_rejected(ts: Seq<Token>, k: int)
    requires
        0 <= k < ts.len(),
        !is_terminal(ts[k].kind),
    ensures
        !rules::program(ts, 0).accepted(),
{
    if rules::program(ts, 0).accepted() {
        let p = lemma_accepted_is_generated(ts);
        lemma_generated_terminals(p);
        lemma_terminals_at(program_tokens(p), k);
        assert(kinds(ts)[k] == ts[k].kind);
    }
}

} // verus!
