//! Every text that the grammar generates is accepted, and read to its end.
use crate::grammar::{addop_token, assignment_tokens, expr_tokens, factor_tokens, mulop_token};
use crate::grammar::{product_tokens, relop_token, sign_tokens, simpexpr_tokens, sum_tokens};
use crate::grammar::{block_tokens, definition_tokens, definitions_tokens, kinds};
use crate::grammar::{program_tokens, statement_tokens, statementlist_tokens, type_token};
use crate::grammar::{term_tokens, AddOp, Assignment, Expr, Factor, MulOp, SimpExpr, Term};
use crate::grammar::{Block, Definition, Program, Statement};
use crate::lexer::Token;
use crate::rules;
use crate::rules::{accept, kind_at, lemma_token_sets_at};
use crate::scan::C1Token;
use vstd::prelude::*;

verus! {

/// Whether the tokens of `ts` from cursor `i` on begin with the categories `y`.
#[verifier::opaque]
pub open spec fn reads(ts: Seq<Token>, i: nat, y: Seq<C1Token>) -> bool {
    &&& i + y.len() <= ts.len()
    &&& forall|k: int| 0 <= k < y.len() ==> ts[i + k].kind == #[trigger] y[k]
}

/// Whether what stands at cursor `j` cannot continue a factor that ends there.
pub open spec fn ends_factor(ts: Seq<Token>, j: nat) -> bool {
    !kind_at(ts, j, C1Token::LeftParenthesis)
}

/// Whether what stands at cursor `j` cannot continue a term that ends there.
pub open spec fn ends_term(ts: Seq<Token>, j: nat) -> bool {
    ends_factor(ts, j) && !(j < ts.len() && rules::is_multiplicative(ts[j as int].kind))
}

/// Whether what stands at cursor `j` cannot continue a simpexpr that ends
/// there.
pub open spec fn ends_simpexpr(ts: Seq<Token>, j: nat) -> bool {
    ends_term(ts, j) && !(j < ts.len() && rules::is_additive(ts[j as int].kind))
}

/// Whether what stands at cursor `j` cannot continue an expr that ends there.
pub open spec fn ends_expr(ts: Seq<Token>, j: nat) -> bool {
    ends_simpexpr(ts, j) && !(j < ts.len() && rules::is_relational(ts[j as int].kind))
}

/// Whether what stands at cursor `j` cannot continue an assignment that ends
/// there.
pub open spec fn ends_assignment(ts: Seq<Token>, j: nat) -> bool {
    ends_expr(ts, j) && !kind_at(ts, j, C1Token::Assign)
}

/// What begins with `a + b` begins with `a`, and goes on with `b`.
pub proof fn lemma_reads_split(ts: Seq<Token>, i: nat, a: Seq<C1Token>, b: Seq<C1Token>)
    requires
        reads(ts, i, a + b),
    ensures
        reads(ts, i, a),
        reads(ts, i + a.len(), b),
{
    reveal(reads);
    let y = a + b;
    assert forall|k: int| 0 <= k < a.len() implies ts[i + k].kind == #[trigger] a[k] by {
        assert(y[k] == a[k]);
    }
    assert forall|k: int| 0 <= k < b.len() implies ts[i + a.len() + k].kind == #[trigger] b[k] by {
        assert(y[a.len() + k] == b[k]);
    }
}

/// What begins with `y` has the first category of `y` at the cursor.
pub proof fn lemma_reads_first(ts: Seq<Token>, i: nat, y: Seq<C1Token>)
    requires
        reads(ts, i, y),
        y.len() > 0,
    ensures
        kind_at(ts, i, y[0]),
{
    lemma_reads_at(ts, i, y, 0);
}

/// What begins with `y` has the category `y[k]` at `k` tokens from the cursor.
pub proof fn lemma_reads_at(ts: Seq<Token>, i: nat, y: Seq<C1Token>, k: nat)
    requires
        reads(ts, i, y),
        k < y.len(),
    ensures
        kind_at(ts, i + k, y[k as int]),
{
    reveal(reads);
    assert(ts[i + (k as int)].kind == y[k as int]);
}

/// What begins with `y` has as many tokens as `y`.
pub proof fn lemma_reads_len(ts: Seq<Token>, i: nat, y: Seq<C1Token>)
    requires
        reads(ts, i, y),
    ensures
        i + y.len() <= ts.len(),
{
    reveal(reads);
}

/// An identifier before `=` is all that expr reads.
pub proof fn lemma_expr_before_assign(ts: Seq<Token>, i: nat)
    requires
        kind_at(ts, i, C1Token::Identifier),
        kind_at(ts, i + 1, C1Token::Assign),
    ensures
        rules::expr(ts, i) == accept(1),
{
    rules::lemma_factor_unfolds(ts, i);
    rules::lemma_term_tail_unfolds(ts, i + 1);
    rules::lemma_term_unfolds(ts, i);
    rules::lemma_simpexpr_tail_unfolds(ts, i + 1);
    rules::lemma_simpexpr_unfolds(ts, i);
    rules::lemma_comparison_unfolds(ts, i + 1);
    rules::lemma_expr_unfolds(ts, i);
    lemma_token_sets_at(ts, i + 1);
    assert(!rules::functioncall(ts, i).accepted());
    assert(rules::factor(ts, i) == accept(1));
    assert(rules::term_tail(ts, i + 1) == accept(0));
    assert(rules::term(ts, i) == accept(1));
    assert(rules::simpexpr_tail(ts, i + 1) == accept(0));
    assert(rules::simpexpr(ts, i) == accept(1));
    assert(!rules::comparison(ts, i + 1).accepted());
}

/// `factor` accepts the tokens of a factor, and no more, where no `(` follows
/// them.
pub proof fn lemma_factor(ts: Seq<Token>, i: nat, f: Factor)
    requires
        reads(ts, i, factor_tokens(f)),
        ends_factor(ts, i + factor_tokens(f).len()),
    ensures
        rules::factor(ts, i) == accept(factor_tokens(f).len()),
    decreases f, 1nat,
{
    rules::lemma_factor_unfolds(ts, i);
    rules::lemma_parenthesized_unfolds(ts, i);
    let y = factor_tokens(f);
    lemma_reads_first(ts, i, y);
    match f {
        Factor::Int => {},
        Factor::Float => {},
        Factor::Bool => {},
        Factor::Call => {
            lemma_reads_at(ts, i, y, 1);
            lemma_reads_at(ts, i, y, 2);
            assert(rules::functioncall(ts, i) == accept(3));
        },
        Factor::Name => {
            assert(!rules::functioncall(ts, i).accepted());
        },
        Factor::Group(a) => {
            let inner = assignment_tokens(*a);
            lemma_reads_split(
                ts,
                i,
                seq![C1Token::LeftParenthesis] + inner,
                seq![C1Token::RightParenthesis],
            );
            lemma_reads_split(ts, i, seq![C1Token::LeftParenthesis], inner);
            lemma_reads_first(ts, i + 1 + inner.len(), seq![C1Token::RightParenthesis]);
            lemma_assignment(ts, i + 1, *a);
            assert(!rules::functioncall(ts, i).accepted());
            assert(rules::parenthesized(ts, i) == accept(inner.len() + 2));
        },
    }
}

/// The repetition in `term` accepts the operators and factors behind the
/// first factor of a term, and no more, where nothing follows them that
/// continues a term.
pub proof fn lemma_product(ts: Seq<Token>, i: nat, rest: Seq<(MulOp, Factor)>)
    requires
        reads(ts, i, product_tokens(rest)),
        ends_term(ts, i + product_tokens(rest).len()),
    ensures
        rules::term_tail(ts, i) == accept(product_tokens(rest).len()),
    decreases rest, 1nat,
{
    rules::lemma_term_tail_unfolds(ts, i);
    lemma_token_sets_at(ts, i);
    if rest.len() > 0 {
        let operator = seq![mulop_token(rest[0].0)];
        let operand = factor_tokens(rest[0].1);
        let more = rest.subrange(1, rest.len() as int);
        lemma_reads_split(ts, i, operator + operand, product_tokens(more));
        lemma_reads_split(ts, i, operator, operand);
        lemma_reads_first(ts, i, operator);
        let j = i + 1 + operand.len();
        if more.len() > 0 {
            lemma_reads_first(ts, j, product_tokens(more));
        }
        lemma_factor(ts, i + 1, rest[0].1);
        lemma_product(ts, j, more);
    }
}

/// `term` accepts the tokens of a term, and no more, where nothing follows
/// them that continues a term.
pub proof fn lemma_term(ts: Seq<Token>, i: nat, t: Term)
    requires
        reads(ts, i, term_tokens(t)),
        ends_term(ts, i + term_tokens(t).len()),
    ensures
        rules::term(ts, i) == accept(term_tokens(t).len()),
    decreases t, 1nat,
{
    rules::lemma_term_unfolds(ts, i);
    let first = factor_tokens(t.first);
    lemma_reads_split(ts, i, first, product_tokens(t.rest));
    if t.rest.len() > 0 {
        lemma_reads_first(ts, i + first.len(), product_tokens(t.rest));
    }
    lemma_factor(ts, i, t.first);
    lemma_product(ts, i + first.len(), t.rest);
}

/// The repetition in `simpexpr` accepts the operators and terms behind the
/// first term of a simpexpr, and no more, where nothing follows them that
/// continues a simpexpr.
pub proof fn lemma_sum(ts: Seq<Token>, i: nat, rest: Seq<(AddOp, Term)>)
    requires
        reads(ts, i, sum_tokens(rest)),
        ends_simpexpr(ts, i + sum_tokens(rest).len()),
    ensures
        rules::simpexpr_tail(ts, i) == accept(sum_tokens(rest).len()),
    decreases rest, 1nat,
{
    rules::lemma_simpexpr_tail_unfolds(ts, i);
    lemma_token_sets_at(ts, i);
    if rest.len() > 0 {
        let operator = seq![addop_token(rest[0].0)];
        let operand = term_tokens(rest[0].1);
        let more = rest.subrange(1, rest.len() as int);
        lemma_reads_split(ts, i, operator + operand, sum_tokens(more));
        lemma_reads_split(ts, i, operator, operand);
        lemma_reads_first(ts, i, operator);
        let j = i + 1 + operand.len();
        if more.len() > 0 {
            lemma_reads_first(ts, j, sum_tokens(more));
        }
        lemma_term(ts, i + 1, rest[0].1);
        lemma_sum(ts, j, more);
    }
}

/// `simpexpr` accepts the tokens of a simpexpr, and no more, where nothing
/// follows them that continues a simpexpr.
pub proof fn lemma_simpexpr(ts: Seq<Token>, i: nat, e: SimpExpr)
    requires
        reads(ts, i, simpexpr_tokens(e)),
        ends_simpexpr(ts, i + simpexpr_tokens(e).len()),
    ensures
        rules::simpexpr(ts, i) == accept(simpexpr_tokens(e).len()),
    decreases e, 1nat,
{
    rules::lemma_simpexpr_unfolds(ts, i);
    let sign = sign_tokens(e.negated);
    let first = term_tokens(e.first);
    lemma_reads_split(ts, i, sign + first, sum_tokens(e.rest));
    lemma_reads_split(ts, i, sign, first);
    let j = i + sign.len() + first.len();
    if e.rest.len() > 0 {
        lemma_reads_first(ts, j, sum_tokens(e.rest));
    }
    lemma_term(ts, i + sign.len(), e.first);
    lemma_sum(ts, j, e.rest);
    if e.negated {
        lemma_reads_first(ts, i, sign);
    } else {
        lemma_term_begins(ts, i, e.first);
    }
}

/// No term begins with a minus sign.
pub proof fn lemma_term_begins(ts: Seq<Token>, i: nat, t: Term)
    requires
        reads(ts, i, term_tokens(t)),
    ensures
        !kind_at(ts, i, C1Token::Minus),
{
    let first = factor_tokens(t.first);
    lemma_reads_split(ts, i, first, product_tokens(t.rest));
    lemma_reads_first(ts, i, first);
}

/// Where no relational operator stands, no comparison is accepted.
pub proof fn lemma_no_comparison(ts: Seq<Token>, j: nat)
    requires
        !(j < ts.len() && rules::is_relational(ts[j as int].kind)),
    ensures
        !rules::comparison(ts, j).accepted(),
{
    rules::lemma_comparison_unfolds(ts, j);
    lemma_token_sets_at(ts, j);
}

/// `comparison` accepts a relational operator and the tokens of a simpexpr,
/// and no more, where nothing follows them that continues a simpexpr.
pub proof fn lemma_comparison(ts: Seq<Token>, j: nat, operator: C1Token, operand: SimpExpr)
    requires
        rules::is_relational(operator),
        reads(ts, j, seq![operator] + simpexpr_tokens(operand)),
        ends_simpexpr(ts, j + 1 + simpexpr_tokens(operand).len()),
    ensures
        rules::comparison(ts, j) == accept(1 + simpexpr_tokens(operand).len()),
    decreases operand, 2nat,
{
    let n = simpexpr_tokens(operand).len();
    lemma_reads_split(ts, j, seq![operator], simpexpr_tokens(operand));
    lemma_reads_first(ts, j, seq![operator]);
    lemma_simpexpr(ts, j + 1, operand);
    assert(rules::any_kind_at(ts, j, rules::relational_operators())) by {
        lemma_token_sets_at(ts, j);
    }
    let right = rules::simpexpr(ts, j + 1);
    assert(right == accept(n));
    assert(rules::comparison(ts, j) == right.after(1)) by {
        rules::lemma_comparison_unfolds(ts, j);
    }
}

/// `expr` accepts the tokens of an expr, and no more, where nothing follows
/// them that continues an expr.
pub proof fn lemma_expr(ts: Seq<Token>, i: nat, e: Expr)
    requires
        reads(ts, i, expr_tokens(e)),
        ends_expr(ts, i + expr_tokens(e).len()),
    ensures
        rules::expr(ts, i) == accept(expr_tokens(e).len()),
    decreases e, 1nat,
{
    let left = simpexpr_tokens(e.left);
    let j = i + left.len();
    match e.right {
        Some(r) => {
            let right = seq![relop_token(r.0)] + simpexpr_tokens(r.1);
            lemma_reads_split(ts, i, left, right);
            lemma_reads_first(ts, j, right);
            lemma_simpexpr(ts, i, e.left);
            lemma_comparison(ts, j, relop_token(r.0), r.1);
        },
        None => {
            lemma_reads_split(ts, i, left, seq![]);
            lemma_simpexpr(ts, i, e.left);
            lemma_no_comparison(ts, j);
        },
    }
    assert(rules::expr(ts, i) == accept(expr_tokens(e).len())) by {
        rules::lemma_expr_unfolds(ts, i);
    }
}

/// `assignment` accepts the tokens of an assignment, and no more, where
/// nothing follows them that continues an assignment.
pub proof fn lemma_assignment(ts: Seq<Token>, i: nat, a: Assignment)
    requires
        reads(ts, i, assignment_tokens(a)),
        ends_assignment(ts, i + assignment_tokens(a).len()),
    ensures
        rules::assignment(ts, i) == accept(assignment_tokens(a).len()),
    decreases a, 1nat,
{
    rules::lemma_assignment_unfolds(ts, i);
    rules::lemma_chained_unfolds(ts, i);
    match a {
        Assignment::Store(value) => {
            let head = seq![C1Token::Identifier, C1Token::Assign];
            lemma_reads_split(ts, i, head, assignment_tokens(*value));
            lemma_reads_at(ts, i, head, 0);
            lemma_reads_at(ts, i, head, 1);
            lemma_assignment(ts, i + 2, *value);
        },
        Assignment::Value(e) => {
            lemma_expr(ts, i, e);
            if kind_at(ts, i, C1Token::Identifier) && kind_at(ts, i + 1, C1Token::Assign) {
                lemma_expr_before_assign(ts, i);
            }
        },
    }
}

/// Whether an assignment can begin with what stands at cursor `j`.
pub open spec fn begins_assignment(ts: Seq<Token>, j: nat) -> bool {
    ||| kind_at(ts, j, C1Token::Minus)
    ||| kind_at(ts, j, C1Token::ConstInt)
    ||| kind_at(ts, j, C1Token::ConstFloat)
    ||| kind_at(ts, j, C1Token::ConstBoolean)
    ||| kind_at(ts, j, C1Token::Identifier)
    ||| kind_at(ts, j, C1Token::LeftParenthesis)
}

/// Whether a block can begin with what stands at cursor `j`.
pub open spec fn begins_block(ts: Seq<Token>, j: nat) -> bool {
    ||| kind_at(ts, j, C1Token::LeftBrace)
    ||| kind_at(ts, j, C1Token::KwIf)
    ||| kind_at(ts, j, C1Token::KwReturn)
    ||| kind_at(ts, j, C1Token::KwPrintf)
    ||| kind_at(ts, j, C1Token::Identifier)
}

/// Where no assignment can begin, none is accepted.
pub proof fn lemma_no_assignment(ts: Seq<Token>, j: nat)
    requires
        !begins_assignment(ts, j),
    ensures
        !rules::assignment(ts, j).accepted(),
{
    rules::lemma_parenthesized_unfolds(ts, j);
    rules::lemma_factor_unfolds(ts, j);
    rules::lemma_term_unfolds(ts, j);
    rules::lemma_simpexpr_unfolds(ts, j);
    rules::lemma_expr_unfolds(ts, j);
    rules::lemma_chained_unfolds(ts, j);
    rules::lemma_assignment_unfolds(ts, j);
    assert(!rules::functioncall(ts, j).accepted());
    assert(!rules::parenthesized(ts, j).accepted());
    assert(!rules::factor(ts, j).accepted());
    assert(!rules::term(ts, j).accepted());
    assert(!rules::simpexpr(ts, j).accepted());
    assert(!rules::expr(ts, j).accepted());
    assert(!rules::chained(ts, j).accepted());
}

/// Where no block can begin, none is accepted.
pub proof fn lemma_no_block(ts: Seq<Token>, j: nat)
    requires
        !begins_block(ts, j),
    ensures
        !rules::block(ts, j).accepted(),
{
    rules::lemma_braced_unfolds(ts, j);
    rules::lemma_ifstatement_unfolds(ts, j);
    rules::lemma_statement_unfolds(ts, j);
    rules::lemma_block_unfolds(ts, j);
    assert(!rules::braced(ts, j).accepted());
    assert(!rules::ifstatement(ts, j).accepted());
    assert(!rules::returnstatement(ts, j).accepted());
    assert(!rules::printf(ts, j).accepted());
    assert(!rules::statassignment(ts, j).accepted());
    assert(!rules::functioncall(ts, j).accepted());
    assert(!rules::statement(ts, j).accepted());
}

/// No statement begins with a brace.
pub proof fn lemma_statement_begins(ts: Seq<Token>, i: nat, s: Statement)
    requires
        reads(ts, i, statement_tokens(s)),
    ensures
        !kind_at(ts, i, C1Token::LeftBrace),
{
    let y = statement_tokens(s);
    match s {
        Statement::If(condition, body) => {
            assert(y[0] == C1Token::KwIf);
        },
        Statement::Return(value) => {
            assert(y[0] == C1Token::KwReturn);
        },
        Statement::Print(value) => {
            assert(y[0] == C1Token::KwPrintf);
        },
        Statement::Store(value) => {
            assert(y[0] == C1Token::Identifier);
        },
        Statement::Call => {
            assert(y[0] == C1Token::Identifier);
        },
    }
    lemma_reads_first(ts, i, y);
}

/// `statement` accepts the tokens of a statement, and no more.
#[verifier::rlimit(30)]
pub proof fn lemma_statement(ts: Seq<Token>, i: nat, s: Statement)
    requires
        reads(ts, i, statement_tokens(s)),
    ensures
        rules::statement(ts, i) == accept(statement_tokens(s).len()),
    decreases s,
{
    rules::lemma_statement_unfolds(ts, i);
    rules::lemma_ifstatement_unfolds(ts, i);
    match s {
        Statement::If(condition, body) => {
            let head = seq![C1Token::KwIf, C1Token::LeftParenthesis];
            let inner = assignment_tokens(condition);
            let close = seq![C1Token::RightParenthesis];
            lemma_reads_split(ts, i, head + inner + close, block_tokens(*body));
            lemma_reads_split(ts, i, head + inner, close);
            lemma_reads_split(ts, i, head, inner);
            lemma_reads_at(ts, i, head, 0);
            lemma_reads_at(ts, i, head, 1);
            lemma_reads_first(ts, i + 2 + inner.len(), close);
            lemma_assignment(ts, i + 2, condition);
            lemma_block(ts, i + 3 + inner.len(), *body);
            assert(rules::ifstatement(ts, i) == accept(statement_tokens(s).len()));
        },
        Statement::Return(value) => {
            let head = seq![C1Token::KwReturn];
            let inner = match value {
                Some(a) => assignment_tokens(a),
                None => seq![],
            };
            let end = seq![C1Token::Semicolon];
            lemma_reads_split(ts, i, head + inner, end);
            lemma_reads_split(ts, i, head, inner);
            lemma_reads_first(ts, i, head);
            lemma_reads_first(ts, i + 1 + inner.len(), end);
            match value {
                Some(a) => {
                    lemma_assignment(ts, i + 1, a);
                },
                None => {
                    lemma_no_assignment(ts, i + 1);
                },
            }
            assert(!rules::ifstatement(ts, i).accepted());
            assert(rules::returnstatement(ts, i) == accept(1 + inner.len()));
        },
        Statement::Print(value) => {
            let head = seq![C1Token::KwPrintf, C1Token::LeftParenthesis];
            let inner = assignment_tokens(value);
            let end = seq![C1Token::RightParenthesis, C1Token::Semicolon];
            lemma_reads_split(ts, i, head + inner, end);
            lemma_reads_split(ts, i, head, inner);
            lemma_reads_at(ts, i, head, 0);
            lemma_reads_at(ts, i, head, 1);
            let j = i + 2 + inner.len();
            lemma_reads_at(ts, j, end, 0);
            lemma_reads_at(ts, j, end, 1);
            lemma_assignment(ts, i + 2, value);
            assert(!rules::ifstatement(ts, i).accepted());
            assert(!rules::returnstatement(ts, i).accepted());
            assert(rules::printf(ts, i) == accept(3 + inner.len()));
        },
        Statement::Store(value) => {
            let head = seq![C1Token::Identifier, C1Token::Assign];
            let inner = assignment_tokens(value);
            let end = seq![C1Token::Semicolon];
            lemma_reads_split(ts, i, head + inner, end);
            lemma_reads_split(ts, i, head, inner);
            lemma_reads_at(ts, i, head, 0);
            lemma_reads_at(ts, i, head, 1);
            lemma_reads_first(ts, i + 2 + inner.len(), end);
            lemma_assignment(ts, i + 2, value);
            assert(!rules::ifstatement(ts, i).accepted());
            assert(!rules::returnstatement(ts, i).accepted());
            assert(!rules::printf(ts, i).accepted());
            assert(rules::statassignment(ts, i) == accept(2 + inner.len()));
        },
        Statement::Call => {
            let y = statement_tokens(s);
            lemma_reads_at(ts, i, y, 0);
            lemma_reads_at(ts, i, y, 1);
            lemma_reads_at(ts, i, y, 2);
            lemma_reads_at(ts, i, y, 3);
            assert(!rules::ifstatement(ts, i).accepted());
            assert(!rules::returnstatement(ts, i).accepted());
            assert(!rules::printf(ts, i).accepted());
            assert(!rules::statassignment(ts, i).accepted());
            assert(rules::functioncall(ts, i) == accept(3));
        },
    }
}

/// `block` accepts the tokens of a block, and no more.
pub proof fn lemma_block(ts: Seq<Token>, i: nat, b: Block)
    requires
        reads(ts, i, block_tokens(b)),
    ensures
        rules::block(ts, i) == accept(block_tokens(b).len()),
    decreases b,
{
    rules::lemma_block_unfolds(ts, i);
    rules::lemma_braced_unfolds(ts, i);
    match b {
        Block::Braces(body) => {
            let open = seq![C1Token::LeftBrace];
            let inner = statementlist_tokens(body);
            let close = seq![C1Token::RightBrace];
            lemma_reads_split(ts, i, open + inner, close);
            lemma_reads_split(ts, i, open, inner);
            lemma_reads_first(ts, i, open);
            lemma_reads_first(ts, i + 1 + inner.len(), close);
            lemma_no_block(ts, i + 1 + inner.len());
            lemma_statementlist(ts, i + 1, body);
            assert(rules::braced(ts, i) == accept(inner.len() + 2));
        },
        Block::Single(s) => {
            lemma_statement_begins(ts, i, s);
            lemma_statement(ts, i, s);
            assert(!rules::braced(ts, i).accepted());
        },
    }
}

/// `statementlist` accepts the tokens of a statement list, and no more, where
/// no block is accepted behind them.
pub proof fn lemma_statementlist(ts: Seq<Token>, i: nat, blocks: Seq<Block>)
    requires
        reads(ts, i, statementlist_tokens(blocks)),
        !rules::block(ts, i + statementlist_tokens(blocks).len()).accepted(),
    ensures
        rules::statementlist(ts, i) == accept(statementlist_tokens(blocks).len()),
    decreases blocks,
{
    rules::lemma_statementlist_unfolds(ts, i);
    if blocks.len() > 0 {
        let first = block_tokens(blocks[0]);
        let more = blocks.subrange(1, blocks.len() as int);
        lemma_reads_split(ts, i, first, statementlist_tokens(more));
        lemma_block(ts, i, blocks[0]);
        lemma_reads_len(ts, i, first);
        rules::lemma_block_advances(ts, i);
        lemma_statementlist(ts, i + first.len(), more);
    }
}

/// `function_definition` accepts the tokens of a function definition, and no
/// more.
pub proof fn lemma_definition(ts: Seq<Token>, i: nat, d: Definition)
    requires
        reads(ts, i, definition_tokens(d)),
    ensures
        rules::function_definition(ts, i) == accept(definition_tokens(d).len()),
{
    let head = seq![
        type_token(d.kind),
        C1Token::Identifier,
        C1Token::LeftParenthesis,
        C1Token::RightParenthesis,
        C1Token::LeftBrace,
    ];
    let inner = statementlist_tokens(d.body);
    let close = seq![C1Token::RightBrace];
    lemma_reads_split(ts, i, head + inner, close);
    lemma_reads_split(ts, i, head, inner);
    lemma_reads_at(ts, i, head, 0);
    lemma_reads_at(ts, i, head, 1);
    lemma_reads_at(ts, i, head, 2);
    lemma_reads_at(ts, i, head, 3);
    lemma_reads_at(ts, i, head, 4);
    lemma_reads_first(ts, i + 5 + inner.len(), close);
    lemma_no_block(ts, i + 5 + inner.len());
    lemma_statementlist(ts, i + 5, d.body);
    lemma_token_sets_at(ts, i);
    assert(rules::p_type(ts, i) == accept(1));
}

/// `program` accepts the tokens of function definitions that end where the
/// stream ends.
pub proof fn lemma_definitions(ts: Seq<Token>, i: nat, definitions: Seq<Definition>)
    requires
        reads(ts, i, definitions_tokens(definitions)),
        i + definitions_tokens(definitions).len() == ts.len(),
    ensures
        rules::program(ts, i) == accept(definitions_tokens(definitions).len()),
    decreases definitions.len(),
{
    rules::lemma_program_unfolds(ts, i);
    if definitions.len() > 0 {
        let first = definition_tokens(definitions[0]);
        let more = definitions.subrange(1, definitions.len() as int);
        lemma_reads_split(ts, i, first, definitions_tokens(more));
        lemma_reads_len(ts, i, first);
        lemma_definition(ts, i, definitions[0]);
        lemma_definitions(ts, i + first.len(), more);
    }
}

/// The recognizer accepts every text that the grammar generates, and reads
/// it to its end: if the tokens `ts` are those of a derivation `p` of a
/// program, then `program`, begun at the first of them, accepts and consumes
/// them all.
pub proof fn lemma_generated_is_accepted(ts: Seq<Token>, p: Program)
    requires
        kinds(ts) == program_tokens(p),
    ensures
        rules::program(ts, 0) == accept(ts.len()),
{
    let y = program_tokens(p);
    assert(reads(ts, 0, y)) by {
        reveal(reads);
        assert forall|k: int| 0 <= k < y.len() implies ts[0 + k].kind == #[trigger] y[k] by {
            assert(kinds(ts)[k] == ts[k].kind);
        }
    }
    lemma_definitions(ts, 0, p.definitions);
}

} // verus!
