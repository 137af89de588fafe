//! Every text that is accepted is one that the grammar generates: from an
//! acceptance a derivation of what was consumed can be read off.
use crate::completeness::{lemma_generated_is_accepted, lemma_reads_len, reads};
use crate::grammar::{addop_token, assignment_tokens, block_tokens, call_tokens, definition_tokens};
use crate::grammar::{definitions_tokens, expr_tokens, factor_tokens, generated, kinds, mulop_token};
use crate::grammar::{product_tokens, program_tokens, relop_token, sign_tokens, simpexpr_tokens};
use crate::grammar::{statement_tokens, statementlist_tokens, sum_tokens, term_tokens, type_token};
use crate::grammar::{AddOp, Assignment, Block, Definition, Expr, Factor, MulOp, Program, RelOp};
use crate::grammar::{SimpExpr, Statement, Term, TypeName};
use crate::lexer::Token;
use crate::rules;
use crate::rules::{kind_at, left, lemma_token_sets_at};
use crate::scan::C1Token;
use vstd::prelude::*;

verus! {

/// The type that the keyword `k` names.
pub open spec fn type_of(k: C1Token) -> TypeName {
    if k == C1Token::KwBoolean {
        TypeName::Bool
    } else if k == C1Token::KwFloat {
        TypeName::Float
    } else if k == C1Token::KwInt {
        TypeName::Int
    } else {
        TypeName::Void
    }
}

/// The relational operator that the token `k` is.
pub open spec fn relop_of(k: C1Token) -> RelOp {
    if k == C1Token::Equal {
        RelOp::Equal
    } else if k == C1Token::NotEqual {
        RelOp::NotEqual
    } else if k == C1Token::LessEqual {
        RelOp::LessEqual
    } else if k == C1Token::GreaterEqual {
        RelOp::GreaterEqual
    } else if k == C1Token::Less {
        RelOp::Less
    } else {
        RelOp::Greater
    }
}

/// The additive operator that the token `k` is.
pub open spec fn addop_of(k: C1Token) -> AddOp {
    if k == C1Token::Plus {
        AddOp::Plus
    } else if k == C1Token::Minus {
        AddOp::Minus
    } else {
        AddOp::Or
    }
}

/// The multiplicative operator that the token `k` is.
pub open spec fn mulop_of(k: C1Token) -> MulOp {
    if k == C1Token::Asterisk {
        MulOp::Times
    } else if k == C1Token::Slash {
        MulOp::Over
    } else {
        MulOp::And
    }
}

/// What begins with `a` and goes on with `b` begins with `a + b`.
pub proof fn lemma_reads_join(ts: Seq<Token>, i: nat, a: Seq<C1Token>, b: Seq<C1Token>)
    requires
        reads(ts, i, a),
        reads(ts, i + a.len(), b),
    ensures
        reads(ts, i, a + b),
{
    reveal(reads);
    let y = a + b;
    assert forall|k: int| 0 <= k < y.len() implies ts[i + k].kind == #[trigger] y[k] by {
        if k < a.len() {
            assert(y[k] == a[k]);
        } else {
            assert(y[k] == b[k - a.len()]);
            assert(ts[i + a.len() + (k - a.len())].kind == b[k - a.len()]);
        }
    }
}

/// A token of category `k` at the cursor is what begins with `k` alone.
pub proof fn lemma_reads_one(ts: Seq<Token>, i: nat, k: C1Token)
    requires
        kind_at(ts, i, k),
    ensures
        reads(ts, i, seq![k]),
{
    reveal(reads);
}

/// Nothing is what begins with nothing.
pub proof fn lemma_reads_none(ts: Seq<Token>, i: nat)
    requires
        i <= ts.len(),
    ensures
        reads(ts, i, Seq::<C1Token>::empty()),
{
    reveal(reads);
}

/// A function call that is accepted has read the tokens of one.
pub proof fn lemma_call_read(ts: Seq<Token>, i: nat)
    requires
        rules::functioncall(ts, i).accepted(),
    ensures
        rules::functioncall(ts, i).used == 3,
        reads(ts, i, call_tokens()),
{
    lemma_reads_one(ts, i, C1Token::Identifier);
    lemma_reads_one(ts, i + 1, C1Token::LeftParenthesis);
    lemma_reads_one(ts, i + 2, C1Token::RightParenthesis);
    lemma_reads_join(ts, i, seq![C1Token::Identifier], seq![C1Token::LeftParenthesis]);
    lemma_reads_join(
        ts,
        i,
        seq![C1Token::Identifier] + seq![C1Token::LeftParenthesis],
        seq![C1Token::RightParenthesis],
    );
    assert(call_tokens() =~= seq![C1Token::Identifier] + seq![C1Token::LeftParenthesis]
        + seq![C1Token::RightParenthesis]);
}

/// A factor that generates what `factor` consumed where it accepted.
pub proof fn factor_tree(ts: Seq<Token>, i: nat) -> (f: Factor)
    requires
        rules::factor(ts, i).accepted(),
    ensures
        reads(ts, i, factor_tokens(f)),
        factor_tokens(f).len() == rules::factor(ts, i).used,
    decreases left(ts, i), 1nat,
{
    rules::lemma_factor_unfolds(ts, i);
    rules::lemma_parenthesized_unfolds(ts, i);
    if kind_at(ts, i, C1Token::ConstInt) {
        lemma_reads_one(ts, i, C1Token::ConstInt);
        Factor::Int
    } else if kind_at(ts, i, C1Token::ConstFloat) {
        lemma_reads_one(ts, i, C1Token::ConstFloat);
        Factor::Float
    } else if kind_at(ts, i, C1Token::ConstBoolean) {
        lemma_reads_one(ts, i, C1Token::ConstBoolean);
        Factor::Bool
    } else if rules::functioncall(ts, i).accepted() {
        lemma_call_read(ts, i);
        Factor::Call
    } else if kind_at(ts, i, C1Token::Identifier) {
        lemma_reads_one(ts, i, C1Token::Identifier);
        Factor::Name
    } else {
        assert(rules::parenthesized(ts, i).accepted());
        assert(kind_at(ts, i, C1Token::LeftParenthesis));
        assert(rules::assignment(ts, i + 1).accepted());
        let inner = assignment_tree(ts, i + 1);
        let y = assignment_tokens(inner);
        assert(kind_at(ts, i + 1 + y.len(), C1Token::RightParenthesis));
        assert(rules::factor(ts, i).used == y.len() + 2);
        lemma_reads_one(ts, i, C1Token::LeftParenthesis);
        lemma_reads_one(ts, i + 1 + y.len(), C1Token::RightParenthesis);
        lemma_reads_join(ts, i, seq![C1Token::LeftParenthesis], y);
        lemma_reads_join(
            ts,
            i,
            seq![C1Token::LeftParenthesis] + y,
            seq![C1Token::RightParenthesis],
        );
        Factor::Group(Box::new(inner))
    }
}

/// The operators and factors that generate what the repetition in `term`
/// consumed.
pub proof fn product_tree(ts: Seq<Token>, i: nat) -> (rest: Seq<(MulOp, Factor)>)
    requires
        i <= ts.len(),
    ensures
        reads(ts, i, product_tokens(rest)),
        product_tokens(rest).len() == rules::term_tail(ts, i).used,
    decreases left(ts, i), 2nat,
{
    rules::lemma_term_tail_unfolds(ts, i);
    lemma_token_sets_at(ts, i);
    if rules::any_kind_at(ts, i, rules::multiplicative_operators()) && rules::factor(
        ts,
        i + 1,
    ).accepted() {
        let operator = mulop_of(ts[i as int].kind);
        let sign = seq![mulop_token(operator)];
        let operand = factor_tree(ts, i + 1);
        let y = factor_tokens(operand);
        lemma_reads_len(ts, i + 1, y);
        let more = product_tree(ts, i + 1 + y.len());
        let rest = seq![(operator, operand)] + more;
        assert(rest.subrange(1, rest.len() as int) =~= more);
        assert(rest[0] == (operator, operand));
        assert(product_tokens(rest) == sign + y + product_tokens(more));
        assert(kind_at(ts, i, mulop_token(operator)));
        lemma_reads_one(ts, i, mulop_token(operator));
        lemma_reads_join(ts, i, sign, y);
        lemma_reads_join(ts, i, sign + y, product_tokens(more));
        rest
    } else {
        lemma_reads_none(ts, i);
        let rest = Seq::<(MulOp, Factor)>::empty();
        assert(product_tokens(rest) =~= Seq::<C1Token>::empty());
        rest
    }
}

/// A term that generates what `term` consumed where it accepted.
pub proof fn term_tree(ts: Seq<Token>, i: nat) -> (t: Term)
    requires
        rules::term(ts, i).accepted(),
    ensures
        reads(ts, i, term_tokens(t)),
        term_tokens(t).len() == rules::term(ts, i).used,
    decreases left(ts, i), 3nat,
{
    rules::lemma_term_unfolds(ts, i);
    assert(rules::factor(ts, i).accepted());
    let first = factor_tree(ts, i);
    let y = factor_tokens(first);
    lemma_reads_len(ts, i, y);
    let rest = product_tree(ts, i + y.len());
    lemma_reads_join(ts, i, y, product_tokens(rest));
    Term { first, rest }
}

/// The operators and terms that generate what the repetition in `simpexpr`
/// consumed.
pub proof fn sum_tree(ts: Seq<Token>, i: nat) -> (rest: Seq<(AddOp, Term)>)
    requires
        i <= ts.len(),
    ensures
        reads(ts, i, sum_tokens(rest)),
        sum_tokens(rest).len() == rules::simpexpr_tail(ts, i).used,
    decreases left(ts, i), 4nat,
{
    rules::lemma_simpexpr_tail_unfolds(ts, i);
    lemma_token_sets_at(ts, i);
    if rules::any_kind_at(ts, i, rules::additive_operators()) && rules::term(
        ts,
        i + 1,
    ).accepted() {
        let operator = addop_of(ts[i as int].kind);
        let sign = seq![addop_token(operator)];
        let operand = term_tree(ts, i + 1);
        let y = term_tokens(operand);
        lemma_reads_len(ts, i + 1, y);
        let more = sum_tree(ts, i + 1 + y.len());
        let rest = seq![(operator, operand)] + more;
        assert(rest.subrange(1, rest.len() as int) =~= more);
        assert(rest[0] == (operator, operand));
        assert(sum_tokens(rest) == sign + y + sum_tokens(more));
        assert(kind_at(ts, i, addop_token(operator)));
        lemma_reads_one(ts, i, addop_token(operator));
        lemma_reads_join(ts, i, sign, y);
        lemma_reads_join(ts, i, sign + y, sum_tokens(more));
        rest
    } else {
        lemma_reads_none(ts, i);
        let rest = Seq::<(AddOp, Term)>::empty();
        assert(sum_tokens(rest) =~= Seq::<C1Token>::empty());
        rest
    }
}

/// A simpexpr that generates what `simpexpr` consumed where it accepted.
pub proof fn simpexpr_tree(ts: Seq<Token>, i: nat) -> (e: SimpExpr)
    requires
        rules::simpexpr(ts, i).accepted(),
    ensures
        reads(ts, i, simpexpr_tokens(e)),
        simpexpr_tokens(e).len() == rules::simpexpr(ts, i).used,
    decreases left(ts, i), 5nat,
{
    rules::lemma_simpexpr_unfolds(ts, i);
    let negated = kind_at(ts, i, C1Token::Minus);
    let sign = sign_tokens(negated);
    let n: nat = if negated {
        1
    } else {
        0
    };
    assert(sign.len() == n);
    assert(rules::term(ts, i + n).accepted());
    let first = term_tree(ts, i + n);
    let y = term_tokens(first);
    lemma_reads_len(ts, i + n, y);
    let rest = sum_tree(ts, i + n + y.len());
    assert(rules::simpexpr(ts, i).used == n + y.len() + sum_tokens(rest).len());
    if negated {
        lemma_reads_one(ts, i, C1Token::Minus);
    } else {
        lemma_reads_none(ts, i);
        assert(sign =~= Seq::<C1Token>::empty());
    }
    lemma_reads_join(ts, i, sign, y);
    lemma_reads_join(ts, i, sign + y, sum_tokens(rest));
    SimpExpr { negated, first, rest }
}

/// An expr that generates what `expr` consumed where it accepted.
pub proof fn expr_tree(ts: Seq<Token>, i: nat) -> (e: Expr)
    requires
        rules::expr(ts, i).accepted(),
    ensures
        reads(ts, i, expr_tokens(e)),
        expr_tokens(e).len() == rules::expr(ts, i).used,
    decreases left(ts, i), 7nat,
{
    rules::lemma_expr_unfolds(ts, i);
    assert(rules::simpexpr(ts, i).accepted());
    let left = simpexpr_tree(ts, i);
    let y = simpexpr_tokens(left);
    lemma_reads_len(ts, i, y);
    let j = i + y.len();
    lemma_token_sets_at(ts, j);
    rules::lemma_comparison_unfolds(ts, j);
    if rules::comparison(ts, j).accepted() {
        let operator = relop_of(ts[j as int].kind);
        let sign = seq![relop_token(operator)];
        assert(kind_at(ts, j, relop_token(operator)));
        assert(rules::simpexpr(ts, j + 1).accepted());
        let operand = simpexpr_tree(ts, j + 1);
        let z = simpexpr_tokens(operand);
        assert(rules::expr(ts, i).used == y.len() + 1 + z.len());
        lemma_reads_one(ts, j, relop_token(operator));
        lemma_reads_join(ts, j, sign, z);
        lemma_reads_join(ts, i, y, sign + z);
        Expr { left, right: Some((operator, operand)) }
    } else {
        assert(rules::expr(ts, i).used == y.len());
        lemma_reads_none(ts, j);
        lemma_reads_join(ts, i, y, seq![]);
        Expr { left, right: None }
    }
}

/// An assignment that generates what `assignment` consumed where it accepted.
pub proof fn assignment_tree(ts: Seq<Token>, i: nat) -> (a: Assignment)
    requires
        rules::assignment(ts, i).accepted(),
    ensures
        reads(ts, i, assignment_tokens(a)),
        assignment_tokens(a).len() == rules::assignment(ts, i).used,
    decreases left(ts, i), 9nat,
{
    rules::lemma_assignment_unfolds(ts, i);
    rules::lemma_chained_unfolds(ts, i);
    if rules::chained(ts, i).accepted() {
        assert(kind_at(ts, i, C1Token::Identifier));
        assert(kind_at(ts, i + 1, C1Token::Assign));
        assert(rules::assignment(ts, i + 2).accepted());
        let value = assignment_tree(ts, i + 2);
        let head = seq![C1Token::Identifier, C1Token::Assign];
        lemma_reads_two(ts, i, C1Token::Identifier, C1Token::Assign);
        lemma_reads_join(ts, i, head, assignment_tokens(value));
        Assignment::Store(Box::new(value))
    } else {
        assert(rules::expr(ts, i).accepted());
        Assignment::Value(expr_tree(ts, i))
    }
}

/// Tokens of categories `a` and `b` at the cursor are what begins with them.
pub proof fn lemma_reads_two(ts: Seq<Token>, i: nat, a: C1Token, b: C1Token)
    requires
        kind_at(ts, i, a),
        kind_at(ts, i + 1, b),
    ensures
        reads(ts, i, seq![a, b]),
{
    reveal(reads);
    let y = seq![a, b];
    assert forall|k: int| 0 <= k < y.len() implies ts[i + k].kind == #[trigger] y[k] by {
        if k == 0 {
        } else {
            assert(k == 1);
        }
    }
}

/// Whether `s` is a derivation of what `o`, begun at cursor `i`, consumed.
pub open spec fn derives(ts: Seq<Token>, i: nat, s: Statement, o: rules::Outcome) -> bool {
    reads(ts, i, statement_tokens(s)) && statement_tokens(s).len() == o.used
}

/// A statement that generates what `ifstatement` consumed where it accepted.
pub proof fn if_tree(ts: Seq<Token>, i: nat) -> (s: Statement)
    requires
        rules::ifstatement(ts, i).accepted(),
    ensures
        derives(ts, i, s, rules::ifstatement(ts, i)),
    decreases left(ts, i), 0nat,
{
    rules::lemma_ifstatement_unfolds(ts, i);
    assert(kind_at(ts, i, C1Token::KwIf));
    assert(kind_at(ts, i + 1, C1Token::LeftParenthesis));
    assert(rules::assignment(ts, i + 2).accepted());
    let condition = assignment_tree(ts, i + 2);
    let y = assignment_tokens(condition);
    assert(kind_at(ts, i + 2 + y.len(), C1Token::RightParenthesis));
    assert(rules::block(ts, i + 3 + y.len()).accepted());
    let body = block_tree(ts, i + 3 + y.len());
    assert(rules::ifstatement(ts, i).used == 3 + y.len() + block_tokens(body).len());
    let head = seq![C1Token::KwIf, C1Token::LeftParenthesis];
    let close = seq![C1Token::RightParenthesis];
    lemma_reads_two(ts, i, C1Token::KwIf, C1Token::LeftParenthesis);
    lemma_reads_one(ts, i + 2 + y.len(), C1Token::RightParenthesis);
    lemma_reads_join(ts, i, head, y);
    lemma_reads_join(ts, i, head + y, close);
    lemma_reads_join(ts, i, head + y + close, block_tokens(body));
    Statement::If(condition, Box::new(body))
}

/// A statement that generates what `returnstatement` and the semicolon
/// behind it consumed where both accepted.
pub proof fn return_tree(ts: Seq<Token>, i: nat, reason: Seq<char>) -> (s: Statement)
    requires
        rules::terminated(ts, i, rules::returnstatement(ts, i), reason).accepted(),
    ensures
        derives(ts, i, s, rules::terminated(ts, i, rules::returnstatement(ts, i), reason)),
{
    let head = seq![C1Token::KwReturn];
    let semicolon = seq![C1Token::Semicolon];
    assert(kind_at(ts, i, C1Token::KwReturn));
    lemma_reads_one(ts, i, C1Token::KwReturn);
    if rules::assignment(ts, i + 1).accepted() {
        let value = assignment_tree(ts, i + 1);
        let y = assignment_tokens(value);
        assert(rules::returnstatement(ts, i).used == 1 + y.len());
        assert(kind_at(ts, i + 1 + y.len(), C1Token::Semicolon));
        lemma_reads_one(ts, i + 1 + y.len(), C1Token::Semicolon);
        lemma_reads_join(ts, i, head, y);
        lemma_reads_join(ts, i, head + y, semicolon);
        Statement::Return(Some(value))
    } else {
        assert(rules::returnstatement(ts, i).used == 1);
        assert(kind_at(ts, i + 1, C1Token::Semicolon));
        lemma_reads_one(ts, i + 1, C1Token::Semicolon);
        lemma_reads_none(ts, i + 1);
        lemma_reads_join(ts, i, head, seq![]);
        lemma_reads_join(ts, i, head + seq![], semicolon);
        Statement::Return(None)
    }
}

/// A statement that generates what `printf` and the semicolon behind it
/// consumed where both accepted.
pub proof fn print_tree(ts: Seq<Token>, i: nat, reason: Seq<char>) -> (s: Statement)
    requires
        rules::terminated(ts, i, rules::printf(ts, i), reason).accepted(),
    ensures
        derives(ts, i, s, rules::terminated(ts, i, rules::printf(ts, i), reason)),
{
    assert(kind_at(ts, i, C1Token::KwPrintf));
    assert(kind_at(ts, i + 1, C1Token::LeftParenthesis));
    assert(rules::assignment(ts, i + 2).accepted());
    let value = assignment_tree(ts, i + 2);
    let y = assignment_tokens(value);
    assert(kind_at(ts, i + 2 + y.len(), C1Token::RightParenthesis));
    assert(rules::printf(ts, i).used == 3 + y.len());
    assert(kind_at(ts, i + 3 + y.len(), C1Token::Semicolon));
    let head = seq![C1Token::KwPrintf, C1Token::LeftParenthesis];
    lemma_reads_two(ts, i, C1Token::KwPrintf, C1Token::LeftParenthesis);
    lemma_reads_two(ts, i + 2 + y.len(), C1Token::RightParenthesis, C1Token::Semicolon);
    lemma_reads_join(ts, i, head, y);
    lemma_reads_join(ts, i, head + y, seq![C1Token::RightParenthesis, C1Token::Semicolon]);
    Statement::Print(value)
}

/// A statement that generates what `statassignment` and the semicolon behind
/// it consumed where both accepted.
pub proof fn store_tree(ts: Seq<Token>, i: nat, reason: Seq<char>) -> (s: Statement)
    requires
        rules::terminated(ts, i, rules::statassignment(ts, i), reason).accepted(),
    ensures
        derives(ts, i, s, rules::terminated(ts, i, rules::statassignment(ts, i), reason)),
{
    assert(kind_at(ts, i, C1Token::Identifier));
    assert(kind_at(ts, i + 1, C1Token::Assign));
    assert(rules::assignment(ts, i + 2).accepted());
    let value = assignment_tree(ts, i + 2);
    let y = assignment_tokens(value);
    assert(rules::statassignment(ts, i).used == 2 + y.len());
    assert(kind_at(ts, i + 2 + y.len(), C1Token::Semicolon));
    let head = seq![C1Token::Identifier, C1Token::Assign];
    lemma_reads_two(ts, i, C1Token::Identifier, C1Token::Assign);
    lemma_reads_one(ts, i + 2 + y.len(), C1Token::Semicolon);
    lemma_reads_join(ts, i, head, y);
    lemma_reads_join(ts, i, head + y, seq![C1Token::Semicolon]);
    Statement::Store(value)
}

/// A statement that generates what `functioncall` and the semicolon behind it
/// consumed where both accepted.
pub proof fn call_tree(ts: Seq<Token>, i: nat, reason: Seq<char>) -> (s: Statement)
    requires
        rules::terminated(ts, i, rules::functioncall(ts, i), reason).accepted(),
    ensures
        derives(ts, i, s, rules::terminated(ts, i, rules::functioncall(ts, i), reason)),
{
    lemma_call_read(ts, i);
    assert(kind_at(ts, i + 3, C1Token::Semicolon));
    lemma_reads_one(ts, i + 3, C1Token::Semicolon);
    lemma_reads_join(ts, i, call_tokens(), seq![C1Token::Semicolon]);
    Statement::Call
}

/// A statement that generates what `statement` consumed where it accepted.
pub proof fn statement_tree(ts: Seq<Token>, i: nat) -> (s: Statement)
    requires
        rules::statement(ts, i).accepted(),
    ensures
        reads(ts, i, statement_tokens(s)),
        statement_tokens(s).len() == rules::statement(ts, i).used,
    decreases left(ts, i), 1nat,
{
    rules::lemma_statement_unfolds(ts, i);
    let returning = "Expected semicolon after return statement"@;
    let printing = "Expected semicolon after printf"@;
    let storing = "Expected semicolon after stat assignment"@;
    let calling = "Expected semicolon after function call"@;
    if rules::ifstatement(ts, i).accepted() {
        if_tree(ts, i)
    } else if rules::terminated(ts, i, rules::returnstatement(ts, i), returning).accepted() {
        return_tree(ts, i, returning)
    } else if rules::terminated(ts, i, rules::printf(ts, i), printing).accepted() {
        print_tree(ts, i, printing)
    } else if rules::terminated(ts, i, rules::statassignment(ts, i), storing).accepted() {
        store_tree(ts, i, storing)
    } else {
        call_tree(ts, i, calling)
    }
}

/// A block that generates what `block` consumed where it accepted.
pub proof fn block_tree(ts: Seq<Token>, i: nat) -> (b: Block)
    requires
        rules::block(ts, i).accepted(),
    ensures
        reads(ts, i, block_tokens(b)),
        block_tokens(b).len() == rules::block(ts, i).used,
    decreases left(ts, i), 3nat,
{
    rules::lemma_block_unfolds(ts, i);
    rules::lemma_braced_unfolds(ts, i);
    if rules::braced(ts, i).accepted() {
        let body = statementlist_tree(ts, i + 1);
        let y = statementlist_tokens(body);
        lemma_reads_one(ts, i, C1Token::LeftBrace);
        lemma_reads_one(ts, i + 1 + y.len(), C1Token::RightBrace);
        lemma_reads_join(ts, i, seq![C1Token::LeftBrace], y);
        lemma_reads_join(ts, i, seq![C1Token::LeftBrace] + y, seq![C1Token::RightBrace]);
        Block::Braces(body)
    } else {
        Block::Single(statement_tree(ts, i))
    }
}

/// The blocks that generate what `statementlist` consumed.
pub proof fn statementlist_tree(ts: Seq<Token>, i: nat) -> (blocks: Seq<Block>)
    requires
        i <= ts.len(),
    ensures
        reads(ts, i, statementlist_tokens(blocks)),
        statementlist_tokens(blocks).len() == rules::statementlist(ts, i).used,
    decreases left(ts, i), 4nat,
{
    rules::lemma_statementlist_unfolds(ts, i);
    if rules::block(ts, i).advances(ts, i) {
        let first = block_tree(ts, i);
        let y = block_tokens(first);
        let more = statementlist_tree(ts, i + y.len());
        let blocks = seq![first] + more;
        assert(blocks.subrange(1, blocks.len() as int) =~= more);
        assert(blocks[0] == first);
        assert(statementlist_tokens(blocks) == y + statementlist_tokens(more));
        lemma_reads_join(ts, i, y, statementlist_tokens(more));
        blocks
    } else {
        lemma_reads_none(ts, i);
        let blocks = Seq::<Block>::empty();
        assert(statementlist_tokens(blocks) =~= Seq::<C1Token>::empty());
        blocks
    }
}

/// A function definition that generates what `function_definition` consumed
/// where it accepted.
pub proof fn definition_tree(ts: Seq<Token>, i: nat) -> (d: Definition)
    requires
        rules::function_definition(ts, i).accepted(),
    ensures
        reads(ts, i, definition_tokens(d)),
        definition_tokens(d).len() == rules::function_definition(ts, i).used,
{
    lemma_token_sets_at(ts, i);
    let kind = type_of(ts[i as int].kind);
    let body = statementlist_tree(ts, i + 5);
    let y = statementlist_tokens(body);
    let head = seq![
        type_token(kind),
        C1Token::Identifier,
        C1Token::LeftParenthesis,
        C1Token::RightParenthesis,
        C1Token::LeftBrace,
    ];
    assert(reads(ts, i, head)) by {
        reveal(reads);
        assert forall|k: int| 0 <= k < head.len() implies ts[i + k].kind == #[trigger] head[k] by {
            if k == 0 {
            } else if k == 1 {
            } else if k == 2 {
            } else if k == 3 {
            } else {
                assert(k == 4);
            }
        }
    }
    lemma_reads_one(ts, i + 5 + y.len(), C1Token::RightBrace);
    lemma_reads_join(ts, i, head, y);
    lemma_reads_join(ts, i, head + y, seq![C1Token::RightBrace]);
    Definition { kind, body }
}

/// The function definitions that generate what `program` consumed where it
/// accepted: all tokens from the cursor on.
pub proof fn definitions_tree(ts: Seq<Token>, i: nat) -> (definitions: Seq<Definition>)
    requires
        rules::program(ts, i).accepted(),
        i <= ts.len(),
    ensures
        reads(ts, i, definitions_tokens(definitions)),
        i + definitions_tokens(definitions).len() == ts.len(),
    decreases left(ts, i),
{
    rules::lemma_program_unfolds(ts, i);
    if i >= ts.len() {
        lemma_reads_none(ts, i);
        let definitions = Seq::<Definition>::empty();
        assert(definitions_tokens(definitions) =~= Seq::<C1Token>::empty());
        definitions
    } else {
        let first = definition_tree(ts, i);
        let y = definition_tokens(first);
        lemma_reads_len(ts, i, y);
        let more = definitions_tree(ts, i + y.len());
        let definitions = seq![first] + more;
        assert(definitions.subrange(1, definitions.len() as int) =~= more);
        assert(definitions[0] == first);
        assert(definitions_tokens(definitions) == y + definitions_tokens(more));
        lemma_reads_join(ts, i, y, definitions_tokens(more));
        definitions
    }
}

/// The recognizer accepts only what the grammar generates: if `program`,
/// begun at the first of the tokens `ts`, accepts, then a derivation of a
/// program generates exactly the tokens `ts`.
pub proof fn lemma_accepted_is_generated(ts: Seq<Token>) -> (p: Program)
    requires
        rules::program(ts, 0).accepted(),
    ensures
        program_tokens(p) == kinds(ts),
{
    let p = Program { definitions: definitions_tree(ts, 0) };
    let y = program_tokens(p);
    assert(y =~= kinds(ts)) by {
        reveal(reads);
        assert forall|k: int| 0 <= k < y.len() implies y[k] == kinds(ts)[k] by {
            assert(ts[0 + k].kind == y[k]);
        }
    }
    p
}

/// The recognizer accepts exactly the language of the grammar.
pub proof fn lemma_accepts_the_language(ts: Seq<Token>)
    ensures
        rules::program(ts, 0).accepted() <==> generated(kinds(ts)),
{
    if rules::program(ts, 0).accepted() {
        let p = lemma_accepted_is_generated(ts);
        assert(program_tokens(p) == kinds(ts));
    }
    if generated(kinds(ts)) {
        let p = choose|p: Program| program_tokens(p) == kinds(ts);
        lemma_generated_is_accepted(ts, p);
    }
}

} // verus!
