//! What the diagnostic says where a function definition lacks one of its own
//! terminals.
//!
//! A failure inside a statement list is not reported where it happened: the
//! list ends before the block that failed, and the diagnostic is that of the
//! closing brace which the function definition then requires. So only the
//! six terminals of the function definition itself are named where they are
//! missing.
use crate::alphabet::is_terminal;
use crate::completeness::{lemma_definition, lemma_no_block, lemma_reads_at, lemma_reads_len};
use crate::completeness::{lemma_reads_split, lemma_statementlist, reads};
use crate::diagnostic::complaint;
use crate::grammar::{definition_tokens, definitions_tokens, kinds, program_tokens};
use crate::grammar::{statementlist_tokens, type_token, Definition, Program};
use crate::lexer::Token;
use crate::rules;
use crate::rules::{kind_at, lemma_token_sets_at};
use crate::scan::C1Token;
use vstd::prelude::*;

verus! {

/// The terminals that a function definition itself requires, in their order.
pub enum Required {
    Type,
    Name,
    LeftParenthesis,
    RightParenthesis,
    LeftBrace,
    RightBrace,
}

/// What the diagnostic says was expected where the terminal `r` is missing.
pub open spec fn expectation(r: Required) -> Seq<char> {
    match r {
        Required::Type => "Expected type"@,
        Required::Name => "Expected function name"@,
        Required::LeftParenthesis => "Expected \"(\""@,
        Required::RightParenthesis => "Expected \")\""@,
        Required::LeftBrace => "Expected \"{\""@,
        Required::RightBrace => "Expected \"}\""@,
    }
}

/// The diagnostic of a function definition in which the token `other`
/// stands where its terminal `r` is required: what was expected, what was
/// found, and the rules that the failure passes through.
pub open spec fn report(r: Required, other: Token) -> Seq<char> {
    let what = complaint(expectation(r), Some(other));
    match r {
        Required::Type => what + ", in type"@ + ", in function definition"@,
        _ => what + ", in function definition"@,
    }
}

/// The number of tokens of the definition `d` that stand before its
/// terminal `r`.
pub open spec fn place(d: Definition, r: Required) -> nat {
    match r {
        Required::Type => 0,
        Required::Name => 1,
        Required::LeftParenthesis => 2,
        Required::RightParenthesis => 3,
        Required::LeftBrace => 4,
        Required::RightBrace => 5 + statementlist_tokens(d.body).len(),
    }
}

/// The number of tokens that stand before definition `d` of `definitions`.
pub open spec fn start_of(definitions: Seq<Definition>, d: int) -> nat {
    definitions_tokens(definitions.subrange(0, d)).len()
}

/// The tokens of some definitions are those of the first `d` of them and
/// then those of the others.
pub proof fn lemma_definitions_split(definitions: Seq<Definition>, d: int)
    requires
        0 <= d <= definitions.len(),
    ensures
        definitions_tokens(definitions) == definitions_tokens(definitions.subrange(0, d))
            + definitions_tokens(definitions.subrange(d, definitions.len() as int)),
    decreases definitions.len(),
{
    let before = definitions.subrange(0, d);
    let behind = definitions.subrange(d, definitions.len() as int);
    if d == 0 {
        assert(behind =~= definitions);
        assert(definitions_tokens(before) =~= Seq::<C1Token>::empty());
        assert(definitions_tokens(definitions) =~= definitions_tokens(before) + definitions_tokens(
            behind,
        ));
    } else {
        let tail = definitions.subrange(1, definitions.len() as int);
        lemma_definitions_split(tail, d - 1);
        assert(before[0] == definitions[0]);
        assert(before.subrange(1, before.len() as int) =~= tail.subrange(0, d - 1));
        assert(behind =~= tail.subrange(d - 1, tail.len() as int));
        assert(definitions_tokens(definitions) =~= definitions_tokens(before) + definitions_tokens(
            behind,
        ));
    }
}

/// What begins with `y` still does where a token outside of it is replaced.
pub proof fn lemma_reads_update(
    ts: Seq<Token>,
    i: nat,
    y: Seq<C1Token>,
    at: nat,
    other: Token,
)
    requires
        reads(ts, i, y),
        at < i || i + y.len() <= at,
        at < ts.len(),
    ensures
        reads(ts.update(at as int, other), i, y),
{
    reveal(reads);
    let us = ts.update(at as int, other);
    assert forall|k: int| 0 <= k < y.len() implies us[i + k].kind == #[trigger] y[k] by {
        assert(ts[i + k].kind == y[k]);
    }
}

/// Where definitions stand before more tokens, `program` reads them and
/// goes on behind them.
pub proof fn lemma_program_prefix(ts: Seq<Token>, i: nat, definitions: Seq<Definition>)
    requires
        reads(ts, i, definitions_tokens(definitions)),
        i + definitions_tokens(definitions).len() < ts.len(),
    ensures
        rules::program(ts, i) == rules::program(
            ts,
            i + definitions_tokens(definitions).len(),
        ).after(definitions_tokens(definitions).len()),
    decreases definitions.len(),
{
    rules::lemma_program_unfolds(ts, i);
    if definitions.len() > 0 {
        let first = definition_tokens(definitions[0]);
        let more = definitions.subrange(1, definitions.len() as int);
        lemma_reads_split(ts, i, first, definitions_tokens(more));
        lemma_reads_len(ts, i, first);
        lemma_definition(ts, i, definitions[0]);
        lemma_program_prefix(ts, i + first.len(), more);
    }
}

/// Where the terminal `r` of a function definition that stands at cursor `i`
/// is replaced by a token `other` that is no terminal of the grammar, the
/// function definition fails with the diagnostic that names `r` as expected
/// and `other` as found, and then the rules that failed.
pub proof fn lemma_definition_reports(
    ts: Seq<Token>,
    i: nat,
    d: Definition,
    r: Required,
    other: Token,
)
    requires
        reads(ts, i, definition_tokens(d)),
        !is_terminal(other.kind),
    ensures
        i + place(d, r) < ts.len(),
        rules::function_definition(ts.update((i + place(d, r)) as int, other), i).failure == Some(
            report(r, other),
        ),
{
    let head = seq![
        type_token(d.kind),
        C1Token::Identifier,
        C1Token::LeftParenthesis,
        C1Token::RightParenthesis,
        C1Token::LeftBrace,
    ];
    let inner = statementlist_tokens(d.body);
    let close = seq![C1Token::RightBrace];
    let at = i + place(d, r);
    lemma_reads_len(ts, i, definition_tokens(d));
    lemma_reads_split(ts, i, head + inner, close);
    lemma_reads_split(ts, i, head, inner);
    lemma_reads_at(ts, i, head, 0);
    lemma_reads_at(ts, i, head, 1);
    lemma_reads_at(ts, i, head, 2);
    lemma_reads_at(ts, i, head, 3);
    lemma_reads_at(ts, i, head, 4);
    let us = ts.update(at as int, other);
    lemma_token_sets_at(ts, i);
    lemma_token_sets_at(us, i);
    assert(us[at as int] == other);
    assert(rules::found(us, at) == Some(other));
    match r {
        Required::Type => {
            assert(!rules::p_type(us, i).accepted());
        },
        Required::Name => {
            assert(rules::p_type(us, i) == rules::accept(1));
            assert(!kind_at(us, i + 1, C1Token::Identifier));
        },
        Required::LeftParenthesis => {
            assert(rules::p_type(us, i) == rules::accept(1));
            assert(kind_at(us, i + 1, C1Token::Identifier));
            assert(!kind_at(us, i + 2, C1Token::LeftParenthesis));
        },
        Required::RightParenthesis => {
            assert(rules::p_type(us, i) == rules::accept(1));
            assert(kind_at(us, i + 1, C1Token::Identifier));
            assert(kind_at(us, i + 2, C1Token::LeftParenthesis));
            assert(!kind_at(us, i + 3, C1Token::RightParenthesis));
        },
        Required::LeftBrace => {
            assert(rules::p_type(us, i) == rules::accept(1));
            assert(kind_at(us, i + 1, C1Token::Identifier));
            assert(kind_at(us, i + 2, C1Token::LeftParenthesis));
            assert(kind_at(us, i + 3, C1Token::RightParenthesis));
            assert(!kind_at(us, i + 4, C1Token::LeftBrace));
        },
        Required::RightBrace => {
            assert(rules::p_type(us, i) == rules::accept(1));
            assert(kind_at(us, i + 1, C1Token::Identifier));
            assert(kind_at(us, i + 2, C1Token::LeftParenthesis));
            assert(kind_at(us, i + 3, C1Token::RightParenthesis));
            assert(kind_at(us, i + 4, C1Token::LeftBrace));
            lemma_reads_update(ts, i + 5, inner, at, other);
            lemma_no_block(us, at);
            lemma_statementlist(us, i + 5, d.body);
            assert(rules::statementlist(us, i + 5) == rules::accept(inner.len()));
            assert(!kind_at(us, at, C1Token::RightBrace));
        },
    }
}

/// Let the grammar generate a text. Where one of the six terminals that a
/// function definition itself requires is replaced by a token that is no
/// terminal of the grammar, the text is rejected, and the diagnostic begins
/// with that terminal as expected and the token that stands there, with its
/// line, as found; the rules that failed follow, the innermost first.
pub proof fn lemma_replaced_terminal_is_named(
    ts: Seq<Token>,
    p: Program,
    d: int,
    r: Required,
    other: Token,
)
    requires
        kinds(ts) == program_tokens(p),
        0 <= d < p.definitions.len(),
        !is_terminal(other.kind),
    ensures
        ({
            let at = start_of(p.definitions, d) + place(p.definitions[d], r);
            &&& at < ts.len()
            &&& rules::program(ts.update(at as int, other), 0).failure == Some(
                report(r, other) + ", in program"@,
            )
        }),
{
    let all = p.definitions;
    let before = all.subrange(0, d);
    let behind = all.subrange(d, all.len() as int);
    let start = start_of(all, d);
    let at = start + place(all[d], r);
    let y = program_tokens(p);
    assert(reads(ts, 0, y)) by {
        reveal(reads);
        assert forall|k: int| 0 <= k < y.len() implies ts[0 + k].kind == #[trigger] y[k] by {
            assert(kinds(ts)[k] == ts[k].kind);
        }
    }
    lemma_definitions_split(all, d);
    lemma_reads_split(ts, 0, definitions_tokens(before), definitions_tokens(behind));
    assert(behind[0] == all[d]);
    let rest = behind.subrange(1, behind.len() as int);
    assert(definitions_tokens(behind) == definition_tokens(all[d]) + definitions_tokens(rest));
    lemma_reads_split(ts, start, definition_tokens(all[d]), definitions_tokens(rest));
    lemma_definition_reports(ts, start, all[d], r, other);
    let us = ts.update(at as int, other);
    lemma_reads_update(ts, 0, definitions_tokens(before), at, other);
    lemma_program_prefix(us, 0, before);
    rules::lemma_program_unfolds(us, start);
    assert(!rules::function_definition(us, start).accepted());
    assert(rules::program(us, start) == rules::function_definition(us, start).within(
        ", in program"@,
    ));
}

} // verus!
