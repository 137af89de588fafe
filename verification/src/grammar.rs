//! The grammar of C1: the shapes of its derivations, and the tokens that a
//! derivation generates.
//!
//! ```text
//! program            ::= functiondefinition*
//! functiondefinition ::= type ID "(" ")" "{" statementlist "}"
//! statementlist      ::= block*
//! block              ::= "{" statementlist "}" | statement
//! statement          ::= ifstatement | returnstatement ";" | printf ";"
//!                      | statassignment ";" | functioncall ";"
//! ifstatement        ::= "if" "(" assignment ")" block
//! returnstatement    ::= "return" assignment?
//! printf             ::= "printf" "(" assignment ")"
//! type               ::= "bool" | "float" | "int" | "void"
//! statassignment     ::= ID "=" assignment
//! assignment         ::= ID "=" assignment | expr
//! expr               ::= simpexpr ( relop simpexpr )?
//! relop              ::= "==" | "!=" | "<=" | ">=" | "<" | ">"
//! simpexpr           ::= "-"? term ( ("+" | "-" | "||") term )*
//! term               ::= factor ( ("*" | "/" | "&&") factor )*
//! factor             ::= INT | FLOAT | BOOL | functioncall | ID | "(" assignment ")"
//! functioncall       ::= ID "(" ")"
//! ```
use crate::lexer::Token;
use crate::scan::C1Token;
use vstd::prelude::*;

verus! {

/// type ::= "bool" | "float" | "int" | "void"
pub enum TypeName {
    Bool,
    Float,
    Int,
    Void,
}

/// relop ::= "==" | "!=" | "<=" | ">=" | "<" | ">"
pub enum RelOp {
    Equal,
    NotEqual,
    LessEqual,
    GreaterEqual,
    Less,
    Greater,
}

/// "+" | "-" | "||"
pub enum AddOp {
    Plus,
    Minus,
    Or,
}

/// "*" | "/" | "&&"
pub enum MulOp {
    Times,
    Over,
    And,
}

/// factor ::= INT | FLOAT | BOOL | functioncall | ID | "(" assignment ")"
pub enum Factor {
    Int,
    Float,
    Bool,
    Call,
    Name,
    Group(Box<Assignment>),
}

/// term ::= factor ( ("*" | "/" | "&&") factor )*
pub struct Term {
    pub first: Factor,
    pub rest: Seq<(MulOp, Factor)>,
}

/// simpexpr ::= "-"? term ( ("+" | "-" | "||") term )*
pub struct SimpExpr {
    pub negated: bool,
    pub first: Term,
    pub rest: Seq<(AddOp, Term)>,
}

/// expr ::= simpexpr ( relop simpexpr )?
pub struct Expr {
    pub left: SimpExpr,
    pub right: Option<(RelOp, SimpExpr)>,
}

/// assignment ::= ID "=" assignment | expr
pub enum Assignment {
    Store(Box<Assignment>),
    Value(Expr),
}

/// statement ::= ifstatement | returnstatement ";" | printf ";"
///             | statassignment ";" | functioncall ";"
pub enum Statement {
    If(Assignment, Box<Block>),
    Return(Option<Assignment>),
    Print(Assignment),
    Store(Assignment),
    Call,
}

/// block ::= "{" statementlist "}" | statement
pub enum Block {
    Braces(Seq<Block>),
    Single(Statement),
}

/// functiondefinition ::= type ID "(" ")" "{" statementlist "}"
pub struct Definition {
    pub kind: TypeName,
    pub body: Seq<Block>,
}

/// program ::= functiondefinition*
pub struct Program {
    pub definitions: Seq<Definition>,
}

/// The keyword that names the type `t`.
pub open spec fn type_token(t: TypeName) -> C1Token {
    match t {
        TypeName::Bool => C1Token::KwBoolean,
        TypeName::Float => C1Token::KwFloat,
        TypeName::Int => C1Token::KwInt,
        TypeName::Void => C1Token::KwVoid,
    }
}

/// The token of the relational operator `o`.
pub open spec fn relop_token(o: RelOp) -> C1Token {
    match o {
        RelOp::Equal => C1Token::Equal,
        RelOp::NotEqual => C1Token::NotEqual,
        RelOp::LessEqual => C1Token::LessEqual,
        RelOp::GreaterEqual => C1Token::GreaterEqual,
        RelOp::Less => C1Token::Less,
        RelOp::Greater => C1Token::Greater,
    }
}

/// The token of the additive operator `o`.
pub open spec fn addop_token(o: AddOp) -> C1Token {
    match o {
        AddOp::Plus => C1Token::Plus,
        AddOp::Minus => C1Token::Minus,
        AddOp::Or => C1Token::Or,
    }
}

/// The token of the multiplicative operator `o`.
pub open spec fn mulop_token(o: MulOp) -> C1Token {
    match o {
        MulOp::Times => C1Token::Asterisk,
        MulOp::Over => C1Token::Slash,
        MulOp::And => C1Token::And,
    }
}

/// functioncall ::= ID "(" ")"
pub open spec fn call_tokens() -> Seq<C1Token> {
    seq![C1Token::Identifier, C1Token::LeftParenthesis, C1Token::RightParenthesis]
}

/// The tokens that the factor `f` generates.
pub open spec fn factor_tokens(f: Factor) -> Seq<C1Token>
    decreases f,
{
    match f {
        Factor::Int => seq![C1Token::ConstInt],
        Factor::Float => seq![C1Token::ConstFloat],
        Factor::Bool => seq![C1Token::ConstBoolean],
        Factor::Call => call_tokens(),
        Factor::Name => seq![C1Token::Identifier],
        Factor::Group(a) => seq![C1Token::LeftParenthesis] + assignment_tokens(*a)
            + seq![C1Token::RightParenthesis],
    }
}

/// ( ("*" | "/" | "&&") factor )*
pub open spec fn product_tokens(rest: Seq<(MulOp, Factor)>) -> Seq<C1Token>
    decreases rest,
{
    if rest.len() == 0 {
        seq![]
    } else {
        seq![mulop_token(rest[0].0)] + factor_tokens(rest[0].1) + product_tokens(
            rest.subrange(1, rest.len() as int),
        )
    }
}

/// The tokens that the term `t` generates.
pub open spec fn term_tokens(t: Term) -> Seq<C1Token>
    decreases t,
{
    factor_tokens(t.first) + product_tokens(t.rest)
}

/// ( ("+" | "-" | "||") term )*
pub open spec fn sum_tokens(rest: Seq<(AddOp, Term)>) -> Seq<C1Token>
    decreases rest,
{
    if rest.len() == 0 {
        seq![]
    } else {
        seq![addop_token(rest[0].0)] + term_tokens(rest[0].1) + sum_tokens(
            rest.subrange(1, rest.len() as int),
        )
    }
}

/// "-"?
pub open spec fn sign_tokens(negated: bool) -> Seq<C1Token> {
    if negated {
        seq![C1Token::Minus]
    } else {
        seq![]
    }
}

/// The tokens that the simpexpr `e` generates.
pub open spec fn simpexpr_tokens(e: SimpExpr) -> Seq<C1Token>
    decreases e,
{
    sign_tokens(e.negated) + term_tokens(e.first) + sum_tokens(e.rest)
}

/// The tokens that the expr `e` generates.
pub open spec fn expr_tokens(e: Expr) -> Seq<C1Token>
    decreases e,
{
    simpexpr_tokens(e.left) + match e.right {
        Some(r) => seq![relop_token(r.0)] + simpexpr_tokens(r.1),
        None => seq![],
    }
}

/// The tokens that the assignment `a` generates.
pub open spec fn assignment_tokens(a: Assignment) -> Seq<C1Token>
    decreases a,
{
    match a {
        Assignment::Store(value) => seq![C1Token::Identifier, C1Token::Assign] + assignment_tokens(
            *value,
        ),
        Assignment::Value(e) => expr_tokens(e),
    }
}

/// The tokens that the statement `s` generates.
pub open spec fn statement_tokens(s: Statement) -> Seq<C1Token>
    decreases s,
{
    match s {
        Statement::If(condition, body) => seq![C1Token::KwIf, C1Token::LeftParenthesis]
            + assignment_tokens(condition) + seq![C1Token::RightParenthesis] + block_tokens(
            *body,
        ),
        Statement::Return(value) => seq![C1Token::KwReturn] + match value {
            Some(a) => assignment_tokens(a),
            None => seq![],
        } + seq![C1Token::Semicolon],
        Statement::Print(value) => seq![C1Token::KwPrintf, C1Token::LeftParenthesis]
            + assignment_tokens(value) + seq![C1Token::RightParenthesis, C1Token::Semicolon],
        Statement::Store(value) => seq![C1Token::Identifier, C1Token::Assign] + assignment_tokens(
            value,
        ) + seq![C1Token::Semicolon],
        Statement::Call => call_tokens() + seq![C1Token::Semicolon],
    }
}

/// The tokens that the block `b` generates.
pub open spec fn block_tokens(b: Block) -> Seq<C1Token>
    decreases b,
{
    match b {
        Block::Braces(body) => seq![C1Token::LeftBrace] + statementlist_tokens(body)
            + seq![C1Token::RightBrace],
        Block::Single(s) => statement_tokens(s),
    }
}

/// statementlist ::= block*
pub open spec fn statementlist_tokens(blocks: Seq<Block>) -> Seq<C1Token>
    decreases blocks,
{
    if blocks.len() == 0 {
        seq![]
    } else {
        block_tokens(blocks[0]) + statementlist_tokens(blocks.subrange(1, blocks.len() as int))
    }
}

/// The tokens that the function definition `d` generates.
pub open spec fn definition_tokens(d: Definition) -> Seq<C1Token> {
    seq![
        type_token(d.kind),
        C1Token::Identifier,
        C1Token::LeftParenthesis,
        C1Token::RightParenthesis,
        C1Token::LeftBrace,
    ] + statementlist_tokens(d.body) + seq![C1Token::RightBrace]
}

/// The tokens that the function definitions generate, one after the other.
pub open spec fn definitions_tokens(definitions: Seq<Definition>) -> Seq<C1Token>
    decreases definitions.len(),
{
    if definitions.len() == 0 {
        seq![]
    } else {
        definition_tokens(definitions[0]) + definitions_tokens(
            definitions.subrange(1, definitions.len() as int),
        )
    }
}

/// The tokens that the derivation `p` of a program generates.
pub open spec fn program_tokens(p: Program) -> Seq<C1Token> {
    definitions_tokens(p.definitions)
}

/// The categories of the tokens `ts`.
pub open spec fn kinds(ts: Seq<Token>) -> Seq<C1Token> {
    Seq::new(ts.len(), |i: int| ts[i].kind)
}

/// Whether the grammar generates the tokens `ks` as a program.
pub open spec fn generated(ks: Seq<C1Token>) -> bool {
    exists|p: Program| program_tokens(p) == ks
}

} // verus!
