use c1_parser::{C1Lexer, C1Token};

fn all_tokens(text: &str) -> Vec<(C1Token, String, usize)> {
    let mut lexer = C1Lexer::new(text);
    let mut out = Vec::new();
    while let Some(kind) = lexer.current_token() {
        out.push((
            kind,
            lexer.current_text().unwrap().to_string(),
            lexer.current_line_number().unwrap(),
        ));
        lexer.advance();
    }
    out
}

fn kinds(text: &str) -> Vec<C1Token> {
    all_tokens(text).into_iter().map(|t| t.0).collect()
}

fn texts(text: &str) -> Vec<String> {
    all_tokens(text).into_iter().map(|t| t.1).collect()
}

#[test]
fn current_is_stable_without_advance() {
    let lexer = C1Lexer::new("current next");
    assert_eq!(lexer.current_token(), Some(C1Token::Identifier));
    assert_eq!(lexer.current_text(), Some("current"));
    assert_eq!(lexer.current_line_number(), Some(1));
    assert_eq!(lexer.current_token(), Some(C1Token::Identifier));
    assert_eq!(lexer.current_text(), Some("current"));
    assert_eq!(lexer.current_line_number(), Some(1));
}

#[test]
fn keywords_are_recognized() {
    assert_eq!(
        kinds("bool do else float for if int printf return void while"),
        vec![
            C1Token::KwBoolean,
            C1Token::KwDo,
            C1Token::KwElse,
            C1Token::KwFloat,
            C1Token::KwFor,
            C1Token::KwIf,
            C1Token::KwInt,
            C1Token::KwPrintf,
            C1Token::KwReturn,
            C1Token::KwVoid,
            C1Token::KwWhile,
        ]
    );
}

#[test]
fn a_longer_word_is_an_identifier() {
    assert_eq!(
        kinds("integer iff boolean truely do2 Int"),
        vec![C1Token::Identifier; 6]
    );
    assert_eq!(texts("integer iff"), vec!["integer", "iff"]);
}

#[test]
fn boolean_literals() {
    assert_eq!(
        kinds("true false"),
        vec![C1Token::ConstBoolean, C1Token::ConstBoolean]
    );
}

#[test]
fn operators_take_the_longest_match() {
    assert_eq!(
        kinds("+ - * / = == != < > <= >= && || , ; ( ) { }"),
        vec![
            C1Token::Plus,
            C1Token::Minus,
            C1Token::Asterisk,
            C1Token::Slash,
            C1Token::Assign,
            C1Token::Equal,
            C1Token::NotEqual,
            C1Token::Less,
            C1Token::Greater,
            C1Token::LessEqual,
            C1Token::GreaterEqual,
            C1Token::And,
            C1Token::Or,
            C1Token::Comma,
            C1Token::Semicolon,
            C1Token::LeftParenthesis,
            C1Token::RightParenthesis,
            C1Token::LeftBrace,
            C1Token::RightBrace,
        ]
    );
    assert_eq!(
        kinds("<=<===="),
        vec![
            C1Token::LessEqual,
            C1Token::LessEqual,
            C1Token::Equal,
            C1Token::Assign
        ]
    );
    assert_eq!(texts("a<=b"), vec!["a", "<=", "b"]);
}

#[test]
fn integer_and_float_literals() {
    assert_eq!(kinds("0 42 007"), vec![C1Token::ConstInt; 3]);
    assert_eq!(
        kinds("1.0 .5 .5e3 .5E-3 1e5 2E+10"),
        vec![C1Token::ConstFloat; 6]
    );
    assert_eq!(texts("1.0 .5e-3 2E+10"), vec!["1.0", ".5e-3", "2E+10"]);
}

#[test]
fn a_float_with_a_dot_takes_no_exponent() {
    assert_eq!(
        all_tokens("1.5e3"),
        vec![
            (C1Token::ConstFloat, "1.5".to_string(), 1),
            (C1Token::Identifier, "e3".to_string(), 1),
        ]
    );
}

#[test]
fn an_exponent_needs_digits() {
    assert_eq!(
        all_tokens("1e+"),
        vec![
            (C1Token::ConstInt, "1".to_string(), 1),
            (C1Token::Identifier, "e".to_string(), 1),
            (C1Token::Plus, "+".to_string(), 1),
        ]
    );
    assert_eq!(
        kinds("1."),
        vec![C1Token::ConstInt, C1Token::Error]
    );
}

#[test]
fn string_literals() {
    assert_eq!(
        all_tokens("\"hello world\" \"\""),
        vec![
            (C1Token::ConstString, "\"hello world\"".to_string(), 1),
            (C1Token::ConstString, "\"\"".to_string(), 1),
        ]
    );
}

#[test]
fn a_string_does_not_span_lines() {
    assert_eq!(
        kinds("\"ab\ncd\""),
        vec![
            C1Token::Error,
            C1Token::Identifier,
            C1Token::Identifier,
            C1Token::Error
        ]
    );
}

#[test]
fn unknown_characters_are_error_tokens() {
    assert_eq!(
        all_tokens("a # b"),
        vec![
            (C1Token::Identifier, "a".to_string(), 1),
            (C1Token::Error, "#".to_string(), 1),
            (C1Token::Identifier, "b".to_string(), 1),
        ]
    );
    assert_eq!(kinds("! & |"), vec![C1Token::Error; 3]);
    assert_eq!(kinds("_foo"), vec![C1Token::Error, C1Token::Identifier]);
}

#[test]
fn an_error_token_is_one_whole_character() {
    assert_eq!(
        all_tokens("x \u{00e9}\u{4e16}\u{1f600} y"),
        vec![
            (C1Token::Identifier, "x".to_string(), 1),
            (C1Token::Error, "\u{00e9}".to_string(), 1),
            (C1Token::Error, "\u{4e16}".to_string(), 1),
            (C1Token::Error, "\u{1f600}".to_string(), 1),
            (C1Token::Identifier, "y".to_string(), 1),
        ]
    );
}

#[test]
fn text_inside_strings_and_comments_may_be_any_character() {
    assert_eq!(
        all_tokens("\"\u{00e9}t\u{00e9}\" // caf\u{00e9}\n/* \u{4e16} */ z"),
        vec![
            (C1Token::ConstString, "\"\u{00e9}t\u{00e9}\"".to_string(), 1),
            (C1Token::Identifier, "z".to_string(), 2),
        ]
    );
}

#[test]
fn comments_and_blanks_are_discarded() {
    assert_eq!(kinds("  \t\x0c  "), vec![]);
    assert_eq!(kinds("// nothing here"), vec![]);
    assert_eq!(kinds("/* nothing here */"), vec![]);
    assert_eq!(texts("a // b c\nd"), vec!["a", "d"]);
    assert_eq!(texts("a /* b c */ d"), vec!["a", "d"]);
}

#[test]
fn a_block_comment_ends_at_the_first_close() {
    assert_eq!(texts("/* a */ b */"), vec!["b", "*", "/"]);
    assert_eq!(texts("/* a * b / c */ d"), vec!["d"]);
    assert_eq!(texts("/**/x"), vec!["x"]);
}

#[test]
fn an_unclosed_block_comment_is_no_comment() {
    assert_eq!(
        kinds("/* a"),
        vec![C1Token::Slash, C1Token::Asterisk, C1Token::Identifier]
    );
    assert_eq!(
        kinds("/*/"),
        vec![C1Token::Slash, C1Token::Asterisk, C1Token::Slash]
    );
}

#[test]
fn lines_are_counted_from_one() {
    assert_eq!(
        all_tokens("a\nb\r\nc\rd\n\ne"),
        vec![
            (C1Token::Identifier, "a".to_string(), 1),
            (C1Token::Identifier, "b".to_string(), 2),
            (C1Token::Identifier, "c".to_string(), 3),
            (C1Token::Identifier, "d".to_string(), 4),
            (C1Token::Identifier, "e".to_string(), 6),
        ]
    );
}

#[test]
fn lines_inside_comments_count() {
    assert_eq!(
        all_tokens("// one\na /* two\nthree */ b"),
        vec![
            (C1Token::Identifier, "a".to_string(), 2),
            (C1Token::Identifier, "b".to_string(), 3),
        ]
    );
}

#[test]
fn multiple_functions_line_numbers() {
    let tokens = all_tokens("void main() { hello();}\nfloat bar() {return 1.0;}");
    assert_eq!(tokens.len(), 19);
    assert_eq!(tokens[9], (C1Token::RightBrace, "}".to_string(), 1));
    assert_eq!(tokens[10], (C1Token::KwFloat, "float".to_string(), 2));
    assert_eq!(tokens[18], (C1Token::RightBrace, "}".to_string(), 2));
}

#[test]
fn empty_text_has_no_token() {
    let mut lexer = C1Lexer::new("");
    assert_eq!(lexer.current_token(), None);
    assert_eq!(lexer.current_text(), None);
    assert_eq!(lexer.current_line_number(), None);
    lexer.advance();
    assert_eq!(lexer.current_token(), None);
}

#[test]
fn advance_is_idempotent_at_the_end() {
    let mut lexer = C1Lexer::new("a");
    lexer.advance();
    assert_eq!(lexer.current_token(), None);
    lexer.advance();
    lexer.advance();
    assert_eq!(lexer.current_token(), None);
    let m = lexer.mark();
    lexer.advance();
    lexer.undo(m);
    assert_eq!(lexer.current_token(), None);
    lexer.pop_mark();
    assert_eq!(lexer.current_token(), None);
}

#[test]
fn undo_replays_the_tokens() {
    let mut lexer = C1Lexer::new("a b c d");
    lexer.advance();
    let m = lexer.mark();
    assert_eq!(m, 1);
    assert_eq!(lexer.current_text(), Some("b"));
    lexer.advance();
    lexer.advance();
    assert_eq!(lexer.current_text(), Some("d"));
    lexer.undo(m);
    assert_eq!(lexer.current_text(), Some("b"));
    lexer.advance();
    assert_eq!(lexer.current_text(), Some("c"));
    lexer.advance();
    assert_eq!(lexer.current_text(), Some("d"));
    lexer.advance();
    assert_eq!(lexer.current_text(), None);
    lexer.undo(m);
    assert_eq!(lexer.current_text(), Some("b"));
    lexer.pop_mark();
    assert_eq!(lexer.current_text(), Some("b"));
    lexer.advance();
    assert_eq!(lexer.current_text(), Some("c"));
    lexer.advance();
    assert_eq!(lexer.current_text(), Some("d"));
    lexer.advance();
    assert_eq!(lexer.current_text(), None);
}

#[test]
fn nested_marks() {
    let mut lexer = C1Lexer::new("a b c d e f");
    let a = lexer.mark();
    lexer.advance();
    lexer.advance();
    let b = lexer.mark();
    lexer.advance();
    lexer.advance();
    assert_eq!(lexer.current_text(), Some("e"));
    lexer.undo(b);
    assert_eq!(lexer.current_text(), Some("c"));
    lexer.advance();
    assert_eq!(lexer.current_text(), Some("d"));
    lexer.undo(a);
    assert_eq!(lexer.current_text(), Some("a"));
    lexer.pop_mark();
    lexer.pop_mark();
    assert_eq!(texts_from(&mut lexer), vec!["a", "b", "c", "d", "e", "f"]);
}

fn texts_from(lexer: &mut C1Lexer) -> Vec<String> {
    let mut out = Vec::new();
    while let Some(text) = lexer.current_text() {
        out.push(text.to_string());
        lexer.advance();
    }
    out
}

#[test]
fn undo_never_moves_forward() {
    let mut lexer = C1Lexer::new("a b c d");
    let a = lexer.mark();
    lexer.advance();
    lexer.advance();
    let b = lexer.mark();
    lexer.undo(a);
    assert_eq!(lexer.current_text(), Some("a"));
    lexer.undo(b);
    assert_eq!(lexer.current_text(), Some("a"));
    lexer.undo(17);
    assert_eq!(lexer.current_text(), Some("a"));
}

#[test]
fn undo_without_an_open_region_stays() {
    let mut lexer = C1Lexer::new("a b c");
    let m = lexer.mark();
    lexer.advance();
    lexer.pop_mark();
    lexer.undo(m);
    assert_eq!(lexer.current_text(), Some("b"));
}

#[test]
fn a_released_region_leaves_the_rest_readable() {
    let mut lexer = C1Lexer::new("a b c d");
    let m = lexer.mark();
    lexer.advance();
    lexer.advance();
    lexer.advance();
    lexer.undo(m);
    lexer.pop_mark();
    lexer.advance();
    let n = lexer.mark();
    assert_eq!(n, 1);
    assert_eq!(lexer.current_text(), Some("b"));
    lexer.advance();
    lexer.advance();
    assert_eq!(lexer.current_text(), Some("d"));
    lexer.undo(n);
    assert_eq!(lexer.current_text(), Some("b"));
    lexer.pop_mark();
    assert_eq!(texts_from(&mut lexer), vec!["b", "c", "d"]);
}

#[test]
fn releasing_without_an_open_region_changes_nothing() {
    let mut lexer = C1Lexer::new("a b");
    lexer.pop_mark();
    assert_eq!(lexer.current_text(), Some("a"));
    let m = lexer.mark();
    lexer.advance();
    lexer.undo(m);
    assert_eq!(lexer.current_text(), Some("a"));
    lexer.pop_mark();
    lexer.pop_mark();
    assert_eq!(texts_from(&mut lexer), vec!["a", "b"]);
}

#[test]
fn a_checkpoint_is_the_number_of_tokens_before_it() {
    let mut lexer = C1Lexer::new("a b c d e");
    assert_eq!(lexer.mark(), 0);
    lexer.pop_mark();
    lexer.advance();
    lexer.advance();
    lexer.advance();
    assert_eq!(lexer.mark(), 3);
    lexer.advance();
    assert_eq!(lexer.mark(), 4);
    lexer.advance();
    lexer.advance();
    assert_eq!(lexer.mark(), 5);
    lexer.undo(3);
    assert_eq!(lexer.current_text(), Some("d"));
    lexer.undo(2);
    assert_eq!(lexer.current_text(), Some("d"));
}

#[test]
fn a_long_speculation_can_be_undone() {
    let mut text = String::new();
    for _ in 0..500 {
        text.push_str("x + ");
    }
    text.push_str("y");
    let mut lexer = C1Lexer::new(&text);
    let m = lexer.mark();
    let mut n = 0;
    while lexer.current_token().is_some() {
        lexer.advance();
        n += 1;
    }
    assert_eq!(n, 1001);
    lexer.undo(m);
    assert_eq!(lexer.current_text(), Some("x"));
    lexer.pop_mark();
    let mut n = 0;
    while lexer.current_token().is_some() {
        lexer.advance();
        n += 1;
    }
    assert_eq!(n, 1001);
}
