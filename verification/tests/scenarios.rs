use c1_parser::{C1Lexer, C1Parser};

#[test]
fn the_empty_text_is_a_program() {
    assert_eq!(C1Parser::parse(""), Ok(()));
}

#[test]
fn one_function_is_a_program() {
    assert_eq!(C1Parser::parse("int bar() {return 0;}"), Ok(()));
}

#[test]
fn a_statement_outside_a_function_is_rejected() {
    assert_eq!(
        C1Parser::parse("int x = 0;"),
        Err(
            "Unexpected token: Expected \"(\" \n at line 1 while trying to parse: '=', in function definition, in program"
                .to_string()
        )
    );
}

#[test]
fn an_if_statement_is_accepted() {
    let mut parser = C1Parser::initialize_parser("if(x == y) {}");
    assert_eq!(parser.ifstatement(), Ok(()));
    assert_eq!(parser.0.current_token(), None);
}

#[test]
fn a_comparison_without_its_right_side_is_rejected() {
    let mut parser = C1Parser::initialize_parser("if(x == ) {}");
    assert_eq!(
        parser.ifstatement(),
        Err(
            "Unexpected token: Expected \")\" \n at line 1 while trying to parse: '==', in ifstatement"
                .to_string()
        )
    );
    assert_eq!(parser.0.current_text(), Some("=="));
}

#[test]
fn two_functions_on_two_lines() {
    let text = "void main() { hello();}\nfloat bar() {return 1.0;}";
    let mut parser = C1Parser::initialize_parser(text);
    assert_eq!(parser.function_definition(), Ok(()));
    assert_eq!(parser.0.current_text(), Some("float"));
    assert_eq!(parser.0.current_line_number(), Some(2));
    assert_eq!(parser.function_definition(), Ok(()));
    assert_eq!(parser.0.current_token(), None);
    assert_eq!(C1Parser::parse(text), Ok(()));
}

#[test]
fn a_block_with_nothing_in_it_is_a_statement_list() {
    let mut parser = C1Parser::initialize_parser("{}");
    assert_eq!(parser.statementlist(), Ok(()));
    assert_eq!(parser.0.current_token(), None);
    let mut inner = C1Parser::initialize_parser("}");
    assert_eq!(inner.statementlist(), Ok(()));
    assert_eq!(inner.0.current_text(), Some("}"));
}

#[test]
fn a_statement_list_stops_before_what_is_no_block() {
    let mut parser = C1Parser::initialize_parser("x = 1; y = 2; z = ; w = 3;");
    assert_eq!(parser.statementlist(), Ok(()));
    assert_eq!(parser.0.current_text(), Some("z"));
}

#[test]
fn the_end_of_the_input_is_reported() {
    assert_eq!(
        C1Parser::parse("int main("),
        Err("Expected \")\". Reached EOF, in function definition, in program".to_string())
    );
    assert_eq!(
        C1Parser::parse("  bool  "),
        Err("Expected function name. Reached EOF, in function definition, in program".to_string())
    );
}

#[test]
fn the_line_of_the_offending_token_is_reported() {
    assert_eq!(
        C1Parser::parse("int main() {\n  x = 1;\n}\n\n\n\n\n\n\n\n\nvoid f() {\n  return 0 0;\n}"),
        Err(
            "Unexpected token: Expected \"}\" \n at line 13 while trying to parse: 'return', in function definition, in program"
                .to_string()
        )
    );
    assert_eq!(
        C1Parser::parse("// A valid comment\nInvalid line."),
        Err(
            "Unexpected token: Expected type \n at line 2 while trying to parse: 'Invalid', in type, in function definition, in program"
                .to_string()
        )
    );
}

#[test]
fn a_failing_rule_names_itself() {
    let mut parser = C1Parser::initialize_parser("foo)");
    assert_eq!(
        parser.functioncall(),
        Err(
            "Unexpected token: Expected \"(\" \n at line 1 while trying to parse: ')', in functioncall"
                .to_string()
        )
    );
    let mut parser = C1Parser::initialize_parser("* 2");
    assert_eq!(
        parser.simpexpr(),
        Err(
            "Unexpected token: Expected <FACTOR> \n at line 1 while trying to parse: '*', in factor, in term, in simpexpr"
                .to_string()
        )
    );
    let mut parser = C1Parser::initialize_parser("(1 + 2");
    assert_eq!(parser.factor(), Err("Expected ')'. Reached EOF, in factor".to_string()));
}

#[test]
fn an_alternation_that_fails_consumes_nothing() {
    let mut parser = C1Parser::initialize_parser("(x + y ;");
    assert!(parser.factor().is_err());
    assert_eq!(parser.0.current_text(), Some("("));

    let mut parser = C1Parser::initialize_parser("(x = y = 1 ;");
    assert!(parser.assignment().is_err());
    assert_eq!(parser.0.current_text(), Some("("));

    let mut parser = C1Parser::initialize_parser("printf(a + b) }");
    assert!(parser.statement().is_err());
    assert_eq!(parser.0.current_text(), Some("printf"));

    let mut parser = C1Parser::initialize_parser("{ x = 1; y = 2; ");
    assert!(parser.block().is_err());
    assert_eq!(parser.0.current_text(), Some("{"));

    let mut parser = C1Parser::initialize_parser("foo( ;");
    assert!(parser.statement().is_err());
    assert_eq!(parser.0.current_text(), Some("foo"));
}

#[test]
fn a_sequence_that_fails_stays_where_it_failed() {
    let mut parser = C1Parser::initialize_parser("printf(a + b }");
    assert!(parser.printf().is_err());
    assert_eq!(parser.0.current_text(), Some("}"));
}

#[test]
fn an_option_that_fails_consumes_nothing() {
    let mut parser = C1Parser::initialize_parser("return - ;");
    assert_eq!(parser.returnstatement(), Ok(()));
    assert_eq!(parser.0.current_text(), Some("-"));
    assert!(C1Parser::parse("int f() { return - ; }").is_err());

    let mut parser = C1Parser::initialize_parser("a < ;");
    assert_eq!(parser.expr(), Ok(()));
    assert_eq!(parser.0.current_text(), Some("<"));
}

#[test]
fn chained_assignment_is_preferred() {
    let mut parser = C1Parser::initialize_parser("a = b = c + 1 ;");
    assert_eq!(parser.assignment(), Ok(()));
    assert_eq!(parser.0.current_text(), Some(";"));
}

#[test]
fn a_call_is_preferred_to_a_name() {
    let mut parser = C1Parser::initialize_parser("f() * g");
    assert_eq!(parser.factor(), Ok(()));
    assert_eq!(parser.0.current_text(), Some("*"));
    let mut parser = C1Parser::initialize_parser("f( * g");
    assert_eq!(parser.factor(), Ok(()));
    assert_eq!(parser.0.current_text(), Some("("));
}

#[test]
fn expressions_of_every_shape() {
    for text in [
        "int f() { return -a * b / c && d + e - f || g >= (h = .5e3) ; }",
        "void f() { if (a == b) { if (c != d) x = 1; } printf(true); g(); }",
        "bool f() { { { } } { return; } }",
        "float f() { x = y = z = .5; return x < 2; }",
        "int a() {} int b() {} int c() {}",
    ] {
        assert_eq!(C1Parser::parse(text), Ok(()), "{}", text);
    }
}

#[test]
fn tokens_that_the_grammar_lacks_are_rejected() {
    for text in [
        "int f() { return \"text\"; }",
        "int f() { while (x) { } }",
        "int f() { if (x) { } else { } }",
        "int f(int a, int b) { }",
        "int f() { return 1 # 2; }",
        "int f() { for } ",
        "int f() { do } ",
    ] {
        assert!(C1Parser::parse(text).is_err(), "{}", text);
    }
}

#[test]
fn the_recognizer_leaves_no_region_open() {
    let mut parser = C1Parser::initialize_parser("int f() { return (1 + ; } x");
    assert!(parser.program().is_err());
    let mut lexer = C1Lexer::new("a b");
    let before = lexer.mark();
    lexer.pop_mark();
    lexer.advance();
    lexer.undo(before);
    assert_eq!(lexer.current_text(), Some("b"));
    parser.0.undo(0);
    assert_eq!(parser.0.current_text(), Some("return"));
}

#[test]
fn a_missing_terminal_of_a_definition_is_named() {
    let cases = [
        ("int a() {}\n# f() { x = 1; }", "Expected type"),
        ("int a() {}\nint # () { x = 1; }", "Expected function name"),
        ("int a() {}\nint f # ) { x = 1; }", "Expected \"(\""),
        ("int a() {}\nint f ( # { x = 1; }", "Expected \")\""),
        ("int a() {}\nint f ( ) # x = 1; }", "Expected \"{\""),
        ("int a() {}\nint f ( ) { x = 1; #", "Expected \"}\""),
    ];
    for (text, reason) in cases {
        let trail = if reason == "Expected type" {
            ", in type, in function definition, in program"
        } else {
            ", in function definition, in program"
        };
        assert_eq!(
            C1Parser::parse(text),
            Err(format!(
                "Unexpected token: {} \n at line 2 while trying to parse: '#'{}",
                reason, trail
            )),
            "{}",
            text
        );
    }
}

#[test]
fn a_missing_terminal_inside_a_body_is_reported_at_the_block() {
    assert_eq!(
        C1Parser::parse("int f() { return 0 # }"),
        Err(
            "Unexpected token: Expected \"}\" \n at line 1 while trying to parse: 'return', in function definition, in program"
                .to_string()
        )
    );
}

#[test]
fn the_diagnostic_is_that_of_the_last_alternative() {
    let mut parser = C1Parser::initialize_parser("while");
    assert_eq!(
        parser.statement(),
        Err(
            "Unexpected token: Expected <ID> \n at line 1 while trying to parse: 'while', in functioncall, in statement"
                .to_string()
        )
    );
    let mut parser = C1Parser::initialize_parser("foo() x");
    assert_eq!(
        parser.statement(),
        Err(
            "Unexpected token: Expected semicolon after function call \n at line 1 while trying to parse: 'x', in statement"
                .to_string()
        )
    );
    let mut parser = C1Parser::initialize_parser("while");
    assert_eq!(
        parser.factor(),
        Err(
            "Unexpected token: Expected <FACTOR> \n at line 1 while trying to parse: 'while', in factor"
                .to_string()
        )
    );
    let mut parser = C1Parser::initialize_parser("");
    assert_eq!(
        parser.assignment(),
        Err("Expected <FACTOR>. Reached EOF, in factor, in term, in simpexpr, in expr, in assignment".to_string())
    );
    let mut parser = C1Parser::initialize_parser("{ x = ; }");
    assert_eq!(
        parser.block(),
        Err(
            "Unexpected token: Expected <ID> \n at line 1 while trying to parse: '{', in functioncall, in statement, in block"
                .to_string()
        )
    );
}

#[test]
fn each_rule_names_what_it_lacks() {
    let mut parser = C1Parser::initialize_parser("x");
    assert_eq!(
        parser.ifstatement(),
        Err(
            "Unexpected token: Expected \"if\" \n at line 1 while trying to parse: 'x', in ifstatement"
                .to_string()
        )
    );
    let mut parser = C1Parser::initialize_parser("x");
    assert_eq!(
        parser.returnstatement(),
        Err(
            "Unexpected token: Expected \"return\" \n at line 1 while trying to parse: 'x', in returnstatement"
                .to_string()
        )
    );
    let mut parser = C1Parser::initialize_parser("x");
    assert_eq!(
        parser.printf(),
        Err(
            "Unexpected token: Expected \"printf\" \n at line 1 while trying to parse: 'x', in printf"
                .to_string()
        )
    );
    let mut parser = C1Parser::initialize_parser("x +");
    assert_eq!(
        parser.statassignment(),
        Err(
            "Unexpected token: Expected \"=\" \n at line 1 while trying to parse: '+', in statassignment"
                .to_string()
        )
    );
    let mut parser = C1Parser::initialize_parser("1");
    assert_eq!(
        parser.statassignment(),
        Err(
            "Unexpected token: Expected <ID> \n at line 1 while trying to parse: '1', in statassignment"
                .to_string()
        )
    );
    let mut parser = C1Parser::initialize_parser("1");
    assert_eq!(
        parser.chained(),
        Err("Unexpected token: Expected \"<ID>\" \n at line 1 while trying to parse: '1'".to_string())
    );
    let mut parser = C1Parser::initialize_parser("x");
    assert_eq!(
        parser.p_type(),
        Err("Unexpected token: Expected type \n at line 1 while trying to parse: 'x', in type".to_string())
    );
    let mut parser = C1Parser::initialize_parser("x");
    assert_eq!(
        parser.braced(),
        Err("Unexpected token: Expected \"{\" \n at line 1 while trying to parse: 'x'".to_string())
    );
    let mut parser = C1Parser::initialize_parser("{ x = 1; ");
    assert_eq!(parser.braced(), Err("Expected \"}\". Reached EOF".to_string()));
    let mut parser = C1Parser::initialize_parser("x");
    assert_eq!(
        parser.comparison(),
        Err("Unexpected token:  \n at line 1 while trying to parse: 'x'".to_string())
    );
}

#[test]
fn a_repetition_never_fails() {
    for text in ["", "x", "* 2 / 3 && 4 *", "+ 1 - 2 || 3 +", ") ) )"] {
        let mut parser = C1Parser::initialize_parser(text);
        assert_eq!(parser.term_tail(), Ok(()));
        let mut parser = C1Parser::initialize_parser(text);
        assert_eq!(parser.simpexpr_tail(), Ok(()));
        let mut parser = C1Parser::initialize_parser(text);
        assert_eq!(parser.statementlist(), Ok(()));
    }
    let mut parser = C1Parser::initialize_parser("* 2 / 3 && 4 * ;");
    assert_eq!(parser.term_tail(), Ok(()));
    assert_eq!(parser.current_text(), Some("*"));
    assert_eq!(parser.mark(), 6);
}

#[test]
fn the_cursor_is_read_through_the_recognizer() {
    let mut parser = C1Parser::initialize_parser("a b");
    assert!(parser.current_matches(&c1_parser::C1Token::Identifier));
    assert_eq!(
        parser.check_and_eat_token(&c1_parser::C1Token::Identifier, "Expected <ID>"),
        Ok(())
    );
    assert_eq!(parser.current_text(), Some("b"));
    assert_eq!(
        parser.any_match_and_eat(
            &[c1_parser::C1Token::Plus, c1_parser::C1Token::Identifier],
            "Expected more"
        ),
        Ok(())
    );
    assert_eq!(
        parser.any_match_and_eat(&[c1_parser::C1Token::Plus], "Expected more"),
        Err("Expected more. Reached EOF".to_string())
    );
}
