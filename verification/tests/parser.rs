use c1_parser::{C1Parser, ParseResult};

fn call_method<F>(parse_method: F, text: &'static str) -> ParseResult
where
    F: Fn(&mut C1Parser<'static>) -> ParseResult,
{
    let mut parser = C1Parser::initialize_parser(text);
    if let Err(message) = parse_method(&mut parser) {
        println!("Parse Error: {}", message);
        Err(message)
    } else {
        println!("{:?}", parser.current_token());
        Ok(())
    }
}

#[test]
fn parse_empty_program() {
    let result = C1Parser::parse("");
    assert_eq!(result, Ok(()));

    let result = C1Parser::parse("   ");
    assert_eq!(result, Ok(()));

    let result = C1Parser::parse("// This is a valid comment!");
    assert_eq!(result, Ok(()));

    let result = C1Parser::parse("/* This is a valid comment!\nIn two lines!*/\n");
    assert_eq!(result, Ok(()));

    let result = C1Parser::parse("  \n ");
    assert_eq!(result, Ok(()));
}

#[test]
fn fail_invalid_program() {
    let result = C1Parser::parse("  bool  ");
    println!("{:?}", result);
    assert!(result.is_err());

    let result = C1Parser::parse("int x = 0;");
    println!("{:?}", result);
    assert!(result.is_err());

    let result = C1Parser::parse("// A valid comment\nInvalid line.");
    println!("{:?}", result);
    assert!(result.is_err());
}

#[test]
fn valid_function() {
    let result = C1Parser::parse("int bar() {return 0;}");
    assert!(result.is_ok(), "Parse result: {}", result.err().unwrap());

    let result = C1Parser::parse(
        "float calc() {\n\
        x = 1.0;
        y = 2.2;
        return x + y;
        \n\
        }",
    );
    assert!(result.is_ok());
}

#[test]
fn fail_invalid_function() {
    let result = C1Parser::parse("  void foo()) {}  ");
    println!("{:?}", result);
    assert!(result.is_err());

    let result = C1Parser::parse("const bar() {return 0;}");
    println!("{:?}", result);
    assert!(result.is_err());

    let result = C1Parser::parse(
        "int bar() {
                                                          return 0;
                                                     int foo() {}",
    );
    println!("{:?}", result);
    assert!(result.is_err());

    let result = C1Parser::parse(
        "float calc(int invalid) {\n\
        int x = 1.0;
        int y = 2.2;
        return x + y;
        \n\
        }",
    );
    println!("{:?}", result);
    assert!(result.is_err());
}

#[test]
fn valid_functioncall() {
    assert!(call_method(C1Parser::functioncall, "foo()").is_ok());
    assert!(call_method(C1Parser::functioncall, "foo( )").is_ok());
    assert!(call_method(C1Parser::functioncall, "bar23( )").is_ok());
}

#[test]
fn fail_invalid_functioncall() {
    assert!(call_method(C1Parser::functioncall, "foo)").is_err());
    assert!(call_method(C1Parser::functioncall, "foo{ )").is_err());
    assert!(call_method(C1Parser::functioncall, "bar _foo( )").is_err());
}

#[test]
fn valid_statementlist() {
    assert!(call_method(C1Parser::statementlist, "return 3;").is_ok());
    assert!(call_method(C1Parser::statementlist, "x = 4;\ny = 2.1;").is_ok());
    assert!(call_method(
        C1Parser::statementlist,
        "x = 4;\n\
        {\
        foo();\n\
        }"
    )
    .is_ok());
    assert!(call_method(C1Parser::statementlist, "{x = 4;}\ny = 1;\nfoo();\n{}").is_ok());
}

#[test]
fn valid_ifstatement() {
    assert!(call_method(C1Parser::ifstatement, "if(x == y) {}").is_ok());
    assert!(call_method(C1Parser::ifstatement, "if(z) {}").is_ok());
    assert!(call_method(C1Parser::ifstatement, "if(true) {}").is_ok());
    assert!(call_method(C1Parser::ifstatement, "if(false) {}").is_ok());
}

#[test]
fn fail_invalid_ifstatement() {
    assert!(call_method(C1Parser::ifstatement, "if(x == ) {}").is_err());
    assert!(call_method(C1Parser::ifstatement, "if( == y) {}").is_err());
    assert!(call_method(C1Parser::ifstatement, "if(> z) {}").is_err());
    assert!(call_method(C1Parser::ifstatement, "if( {}").is_err());
    assert!(call_method(C1Parser::ifstatement, "if(false) }").is_err());
}

#[test]
fn valid_returnstatement() {
    assert!(call_method(C1Parser::returnstatement, "return x").is_ok());
    assert!(call_method(C1Parser::returnstatement, "return 1").is_ok());
    assert!(call_method(C1Parser::returnstatement, "return").is_ok());
}

#[test]
fn fail_invalid_returnstatement() {
    assert!(call_method(C1Parser::returnstatement, "1").is_err());
}

#[test]
fn valid_printf_statement() {
    assert!(call_method(C1Parser::printf, " printf(a+b)").is_ok());
    assert!(call_method(C1Parser::printf, "printf( 1)").is_ok());
    assert!(call_method(C1Parser::printf, "printf(a - c)").is_ok());
}

#[test]
fn fail_invalid_printf_statement() {
    assert!(call_method(C1Parser::printf, "printf( ").is_err());
    assert!(call_method(C1Parser::printf, "printf(printf)").is_err());
    assert!(call_method(C1Parser::printf, "Printf()").is_err());
}

#[test]
fn valid_p_type() {
    assert!(call_method(C1Parser::p_type, "void").is_ok());
    assert!(call_method(C1Parser::p_type, "bool").is_ok());
    assert!(call_method(C1Parser::p_type, "int").is_ok());
    assert!(call_method(C1Parser::p_type, "float").is_ok());
}

#[test]
fn valid_assignment() {
    assert!(call_method(C1Parser::assignment, "b > blub()").is_ok());
    assert!(call_method(C1Parser::assignment, "x = y + 1").is_ok());
    assert!(call_method(C1Parser::assignment, "1 + 2").is_ok());
}

#[test]
fn valid_statassignment() {
    assert!(call_method(C1Parser::statassignment, "x = y").is_ok());
    assert!(call_method(C1Parser::statassignment, "x = y").is_ok());
    assert!(call_method(C1Parser::statassignment, "x = y + t").is_ok());
}

#[test]
fn valid_factor() {
    assert!(call_method(C1Parser::factor, "4").is_ok());
    assert!(call_method(C1Parser::factor, "1.2").is_ok());
    assert!(call_method(C1Parser::factor, "true").is_ok());
    assert!(call_method(C1Parser::factor, "foo()").is_ok());
    assert!(call_method(C1Parser::factor, "x").is_ok());
    assert!(call_method(C1Parser::factor, "(x + y)").is_ok());
}

#[test]
fn fail_invalid_factor() {
    assert!(call_method(C1Parser::factor, "if").is_err());
    assert!(call_method(C1Parser::factor, "(x +").is_err());
    assert!(call_method(C1Parser::factor, "bool").is_err());
}

#[test]
fn multiple_functions() {
    assert!(call_method(
        C1Parser::program,
        "void main() { hello();}\nfloat bar() {return 1.0;}"
    )
    .is_ok());
}
