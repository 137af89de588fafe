use c1_parser::diagnostic::{complain, push_decimal};
use c1_parser::scan::{scan, C1Token};

fn decimal(n: usize) -> String {
    let mut out = String::new();
    push_decimal(&mut out, n);
    out
}

#[test]
fn decimal_numerals() {
    assert_eq!(decimal(0), "0");
    assert_eq!(decimal(7), "7");
    assert_eq!(decimal(9), "9");
    assert_eq!(decimal(10), "10");
    assert_eq!(decimal(99), "99");
    assert_eq!(decimal(100), "100");
    assert_eq!(decimal(1234567890), "1234567890");
    assert_eq!(decimal(usize::MAX), usize::MAX.to_string());
}

#[test]
fn a_numeral_is_appended() {
    let mut out = String::from("line ");
    push_decimal(&mut out, 42);
    assert_eq!(out, "line 42");
}

#[test]
fn the_complaint_about_a_token() {
    assert_eq!(
        complain("Expected \"(\"", Some((12, "="))),
        "Unexpected token: Expected \"(\" \n at line 12 while trying to parse: '='"
    );
    assert_eq!(
        complain("", Some((1, "\u{00e9}"))),
        "Unexpected token:  \n at line 1 while trying to parse: '\u{00e9}'"
    );
}

#[test]
fn the_complaint_about_the_end_of_the_input() {
    assert_eq!(complain("Expected type", None), "Expected type. Reached EOF");
    assert_eq!(complain("", None), ". Reached EOF");
}

#[test]
fn the_scanner_finds_the_next_lexeme() {
    let text = "  // c\r\n\tprintf(\"a\rb\")\n";
    let bytes = text.as_bytes();
    let first = scan(bytes, 0).unwrap();
    assert_eq!(first.kind, C1Token::KwPrintf);
    assert_eq!((first.start, first.end), (9, 15));
    assert_eq!((first.breaks_before, first.breaks_within), (1, 0));
    let second = scan(bytes, first.end).unwrap();
    assert_eq!(second.kind, C1Token::LeftParenthesis);
    assert_eq!((second.start, second.end), (15, 16));
    let third = scan(bytes, second.end).unwrap();
    assert_eq!(third.kind, C1Token::ConstString);
    assert_eq!((third.start, third.end), (16, 21));
    assert_eq!((third.breaks_before, third.breaks_within), (0, 1));
    let fourth = scan(bytes, third.end).unwrap();
    assert_eq!(fourth.kind, C1Token::RightParenthesis);
    assert!(scan(bytes, fourth.end).is_none());
    assert!(scan(bytes, bytes.len()).is_none());
}

#[test]
fn the_scanner_takes_bytes_that_are_no_text() {
    let bytes = [b'a', 0xff, 0x80, 0x80, b'b'];
    let first = scan(&bytes, 0).unwrap();
    assert_eq!((first.kind, first.start, first.end), (C1Token::Identifier, 0, 1));
    let second = scan(&bytes, 1).unwrap();
    assert_eq!((second.kind, second.start, second.end), (C1Token::Error, 1, 4));
    let third = scan(&bytes, 4).unwrap();
    assert_eq!((third.kind, third.start, third.end), (C1Token::Identifier, 4, 5));
}
