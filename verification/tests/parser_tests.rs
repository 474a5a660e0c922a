use testlang::parser::{parse, ParseResult, Special, Token, Tokens};
use testlang::runner::{Declaration, Expression, Primitive};
use testlang::types::Location;

#[test]
fn parser_test_assert() {
    let test = Token::Symbol(Location("file".to_owned(), 1, 1), "test".to_owned());
    let name = Token::String(Location("file".to_owned(), 1, 6), "name".to_owned());
    let assert = Token::Symbol(Location("file".to_owned(), 2, 4), "assert".to_owned());
    let bool = Token::Symbol(Location("file".to_owned(), 2, 13), "true".to_owned());
    let mut tokens = Tokens::new();
    tokens.add(bool);
    let pipe = Token::Pipe(Location("file".to_owned(), 2, 10), tokens);

    let mut tokens = Tokens::new();
    tokens.add(assert);
    tokens.add(pipe);
    let block = Token::Block(Location("file".to_owned(), 1, 11), vec![tokens]);

    let mut tokens = Tokens::new();
    tokens.add(test);
    tokens.add(name);
    tokens.add(block);

    let result = parse(&mut tokens);
    match result {
        ParseResult::Fault(.., err) => assert!(false, "parse failed with {err}"),
        ParseResult::Done(program) => match program.declarations.0.get(0).unwrap() {
            Declaration::Test(loc, name, block) => {
                match loc {
                    Location(file, row, col) => {
                        assert_eq!(*file, "file".to_owned(), "expected file name");
                        assert_eq!(*row, 1, "expected row number");
                        assert_eq!(*col, 1, "expected col number");
                    }
                }
                assert_eq!(*name, "name".to_owned(), "expected test name");
                match &block.loc() {
                    Location(file, row, col) => {
                        assert_eq!(*file, "file".to_owned());
                        assert_eq!(*row, 1, "expected row number");
                        assert_eq!(*col, 11, "expected col number");
                    }
                }
                assert_eq!(
                    block.expressions().len(),
                    1,
                    "expected 1 expression in the block"
                );
                match block.expressions().get(0).unwrap() {
                    Expression::Assert(Location(file, row, col), expression) => {
                        assert_eq!(*file, "file".to_owned(), "expected file name");
                        assert_eq!(*row, 2, "expected row number");
                        assert_eq!(*col, 4, "expected col number");
                        match **expression {
                            Expression::Primitive(
                                Location(.., row, col),
                                Primitive::Boolean(bool),
                            ) => {
                                assert_eq!(row, 2, "expected row number");
                                assert_eq!(col, 13, "expected col number");
                                assert!(bool, "expected true value");
                            }
                            _ => assert!(false, "expected primitive expression"),
                        }
                    }
                    _ => assert!(false, "expected assert expression"),
                }
            }
        },
    }
}

#[test]
fn test_split_on_first_special() {
    let loc = Location("file".to_owned(), 1, 2);
    let symbol = Token::Symbol(loc.clone(), "something".to_owned());
    let special = Token::Special(loc.clone(), Special::Assign);
    let string = Token::String(loc.clone(), "other".to_owned());
    let mut tokens = Tokens::new();
    tokens.add(symbol);
    tokens.add(special);
    tokens.add(string);

    if let Some((special, left, right)) = tokens.split_on_first_special() {
        match special {
            Special::Equality => assert!(false, "unexpected equality"),
            _ => (),
        }
        assert_eq!(left.len(), 1, "expected 1 item");
        assert_eq!(right.len(), 1, "expected 1 item");
        match left.peek() {
            Some(Token::Symbol(Location(file, row, col), symbol)) => {
                assert_eq!(file, "file".to_owned(), "expected file name");
                assert_eq!(row, 1, "expected row number");
                assert_eq!(col, 2, "expected col number");
                assert_eq!(symbol, "something".to_owned(), "expected symbol value");
            }
            _ => assert!(false, "expected symbol value"),
        }
        match right.peek() {
            Some(Token::String(Location(file, row, col), string)) => {
                assert_eq!(file, "file".to_owned(), "expected file name");
                assert_eq!(row, 1, "expected row number");
                assert_eq!(col, 2, "expected col number");
                assert_eq!(string, "other".to_owned(), "expected string value");
            }
            _ => assert!(false, "expected string value"),
        }
    }
}

#[test]
fn assignment_has_priority_over_equality() {
    // In one line, the first `=` splits before any `==` is considered.
    let mut tokens = testlang::lexer::lex_file("file".to_string(), "a = 1 == 1".to_string())
        .unwrap();
    match testlang::parser::parse_expression(&mut tokens) {
        ParseResult::Done(Expression::Assignment(..)) => {}
        _ => assert!(false, "expected an assignment"),
    }
}

#[test]
fn invalid_number_is_a_parse_error() {
    let mut tokens = testlang::lexer::lex_file(
        "file".to_string(),
        "test \"n\" {\n1.2.3\n}".to_string(),
    )
    .unwrap();
    match parse(&mut tokens) {
        ParseResult::Fault(Location(_, row, col), msg) => {
            assert_eq!(row, 2);
            assert_eq!(col, 1);
            assert_eq!(msg, "Unable to parse 1.2.3 as a number");
        }
        _ => assert!(false, "expected a parse error"),
    }
}

#[test]
fn non_test_declaration_is_unexpected() {
    let mut tokens = testlang::lexer::lex_file("file".to_string(), "foo".to_string()).unwrap();
    match parse(&mut tokens) {
        ParseResult::Fault(_, msg) => assert_eq!(msg, "Unexpected token"),
        _ => assert!(false, "expected a parse error"),
    }
}

#[test]
fn test_without_block_is_missing_component() {
    let mut tokens = testlang::lexer::lex_file("file".to_string(), "test \"x\"".to_string())
        .unwrap();
    match parse(&mut tokens) {
        ParseResult::Fault(_, msg) => assert_eq!(msg, "Expected block"),
        _ => assert!(false, "expected a parse error"),
    }
}

#[test]
fn test_without_name_is_missing_component() {
    let mut tokens = testlang::lexer::lex_file("file".to_string(), "test true".to_string())
        .unwrap();
    match parse(&mut tokens) {
        ParseResult::Fault(_, msg) => assert_eq!(msg, "Expected test name"),
        _ => assert!(false, "expected a parse error"),
    }
}

#[test]
fn parse_result_message_renders_location_and_text() {
    let r: ParseResult<u8> = ParseResult::Fault(
        Location("file".to_owned(), 3, 4),
        "Expected block".to_owned(),
    );
    assert_eq!(r.message(), "ParseError: file:3:4: Expected block");
}

#[test]
fn dotted_ref_parses_to_single_name() {
    let mut tokens = testlang::lexer::lex_file("file".to_string(), "a.b.1".to_string()).unwrap();
    match testlang::parser::parse_expression(&mut tokens) {
        ParseResult::Done(Expression::Ref(_, name)) => assert_eq!(name, "a.b.1"),
        _ => assert!(false, "expected a reference"),
    }
}
