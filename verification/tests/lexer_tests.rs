use testlang::lexer::{lex_file, LexError};
use testlang::parser::Token;
use testlang::types::Location;

#[test]
fn test_block() {
    let mut result = lex_file("file".to_string(), " test { contents }".to_string()).unwrap();
    assert!(result.len() == 2, "expected 2 tokens");
    match result.take() {
        Some(Token::Symbol(Location(file, row, col), value)) => {
            assert!(*file == "file".to_string(), "expected file name");
            assert!(row == 1, "expected row number");
            assert!(col == 2, "expected col number");
            assert!(value == "test", "expected symbol value");
        }
        _ => assert!(false, "expected symbol"),
    }
    match result.take() {
        Some(Token::Block(Location(file, row, col), ref mut lines)) => {
            assert!(*file == "file".to_string(), "expected file name");
            assert!(row == 1, "expected row number");
            assert!(col == 7, "expected col number");
            assert!(lines.get(0).unwrap().len() == 1, "expected 1 token");
            match lines.get(0).unwrap().clone().take() {
                Some(Token::Symbol(Location(file, row, col), value)) => {
                    assert!(*file == "file".to_string(), "expected file name");
                    assert!(row == 1, "expected row number");
                    assert!(col == 9, "expected col number");
                    assert!(value == "contents", "expected symbol value");
                }
                _ => assert!(false, "expected symbol"),
            }
        }
        _ => assert!(false, "expected sub block"),
    }
}

#[test]
fn test_symbol() {
    let mut result = lex_file("file".to_string(), " simple".to_string()).unwrap();
    assert!(result.len() == 1, "expected 1 token");
    match result.take() {
        Some(Token::Symbol(Location(file, row, col), symbol)) => {
            assert_eq!(file, "file", "expected file name");
            assert_eq!(row, 1, "expected row number");
            assert_eq!(col, 2, "expected col number");
            assert_eq!(symbol, "simple", "expected symbol value");
        }
        _ => assert!(false, "expected symbol"),
    }
}

#[test]
fn test_string() {
    let mut result = lex_file(
        "file".to_string(),
        " \"some 123 \\\"string\\\" \n34\"".to_string(),
    )
    .unwrap();
    println!("{result:?}");
    assert_eq!(result.len(), 1, "expected 1 token");
    match result.take() {
        Some(Token::String(Location(file, row, col), value)) => {
            assert_eq!(file, "file", "expected file name");
            assert_eq!(row, 1, "expected row number");
            assert_eq!(col, 2, "expected col number");
            assert_eq!(value, "some 123 \"string\" \n34", "expected string value");
        }
        _ => assert!(false, "expected string"),
    }
}

#[test]
fn test_number() {
    let file_name = "file";

    let mut result = lex_file(file_name.to_string(), "123.456".to_string()).unwrap();
    assert!(result.len() == 1, "expected 1 token");
    match result.take() {
        Some(Token::Number(Location(file, row, col), value)) => {
            assert!(*file == file_name.to_string(), "expected file name");
            assert!(row == 1, "expected row number");
            assert!(col == 1, "expected col number");
            assert!(value == "123.456", "expected number value");
        }
        _ => assert!(false, "expected number"),
    }

    let mut result = lex_file(file_name.to_string(), " 1_000_000 ".to_string()).unwrap();
    assert!(result.len() == 1, "expected 1 token");
    match result.take() {
        Some(Token::Number(Location(file, row, col), value)) => {
            assert!(*file == file_name.to_string(), "expected file name");
            assert!(row == 1, "expected row number");
            assert!(col == 2, "expected col number");
            assert!(value == "1000000", "expected number value");
        }
        _ => assert!(false, "expected number"),
    }
}

#[test]
fn test_object() {
    let file_name = "file";
    let mut result = lex_file(
        file_name.to_string(),
        "test {\nobj = {hello: \"world\", 1: 23.0, \"other\": true == true}\na=b\n}".to_string(),
    )
    .unwrap();
    assert!(result.len() == 2, "expected 2 tokens");
    match result.take() {
        Some(Token::Symbol(Location(file, row, col), symbol)) => {
            assert_eq!(file, file_name.to_string(), "expected file name");
            assert_eq!(row, 1, "expected row number");
            assert_eq!(col, 1, "expected col number");
            assert_eq!(symbol, "test", "expected symbol value");
        }
        _ => assert!(false, "expected symbol"),
    }
    match result.take() {
        Some(Token::Block(Location(file, row, col), ref mut tokens)) => {
            assert_eq!(file, file_name.to_string(), "expected file name");
            assert_eq!(row, 1, "expected row number");
            assert_eq!(col, 6, "expected col number");
            assert_eq!(tokens.len(), 2, "expected 2 sets of tokens");
            match tokens.get_mut(0) {
                Some(tokens) => {
                    match tokens.take() {
                        Some(Token::Symbol(Location(file, row, col), symbol)) => {
                            assert_eq!(*file, file_name.to_string(), "expected file name");
                            assert_eq!(row, 2, "expected row number");
                            assert_eq!(col, 1, "expected col number");
                            assert_eq!(symbol, "obj", "expected symbol value");
                        }
                        _ => assert!(false, "expected symbol"),
                    }
                    match tokens.take() {
                        Some(Token::Special(
                            Location(file, row, col),
                            testlang::parser::Special::Assign,
                        )) => {
                            assert_eq!(*file, file_name.to_string(), "expected file name");
                            assert_eq!(row, 2, "expected row number");
                            assert_eq!(col, 5, "expected col number");
                        }
                        _ => assert!(false, "expected special"),
                    }
                    match tokens.take() {
                        Some(Token::Object(Location(file, row, col), map)) => {
                            println!("map {map:?}");
                            assert_eq!(*file, file_name.to_string(), "expected file name");
                            assert_eq!(row, 2, "expected row number");
                            assert_eq!(col, 7, "expected col number");
                            let hello_entry = map.iter().find(|e| e.0 == "hello").unwrap();
                            let one_entry = map.iter().find(|e| e.0 == "1").unwrap();
                            let other_entry = map.iter().find(|e| e.0 == "other").unwrap();
                            assert_eq!(hello_entry.1.len(), 1, "expected 1 token for \"hello\"");
                            assert_eq!(one_entry.1.len(), 1, "expected 1 token for \"1\"");
                            assert_eq!(other_entry.1.len(), 3, "expected 3 tokens for \"other\"");
                            let mut hello = hello_entry.1.clone();
                            match hello.take() {
                                Some(Token::String(Location(file, row, col), value)) => {
                                    assert_eq!(*file, file_name.to_string(), "expected file name");
                                    assert_eq!(row, 2, "expected row number");
                                    assert_eq!(col, 15, "expected col number");
                                    assert_eq!(value, "world", "expected symbol value");
                                }
                                _ => assert!(false, "expected symbol"),
                            }
                            let mut one = one_entry.1.clone();
                            match one.take() {
                                Some(Token::Number(Location(file, row, col), number)) => {
                                    assert_eq!(file, file_name.to_string(), "expected file name");
                                    assert_eq!(row, 2, "expected row number");
                                    assert_eq!(col, 27, "expected col number");
                                    assert_eq!(number, "23.0", "expected number value");
                                }
                                _ => assert!(false, "expected number"),
                            }
                            let mut other = other_entry.1.clone();
                            match other.take() {
                                Some(Token::Symbol(Location(file, row, col), symbol)) => {
                                    assert_eq!(file, file_name.to_string(), "expected file name");
                                    assert_eq!(row, 2, "expected row number");
                                    assert_eq!(col, 42, "expected col number");
                                    assert_eq!(symbol, "true", "expected symbol value");
                                }
                                _ => assert!(false, "expected symbol"),
                            }
                            match other.take() {
                                Some(Token::Special(
                                    Location(file, row, col),
                                    testlang::parser::Special::Equality,
                                )) => {
                                    assert_eq!(file, file_name.to_string(), "expected file name");
                                    assert_eq!(row, 2, "expected row number");
                                    assert_eq!(col, 47, "expected col number");
                                }
                                _ => assert!(false, "expected equality"),
                            }
                            match other.take() {
                                Some(Token::Symbol(Location(file, row, col), symbol)) => {
                                    assert_eq!(file, file_name.to_string(), "expected file name");
                                    assert_eq!(row, 2, "expected row number");
                                    assert_eq!(col, 50, "expected col number");
                                    assert_eq!(symbol, "true", "expected symbol value")
                                }
                                _ => assert!(false, "expected symbol"),
                            }
                        }
                        _ => assert!(false, "expeted object"),
                    }
                }
                _ => assert!(false, "expected tokens"),
            }
            match tokens.get_mut(1) {
                Some(tokens) => {
                    match tokens.take() {
                        Some(Token::Symbol(Location(file, row, col), symbol)) => {
                            assert_eq!(file, file_name.to_string(), "expected file name");
                            assert_eq!(row, 3, "expected row number");
                            assert_eq!(col, 1, "expected col number");
                            assert_eq!(symbol, "a", "expected symbol value");
                        }
                        _ => assert!(false, "expected symbol"),
                    }
                    match tokens.take() {
                        Some(Token::Special(
                            Location(file, row, col),
                            testlang::parser::Special::Assign,
                        )) => {
                            assert_eq!(file, file_name.to_string(), "expected file name");
                            assert_eq!(row, 3, "expected row number");
                            assert_eq!(col, 2, "expected col number");
                        }
                        _ => assert!(false, "expected assign"),
                    }
                    match tokens.take() {
                        Some(Token::Symbol(Location(file, row, col), symbol)) => {
                            assert_eq!(file, file_name.to_string(), "expected file name");
                            assert_eq!(row, 3, "expected row number");
                            assert_eq!(col, 3, "expected col number");
                            assert_eq!(symbol, "b", "expected symbol value");
                        }
                        _ => assert!(false, "expected symbol"),
                    }
                }
                _ => assert!(false, "expected set of tokens"),
            }
        }
        _ => assert!(false, "expected block"),
    }
}

#[test]
fn test_array() {
    let file_name = "file";
    let mut result = lex_file(
        file_name.to_string(),
        "array = [\"haha\", 45.6, false, true == true]".to_string(),
    )
    .unwrap();
    assert!(result.len() == 3);
    match result.take() {
        Some(Token::Symbol(Location(file, row, col), symbol)) => {
            assert_eq!(*file, file_name.to_string(), "expected file name");
            assert_eq!(row, 1, "expected row number");
            assert_eq!(col, 1, "expected col number");
            assert_eq!(symbol, "array", "expected symbol value");
            match result.take() {
                Some(Token::Special(
                    Location(file, row, col),
                    testlang::parser::Special::Assign,
                )) => {
                    assert_eq!(*file, file_name.to_string(), "expected file name");
                    assert_eq!(row, 1, "expected row number");
                    assert_eq!(col, 7, "expected col number");
                    match result.take() {
                        Some(Token::Array(Location(file, row, col), items)) => {
                            assert_eq!(*file, file_name.to_string(), "expected file name");
                            assert_eq!(row, 1, "expected row number");
                            assert_eq!(col, 9, "expected col number");
                            assert_eq!(items.len(), 4, "expected 4 items in the array");
                            let mut haha = items.get(0).unwrap().clone();
                            match haha.take() {
                                Some(Token::String(Location(file, row, col), value)) => {
                                    assert_eq!(*file, file_name.to_string(), "expected file name");
                                    assert_eq!(row, 1, "expected row number");
                                    assert_eq!(col, 10, "expected col number");
                                    assert_eq!(value, "haha", "expected string value");
                                }
                                _ => assert!(false, "expected string"),
                            }
                            let mut num = items.get(1).unwrap().clone();
                            match num.take() {
                                Some(Token::Number(Location(file, row, col), value)) => {
                                    assert_eq!(*file, file_name.to_string(), "expected file name");
                                    assert_eq!(row, 1, "expected row number");
                                    assert_eq!(col, 18, "expected col number");
                                    assert_eq!(value, "45.6", "expected number value");
                                }
                                _ => assert!(false, "expected number"),
                            }
                            let mut fal = items.get(2).unwrap().clone();
                            match fal.take() {
                                Some(Token::Symbol(Location(file, row, col), value)) => {
                                    assert_eq!(*file, file_name.to_string(), "expected file name");
                                    assert_eq!(row, 1, "expected row number");
                                    assert_eq!(col, 24, "expected col number");
                                    assert_eq!(value, "false", "expected symbol value");
                                }
                                _ => assert!(false, "expected symbol"),
                            }
                            let mut cond = items.get(3).unwrap().clone();
                            match cond.take() {
                                Some(Token::Symbol(Location(file, row, col), value)) => {
                                    assert_eq!(*file, file_name.to_string(), "expected file name");
                                    assert_eq!(row, 1, "expected row number");
                                    assert_eq!(col, 31, "expected col number");
                                    assert_eq!(value, "true", "expected symbol value");
                                }
                                _ => assert!(false, "expected symbol"),
                            }
                            match cond.take() {
                                Some(Token::Special(
                                    Location(file, row, col),
                                    testlang::parser::Special::Equality,
                                )) => {
                                    assert_eq!(*file, file_name.to_string(), "expected file name");
                                    assert_eq!(row, 1, "expected row number");
                                    assert_eq!(col, 36, "expected col number");
                                }
                                _ => assert!(false, "expected equality"),
                            }
                            match cond.take() {
                                Some(Token::Symbol(Location(file, row, col), value)) => {
                                    assert_eq!(*file, file_name.to_string(), "expected file name");
                                    assert_eq!(row, 1, "expected row number");
                                    assert_eq!(col, 39, "expected col number");
                                    assert_eq!(value, "true", "expected symbol value");
                                }
                                _ => assert!(false, "expected symbol"),
                            }
                        }
                        _ => assert!(false, "expected array"),
                    }
                }
                _ => assert!(false, "expected assign"),
            }
        }
        _ => assert!(false, "expected symbol"),
    }
}

#[test]
fn unterminated_block_reports_opening_location() {
    let result = lex_file("file".to_string(), "test \"bad\" { assert: true".to_string());
    match result {
        Err(LexError::UnterminatedStructure(Location(file, row, col))) => {
            assert_eq!(file, "file");
            assert_eq!(row, 1);
            assert_eq!(col, 12);
        }
        _ => assert!(false, "expected an unterminated structure error"),
    }
}

#[test]
fn empty_object_token_has_no_entries() {
    let mut result = lex_file("file".to_string(), "a = {}".to_string()).unwrap();
    assert_eq!(result.len(), 3);
    result.take();
    result.take();
    match result.take() {
        Some(Token::Object(Location(_, row, col), entries)) => {
            assert_eq!(row, 1);
            assert_eq!(col, 5);
            assert_eq!(entries.len(), 0);
        }
        _ => assert!(false, "expected an object token"),
    }
}

#[test]
fn pipe_payload_matches_direct_tokenization() {
    // Tokenizing the captured payload's text directly yields the same
    // tokens (same kinds and texts; locations differ by position).
    let mut result = lex_file("file".to_string(), "assert: a == 5".to_string()).unwrap();
    assert_eq!(result.len(), 2);
    result.take();
    let payload = match result.take() {
        Some(Token::Pipe(_, payload)) => payload,
        _ => panic!("expected a pipe"),
    };
    let direct = lex_file("file".to_string(), " a == 5".to_string()).unwrap();
    assert_eq!(payload.len(), direct.len());
    let mut p = payload.clone();
    let mut d = direct.clone();
    for _ in 0..3 {
        match (p.take().unwrap(), d.take().unwrap()) {
            (Token::Symbol(_, a), Token::Symbol(_, b)) => assert_eq!(a, b),
            (Token::Special(_, testlang::parser::Special::Equality),
             Token::Special(_, testlang::parser::Special::Equality)) => {}
            (Token::Number(_, a), Token::Number(_, b)) => assert_eq!(a, b),
            _ => assert!(false, "token kinds differ"),
        }
    }
}
