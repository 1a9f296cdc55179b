//! Exercises the lexer and the statement parser.

use confparser::lexer::Lexer;
use confparser::node::Statement;
use confparser::parser::Parser;
use confparser::path::Path;
use confparser::token::Token;
use confparser::token::Type;
use confparser::value::SchemaType;
use confparser::value::Value;
use std::collections::VecDeque;

fn lex_all(input: &str, expected: Vec<Token>) {
    let mut lexer = Lexer::new(input.as_bytes().to_vec());
    for token in expected.into_iter() {
        let result = lexer.next();
        assert!(result.is_ok());
        assert_eq!(result.unwrap(), token);
    }
    let result = lexer.next();
    assert!(result.is_ok());
    assert!(matches!(result.unwrap().ty, Type::EOF));
}

#[test]
fn test_lexer() {
    lex_all("\n", vec![Token::new(1, 1, 1, Type::Return)]);
    lex_all(" ", vec![Token::new(1, 1, 1, Type::Space)]);
    lex_all("  ", vec![Token::new(1, 1, 2, Type::Space)]);
    lex_all(" \t ", vec![Token::new(1, 1, 3, Type::Space)]);
    lex_all(
        " \r \n   ",
        vec![
            Token::new(1, 1, 3, Type::Space),
            Token::new(1, 4, 4, Type::Return),
            Token::new(2, 1, 3, Type::Space),
        ],
    );
    lex_all(".", vec![Token::new(1, 1, 1, Type::Dot)]);
    lex_all("=", vec![Token::new(1, 1, 1, Type::Equal)]);
    lex_all("#", vec![Token::new(1, 1, 1, Type::Comment)]);
    lex_all(";", vec![Token::new(1, 1, 1, Type::Comment)]);
    lex_all("abc", vec![Token::new(1, 1, 3, Type::Ident("abc".to_string()))]);
    lex_all(
        "abc.def",
        vec![
            Token::new(1, 1, 3, Type::Ident("abc".to_string())),
            Token::new(1, 4, 4, Type::Dot),
            Token::new(1, 5, 7, Type::Ident("def".to_string())),
        ],
    );
    lex_all(
        "net.ipv4.conf.default.rp_filter = 1\n",
        vec![
            Token::new(1, 1, 3, Type::Ident("net".to_string())),
            Token::new(1, 4, 4, Type::Dot),
            Token::new(1, 5, 8, Type::Ident("ipv4".to_string())),
            Token::new(1, 9, 9, Type::Dot),
            Token::new(1, 10, 13, Type::Ident("conf".to_string())),
            Token::new(1, 14, 14, Type::Dot),
            Token::new(1, 15, 21, Type::Ident("default".to_string())),
            Token::new(1, 22, 22, Type::Dot),
            Token::new(1, 23, 31, Type::Ident("rp_filter".to_string())),
            Token::new(1, 32, 32, Type::Space),
            Token::new(1, 33, 33, Type::Equal),
            Token::new(1, 34, 34, Type::Space),
            Token::new(1, 35, 35, Type::Ident("1".to_string())),
            Token::new(1, 36, 36, Type::Return),
        ],
    );
    lex_all(
        "endpoint = localhost:3000\n# debug = true",
        vec![
            Token::new(1, 1, 8, Type::Ident("endpoint".to_string())),
            Token::new(1, 9, 9, Type::Space),
            Token::new(1, 10, 10, Type::Equal),
            Token::new(1, 11, 11, Type::Space),
            Token::new(1, 12, 25, Type::Ident("localhost:3000".to_string())),
            Token::new(1, 26, 26, Type::Return),
            Token::new(2, 1, 1, Type::Comment),
            Token::new(2, 2, 2, Type::Space),
            Token::new(2, 3, 7, Type::Ident("debug".to_string())),
            Token::new(2, 8, 8, Type::Space),
            Token::new(2, 9, 9, Type::Equal),
            Token::new(2, 10, 10, Type::Space),
            Token::new(2, 11, 14, Type::Ident("true".to_string())),
        ],
    );
}

#[test]
fn lexer_folds_arrow_into_equal() {
    lex_all(
        "debug -> bool",
        vec![
            Token::new(1, 1, 5, Type::Ident("debug".to_string())),
            Token::new(1, 6, 6, Type::Space),
            Token::new(1, 7, 8, Type::Equal),
            Token::new(1, 9, 9, Type::Space),
            Token::new(1, 10, 13, Type::Ident("bool".to_string())),
        ],
    );
}

fn frags(parts: &[&str]) -> Path {
    Path::from(VecDeque::from(
        parts.iter().map(|p| p.to_string()).collect::<Vec<_>>(),
    ))
}

fn parse_ok(input: &str) -> Vec<Statement<Value>> {
    let mut parser: Parser<Value> = Parser::new(input.as_bytes().to_vec());
    let result = parser.parse();
    assert!(result.is_ok());
    let statements = result.unwrap();
    let again = parser.parse();
    assert!(again.is_ok());
    assert_eq!(again.unwrap(), vec![]);
    statements
}

#[test]
fn test_parse() {
    assert_eq!(
        parse_ok("endpoint = localhost:3000"),
        vec![Statement::new(
            frags(&["endpoint"]),
            Value::from("localhost:3000".to_string()),
        )]
    );
    assert_eq!(
        parse_ok("debug = true"),
        vec![Statement::new(frags(&["debug"]), Value::from("true".to_string()))]
    );
    assert_eq!(
        parse_ok("log.file = /var/log/console.log"),
        vec![Statement::new(
            frags(&["log", "file"]),
            Value::from("/var/log/console.log".to_string()),
        )]
    );
    assert_eq!(parse_ok("# debug = true"), vec![]);
    assert_eq!(
        parse_ok("- debug = true"),
        vec![Statement::new(frags(&["debug"]), Value::from("true".to_string()))]
    );
    assert_eq!(parse_ok("- debug ="), vec![]);
    assert_eq!(
        parse_ok("- debug =\n- debug2 = true\n- debug3 =\n-debug4 = false"),
        vec![
            Statement::new(frags(&["debug2"]), Value::from("true".to_string())),
            Statement::new(frags(&["debug4"]), Value::from("false".to_string())),
        ]
    );
    assert_eq!(
        parse_ok(
            "endpoint = localhost:3000\n# debug = true\nlog.file = /var/log/console.log\nlog.name = default.log"
        ),
        vec![
            Statement::new(
                frags(&["endpoint"]),
                Value::from("localhost:3000".to_string()),
            ),
            Statement::new(
                frags(&["log", "file"]),
                Value::from("/var/log/console.log".to_string()),
            ),
            Statement::new(
                frags(&["log", "name"]),
                Value::from("default.log".to_string()),
            ),
        ]
    );
}

#[test]
fn parse_rejects_missing_value() {
    let mut parser: Parser<Value> = Parser::new(b"debug =".to_vec());
    let result = parser.parse();
    assert!(result.is_err());
    match result.unwrap_err() {
        confparser::parser::Error::SyntaxError(msg, loc) => {
            assert_eq!(msg, "the key could not be read".to_string());
            assert_eq!(loc.line, 1);
            assert_eq!(loc.start, 7);
            assert_eq!(loc.end, 7);
        },
        other => panic!("{:?}", other),
    }
}

#[test]
fn test_parse_schema() {
    let input = "endpoint -> string\n            debug -> bool\n            log.file -> string\n            log.name -> string\n            retry -> integer\n            num -> float";
    let expected = vec![
        Statement::new(frags(&["endpoint"]), SchemaType::String),
        Statement::new(frags(&["debug"]), SchemaType::Boolean),
        Statement::new(frags(&["log", "file"]), SchemaType::String),
        Statement::new(frags(&["log", "name"]), SchemaType::String),
        Statement::new(frags(&["retry"]), SchemaType::Integer),
        Statement::new(frags(&["num"]), SchemaType::Float),
    ];

    let mut parser: Parser<SchemaType> = Parser::new(input.as_bytes().to_vec());
    let result = parser.parse();
    assert!(result.is_ok());
    assert_eq!(result.unwrap(), expected);
}

#[test]
fn round_trip_single_statement() {
    let statements = parse_ok("endpoint = localhost:3000");
    assert_eq!(statements.len(), 1);
    assert_eq!(
        statements[0],
        Statement::new(
            frags(&["endpoint"]),
            Value::String("localhost:3000".to_string()),
        )
    );
}

#[test]
fn best_effort_line_is_dropped_silently() {
    let statements = parse_ok("- debug =\n- debug2 = true");
    assert_eq!(
        statements,
        vec![Statement::new(frags(&["debug2"]), Value::Boolean(true))]
    );
}

#[test]
fn comment_line_contributes_nothing() {
    let statements = parse_ok("endpoint = localhost:3000\n# debug = true");
    assert_eq!(
        statements,
        vec![Statement::new(
            frags(&["endpoint"]),
            Value::String("localhost:3000".to_string()),
        )]
    );
}

#[test]
fn parse_after_exhaustion_is_empty_not_an_error() {
    let mut parser: Parser<Value> = Parser::new(b"a = 1\nb = 2".to_vec());
    assert_eq!(parser.parse().unwrap().len(), 2);
    assert_eq!(parser.parse().unwrap(), vec![]);
    assert_eq!(parser.parse().unwrap(), vec![]);
}

#[test]
fn second_dash_mid_line_joins_the_statement() {
    let mut parser: Parser<Value> = Parser::new(b"- - debug = true".to_vec());
    let result = parser.parse();
    assert!(result.is_ok());
    assert_eq!(result.unwrap(), vec![]);
}

#[test]
fn line_must_start_with_comment_identifier_or_ignore() {
    let mut parser: Parser<Value> = Parser::new(b"= true".to_vec());
    let result = parser.parse();
    assert!(result.is_err());
    match result.unwrap_err() {
        confparser::parser::Error::SyntaxError(msg, loc) => {
            assert_eq!(
                msg,
                "a line can start only with a comment, an identifier or the ignore marker"
                    .to_string()
            );
            assert_eq!(loc.line, 1);
            assert_eq!(loc.start, 1);
        },
        other => panic!("{:?}", other),
    }
}

#[test]
fn invalid_bytes_fail_the_parse() {
    let mut parser: Parser<Value> = Parser::new(vec![b'a', b' ', b'=', b' ', 0xff]);
    let result = parser.parse();
    assert!(result.is_err());
    match result.unwrap_err() {
        confparser::parser::Error::LexerError(msg) => {
            assert_eq!(
                msg,
                "invalid byte (255) at line 1, position 4: a multi-byte sequence may be broken"
                    .to_string()
            );
        },
        other => panic!("{:?}", other),
    }
}

#[test]
fn value_keeps_inner_spaces_and_dots_but_is_trimmed() {
    let statements = parse_ok("log.file =   /var/log . console.log  ");
    assert_eq!(
        statements,
        vec![Statement::new(
            frags(&["log", "file"]),
            Value::String("/var/log . console.log".to_string()),
        )]
    );
}

#[test]
fn lexer_peek_caches_one_token() {
    let mut lexer = Lexer::new(b"abc".to_vec());
    assert!(matches!(
        lexer.peek(),
        Ok(t) if t.ty == Type::Ident("abc".to_string())
    ));
    assert!(matches!(
        lexer.peek(),
        Ok(t) if t.ty == Type::Ident("abc".to_string())
    ));
    let t = lexer.next().unwrap();
    assert_eq!(t, Token::new(1, 1, 3, Type::Ident("abc".to_string())));
    assert!(matches!(lexer.next().unwrap().ty, Type::EOF));
    assert!(matches!(lexer.next().unwrap().ty, Type::EOF));
}

#[test]
fn hash_mid_line_is_part_of_an_identifier() {
    let statements = parse_ok("x#y = 1");
    assert_eq!(
        statements,
        vec![Statement::new(frags(&["x#y"]), Value::Number("1".to_string()))]
    );
}

#[test]
fn arrow_works_in_directive_files_too() {
    let statements = parse_ok("debug -> true");
    assert_eq!(
        statements,
        vec![Statement::new(frags(&["debug"]), Value::Boolean(true))]
    );
}

#[test]
fn consecutive_dots_merge_key_fragments() {
    let statements = parse_ok("a..b = 1");
    assert_eq!(
        statements,
        vec![Statement::new(frags(&["a", "b"]), Value::Number("1".to_string()))]
    );
}

#[test]
fn empty_input_parses_to_nothing() {
    assert_eq!(parse_ok(""), vec![]);
    assert_eq!(parse_ok("

  
"), vec![]);
}
