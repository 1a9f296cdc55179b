//! Exercises value inference, schema checks, and the evaluator.

use confparser::node::Error;
use confparser::node::Schema;
use confparser::node::Statement;
use confparser::parser::Parser;
use confparser::path::Path;
use confparser::value::SchemaType;
use confparser::value::Value;
use std::collections::VecDeque;

fn frags(parts: &[&str]) -> Path {
    Path::from(VecDeque::from(
        parts.iter().map(|p| p.to_string()).collect::<Vec<_>>(),
    ))
}

fn obj(entries: Vec<(&str, Value)>) -> Value {
    Value::Object(
        entries
            .into_iter()
            .map(|(k, v)| (k.to_string(), v))
            .collect(),
    )
}

#[test]
fn test_value_from() {
    assert_eq!(
        Value::from("Hello, \u{4e16}\u{754c}".to_string()),
        Value::String("Hello, \u{4e16}\u{754c}".to_string())
    );
    assert_eq!(Value::from("42".to_string()), Value::Number("42".to_string()));
    assert_eq!(Value::from("-123".to_string()), Value::Number("-123".to_string()));
    assert_eq!(
        Value::from("3.14159".to_string()),
        Value::Number("3.14159".to_string())
    );
    assert_eq!(
        Value::from("1.23e4".to_string()),
        Value::Number("1.23e4".to_string())
    );
    assert_eq!(Value::from("true".to_string()), Value::Boolean(true));
    assert_eq!(Value::from("false".to_string()), Value::Boolean(false));
    assert_eq!(Value::from("null".to_string()), Value::String("null".to_string()));
}

#[test]
fn number_grammar_edges() {
    assert_eq!(Value::from("1e-5".to_string()), Value::Number("1e-5".to_string()));
    assert_eq!(Value::from(".5".to_string()), Value::Number(".5".to_string()));
    assert_eq!(Value::from("5.".to_string()), Value::Number("5.".to_string()));
    assert_eq!(Value::from("-".to_string()), Value::String("-".to_string()));
    assert_eq!(Value::from(".".to_string()), Value::String(".".to_string()));
    assert_eq!(Value::from("1.2.3".to_string()), Value::String("1.2.3".to_string()));
    assert_eq!(Value::from("1-2".to_string()), Value::String("1-2".to_string()));
    assert_eq!(Value::from("1e".to_string()), Value::String("1e".to_string()));
    assert_eq!(Value::from("e5".to_string()), Value::String("e5".to_string()));
    assert_eq!(Value::from("--1".to_string()), Value::String("--1".to_string()));
    assert_eq!(Value::from("".to_string()), Value::String("".to_string()));
    assert_eq!(Value::from("1E2".to_string()), Value::Number("1E2".to_string()));
}

#[test]
fn test_evaluate() {
    let result = Statement::evaluate(
        vec![Statement::new(frags(&["foo"]), Value::from("123".to_string()))],
        None,
    );
    assert_eq!(
        result.unwrap(),
        obj(vec![("foo", Value::Number("123".to_string()))])
    );

    let result = Statement::evaluate(
        vec![Statement::new(
            frags(&["foo", "bar"]),
            Value::from("123".to_string()),
        )],
        None,
    );
    assert_eq!(
        result.unwrap(),
        obj(vec![("foo", obj(vec![("bar", Value::Number("123".to_string()))]))])
    );

    let result = Statement::evaluate(
        vec![
            Statement::new(frags(&["foo", "bar"]), Value::from("123".to_string())),
            Statement::new(frags(&["foo", "baz"]), Value::from("456".to_string())),
        ],
        None,
    );
    assert_eq!(
        result.unwrap(),
        obj(vec![(
            "foo",
            obj(vec![
                ("bar", Value::Number("123".to_string())),
                ("baz", Value::Number("456".to_string())),
            ]),
        )])
    );

    let result = Statement::evaluate(
        vec![
            Statement::new(frags(&["foo", "bar"]), Value::from("123".to_string())),
            Statement::new(frags(&["foo", "baz"]), Value::from("456".to_string())),
            Statement::new(
                frags(&["foo", "hoge", "fuga"]),
                Value::from("789".to_string()),
            ),
        ],
        None,
    );
    assert_eq!(
        result.unwrap(),
        obj(vec![(
            "foo",
            obj(vec![
                ("bar", Value::Number("123".to_string())),
                ("baz", Value::Number("456".to_string())),
                ("hoge", obj(vec![("fuga", Value::Number("789".to_string()))])),
            ]),
        )])
    );
}

#[test]
fn conflict_detection_names_the_dotted_key() {
    let result = Statement::evaluate(
        vec![
            Statement::new(frags(&["foo"]), Value::from("456".to_string())),
            Statement::new(frags(&["foo", "bar"]), Value::from("123".to_string())),
        ],
        None,
    );
    assert!(result.is_err());
    match result.unwrap_err() {
        Error::ObjectOverride(key) => assert_eq!(key, "foo.bar".to_string()),
        other => panic!("{:?}", other),
    }
}

#[test]
fn duplicate_full_path_overwrites() {
    let result = Statement::evaluate(
        vec![
            Statement::new(frags(&["foo"]), Value::from("1".to_string())),
            Statement::new(frags(&["foo"]), Value::from("2".to_string())),
        ],
        None,
    );
    assert_eq!(result.unwrap(), obj(vec![("foo", Value::Number("2".to_string()))]));
}

#[test]
fn nesting_builds_nested_objects() {
    let mut parser: Parser<Value> = Parser::new(b"log.file = /var/log/console.log".to_vec());
    let statements = parser.parse().unwrap();
    let result = Statement::evaluate(statements, None).unwrap();
    assert_eq!(
        result,
        obj(vec![(
            "log",
            obj(vec![("file", Value::String("/var/log/console.log".to_string()))]),
        )])
    );
    assert_eq!(
        result.format(),
        "{\n  \"log\": {\n    \"file\": \"/var/log/console.log\"\n  }\n}".to_string()
    );
}

#[test]
fn schema_enforcement_mismatch_and_match() {
    let mut schema = Schema::new();
    schema.insert(frags(&["endpoint"]), SchemaType::Boolean);
    let result = Statement::evaluate(
        vec![Statement::new(
            frags(&["endpoint"]),
            Value::from("localhost:3000".to_string()),
        )],
        Some(schema),
    );
    assert!(result.is_err());
    match result.unwrap_err() {
        Error::MismatchedType(msg) => {
            assert_eq!(
                msg,
                "`endpoint` is declared as type `bool` but `\"localhost:3000\"` cannot be read as `bool`"
                    .to_string()
            );
        },
        other => panic!("{:?}", other),
    }

    let mut schema = Schema::new();
    schema.insert(frags(&["endpoint"]), SchemaType::String);
    let result = Statement::evaluate(
        vec![Statement::new(
            frags(&["endpoint"]),
            Value::from("localhost:3000".to_string()),
        )],
        Some(schema),
    );
    assert_eq!(
        result.unwrap(),
        obj(vec![("endpoint", Value::String("localhost:3000".to_string()))])
    );
}

#[test]
fn paths_absent_from_the_schema_are_accepted() {
    let mut schema = Schema::new();
    schema.insert(frags(&["debug"]), SchemaType::Boolean);
    let result = Statement::evaluate(
        vec![Statement::new(
            frags(&["endpoint"]),
            Value::from("localhost:3000".to_string()),
        )],
        Some(schema),
    );
    assert_eq!(
        result.unwrap(),
        obj(vec![("endpoint", Value::String("localhost:3000".to_string()))])
    );
}

#[test]
fn schema_integer_uses_the_textual_heuristic() {
    let mut schema = Schema::new();
    schema.insert(frags(&["retry"]), SchemaType::Integer);
    let ok = Statement::evaluate(
        vec![Statement::new(frags(&["retry"]), Value::from("12".to_string()))],
        Some(schema),
    );
    assert_eq!(ok.unwrap(), obj(vec![("retry", Value::Number("12".to_string()))]));

    let mut schema = Schema::new();
    schema.insert(frags(&["retry"]), SchemaType::Integer);
    let big = Statement::evaluate(
        vec![Statement::new(
            frags(&["retry"]),
            Value::from("9223372036854775808".to_string()),
        )],
        Some(schema),
    );
    assert!(big.is_err());

    let mut schema = Schema::new();
    schema.insert(frags(&["retry"]), SchemaType::Integer);
    let max = Statement::evaluate(
        vec![Statement::new(
            frags(&["retry"]),
            Value::from("9223372036854775807".to_string()),
        )],
        Some(schema),
    );
    assert!(max.is_ok());

    let mut schema = Schema::new();
    schema.insert(frags(&["retry"]), SchemaType::Integer);
    let fractional = Statement::evaluate(
        vec![Statement::new(
            frags(&["retry"]),
            Value::from("3.0".to_string()),
        )],
        Some(schema),
    );
    assert!(fractional.is_err());

    let mut schema = Schema::new();
    schema.insert(frags(&["num"]), SchemaType::Float);
    let f = Statement::evaluate(
        vec![Statement::new(frags(&["num"]), Value::from("1.5".to_string()))],
        Some(schema),
    );
    assert_eq!(f.unwrap(), obj(vec![("num", Value::Number("1.5".to_string()))]));
}

#[test]
fn schema_type_names() {
    assert_eq!(SchemaType::from("integer".to_string()), SchemaType::Integer);
    assert_eq!(SchemaType::from("bool".to_string()), SchemaType::Boolean);
    assert_eq!(SchemaType::from("float".to_string()), SchemaType::Float);
    assert_eq!(SchemaType::from("string".to_string()), SchemaType::String);
    assert_eq!(SchemaType::from("anything".to_string()), SchemaType::String);
    assert_eq!(SchemaType::Integer.format(), "integer".to_string());
    assert_eq!(SchemaType::Boolean.format(), "bool".to_string());
    assert_eq!(SchemaType::Float.format(), "float".to_string());
    assert_eq!(SchemaType::String.format(), "string".to_string());
}

#[test]
fn schema_from_statements_keeps_the_last_binding() {
    let schema = Schema::from_statements(vec![
        Statement::new(frags(&["debug"]), SchemaType::String),
        Statement::new(frags(&["debug"]), SchemaType::Boolean),
    ]);
    let result = Statement::evaluate(
        vec![Statement::new(frags(&["debug"]), Value::from("yes".to_string()))],
        Some(schema),
    );
    assert!(result.is_err());
}

#[test]
fn format_renders_each_leaf_kind() {
    assert_eq!(
        Value::String("a b".to_string()).format(),
        "\"a b\"".to_string()
    );
    assert_eq!(Value::Number("1.23e4".to_string()).format(), "1.23e4".to_string());
    assert_eq!(Value::Boolean(true).format(), "true".to_string());
    assert_eq!(Value::Boolean(false).format(), "false".to_string());
    assert_eq!(Value::Object(vec![]).format(), "{\n\n}".to_string());
}

#[test]
fn path_renders_dotted() {
    let p = frags(&["log", "file"]);
    assert_eq!(p.to_string(), "log.file".to_string());
    let single = frags(&["endpoint"]);
    assert_eq!(single.to_string(), "endpoint".to_string());
    let empty = Path::new();
    assert_eq!(empty.to_string(), "".to_string());
}

#[test]
fn full_pipeline_with_schema() {
    let schema_text = "endpoint -> string\ndebug -> bool\nlog.file -> string\nretry -> integer";
    let mut schema_parser: Parser<SchemaType> = Parser::new(schema_text.as_bytes().to_vec());
    let schema = Schema::from_statements(schema_parser.parse().unwrap());

    let conf = "endpoint = localhost:3000\ndebug = true\nlog.file = /var/log/console.log\nretry = 5";
    let mut parser: Parser<Value> = Parser::new(conf.as_bytes().to_vec());
    let statements = parser.parse().unwrap();
    let result = Statement::evaluate(statements, Some(schema)).unwrap();
    assert_eq!(
        result,
        obj(vec![
            ("endpoint", Value::String("localhost:3000".to_string())),
            ("debug", Value::Boolean(true)),
            (
                "log",
                obj(vec![("file", Value::String("/var/log/console.log".to_string()))]),
            ),
            ("retry", Value::Number("5".to_string())),
        ])
    );
}

#[test]
fn format_joins_entries_with_comma_and_break() {
    let v = obj(vec![
        ("a", Value::Number("1".to_string())),
        ("b", Value::Boolean(false)),
    ]);
    assert_eq!(v.format(), "{\n  \"a\": 1,\n  \"b\": false\n}".to_string());
}
