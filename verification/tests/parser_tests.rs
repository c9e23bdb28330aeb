use std::sync::Arc;

use lib::parser::parser::Parser;
use lib::parser::scanner::Scanner;
use lib::parser::token::Type;
use lib::Value;

fn text(s: &str) -> Arc<String> {
    Arc::new(String::from(s))
}

#[test]
fn test_empty_source() {
    let mut p = Parser::parser_from_str("");
    let next = p.next();
    assert!(next.is_none());
}

#[test]
fn test_integer_constant() {
    let mut p = Parser::parser_from_str("42");
    assert_eq!(Value::Integer(42), p.next().unwrap());
}

#[test]
fn test_float_constant() {
    let mut p = Parser::parser_from_str("3.14");
    assert_eq!(Value::Float(3.14f64.to_bits()), p.next().unwrap());
}

#[test]
fn test_text_constant() {
    let mut p = Parser::parser_from_str("\"a text\"");
    assert_eq!(Value::Text(text("a text")), p.next().unwrap());
}

#[test]
fn test_symbol_with_comment() {
    let mut p = Parser::parser_from_str("; bla fasel\nfoo");
    let symbol = p.next().unwrap();
    // Comment is not considered for equality of symbols
    assert_eq!(Value::Symbol(text("foo"), None), symbol);
    match symbol {
        Value::Symbol(name, comment) => {
            assert_eq!("foo", name.as_str());
            assert_eq!(Some("bla fasel"), comment.as_deref().map(|c| c.as_str()));
        }
        _ => panic!("symbol expected"),
    }
}

#[test]
fn test_unexpected_right_paren() {
    let mut p = Parser::parser_from_str(")");
    assert_eq!(Value::Error(text("unexpected )")), p.next().unwrap());
}

#[test]
fn test_empty_list() {
    let mut p = Parser::parser_from_str("()");
    let value = p.next().unwrap();
    match value {
        Value::List(list) => assert_eq!(0, list.len()),
        _ => panic!("list expected"),
    }
}

fn list_items(value: Value) -> Vec<Value> {
    match value {
        Value::List(list) => {
            let mut items = Vec::new();
            let mut iter = list.iter();
            while let Some(v) = iter.next() {
                items.push(v);
            }
            items
        }
        other => panic!("list expected, got {:?}", other),
    }
}

#[test]
fn nested_lists_parse_in_order() {
    let mut p = Parser::parser_from_str("(1 (2 \"three\") sym) 4");
    let outer = list_items(p.next().unwrap());
    assert_eq!(3, outer.len());
    assert_eq!(Value::Integer(1), outer[0]);
    let inner = list_items(outer[1].clone());
    assert_eq!(vec![Value::Integer(2), Value::Text(text("three"))], inner);
    assert_eq!(Value::Symbol(text("sym"), None), outer[2]);
    assert_eq!(Some(Value::Integer(4)), p.next());
    assert_eq!(None, p.next());
}

#[test]
fn long_list_keeps_all_items() {
    let mut source = String::from("(");
    for i in 0..100 {
        source.push_str(&format!("{} ", i));
    }
    source.push(')');
    let mut p = Parser::parser_from_str(&source);
    let items = list_items(p.next().unwrap());
    assert_eq!(100, items.len());
    for (i, v) in items.iter().enumerate() {
        assert_eq!(Value::Integer(i as i64), *v);
    }
}

#[test]
fn unterminated_list_is_an_error() {
    let mut p = Parser::parser_from_str("(1 2");
    assert_eq!(Value::Error(text("Unexpected end of source in list")), p.next().unwrap());
    assert_eq!(None, p.next());
    let mut p = Parser::parser_from_str("(");
    assert_eq!(Value::Error(text("Unexpected end of source in list")), p.next().unwrap());
}

#[test]
fn stray_paren_stops_the_parser() {
    let mut p = Parser::parser_from_str(") 42");
    assert_eq!(Value::Error(text("unexpected )")), p.next().unwrap());
    assert_eq!(None, p.next());
}

#[test]
fn unscanable_text_inside_a_list_ends_the_list() {
    let mut p = Parser::parser_from_str("(1 99999999999999999999 2)");
    assert_eq!(Value::Error(text("Unexpected end of source in list")), p.next().unwrap());
    assert_eq!(None, p.next());
}

#[test]
fn numbers_scan_to_their_values() {
    let mut p = Parser::parser_from_str(
        "-7 9223372036854775807 -9223372036854775808 0.1 -2.5 0.0 -0.0 1.7976931348623157",
    );
    assert_eq!(Some(Value::Integer(-7)), p.next());
    assert_eq!(Some(Value::Integer(i64::MAX)), p.next());
    assert_eq!(Some(Value::Integer(i64::MIN)), p.next());
    assert_eq!(Some(Value::Float(0.1f64.to_bits())), p.next());
    assert_eq!(Some(Value::Float((-2.5f64).to_bits())), p.next());
    assert_eq!(Some(Value::Float(0.0f64.to_bits())), p.next());
    match p.next() {
        Some(Value::Float(bits)) => assert_eq!((-0.0f64).to_bits(), bits),
        other => panic!("float expected, got {:?}", other),
    }
    assert_eq!(Some(Value::Float(1.7976931348623157f64.to_bits())), p.next());
    assert_eq!(None, p.next());
}

#[test]
fn float_rounding_matches_std() {
    let samples = [
        "0.3", "2.675", "123456.789", "9007199254740993.0", "0.0000000000000000001",
        "18446744073709551.615", "1.0000000000000002", "4.35", "1234567890123456789.0",
        "0.1000000000000000055511151231257827",
    ];
    for s in samples {
        let mut p = Parser::parser_from_str(s);
        let expected: f64 = s.parse().unwrap();
        match p.next() {
            Some(Value::Float(bits)) => assert_eq!(expected.to_bits(), bits, "{}", s),
            Some(Value::Error(m)) => assert_eq!("float out of range", m.as_str(), "{}", s),
            other => panic!("float expected for {}, got {:?}", s, other),
        }
    }
}

#[test]
fn out_of_range_and_malformed_numbers() {
    let mut p = Parser::parser_from_str("9223372036854775808 -9223372036854775809 12abc 1. 1.2.3 -");
    assert_eq!(Some(Value::Error(text("integer out of range"))), p.next());
    let mut p = Parser::parser_from_str("-9223372036854775809");
    assert_eq!(Some(Value::Error(text("integer out of range"))), p.next());
    let mut p = Parser::parser_from_str("12abc");
    assert_eq!(Some(Value::Error(text("malformed number"))), p.next());
    let mut p = Parser::parser_from_str("1.");
    assert_eq!(Some(Value::Error(text("malformed number"))), p.next());
    let mut p = Parser::parser_from_str("1.2.3");
    assert_eq!(Some(Value::Error(text("malformed number"))), p.next());
    let mut p = Parser::parser_from_str("- -x");
    assert_eq!(Some(Value::Symbol(text("-"), None)), p.next());
    assert_eq!(Some(Value::Symbol(text("-x"), None)), p.next());
}

#[test]
fn unterminated_text_is_an_error() {
    let mut p = Parser::parser_from_str("\"abc");
    assert_eq!(Some(Value::Error(text("unterminated text"))), p.next());
    assert_eq!(None, p.next());
}

#[test]
fn comments_join_and_attach_to_the_next_symbol() {
    let mut p = Parser::parser_from_str(";  first  \n; second\r\nname ; dropped\n( other )");
    match p.next() {
        Some(Value::Symbol(name, Some(comment))) => {
            assert_eq!("name", name.as_str());
            assert_eq!("first\nsecond", comment.as_str());
        }
        other => panic!("commented symbol expected, got {:?}", other),
    }
    let items = list_items(p.next().unwrap());
    match &items[0] {
        Value::Symbol(name, None) => assert_eq!("other", name.as_str()),
        other => panic!("symbol without comment expected, got {:?}", other),
    }
}

#[test]
fn scanner_hands_out_tokens_in_order() {
    let mut s = Scanner::from_str("( 'x \"t\" 5)");
    assert!(matches!(s.next().unwrap().t_type, Type::LeftParen));
    assert!(matches!(s.next().unwrap().t_type, Type::Quote));
    match s.next().unwrap().t_type {
        Type::Symbol { value, comment } => {
            assert_eq!("x", value.as_str());
            assert!(comment.is_none());
        }
        _ => panic!("symbol expected"),
    }
    match s.next().unwrap().t_type {
        Type::Text { value } => assert_eq!("t", value.as_str()),
        _ => panic!("text expected"),
    }
    assert!(matches!(s.next().unwrap().t_type, Type::Integer { value: 5 }));
    assert!(matches!(s.next().unwrap().t_type, Type::RightParen));
    assert!(s.next().is_none());
    assert!(s.next().is_none());
}

#[test]
fn from_scanner_fetches_the_first_token() {
    let mut p = Parser::from_scanner(Scanner::from_str("7 8"));
    assert_eq!(Some(Value::Integer(7)), p.next());
    p.fetch_next_token();
    assert_eq!(None, p.next());
}

#[test]
fn quotes_are_found_before_reading() {
    assert!(Parser::parser_from_str("'x").next_reaches_quote());
    assert!(Parser::parser_from_str("(1 (2 'x))").next_reaches_quote());
    assert!(!Parser::parser_from_str("x 'y").next_reaches_quote());
    assert!(!Parser::parser_from_str("(1 2) 'y").next_reaches_quote());
    assert!(!Parser::parser_from_str("(1 ) 'y)").next_reaches_quote());
    assert!(!Parser::parser_from_str("(1 99999999999999999999 'y)").next_reaches_quote());
    assert!(!Parser::parser_from_str("").next_reaches_quote());
    let mut p = Parser::parser_from_str("x 'y");
    assert_eq!(Some(Value::Symbol(text("x"), None)), p.next());
    assert!(p.next_reaches_quote());
}
