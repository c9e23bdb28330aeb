use std::sync::Arc;

use lib::float::float_bits_eq;
use lib::{FlError, FlList, Value};

fn text(s: &str) -> Arc<String> {
    Arc::new(String::from(s))
}

#[test]
fn float_equality_is_ieee_equality() {
    let samples = [
        0.0f64,
        -0.0,
        1.0,
        -1.0,
        3.14,
        f64::MIN_POSITIVE,
        f64::MAX,
        f64::INFINITY,
        f64::NEG_INFINITY,
        f64::NAN,
        -f64::NAN,
        f64::from_bits(0x7ff0_0000_0000_0001),
        f64::from_bits(1),
    ];
    for a in samples {
        for b in samples {
            assert_eq!(a == b, float_bits_eq(a.to_bits(), b.to_bits()), "{} {}", a, b);
            assert_eq!(a == b, Value::Float(a.to_bits()) == Value::Float(b.to_bits()));
        }
    }
}

#[test]
fn symbols_compare_by_name_only() {
    let a = Value::Symbol(text("foo"), Some(text("one comment")));
    let b = Value::Symbol(text("foo"), None);
    let c = Value::Symbol(text("bar"), Some(text("one comment")));
    assert_eq!(a, b);
    assert_eq!(b, a);
    assert_ne!(a, c);
}

#[test]
fn equality_by_kind() {
    assert_eq!(Value::Nil, Value::Nil);
    assert_eq!(Value::Integer(7), Value::Integer(7));
    assert_ne!(Value::Integer(7), Value::Integer(8));
    assert_eq!(Value::Text(text("t")), Value::Text(text("t")));
    assert_ne!(Value::Text(text("t")), Value::Symbol(text("t"), None));
    assert_eq!(Value::Error(text("e")), Value::Error(text("e")));
    assert_ne!(Value::Error(text("e")), Value::Error(text("f")));
    assert_ne!(Value::Integer(1), Value::Float(1.0f64.to_bits()));
    let list = FlList::from_value(Value::Nil);
    assert_ne!(Value::List(list.clone()), Value::List(list));
    assert_ne!(Value::Mapping(), Value::Mapping());
    assert_ne!(Value::Object(), Value::Object());
    assert_ne!(Value::Function(), Value::Function());
}

#[test]
fn clone_keeps_the_value() {
    let values = vec![
        Value::Nil,
        Value::Integer(-3),
        Value::Float(2.5f64.to_bits()),
        Value::Symbol(text("s"), Some(text("c"))),
        Value::Text(text("x")),
        Value::Error(text("bad")),
    ];
    for v in values {
        assert_eq!(v, v.clone());
    }
    let list = Value::List(FlList::from_pair(Value::Integer(1), Value::Integer(2)));
    match list.clone() {
        Value::List(l) => {
            assert_eq!(2, l.len());
            assert_eq!(Value::Integer(2), l.get(1).unwrap());
        }
        _ => panic!("list expected"),
    }
}

#[test]
fn error_messages_and_display_text() {
    let e = FlError::new("boom");
    assert_eq!("TODO boom", e.display_text());
    let shared = text("shared message");
    let e2 = FlError::new_arc(Arc::clone(&shared));
    assert_eq!("TODO shared message", e2.display_text());
    assert_eq!(FlError::new("shared message"), e2);
}
