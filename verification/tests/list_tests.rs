use std::sync::Arc;

use lib::{FlList, Value};

fn create_vec(from: usize, to: usize) -> Vec<Value> {
    let mut values: Vec<Value> = Vec::new();
    for i in from..to {
        values.push(Value::Integer(i as i64));
    }
    values
}

fn create(from: usize, to: usize) -> FlList {
    FlList::from_values(create_vec(from, to))
}

/// The list holds the integers `from .. to`, in order.
fn verify(list: &FlList, from: i64, to: i64) {
    assert_eq!((to - from) as usize, list.len());
    for i in 0..(to - from) {
        assert_eq!(Value::Integer(from + i), list.get(i as isize).unwrap());
    }
    let mut iter = list.iter();
    for i in from..to {
        assert_eq!(Some(Value::Integer(i)), iter.next());
    }
    assert_eq!(None, iter.next());
}

#[test]
fn test_empty_has_len_0_and_get_fails() {
    let list = FlList::empty();
    assert_eq!(0, list.len());
    let result = list.get(0);
    assert!(result.is_err());
}

#[test]
fn test_get_with_negative_index_fails() {
    let list = FlList::from_value(Value::Integer(42));
    let result = list.get(-1);
    assert!(result.is_err());
}

#[test]
fn test_get_with_index_out_of_bounds_fails() {
    let list = FlList::from_value(Value::Integer(42));
    let result = list.get(1);
    assert!(result.is_err());
}

#[test]
fn test_get_first() {
    let list = FlList::from_value(Value::Integer(42));
    let value = list.get(0).unwrap();
    assert_eq!(Value::Integer(42), value);
}

#[test]
fn test_empty_has_size_0() {
    assert_eq!(0, FlList::empty().len());
}

#[test]
fn test_from_value_has_size_1() {
    let list = FlList::from_value(Value::Integer(42));
    assert_eq!(1, list.len());
    match list.get(0).unwrap() {
        Value::Integer(i) => assert_eq!(42, i),
        _ => panic!("should be Integer"),
    }
}

#[test]
fn test_from_pair() {
    let list = FlList::from_pair(Value::Integer(1), Value::Integer(2));
    verify(&list, 1, 3);
}

#[test]
fn test_from_value_vec() {
    let list = FlList::from_values(create_vec(0, 10));
    assert_eq!(list.len(), 10);
    verify(&list, 0, 10);
}

#[test]
fn test_clone() {
    let list = FlList::from_value(Value::Integer(42));
    assert_eq!(1, list.bucket_handles());
    {
        let cloned = list.clone();
        assert_eq!(list.len(), cloned.len());
        assert_eq!(2, list.bucket_handles());
        assert!(list.shares_buckets(&cloned));
    }
    assert_eq!(1, list.bucket_handles());
}

#[test]
fn get_error_messages() {
    let empty = FlList::empty();
    assert_eq!("TODO get on empty list", empty.get(3).unwrap_err().display_text());
    let list = create(0, 5);
    assert_eq!("TODO negative index: -17", list.get(-17).unwrap_err().display_text());
    assert_eq!(
        "TODO negative index: -9223372036854775808",
        list.get(isize::MIN).unwrap_err().display_text()
    );
    assert_eq!("TODO index >= size", list.get(5).unwrap_err().display_text());
    assert_eq!("TODO index >= size", list.get(isize::MAX).unwrap_err().display_text());
}

#[test]
fn from_values_reads_back_in_order_across_buckets() {
    for n in [0usize, 1, 2, 11, 12, 13, 59, 60, 61, 300] {
        let list = create(100, 100 + n);
        verify(&list, 100, 100 + n as i64);
    }
}

#[test]
fn bucket_sizes_follow_the_plan() {
    assert_eq!(vec![1], FlList::compute_bucket_sizes(1));
    assert_eq!(vec![12], FlList::compute_bucket_sizes(12));
    assert_eq!(vec![4, 5, 4], FlList::compute_bucket_sizes(13));
    assert_eq!(vec![4, 52, 4], FlList::compute_bucket_sizes(60));
    assert_eq!(vec![4, 16, 21, 16, 4], FlList::compute_bucket_sizes(61));
    assert_eq!(vec![4, 16, 212, 16, 4], FlList::compute_bucket_sizes(252));
    assert_eq!(vec![4, 16, 64, 85, 64, 16, 4], FlList::compute_bucket_sizes(253));
    for n in 1..2000usize {
        let sizes = FlList::compute_bucket_sizes(n);
        assert_eq!(n, sizes.iter().sum::<usize>());
        assert!(sizes.iter().all(|&s| s > 0));
        assert_eq!(1, sizes.len() % 2);
    }
}

#[test]
fn nil_values_are_nil() {
    let values = FlList::nil_values(3);
    assert_eq!(3, values.len());
    assert!(values.iter().all(|v| *v == Value::Nil));
    assert_eq!(0, FlList::nil_values(0).len());
}

#[test]
fn clone_reads_the_same() {
    let list = create(0, 20);
    let copy = list.clone();
    assert!(copy.shares_buckets(&list));
    verify(&copy, 0, 20);
    let rebuilt = create(0, 20);
    assert!(!rebuilt.shares_buckets(&list));
    assert_eq!(1, rebuilt.bucket_handles());
}

#[test]
fn iterator_on_empty_list_is_done() {
    let list = FlList::empty();
    let mut iter = list.iter();
    assert_eq!(None, iter.next());
    assert_eq!(None, iter.next());
}

#[test]
fn values_of_a_list_are_shared_not_copied() {
    let text = Arc::new(String::from("shared"));
    let list = FlList::from_value(Value::Text(Arc::clone(&text)));
    let got = list.get(0).unwrap();
    match got {
        Value::Text(t) => assert!(Arc::ptr_eq(&t, &text)),
        _ => panic!("text expected"),
    }
}
