use declarative_dataflow::error::{decimal_text, frame, Error};
use declarative_dataflow::value::{clone_tuple, Rational32};
use declarative_dataflow::{Datom, TxData, Value};

#[test]
fn values_of_one_variant_and_content_are_the_same() {
    let values = vec![
        Value::Aid("name".to_string()),
        Value::String("name".to_string()),
        Value::Bool(true),
        Value::Number(-7),
        Value::Rational32(Rational32 { numer: 1, denom: 2 }),
        Value::Eid(7),
        Value::Instant(7),
        Value::Uuid([3; 16]),
        Value::Address(vec![0, 1, 2]),
    ];
    for (i, left) in values.iter().enumerate() {
        for (j, right) in values.iter().enumerate() {
            assert_eq!(left.same(right), i == j);
            assert_eq!(left == right, i == j);
        }
    }
}

#[test]
fn values_differ_by_content() {
    assert!(!Value::Aid("a".to_string()).same(&Value::Aid("b".to_string())));
    assert!(!Value::Number(1).same(&Value::Number(2)));
    assert!(!Value::Bool(true).same(&Value::Bool(false)));
    assert!(!Value::Eid(1).same(&Value::Instant(1)));
    let mut uuid = [0u8; 16];
    uuid[15] = 1;
    assert!(!Value::Uuid([0; 16]).same(&Value::Uuid(uuid)));
    assert!(!Value::Address(vec![1, 2]).same(&Value::Address(vec![1, 2, 3])));
    assert!(!Value::Address(vec![1, 2]).same(&Value::Address(vec![1, 3])));
    assert!(
        !Value::Rational32(Rational32 { numer: 1, denom: 2 })
            .same(&Value::Rational32(Rational32 { numer: 2, denom: 4 }))
    );
}

#[test]
fn a_clone_is_the_same_value() {
    let values = vec![
        Value::Aid("name".to_string()),
        Value::String("Dipper".to_string()),
        Value::Uuid([9; 16]),
        Value::Address(vec![4, 5]),
        Value::Number(i64::MIN),
    ];
    for value in values.iter() {
        assert_eq!(&value.clone(), value);
    }
    assert_eq!(clone_tuple(&values), values);
}

#[test]
fn records_compare_by_field() {
    let a = TxData(1, 100, "name".to_string(), Value::Number(1));
    let b = TxData(-1, 100, "name".to_string(), Value::Number(1));
    assert_ne!(a, b);
    assert_eq!(a.clone(), a);
    assert_eq!(
        Datom(1, "a".to_string(), Value::Bool(true)),
        Datom(1, "a".to_string(), Value::Bool(true))
    );
}

#[test]
fn errors_carry_their_category() {
    let error = Error::not_found("gone".to_string());
    assert_eq!(error.category, "df.error.category/not-found");
    assert_eq!(error.message, "gone");
    assert_eq!(
        Error::conflict("twice".to_string()).category,
        "df.error.category/conflict"
    );
    assert_eq!(
        Error::incorrect("bad".to_string()).category,
        "df.error.category/incorrect"
    );
    assert_eq!(
        Error::unsupported("no".to_string()).category,
        "df.error.category/unsupported"
    );
}

#[test]
fn texts_are_framed() {
    assert_eq!(frame("Unknown rule ", "reach", "."), "Unknown rule reach.");
    assert_eq!(frame("", "", ""), "");
}

#[test]
fn numbers_are_written_in_decimal() {
    assert_eq!(decimal_text(0), "0");
    assert_eq!(decimal_text(7), "7");
    assert_eq!(decimal_text(10), "10");
    assert_eq!(decimal_text(1234567890), "1234567890");
    assert_eq!(decimal_text(u64::MAX), "18446744073709551615");
}
