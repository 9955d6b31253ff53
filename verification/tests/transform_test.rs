use declarative_dataflow::plan::Function;
use declarative_dataflow::transform::{binds_all, transformed};
use declarative_dataflow::{CollectionRelation, Value};

fn relation(variables: Vec<u32>) -> CollectionRelation {
    CollectionRelation { variables }
}

fn tuple(values: &[i64]) -> Vec<Value> {
    values.iter().map(|value| Value::Number(*value)).collect()
}

fn number(value: i64) -> Option<Value> {
    Some(Value::Number(value))
}

#[test]
fn a_sum_is_that_of_the_variables_and_the_constants() {
    let relation = relation(vec![1, 2, 3]);
    let values = tuple(&[10, 200, 3000]);
    let add = |variables: Vec<u32>, constants: Vec<Option<Value>>| {
        transformed(Function::Add, &variables, &constants, &relation, &values)
    };
    assert_eq!(add(vec![1, 3], vec![]), number(3010));
    assert_eq!(add(vec![2, 2], vec![]), number(400));
    assert_eq!(add(vec![2], vec![None, number(-1), None, number(5)]), number(204));
    assert_eq!(add(vec![], vec![number(7)]), number(7));
    assert_eq!(add(vec![], vec![]), number(0));
    assert_eq!(add(vec![1], vec![Some(Value::Eid(1))]), None);
    assert_eq!(add(vec![1], vec![number(i64::MAX)]), None);
    assert_eq!(add(vec![1], vec![number(i64::MAX - 10)]), number(i64::MAX));
    // the result leaves the range on the way
    assert_eq!(add(vec![1], vec![number(i64::MAX), number(-20)]), None);
}

#[test]
fn a_difference_is_that_of_the_minuend_and_all_the_rest() {
    let relation = relation(vec![1, 2, 3]);
    let values = tuple(&[10, 200, 3000]);
    let subtract = |variables: Vec<u32>, constants: Vec<Option<Value>>| {
        transformed(Function::Subtract, &variables, &constants, &relation, &values)
    };
    assert_eq!(subtract(vec![3, 2, 1], vec![]), number(2790));
    assert_eq!(subtract(vec![3], vec![]), number(3000));
    assert_eq!(subtract(vec![3], vec![None, number(1), number(2)]), number(2997));
    // a constant in front is the minuend
    assert_eq!(subtract(vec![3], vec![number(1)]), number(-2999));
    assert_eq!(subtract(vec![1, 2], vec![number(1), number(5)]), number(-214));
    assert_eq!(subtract(vec![], vec![number(9)]), number(9));
    assert_eq!(subtract(vec![], vec![]), None);
    assert_eq!(subtract(vec![], vec![None, number(1)]), None);
    assert_eq!(subtract(vec![1], vec![Some(Value::Bool(true))]), None);
    assert_eq!(subtract(vec![1], vec![number(i64::MIN)]), None);
    assert_eq!(subtract(vec![1], vec![None, number(i64::MIN)]), None);
}

#[test]
fn an_instant_is_truncated_to_the_hour_or_the_minute() {
    let relation = relation(vec![1, 2]);
    let values = vec![Value::Instant(7_384_005), Value::Number(1)];
    let truncate = |variables: Vec<u32>, constants: Vec<Option<Value>>| {
        transformed(Function::Truncate, &variables, &constants, &relation, &values)
    };
    let interval = |name: &str| Some(Value::String(name.to_string()));
    assert_eq!(truncate(vec![1], vec![]), Some(Value::Instant(7_200_000)));
    assert_eq!(
        truncate(vec![1], vec![None, interval(":hour")]),
        Some(Value::Instant(7_200_000))
    );
    assert_eq!(
        truncate(vec![1], vec![None, interval(":minute")]),
        Some(Value::Instant(7_380_000))
    );
    assert_eq!(truncate(vec![1, 2], vec![None, None]), Some(Value::Instant(7_200_000)));
    assert_eq!(truncate(vec![1], vec![None, interval(":day")]), None);
    assert_eq!(truncate(vec![1], vec![None, number(60)]), None);
    assert_eq!(truncate(vec![2], vec![]), None);
    assert_eq!(truncate(vec![], vec![]), None);

    let early = vec![Value::Instant(59_999), Value::Number(1)];
    assert_eq!(
        transformed(
            Function::Truncate,
            &vec![1],
            &vec![None, interval(":minute")],
            &relation,
            &early
        ),
        Some(Value::Instant(0))
    );
}

#[test]
fn a_function_needs_its_variables_in_the_relation() {
    let relation = relation(vec![1, 2]);
    assert!(binds_all(&vec![], &relation));
    assert!(binds_all(&vec![2, 1, 2], &relation));
    assert!(!binds_all(&vec![2, 3], &relation));
    assert!(!binds_all(&vec![0], &relation));
}
