use declarative_dataflow::aggregate::{aggregate, arrange, rational, total, Term};
use declarative_dataflow::plan::AggregationFn;
use declarative_dataflow::value::Rational32;
use declarative_dataflow::Value;

fn numbers(group: &[(i64, i64)]) -> Vec<(Value, i64)> {
    group
        .iter()
        .map(|(number, count)| (Value::Number(*number), *count))
        .collect()
}

fn ratio(numer: i32, denom: i32) -> Option<Value> {
    Some(Value::Rational32(Rational32 { numer, denom }))
}

#[test]
fn the_least_is_first_and_the_greatest_last() {
    let group = numbers(&[(-5, 2), (1, 1), (7, 3), (9, 1)]);
    assert_eq!(aggregate(AggregationFn::Min, &group), Some(Value::Number(-5)));
    assert_eq!(aggregate(AggregationFn::Max, &group), Some(Value::Number(9)));
    assert_eq!(aggregate(AggregationFn::Median, &group), Some(Value::Number(7)));

    let names = vec![
        (Value::String("a".to_string()), 1),
        (Value::String("b".to_string()), 1),
        (Value::String("c".to_string()), 1),
    ];
    assert_eq!(
        aggregate(AggregationFn::Min, &names),
        Some(Value::String("a".to_string()))
    );
    assert_eq!(
        aggregate(AggregationFn::Median, &names),
        Some(Value::String("b".to_string()))
    );
    assert_eq!(
        aggregate(AggregationFn::Max, &names),
        Some(Value::String("c".to_string()))
    );

    let one = numbers(&[(4, 9)]);
    assert_eq!(aggregate(AggregationFn::Min, &one), Some(Value::Number(4)));
    assert_eq!(aggregate(AggregationFn::Median, &one), Some(Value::Number(4)));
    assert_eq!(aggregate(AggregationFn::Max, &one), Some(Value::Number(4)));
}

#[test]
fn an_empty_group_has_no_least_value_and_no_average() {
    let group = vec![];
    assert_eq!(aggregate(AggregationFn::Min, &group), None);
    assert_eq!(aggregate(AggregationFn::Max, &group), None);
    assert_eq!(aggregate(AggregationFn::Median, &group), None);
    assert_eq!(aggregate(AggregationFn::Count, &group), Some(Value::Number(0)));
    assert_eq!(aggregate(AggregationFn::Sum, &group), Some(Value::Number(0)));
    assert_eq!(aggregate(AggregationFn::Avg, &group), None);
    assert_eq!(aggregate(AggregationFn::Variance, &group), None);
}

#[test]
fn values_count_as_often_as_they_occur() {
    let group = numbers(&[(-5, 2), (1, 1), (7, 3)]);
    assert_eq!(aggregate(AggregationFn::Count, &group), Some(Value::Number(6)));
    assert_eq!(aggregate(AggregationFn::Sum, &group), Some(Value::Number(12)));
    assert_eq!(total(Term::Count, &group), Some(6));
    assert_eq!(total(Term::Sum, &group), Some(12));
    assert_eq!(total(Term::Squares, &group), Some(50 + 1 + 147));

    // anything can be counted, numbers alone are added up
    let mixed = vec![(Value::Bool(true), 2), (Value::Number(3), 1)];
    assert_eq!(aggregate(AggregationFn::Count, &mixed), Some(Value::Number(3)));
    assert_eq!(aggregate(AggregationFn::Sum, &mixed), None);
    assert_eq!(aggregate(AggregationFn::Avg, &mixed), None);
    assert_eq!(total(Term::Squares, &mixed), None);
}

#[test]
fn totals_stay_within_the_numbers() {
    assert_eq!(total(Term::Sum, &numbers(&[(i64::MAX, 1)])), Some(i64::MAX));
    assert_eq!(total(Term::Sum, &numbers(&[(i64::MAX, 1), (1, 1)])), None);
    assert_eq!(total(Term::Sum, &numbers(&[(i64::MAX, 2)])), None);
    assert_eq!(total(Term::Sum, &numbers(&[(i64::MAX, 1), (1, 1), (-5, 1)])), None);
    assert_eq!(total(Term::Count, &numbers(&[(0, i64::MAX), (0, 1)])), None);
    assert_eq!(total(Term::Squares, &numbers(&[(1 << 32, 1)])), None);
    assert_eq!(total(Term::Squares, &numbers(&[(1 << 31, 1)])), Some(1 << 62));
}

#[test]
fn the_average_is_a_rational_in_lowest_terms() {
    assert_eq!(
        aggregate(AggregationFn::Avg, &numbers(&[(-5, 2), (1, 1), (7, 3)])),
        ratio(2, 1)
    );
    assert_eq!(aggregate(AggregationFn::Avg, &numbers(&[(1, 1), (2, 1)])), ratio(3, 2));
    assert_eq!(aggregate(AggregationFn::Avg, &numbers(&[(-1, 4), (0, 2)])), ratio(-2, 3));
    assert_eq!(aggregate(AggregationFn::Avg, &numbers(&[(0, 5)])), ratio(0, 1));
    assert_eq!(aggregate(AggregationFn::Avg, &numbers(&[(6, 4)])), ratio(6, 1));
    // the terms are integers of 32 bits
    assert_eq!(aggregate(AggregationFn::Avg, &numbers(&[(1 << 31, 1)])), None);
    assert_eq!(
        aggregate(AggregationFn::Avg, &numbers(&[(1 << 31, 2)])),
        None
    );
    assert_eq!(
        aggregate(AggregationFn::Avg, &numbers(&[((1 << 31) - 1, 1)])),
        ratio(i32::MAX, 1)
    );
    assert_eq!(
        aggregate(AggregationFn::Avg, &numbers(&[(1 << 32, 1), (0, 3)])),
        ratio(1 << 30, 1)
    );
}

#[test]
fn the_variance_is_the_mean_of_the_squares_less_the_square_of_the_mean() {
    // 1, 2, 3, 4: the mean is 5/2, the mean of the squares 15/2
    assert_eq!(
        aggregate(
            AggregationFn::Variance,
            &numbers(&[(1, 1), (2, 1), (3, 1), (4, 1)])
        ),
        ratio(5, 4)
    );
    assert_eq!(aggregate(AggregationFn::Variance, &numbers(&[(3, 7)])), ratio(0, 1));
    // -5, -5, 1, 7, 7, 7: the mean is 2, the mean of the squares 33
    assert_eq!(
        aggregate(AggregationFn::Variance, &numbers(&[(-5, 2), (1, 1), (7, 3)])),
        ratio(29, 1)
    );
    assert_eq!(
        aggregate(AggregationFn::Variance, &numbers(&[(0, 1), (1, 1)])),
        ratio(1, 4)
    );
}

#[test]
fn a_fraction_is_a_value_when_its_terms_are_small() {
    assert_eq!(rational((3, 4)), ratio(3, 4));
    assert_eq!(rational((-7, 1)), ratio(-7, 1));
    assert_eq!(rational((i32::MIN as i64, i32::MAX as i64)), ratio(i32::MIN, i32::MAX));
    assert_eq!(rational((i32::MAX as i64 + 1, 1)), None);
    assert_eq!(rational((i32::MIN as i64 - 1, 1)), None);
    assert_eq!(rational((1, i32::MAX as i64 + 1)), None);
}

#[test]
fn keys_and_aggregates_stand_where_their_variables_do() {
    let key = vec![Value::Eid(1), Value::Eid(2)];
    let aggregates = vec![Value::Number(10), Value::Number(20)];
    // the variables 5 and 6 are the key's
    assert_eq!(
        arrange(&vec![5, 6, 7, 8], &vec![5, 6], &key, &aggregates),
        vec![Value::Eid(1), Value::Eid(2), Value::Number(10), Value::Number(20)]
    );
    assert_eq!(
        arrange(&vec![7, 6, 8, 5], &vec![5, 6], &key, &aggregates),
        vec![Value::Number(10), Value::Eid(2), Value::Number(20), Value::Eid(1)]
    );
    assert_eq!(
        arrange(&vec![6, 7, 7], &vec![5, 6], &key, &aggregates),
        vec![Value::Eid(2), Value::Number(10), Value::Number(20)]
    );
    assert_eq!(
        arrange(&vec![9, 8], &vec![], &vec![], &aggregates),
        vec![Value::Number(10), Value::Number(20)]
    );
    assert_eq!(arrange(&vec![6, 5, 6], &vec![5, 6], &key, &vec![]), vec![
        Value::Eid(2),
        Value::Eid(1),
        Value::Eid(2)
    ]);
    assert!(arrange(&vec![], &vec![5, 6], &key, &vec![]).is_empty());
}
