use declarative_dataflow::filter::{can_apply, operands, Order};
use declarative_dataflow::plan::Predicate;
use declarative_dataflow::{CollectionRelation, Value};

fn relation(variables: Vec<u32>) -> CollectionRelation {
    CollectionRelation { variables }
}

fn tuple(values: &[i64]) -> Vec<Value> {
    values.iter().map(|value| Value::Number(*value)).collect()
}

#[test]
fn predicates_hold_as_their_names_say() {
    let orders = [Order::Less, Order::Equal, Order::Greater];
    let table = [
        (Predicate::Lt, [true, false, false]),
        (Predicate::Gt, [false, false, true]),
        (Predicate::Lte, [true, true, false]),
        (Predicate::Gte, [false, true, true]),
        (Predicate::Eq, [false, true, false]),
        (Predicate::Neq, [true, false, true]),
    ];
    for (predicate, expected) in table.iter() {
        for (order, holds) in orders.iter().zip(expected.iter()) {
            assert_eq!(predicate.holds(*order), *holds, "{:?} {:?}", predicate, order);
        }
    }
}

#[test]
fn two_variables_are_compared_in_their_order() {
    let relation = relation(vec![7, 8, 9, 8]);
    let values = tuple(&[10, 20, 30, 40]);
    assert_eq!(
        operands(&vec![9, 7], &vec![], &relation, &values),
        (Value::Number(30), Value::Number(10))
    );
    // a variable stands at its first offset
    assert_eq!(
        operands(&vec![8, 8], &vec![None, None], &relation, &values),
        (Value::Number(20), Value::Number(20))
    );
}

#[test]
fn a_constant_takes_the_place_of_its_position() {
    let relation = relation(vec![7, 8]);
    let values = tuple(&[10, 20]);
    let constant = Value::String("c".to_string());
    assert_eq!(
        operands(&vec![8], &vec![Some(constant.clone())], &relation, &values),
        (constant.clone(), Value::Number(20))
    );
    assert_eq!(
        operands(&vec![8], &vec![None, Some(constant.clone())], &relation, &values),
        (Value::Number(20), constant.clone())
    );
    // the first position comes first
    assert_eq!(
        operands(
            &vec![7, 8],
            &vec![Some(Value::Bool(true)), Some(constant.clone())],
            &relation,
            &values
        ),
        (Value::Bool(true), Value::Number(10))
    );
}

#[test]
fn a_filter_needs_its_variables_in_the_relation() {
    let relation = relation(vec![7, 8]);
    let constant = Some(Value::Number(1));
    assert!(can_apply(&vec![7, 8], &vec![], &relation));
    assert!(can_apply(&vec![8, 8, 3], &vec![], &relation));
    assert!(!can_apply(&vec![7, 9], &vec![], &relation));
    assert!(!can_apply(&vec![9, 7], &vec![], &relation));
    assert!(!can_apply(&vec![7], &vec![], &relation));
    assert!(!can_apply(&vec![7], &vec![None, None], &relation));
    assert!(!can_apply(&vec![], &vec![constant.clone()], &relation));
    assert!(can_apply(&vec![7], &vec![constant.clone()], &relation));
    assert!(can_apply(&vec![7], &vec![None, constant.clone()], &relation));
    assert!(can_apply(&vec![7, 9], &vec![None, constant.clone()], &relation));
    assert!(!can_apply(&vec![9], &vec![constant.clone()], &relation));
    // a constant at a later position is no operand
    assert!(!can_apply(&vec![7], &vec![None, None, constant], &relation));
}
