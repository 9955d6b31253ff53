use declarative_dataflow::relation::{joined, rejoined, Split};
use declarative_dataflow::{CollectionRelation, Value};

fn relation(variables: Vec<u32>) -> CollectionRelation {
    CollectionRelation { variables }
}

fn tuple(values: &[i64]) -> Vec<Value> {
    values.iter().map(|value| Value::Number(*value)).collect()
}

#[test]
fn a_variable_is_at_its_first_offset() {
    let relation = relation(vec![7, 8, 9, 8]);
    assert_eq!(relation.variables(), &vec![7, 8, 9, 8]);
    assert_eq!(relation.offset(7), 0);
    assert_eq!(relation.offset(8), 1);
    assert_eq!(relation.offset(9), 2);
}

#[test]
fn the_own_variables_make_the_whole_tuple_the_key() {
    let relation = relation(vec![1, 2, 3]);
    let split = relation.tuples_by_variables(&vec![1, 2, 3]);
    assert!(matches!(split, Split::Whole));
    assert_eq!(
        split.apply(&tuple(&[10, 20, 30])),
        (tuple(&[10, 20, 30]), tuple(&[]))
    );
}

#[test]
fn no_variables_make_the_whole_tuple_the_values() {
    let relation = relation(vec![1, 2, 3]);
    let split = relation.tuples_by_variables(&vec![]);
    assert!(matches!(split, Split::Keyless));
    assert_eq!(
        split.apply(&tuple(&[10, 20, 30])),
        (tuple(&[]), tuple(&[10, 20, 30]))
    );

    let empty = CollectionRelation { variables: vec![] };
    assert!(matches!(empty.tuples_by_variables(&vec![]), Split::Whole));
}

#[test]
fn key_variables_come_in_their_order_and_the_rest_as_it_was() {
    let relation = relation(vec![1, 2, 3, 4]);
    let split = relation.tuples_by_variables(&vec![3, 1]);
    match &split {
        Split::Offsets(key, rest) => {
            assert_eq!(key, &vec![2, 0]);
            assert_eq!(rest, &vec![1, 3]);
        }
        other => panic!("{:?}", other),
    }
    assert_eq!(
        split.apply(&tuple(&[10, 20, 30, 40])),
        (tuple(&[30, 10]), tuple(&[20, 40]))
    );

    let split = relation.tuples_by_variables(&vec![3, 2, 1, 4]);
    assert_eq!(
        split.apply(&tuple(&[10, 20, 30, 40])),
        (tuple(&[30, 20, 10, 40]), tuple(&[]))
    );

    let split = relation.tuples_by_variables(&vec![2, 2]);
    assert_eq!(
        split.apply(&tuple(&[10, 20, 30, 40])),
        (tuple(&[20, 20]), tuple(&[10, 30, 40]))
    );
}

#[test]
fn a_join_gives_the_key_and_what_is_left_of_both_sides() {
    let left = relation(vec![1, 2, 3]);
    let right = relation(vec![4, 2, 5, 1]);
    assert_eq!(left.rest_variables(&vec![2]), vec![1, 3]);
    assert_eq!(left.rest_variables(&vec![]), vec![1, 2, 3]);
    assert!(left.rest_variables(&vec![3, 2, 1]).is_empty());
    assert_eq!(left.rest_variables(&vec![9]), vec![1, 2, 3]);
    assert_eq!(left.joined_variables(&right, &vec![2]), vec![2, 1, 3, 4, 5, 1]);
    assert_eq!(left.joined_variables(&right, &vec![2, 1]), vec![2, 1, 3, 4, 5]);
    assert_eq!(
        left.joined_variables(&right, &vec![]),
        vec![1, 2, 3, 4, 2, 5, 1]
    );
}

#[test]
fn a_joined_tuple_is_the_key_then_the_left_then_the_right_values() {
    assert_eq!(
        joined(&tuple(&[1]), &tuple(&[2, 3]), &tuple(&[4])),
        tuple(&[1, 2, 3, 4])
    );
    assert_eq!(joined(&tuple(&[]), &tuple(&[2]), &tuple(&[])), tuple(&[2]));
    assert_eq!(joined(&tuple(&[7, 8]), &tuple(&[]), &tuple(&[9])), tuple(&[7, 8, 9]));
    assert!(joined(&tuple(&[]), &tuple(&[]), &tuple(&[])).is_empty());

    // what a join gives for a left and a right tuple that share the key
    let left = relation(vec![1, 2, 3]);
    let right = relation(vec![4, 2]);
    let key = vec![2];
    let (left_key, left_rest) = left.tuples_by_variables(&key).apply(&tuple(&[10, 20, 30]));
    let (right_key, right_rest) = right.tuples_by_variables(&key).apply(&tuple(&[40, 20]));
    assert_eq!(left_key, right_key);
    assert_eq!(left.joined_variables(&right, &key), vec![2, 1, 3, 4]);
    assert_eq!(
        joined(&left_key, &left_rest, &right_rest),
        tuple(&[20, 10, 30, 40])
    );
}

#[test]
fn key_and_rest_make_a_tuple_with_the_key_first() {
    assert_eq!(rejoined(&tuple(&[1, 2]), &tuple(&[3])), tuple(&[1, 2, 3]));
    assert_eq!(rejoined(&tuple(&[]), &tuple(&[3, 4])), tuple(&[3, 4]));
    assert_eq!(rejoined(&tuple(&[5]), &tuple(&[])), tuple(&[5]));
}
