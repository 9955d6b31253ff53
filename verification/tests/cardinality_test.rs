use declarative_dataflow::cardinality::{CardinalityOne, Emitted};
use declarative_dataflow::Value;

fn text(value: &str) -> Value {
    Value::String(value.to_string())
}

fn changes(emitted: &[Emitted]) -> Vec<(u64, Value, u64, isize)> {
    emitted
        .iter()
        .map(|change| (change.eid, change.value.clone(), change.time, change.diff))
        .collect()
}

/// The net multiplicity of every pair over all that was emitted.
fn positive(history: &[(u64, Value, u64, isize)], eid: u64) -> Vec<Value> {
    let mut values: Vec<Value> = Vec::new();
    for (_, value, _, _) in history.iter().filter(|change| change.0 == eid) {
        if !values.contains(value) {
            values.push(value.clone());
        }
    }
    values
        .into_iter()
        .filter(|value| {
            history
                .iter()
                .filter(|change| change.0 == eid && change.1 == *value)
                .map(|change| change.3)
                .sum::<isize>()
                > 0
        })
        .collect()
}

#[test]
fn cardinality_one_overwrite() {
    let mut operator = CardinalityOne::new();

    assert!(operator.accept(0, 100, text("A"), 0));
    let first = changes(&operator.notify(0));
    assert_eq!(first, vec![(100, text("A"), 0, 1)]);

    assert!(operator.accept(1, 100, text("B"), 1));
    let second = changes(&operator.notify(1));
    assert_eq!(
        second,
        vec![(100, text("A"), 1, -1), (100, text("B"), 1, 1)]
    );
}

#[test]
fn nothing_is_due_where_nothing_was_proposed() {
    let mut operator = CardinalityOne::new();
    assert!(operator.notify(3).is_empty());
    assert!(operator.accept(0, 1, text("a"), 0));
    assert!(operator.notify(3).is_empty());
    assert_eq!(changes(&operator.notify(0)), vec![(1, text("a"), 0, 1)]);
    assert!(operator.notify(0).is_empty());
}

#[test]
fn the_last_proposal_to_arrive_wins() {
    let mut operator = CardinalityOne::new();
    assert!(operator.accept(2, 1, text("first"), 2));
    assert!(operator.accept(2, 1, text("second"), 2));
    assert!(operator.accept(2, 2, text("other"), 2));
    assert_eq!(
        changes(&operator.notify(2)),
        vec![(1, text("second"), 2, 1), (2, text("other"), 2, 1)]
    );
}

#[test]
fn an_older_proposal_is_not_kept() {
    let mut operator = CardinalityOne::new();
    assert!(operator.accept(0, 1, text("new"), 5));
    assert!(!operator.accept(0, 1, text("old"), 4));
    assert!(operator.notify(4).is_empty());
    assert_eq!(changes(&operator.notify(5)), vec![(1, text("new"), 5, 1)]);

    // without a proposal the capability stands in for the latest time
    assert!(!operator.accept(9, 2, text("early"), 8));
    assert!(operator.notify(8).is_empty());
    assert!(operator.accept(9, 2, text("later"), 9));
    assert_eq!(changes(&operator.notify(9)), vec![(2, text("later"), 9, 1)]);
}

#[test]
fn the_same_value_is_retracted_and_asserted() {
    let mut operator = CardinalityOne::new();
    operator.accept(0, 1, text("a"), 0);
    operator.notify(0);
    operator.accept(1, 1, text("a"), 1);
    assert_eq!(
        changes(&operator.notify(1)),
        vec![(1, text("a"), 1, -1), (1, text("a"), 1, 1)]
    );
}

#[test]
fn a_value_proposed_ahead_is_settled_with_the_first_notification() {
    let mut operator = CardinalityOne::new();
    assert!(operator.accept(1, 7, text("one"), 1));
    assert!(operator.accept(1, 7, text("two"), 2));
    assert_eq!(changes(&operator.notify(1)), vec![(7, text("two"), 1, 1)]);
    assert_eq!(changes(&operator.notify(2)), vec![(7, text("two"), 2, -1)]);
}

#[test]
fn at_most_one_value_per_entity() {
    let mut operator = CardinalityOne::new();
    let mut history = Vec::new();
    let proposals = [
        (0, 1, "a"),
        (0, 2, "b"),
        (1, 1, "c"),
        (1, 1, "d"),
        (2, 2, "b"),
        (3, 1, "a"),
        (3, 3, "e"),
        (4, 3, "f"),
    ];
    for time in 0..5u64 {
        for (at, eid, value) in proposals.iter() {
            if *at == time {
                operator.accept(time, *eid, text(value), time);
            }
        }
        history.extend(changes(&operator.notify(time)));
        for eid in 1..4u64 {
            assert!(positive(&history, eid).len() <= 1);
        }
    }
    assert_eq!(positive(&history, 1), vec![text("a")]);
    assert_eq!(positive(&history, 2), vec![text("b")]);
    assert_eq!(positive(&history, 3), vec![text("f")]);
}
