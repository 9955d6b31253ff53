use declarative_dataflow::plan::PullLevel;
use declarative_dataflow::pull::{interleave, Pulling};
use declarative_dataflow::{Plan, Value};

fn aids(names: &[&str]) -> Vec<String> {
    names.iter().map(|name| name.to_string()).collect()
}

fn aid(name: &str) -> Value {
    Value::Aid(name.to_string())
}

fn level(pull: &[&str], path: &[&str]) -> PullLevel {
    PullLevel {
        variables: vec![],
        plan: Box::new(Plan::MatchA(0, "edge".to_string(), 1)),
        pull_attributes: aids(pull),
        path_attributes: aids(path),
    }
}

#[test]
fn attributes_are_put_in_front_of_the_values() {
    assert_eq!(
        interleave(&vec![Value::Eid(1)], &aids(&["root"])),
        vec![aid("root"), Value::Eid(1)]
    );
    assert_eq!(
        interleave(&vec![Value::Eid(1), Value::Eid(2)], &aids(&["root", "child"])),
        vec![aid("root"), Value::Eid(1), aid("child"), Value::Eid(2)]
    );
    assert_eq!(
        interleave(&vec![Value::Eid(1)], &aids(&["root", "child"])),
        vec![aid("root"), Value::Eid(1), aid("child")]
    );
}

#[test]
fn without_values_or_attributes_the_values_stay_as_they_are() {
    assert_eq!(interleave(&vec![], &aids(&["root", "child"])), vec![]);
    assert_eq!(
        interleave(&vec![Value::Eid(1), Value::Eid(2)], &aids(&[])),
        vec![Value::Eid(1), Value::Eid(2)]
    );
    assert_eq!(interleave(&vec![], &aids(&[])), vec![]);
}

#[test]
fn a_pulled_value_follows_its_path_and_attribute() {
    let level = level(&["name", "age"], &["root", "parent/child"]);
    assert_eq!(
        level.pulled(
            &vec![Value::Eid(100), Value::Eid(300)],
            &"age".to_string(),
            &Value::Number(13)
        ),
        vec![
            aid("root"),
            Value::Eid(100),
            aid("parent/child"),
            Value::Eid(300),
            aid("age"),
            Value::Number(13),
        ]
    );
    assert_eq!(
        PullLevel::entity(&vec![Value::Eid(100), Value::Eid(300)]),
        Value::Eid(300)
    );
    assert_eq!(PullLevel::entity(&vec![Value::Eid(100)]), Value::Eid(100));
}

#[test]
fn a_level_pulls_attributes_tags_paths_or_passes_its_input() {
    assert_eq!(level(&["name"], &["root"]).pulling(), Pulling::Attributes);
    assert_eq!(level(&["name"], &[]).pulling(), Pulling::Attributes);
    assert_eq!(level(&[], &["root"]).pulling(), Pulling::Path);
    assert_eq!(level(&[], &[]).pulling(), Pulling::Nothing);
}

#[test]
fn pulled_values_enter_no_earlier_than_the_frontier() {
    assert_eq!(PullLevel::entered_at(3, &vec![5]), (5, 0));
    assert_eq!(PullLevel::entered_at(7, &vec![5]), (7, 0));
    assert_eq!(PullLevel::entered_at(5, &vec![5]), (5, 0));
    assert_eq!(PullLevel::entered_at(3, &vec![]), (3, 0));
    assert_eq!(PullLevel::entered_at(3, &vec![9, 5, 7]), (5, 0));
    assert_eq!(PullLevel::entered_at(6, &vec![9, 5, 7]), (6, 0));
    assert_eq!(PullLevel::entered_at(0, &vec![0]), (0, 0));
}
