use declarative_dataflow::nested::{can_nest, paths_to_nested, Nested};
use declarative_dataflow::Value;
use Value::{Aid, Eid, Number};

fn aid(name: &str) -> Value {
    Aid(name.to_string())
}

fn text(value: &str) -> Value {
    Value::String(value.to_string())
}

/// The nested value in JSON notation, with the members of an object in the order of
/// their names.
fn rendered(nested: &Nested) -> String {
    match nested {
        Nested::Leaf(value) => format!("{:?}", value),
        Nested::Object(members) => {
            let mut members: Vec<String> = members
                .iter()
                .map(|(name, nested)| format!("{:?}: {}", name, rendered(nested)))
                .collect();
            members.sort();
            format!("{{{}}}", members.join(", "))
        }
    }
}

#[test]
fn paths_become_nested_objects() {
    let nested = paths_to_nested(vec![
        vec![aid("root"), Eid(100), aid("name"), text("rule")],
        vec![aid("root"), Eid(100), aid("join/binding"), Eid(200), aid("pattern/a"), aid("xyz")],
        vec![aid("root"), Eid(100), aid("join/binding"), Eid(300), aid("pattern/e"), Eid(12345)],
        vec![aid("root"), Eid(100), aid("join/binding"), Eid(300), aid("pattern/a"), aid("asd")],
        vec![aid("root"), Eid(7), aid("age"), Number(13)],
    ]);
    let expected = [
        r#"{"root": {"100": {"join/binding": {"#,
        r#""200": {"pattern/a": Aid("xyz")}, "#,
        r#""300": {"pattern/a": Aid("asd"), "pattern/e": Eid(12345)}}, "#,
        r#""name": String("rule")}, "#,
        r#""7": {"age": Number(13)}}}"#,
    ];
    assert_eq!(rendered(&nested), expected.join(""));
}

#[test]
fn no_paths_give_an_empty_object() {
    assert_eq!(rendered(&paths_to_nested(vec![])), "{}");
}

#[test]
fn a_later_value_replaces_an_earlier_one() {
    let nested = paths_to_nested(vec![
        vec![aid("name"), text("first")],
        vec![aid("name"), text("second")],
    ]);
    assert_eq!(rendered(&nested), r#"{"name": String("second")}"#);
}

#[test]
fn an_object_stays_where_a_value_comes_later() {
    let nested = paths_to_nested(vec![
        vec![aid("hero"), aid("name"), text("Batman")],
        vec![aid("hero"), Eid(1)],
    ]);
    assert_eq!(rendered(&nested), r#"{"hero": {"name": String("Batman")}}"#);
}

#[test]
fn an_object_replaces_a_value_in_its_way() {
    let nested = paths_to_nested(vec![
        vec![aid("hero"), Eid(1)],
        vec![aid("other"), Eid(2)],
        vec![aid("hero"), aid("name"), text("Batman")],
    ]);
    assert_eq!(
        rendered(&nested),
        r#"{"hero": {"name": String("Batman")}, "other": Eid(2)}"#
    );
}

#[test]
fn paths_end_in_an_attribute_and_a_value() {
    assert!(can_nest(&vec![aid("name"), text("x")]));
    assert!(can_nest(&vec![aid("root"), Eid(1), aid("name"), Eid(2)]));
    assert!(can_nest(&vec![Eid(1), aid("name"), Number(2)]));
    assert!(!can_nest(&vec![]));
    assert!(!can_nest(&vec![aid("name")]));
    assert!(!can_nest(&vec![Eid(1), text("x")]));
    assert!(!can_nest(&vec![Number(1), aid("name"), text("x")]));
    assert!(!can_nest(&vec![aid("a"), text("b"), aid("name"), text("x")]));
}
