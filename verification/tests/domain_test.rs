use declarative_dataflow::domain::{AttributeConfig, Domain, RelationConfig};
use declarative_dataflow::{AttributeSemantics, CollectionIndex, TxData, Value};

fn raw() -> AttributeConfig {
    AttributeConfig {
        input_semantics: AttributeSemantics::Raw,
        trace_slack: None,
    }
}

fn lagging(slack: u64) -> AttributeConfig {
    AttributeConfig {
        input_semantics: AttributeSemantics::CardinalityMany,
        trace_slack: Some(slack),
    }
}

#[test]
fn a_new_domain_is_empty_at_its_start() {
    let domain = Domain::new(5);
    assert_eq!(*domain.time(), 5);
    assert!(!domain.has_attribute("name"));
    assert!(domain.attribute("name").is_none());
    assert!(domain.relation("name").is_none());
}

#[test]
fn an_attribute_is_created_with_indices_and_a_session() {
    let mut domain = Domain::new(3);
    domain.create_attribute("name", lagging(2)).unwrap();
    assert!(domain.has_attribute("name"));
    let attribute = domain.attribute("name").unwrap();
    assert_eq!(attribute.config, Some(lagging(2)));
    assert_eq!(attribute.session, Some(0));
    assert_eq!(attribute.forward.name, "name");
    assert_eq!(attribute.reverse.name, "name");
    assert_eq!(attribute.forward.frontier, vec![0]);
    assert_eq!(attribute.reverse.frontier, vec![0]);
    assert!(attribute.forward.distinguish.is_empty());
    assert!(attribute.reverse.distinguish.is_empty());
    assert_eq!(*domain.time(), 3);
}

#[test]
fn an_attribute_cannot_be_created_twice() {
    let mut domain = Domain::new(0);
    domain.create_attribute("name", raw()).unwrap();
    let error = domain.create_attribute("name", lagging(1)).unwrap_err();
    assert_eq!(error.category, "df.error.category/conflict");
    assert_eq!(error.message, "An attribute of name name already exists.");
    assert_eq!(domain.attribute("name").unwrap().config, Some(raw()));

    let error = domain.create_source("name").unwrap_err();
    assert_eq!(error.category, "df.error.category/conflict");
    assert_eq!(error.message, "An attribute of name name already exists.");
}

#[test]
fn a_source_has_indices_but_no_session() {
    let mut domain = Domain::new(0);
    domain.create_source("edge").unwrap();
    let attribute = domain.attribute("edge").unwrap();
    assert_eq!(attribute.config, None);
    assert_eq!(attribute.session, None);
    assert_eq!(attribute.forward.frontier, vec![0]);

    let rejected = domain
        .transact(vec![TxData(1, 1, "edge".to_string(), Value::Eid(2))])
        .unwrap_err();
    assert_eq!(rejected.error.message, "Attribute edge does not exist.");
}

#[test]
fn datoms_are_dispatched_to_the_session_of_their_attribute() {
    let mut domain = Domain::new(0);
    domain.create_attribute("name", raw()).unwrap();
    domain.create_attribute("age", raw()).unwrap();
    domain.advance_to(4).unwrap();
    domain.create_attribute("late", raw()).unwrap();

    let updates = domain
        .transact(vec![
            TxData(1, 100, "name".to_string(), Value::String("Mabel".to_string())),
            TxData(-1, 100, "age".to_string(), Value::Number(12)),
            TxData(2, 7, "late".to_string(), Value::Bool(true)),
        ])
        .unwrap();
    assert_eq!(updates.len(), 3);
    assert_eq!(updates[0].attribute, "name");
    assert_eq!(updates[0].key, Value::Eid(100));
    assert_eq!(updates[0].value, Value::String("Mabel".to_string()));
    assert_eq!(updates[0].time, 4);
    assert_eq!(updates[0].diff, 1);
    assert_eq!(updates[1].attribute, "age");
    assert_eq!(updates[1].diff, -1);
    assert_eq!(updates[1].time, 4);
    assert_eq!(updates[2].key, Value::Eid(7));
    assert_eq!(updates[2].time, 0);
    assert_eq!(updates[2].diff, 2);

    assert!(domain.transact(vec![]).unwrap().is_empty());
}

#[test]
fn an_unknown_attribute_stops_a_transaction() {
    let mut domain = Domain::new(0);
    domain.create_attribute("name", raw()).unwrap();
    let rejected = domain
        .transact(vec![
            TxData(1, 100, "name".to_string(), Value::Number(1)),
            TxData(1, 100, "nope".to_string(), Value::Number(2)),
            TxData(1, 100, "name".to_string(), Value::Number(3)),
            TxData(1, 100, "nada".to_string(), Value::Number(4)),
        ])
        .unwrap_err();
    assert_eq!(rejected.error.category, "df.error.category/not-found");
    assert_eq!(rejected.error.message, "Attribute nope does not exist.");
    assert_eq!(rejected.applied.len(), 1);
    assert_eq!(rejected.applied[0].value, Value::Number(1));
}

#[test]
fn a_closed_input_takes_no_more_datoms() {
    let mut domain = Domain::new(0);
    domain.create_attribute("name", lagging(1)).unwrap();
    domain.close_input("name".to_string()).unwrap();

    let attribute = domain.attribute("name").unwrap();
    assert_eq!(attribute.session, None);
    assert_eq!(attribute.config, Some(lagging(1)));
    assert_eq!(attribute.forward.name, "name");

    let error = domain.close_input("name".to_string()).unwrap_err();
    assert_eq!(error.category, "df.error.category/not-found");
    assert_eq!(error.message, "Input name does not exist.");
    let error = domain.close_input("other".to_string()).unwrap_err();
    assert_eq!(error.message, "Input other does not exist.");

    assert!(domain
        .transact(vec![TxData(1, 1, "name".to_string(), Value::Eid(2))])
        .is_err());
}

#[test]
fn advancing_moves_every_session_to_the_new_time() {
    let mut domain = Domain::new(0);
    domain.create_attribute("a", raw()).unwrap();
    domain.create_attribute("b", lagging(0)).unwrap();
    domain.create_source("c").unwrap();
    domain.advance_to(7).unwrap();
    domain.create_attribute("d", raw()).unwrap();
    assert_eq!(domain.attribute("d").unwrap().session, Some(0));

    domain.advance_to(9).unwrap();
    assert_eq!(*domain.time(), 9);
    for name in ["a", "b", "d"] {
        assert_eq!(domain.attribute(name).unwrap().session, Some(9));
    }
    assert_eq!(domain.attribute("c").unwrap().session, None);
}

#[test]
fn advancing_to_the_current_time_changes_nothing() {
    let mut domain = Domain::new(0);
    domain.create_attribute("a", lagging(1)).unwrap();
    domain.advance_to(5).unwrap();
    domain.create_attribute("b", lagging(2)).unwrap();
    domain.register_arrangement("r".to_string(), RelationConfig { trace_slack: Some(1) });

    assert!(domain.advance_to(5).is_ok());
    assert_eq!(*domain.time(), 5);
    assert_eq!(domain.attribute("a").unwrap().session, Some(5));
    assert_eq!(domain.attribute("a").unwrap().forward.frontier, vec![4]);
    assert_eq!(domain.attribute("b").unwrap().session, Some(0));
    assert_eq!(domain.attribute("b").unwrap().forward.frontier, vec![0]);
    assert_eq!(domain.relation("r").unwrap().frontier, vec![0]);
}

#[test]
fn time_cannot_be_rewound() {
    let mut domain = Domain::new(0);
    domain.create_attribute("a", lagging(1)).unwrap();
    domain.advance_to(5).unwrap();
    let error = domain.advance_to(3).unwrap_err();
    assert_eq!(error.category, "df.error.category/conflict");
    assert_eq!(
        error.message,
        "Domain is at 5, you attempted to rewind to 3."
    );
    assert_eq!(*domain.time(), 5);
    assert_eq!(domain.attribute("a").unwrap().session, Some(5));
    assert_eq!(domain.attribute("a").unwrap().forward.frontier, vec![4]);
}

#[test]
fn traces_lag_behind_by_their_slack() {
    let mut domain = Domain::new(0);
    domain.create_attribute("kept", raw()).unwrap();
    domain.create_attribute("one", lagging(1)).unwrap();
    domain.create_attribute("ten", lagging(10)).unwrap();
    domain.register_arrangement("all".to_string(), RelationConfig { trace_slack: None });
    domain.register_arrangement("three".to_string(), RelationConfig { trace_slack: Some(3) });

    assert!(!domain.can_advance_to(9));
    assert!(domain.can_advance_to(10));
    assert!(domain.can_advance_to(12));
    domain.advance_to(12).unwrap();

    let kept = domain.attribute("kept").unwrap();
    assert_eq!(kept.forward.frontier, vec![0]);
    assert_eq!(kept.reverse.frontier, vec![0]);
    let one = domain.attribute("one").unwrap();
    assert_eq!(one.forward.frontier, vec![11]);
    assert_eq!(one.reverse.frontier, vec![11]);
    let ten = domain.attribute("ten").unwrap();
    assert_eq!(ten.forward.frontier, vec![2]);
    assert_eq!(ten.reverse.frontier, vec![2]);
    assert_eq!(domain.relation("all").unwrap().frontier, vec![0]);
    assert_eq!(domain.relation("three").unwrap().frontier, vec![9]);

    domain.advance_to(20).unwrap();
    assert_eq!(domain.attribute("ten").unwrap().forward.frontier, vec![10]);
    assert_eq!(domain.relation("three").unwrap().frontier, vec![17]);
    assert_eq!(domain.relation("three").unwrap().config.trace_slack, Some(3));
    assert!(domain.relation("three").unwrap().distinguish.is_empty());
    assert!(domain.attribute("ten").unwrap().forward.distinguish.is_empty());
}

#[test]
fn relations_are_registered_and_removed() {
    let mut domain = Domain::new(0);
    assert!(!domain.has_relation("reach"));
    domain.register_arrangement("reach".to_string(), RelationConfig { trace_slack: Some(1) });
    assert!(domain.has_relation("reach"));
    domain.register_arrangement("reach".to_string(), RelationConfig { trace_slack: None });
    assert_eq!(domain.relation("reach").unwrap().config.trace_slack, None);
    domain.remove_arrangement("reach");
    assert!(!domain.has_relation("reach"));
    domain.remove_arrangement("reach");
    assert!(!domain.has_relation("reach"));
}

#[test]
fn an_index_names_its_three_traces() {
    let mut index = CollectionIndex::index("edge");
    assert_eq!(index.name, "edge");
    assert_eq!(index.frontier, vec![0]);
    assert_eq!(index.count_name(), "Counts(edge)");
    assert_eq!(index.propose_name(), "Proposals(edge)");
    assert_eq!(index.validate_name(), "Validations(edge)");
    index.advance_by(&[4]);
    assert_eq!(index.frontier, vec![4]);
    assert_eq!(index.name, "edge");
    index.advance_by(&[]);
    assert!(index.frontier.is_empty());
}

#[test]
fn a_sink_is_used_once() {
    let mut domain = Domain::new(0);
    let error = domain.flow("out").unwrap_err();
    assert_eq!(error.category, "df.error.category/not-found");
    assert_eq!(error.message, "Unknown sink out");

    domain.register_sink("out");
    domain.register_sink("out");
    domain.register_sink("other");
    assert!(domain.flow("out").is_ok());
    assert!(domain.flow("out").is_err());
    assert!(domain.flow("other").is_ok());
}
