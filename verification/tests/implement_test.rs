use declarative_dataflow::domain::{AttributeConfig, RelationConfig};
use declarative_dataflow::implement::{Source, Trace};
use declarative_dataflow::plan::{Join, Pull, PullLevel, Union};
use declarative_dataflow::server::{Config, Context, Server};
use declarative_dataflow::{q, AttributeSemantics, Binding, Plan, Value};

fn context(attributes: &[&str], relations: &[&str]) -> Context {
    let mut server: Server<u64> = Server::new(Config::default());
    for name in attributes {
        let config = AttributeConfig {
            input_semantics: AttributeSemantics::Raw,
            trace_slack: None,
        };
        server.context.internal.create_attribute(name, config).unwrap();
    }
    for name in relations {
        server
            .context
            .internal
            .register_arrangement(name.to_string(), RelationConfig { trace_slack: None });
    }
    server.context
}

fn described(sources: &[Source]) -> Vec<String> {
    sources
        .iter()
        .map(|source| match source {
            Source::Forward(aid, trace) => format!("forward {} {:?}", aid, trace),
            Source::Reverse(aid, trace) => format!("reverse {} {:?}", aid, trace),
            Source::Relation(name) => format!("relation {}", name),
            Source::Local(name) => format!("local {}", name),
        })
        .collect()
}

#[test]
fn patterns_read_the_index_that_answers_them() {
    let context = context(&["edge"], &[]);
    let local = vec![];
    let sources = Plan::MatchA(0, "edge".to_string(), 1)
        .implement(&context, &local)
        .unwrap();
    assert_eq!(described(&sources), vec!["forward edge Validate"]);
    assert!(sources[0].is_import());
    assert!(matches!(&sources[0], Source::Forward(_, Trace::Validate)));

    let sources = Plan::MatchEA(7, "edge".to_string(), 1)
        .implement(&context, &local)
        .unwrap();
    assert_eq!(described(&sources), vec!["forward edge Propose"]);

    let sources = Plan::MatchAV(0, "edge".to_string(), Value::Eid(7))
        .implement(&context, &local)
        .unwrap();
    assert_eq!(described(&sources), vec!["reverse edge Propose"]);
}

#[test]
fn references_read_a_variable_or_a_published_relation() {
    let context = context(&[], &["published"]);
    let local = vec!["reach".to_string()];
    let sources = Plan::RuleExpr(vec![0, 1], "reach".to_string())
        .implement(&context, &local)
        .unwrap();
    assert_eq!(described(&sources), vec!["local reach"]);
    assert!(!sources[0].is_import());

    let sources = Plan::NameExpr(vec![0, 1], "published".to_string())
        .implement(&context, &local)
        .unwrap();
    assert_eq!(described(&sources), vec!["relation published"]);
    assert!(sources[0].is_import());
}

#[test]
fn composite_plans_read_what_their_inputs_read_in_order() {
    let context = context(&["edge", "name", "age"], &["published"]);
    let local = vec!["reach".to_string()];
    let plan = Plan::Union(Union {
        variables: vec![0, 1],
        plans: vec![
            Plan::Join(Join {
                variables: vec![1],
                left_plan: Box::new(Plan::MatchA(0, "edge".to_string(), 1)),
                right_plan: Box::new(Plan::RuleExpr(vec![1, 2], "reach".to_string())),
            }),
            Plan::Negate(Box::new(Plan::NameExpr(vec![0, 1], "published".to_string()))),
            Plan::Pull(Pull {
                variables: vec![],
                paths: vec![
                    PullLevel {
                        variables: vec![],
                        plan: Box::new(Plan::MatchAV(0, "age".to_string(), Value::Number(13))),
                        pull_attributes: vec!["name".to_string(), "age".to_string()],
                        path_attributes: vec!["root".to_string()],
                    },
                    PullLevel {
                        variables: vec![],
                        plan: Box::new(Plan::MatchA(0, "name".to_string(), 1)),
                        pull_attributes: vec![],
                        path_attributes: vec!["root".to_string(), "name".to_string()],
                    },
                ],
            }),
        ],
    });
    let sources = plan.implement(&context, &local).unwrap();
    assert_eq!(
        described(&sources),
        vec![
            "forward edge Validate",
            "local reach",
            "relation published",
            "reverse age Propose",
            "forward name Propose",
            "forward age Propose",
            "forward name Validate",
        ]
    );
    assert_eq!(sources.iter().filter(|source| source.is_import()).count(), 6);
}

#[test]
fn a_join_over_bindings_reads_all_traces_of_both_indices() {
    let context = context(&["edge", "label"], &[]);
    let plan = q(
        vec![1, 2],
        vec![
            Binding::attribute(1, "edge", 2),
            Binding::attribute(1, "label", 2),
        ],
    );
    let sources = plan.implement(&context, &vec![]).unwrap();
    assert_eq!(
        described(&sources),
        vec![
            "forward edge Count",
            "forward edge Propose",
            "forward edge Validate",
            "reverse edge Count",
            "reverse edge Propose",
            "reverse edge Validate",
            "forward label Count",
            "forward label Propose",
            "forward label Validate",
            "reverse label Count",
            "reverse label Propose",
            "reverse label Validate",
        ]
    );
    assert!(q(vec![], vec![]).implement(&context, &vec![]).unwrap().is_empty());
}

#[test]
fn the_first_source_that_is_not_at_hand_is_not_found() {
    let context = context(&["edge"], &["published"]);
    let local = vec!["reach".to_string()];
    let join = |left: Plan, right: Plan| {
        Plan::Join(Join {
            variables: vec![],
            left_plan: Box::new(left),
            right_plan: Box::new(right),
        })
    };

    let error = join(
        Plan::MatchA(0, "edge".to_string(), 1),
        join(
            Plan::MatchEA(1, "name".to_string(), 1),
            Plan::MatchA(0, "age".to_string(), 1),
        ),
    )
    .implement(&context, &local)
    .unwrap_err();
    assert_eq!(error.category, "df.error.category/not-found");
    assert_eq!(error.message, "Attribute name does not exist.");

    let error = join(
        Plan::NameExpr(vec![], "hidden".to_string()),
        Plan::RuleExpr(vec![], "other".to_string()),
    )
    .implement(&context, &local)
    .unwrap_err();
    assert_eq!(error.category, "df.error.category/not-found");
    assert_eq!(error.message, "Relation hidden is not published.");

    let error = join(
        Plan::RuleExpr(vec![], "other".to_string()),
        Plan::NameExpr(vec![], "hidden".to_string()),
    )
    .implement(&context, &local)
    .unwrap_err();
    assert_eq!(error.category, "df.error.category/not-found");
    assert_eq!(error.message, "Rule other is not being lowered.");

    let error = Plan::MatchAV(0, "age".to_string(), Value::Bool(true))
        .implement(&context, &local)
        .unwrap_err();
    assert_eq!(error.message, "Attribute age does not exist.");
}

#[test]
fn patterns_shape_their_tuples() {
    let e = Value::Eid(100);
    let v = Value::String("Mabel".to_string());
    assert_eq!(Plan::match_a(&e, &v), vec![e.clone(), v.clone()]);

    assert_eq!(Plan::match_ea(100, &e, &v), Some(vec![v.clone()]));
    assert_eq!(Plan::match_ea(101, &e, &v), None);
    assert_eq!(Plan::match_ea(100, &Value::Number(100), &v), None);

    assert_eq!(Plan::match_av(&v, &v, &e), Some(vec![e.clone()]));
    assert_eq!(
        Plan::match_av(&Value::String("Dipper".to_string()), &v, &e),
        None
    );
}

/// A join over bindings with a variable that none of them mentions.
fn uncovered(variable: u32) -> Plan {
    q(vec![0, 1, variable], vec![Binding::attribute(0, "edge", 1)])
}

fn conflict_of(plan: Plan) -> String {
    let context = context(&["edge", "name"], &["published"]);
    let error = plan.implement(&context, &vec![]).unwrap_err();
    assert_eq!(error.category, "df.error.category/conflict");
    error.message
}

#[test]
fn a_join_with_a_variable_that_no_binding_mentions_is_a_conflict() {
    assert_eq!(
        conflict_of(uncovered(7)),
        "Variable 7 is not mentioned by any binding."
    );
    assert_eq!(
        conflict_of(q(vec![5], vec![])),
        "Variable 5 is not mentioned by any binding."
    );
    // the first of several
    assert_eq!(
        conflict_of(q(vec![0, 8, 1, 9], vec![Binding::attribute(0, "edge", 1)])),
        "Variable 8 is not mentioned by any binding."
    );
}

#[test]
fn a_conflict_is_found_wherever_the_join_stands() {
    let covered = || q(vec![0, 1], vec![Binding::attribute(0, "edge", 1)]);

    let projected = Plan::Project(declarative_dataflow::plan::Project {
        variables: vec![0],
        plan: Box::new(uncovered(11)),
    });
    assert_eq!(
        conflict_of(projected),
        "Variable 11 is not mentioned by any binding."
    );

    let united = Plan::Union(Union {
        variables: vec![0, 1],
        plans: vec![covered(), uncovered(12), uncovered(13)],
    });
    assert_eq!(
        conflict_of(united),
        "Variable 12 is not mentioned by any binding."
    );

    let joined = Plan::Join(Join {
        variables: vec![0],
        left_plan: Box::new(Plan::MatchA(0, "edge".to_string(), 1)),
        right_plan: Box::new(uncovered(14)),
    });
    assert_eq!(
        conflict_of(joined),
        "Variable 14 is not mentioned by any binding."
    );

    let both = Plan::Join(Join {
        variables: vec![0],
        left_plan: Box::new(uncovered(15)),
        right_plan: Box::new(uncovered(16)),
    });
    assert_eq!(
        conflict_of(both),
        "Variable 15 is not mentioned by any binding."
    );

    let excluded = Plan::Antijoin(declarative_dataflow::plan::Antijoin {
        variables: vec![0],
        left_plan: Box::new(covered()),
        right_plan: Box::new(uncovered(17)),
    });
    assert_eq!(
        conflict_of(excluded),
        "Variable 17 is not mentioned by any binding."
    );

    assert_eq!(
        conflict_of(Plan::Negate(Box::new(uncovered(18)))),
        "Variable 18 is not mentioned by any binding."
    );

    let level = |plan: Plan| PullLevel {
        variables: vec![],
        plan: Box::new(plan),
        pull_attributes: vec!["name".to_string()],
        path_attributes: vec![],
    };
    assert_eq!(
        conflict_of(Plan::PullLevel(level(uncovered(19)))),
        "Variable 19 is not mentioned by any binding."
    );
    let pull = Plan::Pull(Pull {
        variables: vec![],
        paths: vec![level(covered()), level(uncovered(20))],
    });
    assert_eq!(
        conflict_of(pull),
        "Variable 20 is not mentioned by any binding."
    );
}

#[test]
fn what_is_not_at_hand_is_reported_before_a_conflict() {
    let context = context(&["edge"], &[]);
    let plan = Plan::Join(Join {
        variables: vec![0],
        left_plan: Box::new(uncovered(7)),
        right_plan: Box::new(Plan::MatchA(0, "age".to_string(), 1)),
    });
    let error = plan.implement(&context, &vec![]).unwrap_err();
    assert_eq!(error.category, "df.error.category/not-found");
    assert_eq!(error.message, "Attribute age does not exist.");

    let plan = q(
        vec![0, 1, 7],
        vec![
            Binding::attribute(0, "edge", 1),
            Binding::attribute(0, "age", 1),
        ],
    );
    let error = plan.implement(&context, &vec![]).unwrap_err();
    assert_eq!(error.category, "df.error.category/not-found");
    assert_eq!(error.message, "Attribute age does not exist.");
}
