use std::collections::HashSet;

use declarative_dataflow::domain::{AttributeConfig, Domain, Update};
use declarative_dataflow::graphql::{ast_to_paths, Definition, Document, Field, Selection};
use declarative_dataflow::plan::{Pull, PullLevel};
use declarative_dataflow::pull::{interleave, GraphQl, Pulling};
use declarative_dataflow::{Aid, AttributeSemantics, Plan, TxData, Value};
use Value::{Bool, Eid, Number, String};

struct Case {
    description: &'static str,
    plan: Plan,
    transactions: Vec<Vec<TxData>>,
    expectations: Vec<Vec<(Vec<Value>, u64, isize)>>,
}

fn plan_dependencies(plan: &Plan) -> HashSet<Aid> {
    let mut deps = HashSet::new();
    for aid in plan.dependencies().attributes {
        deps.insert(aid);
    }
    deps
}

fn path_dependencies(path: &PullLevel) -> HashSet<Aid> {
    let mut deps = plan_dependencies(&path.plan);
    for name in path.pull_attributes.iter() {
        deps.insert(name.clone());
    }
    for name in path.path_attributes.iter() {
        deps.insert(name.clone());
    }
    deps
}

fn pull_dependencies(pull: &Pull) -> HashSet<Aid> {
    let mut deps = HashSet::new();
    for path in pull.paths.iter() {
        for dep in path_dependencies(path) {
            deps.insert(dep);
        }
    }
    deps
}

fn dependencies(case: &Case) -> HashSet<Aid> {
    match case.plan {
        Plan::PullLevel(ref path) => path_dependencies(path),
        Plan::Pull(ref pull) => pull_dependencies(pull),
        _ => unreachable!(),
    }
}

/// The tuples of a data pattern over what has been transacted.
fn pattern(plan: &Plan, updates: &[Update]) -> Vec<(Vec<Value>, u64, isize)> {
    let mut tuples = Vec::new();
    for update in updates {
        let tuple = match plan {
            Plan::MatchA(_, a, _) if *a == update.attribute => {
                Some(Plan::match_a(&update.key, &update.value))
            }
            Plan::MatchAV(_, a, v) if *a == update.attribute => {
                Plan::match_av(v, &update.value, &update.key)
            }
            _ => None,
        };
        if let Some(tuple) = tuple {
            tuples.push((tuple, update.time, update.diff));
        }
    }
    tuples
}

/// The tuples of a pull level over what has been transacted.
fn pull_level(level: &PullLevel, updates: &[Update]) -> Vec<(Vec<Value>, u64, isize)> {
    let input = pattern(&level.plan, updates);
    match level.pulling() {
        Pulling::Nothing => input,
        Pulling::Path => input
            .into_iter()
            .map(|(tuple, time, diff)| {
                (
                    declarative_dataflow::pull::interleave(&tuple, &level.path_attributes),
                    time,
                    diff,
                )
            })
            .collect(),
        Pulling::Attributes => {
            let mut tuples = Vec::new();
            for attribute in level.pull_attributes.iter() {
                for (path, time, diff) in input.iter() {
                    let entity = PullLevel::entity(path);
                    for update in updates {
                        if update.attribute == *attribute && update.key == entity {
                            let entered = PullLevel::entered_at(update.time, &vec![0]);
                            tuples.push((
                                level.pulled(path, attribute, &update.value),
                                std::cmp::max(*time, entered.0),
                                diff * update.diff,
                            ));
                        }
                    }
                }
            }
            tuples
        }
    }
}

fn evaluate(plan: &Plan, updates: &[Update]) -> Vec<(Vec<Value>, u64, isize)> {
    match plan {
        Plan::PullLevel(level) => pull_level(level, updates),
        Plan::Pull(pull) => pull
            .paths
            .iter()
            .flat_map(|level| pull_level(level, updates))
            .collect(),
        _ => unreachable!(),
    }
}

fn field(name: &str, selection_set: Vec<Selection>) -> Selection {
    Selection::Field(Field {
        name: name.to_string(),
        selection_set,
    })
}

#[test]
fn graph_ql() {
    // the selection tree of the query
    let ast = Document {
        definitions: vec![Definition::SelectionSet(vec![field(
            "hero",
            vec![
                field("name", vec![]),
                field("height", vec![]),
                field("mass", vec![]),
            ],
        )])],
    };

    let plan = GraphQl::new("{hero {name height mass}}".to_string(), &ast).unwrap();
    assert_eq!(plan.query, "{hero {name height mass}}");
    assert_eq!(plan.dependencies().names, vec!["hero".to_string()]);
    let pull = plan.implement();
    assert!(pull.variables.is_empty());
    assert_eq!(pull.paths.len(), 1);

    let level = &pull.paths[0];
    assert_eq!(
        level.pull_attributes,
        vec!["name".to_string(), "height".to_string(), "mass".to_string()]
    );
    assert_eq!(level.path_attributes, vec!["hero".to_string()]);
    match &*level.plan {
        Plan::NameExpr(variables, name) => {
            assert_eq!(variables, &vec![0, 1]);
            assert_eq!(name, "hero");
        }
        other => panic!("unknown result {:?}", other),
    }

    assert_eq!(ast_to_paths(&ast).unwrap().len(), 1);

    // the heroes, and what is known of them
    let mut domain = Domain::new(0);
    for name in ["hero", "name", "height", "mass"] {
        let config = AttributeConfig {
            input_semantics: AttributeSemantics::Raw,
            trace_slack: None,
        };
        domain.create_attribute(name, config).unwrap();
    }
    let updates = domain
        .transact(vec![
            TxData(1, 100, "hero".to_string(), Eid(200)),
            TxData(1, 200, "name".to_string(), String("Batman".to_string())),
            TxData(1, 200, "mass".to_string(), String("80kg".to_string())),
        ])
        .unwrap();
    assert_eq!(updates.len(), 3);

    // every pulled tuple ends with the entity, the attribute and its value
    let mut results = HashSet::new();
    for hero in updates.iter().filter(|update| update.attribute == "hero") {
        assert_eq!(hero.key, Eid(100));
        let path = vec![hero.value.clone()];
        for attribute in level.pull_attributes.iter() {
            for update in updates.iter() {
                if update.attribute == *attribute && update.key == PullLevel::entity(&path) {
                    let tuple = level.pulled(&path, attribute, &update.value);
                    let mut labelled = interleave(&path, &level.path_attributes);
                    labelled.push(Value::Aid(attribute.clone()));
                    labelled.push(update.value.clone());
                    assert_eq!(tuple, labelled);
                    results.insert((tuple[tuple.len() - 3..].to_vec(), update.time, update.diff));
                }
            }
        }
    }

    let mut expected = HashSet::new();
    expected.insert((
        vec![
            Eid(200),
            Value::Aid("mass".to_string()),
            String("80kg".to_string()),
        ],
        0,
        1,
    ));
    expected.insert((
        vec![
            Eid(200),
            Value::Aid("name".to_string()),
            String("Batman".to_string()),
        ],
        0,
        1,
    ));
    assert_eq!(results, expected);
}

#[test]
fn run_pull_cases() {
    let mut cases = vec![
        Case {
            description: "[name age]",
            plan: Plan::PullLevel(PullLevel {
                variables: vec![],
                plan: Box::new(Plan::MatchAV(0, "admin?".to_string(), Bool(false))),
                pull_attributes: vec!["name".to_string(), "age".to_string()],
                path_attributes: vec!["root".to_string()],
            }),
            transactions: vec![vec![
                TxData(1, 100, "admin?".to_string(), Bool(true)),
                TxData(1, 200, "admin?".to_string(), Bool(false)),
                TxData(1, 300, "admin?".to_string(), Bool(false)),
                TxData(1, 100, "name".to_string(), String("Mabel".to_string())),
                TxData(1, 200, "name".to_string(), String("Dipper".to_string())),
                TxData(1, 300, "name".to_string(), String("Soos".to_string())),
                TxData(1, 100, "age".to_string(), Number(12)),
                TxData(1, 200, "age".to_string(), Number(13)),
            ]],
            expectations: vec![vec![
                (
                    vec![
                        Value::Aid("root".to_string()),
                        Eid(200),
                        Value::Aid("age".to_string()),
                        Number(13),
                    ],
                    0,
                    1,
                ),
                (
                    vec![
                        Value::Aid("root".to_string()),
                        Eid(200),
                        Value::Aid("name".to_string()),
                        String("Dipper".to_string()),
                    ],
                    0,
                    1,
                ),
                (
                    vec![
                        Value::Aid("root".to_string()),
                        Eid(300),
                        Value::Aid("name".to_string()),
                        String("Soos".to_string()),
                    ],
                    0,
                    1,
                ),
            ]],
        },
        Case {
            description: "[{parent/child [name age]}]",
            plan: Plan::PullLevel(PullLevel {
                variables: vec![],
                plan: Box::new(Plan::MatchA(0, "parent/child".to_string(), 1)),
                pull_attributes: vec!["name".to_string(), "age".to_string()],
                path_attributes: vec!["root".to_string(), "parent/child".to_string()],
            }),
            transactions: vec![vec![
                TxData(1, 100, "name".to_string(), String("Alice".to_string())),
                TxData(1, 100, "parent/child".to_string(), Eid(300)),
                TxData(1, 200, "name".to_string(), String("Bob".to_string())),
                TxData(1, 200, "parent/child".to_string(), Eid(400)),
                TxData(1, 300, "name".to_string(), String("Mabel".to_string())),
                TxData(1, 300, "age".to_string(), Number(13)),
                TxData(1, 400, "name".to_string(), String("Dipper".to_string())),
                TxData(1, 400, "age".to_string(), Number(12)),
            ]],
            expectations: vec![vec![
                (
                    vec![
                        Value::Aid("root".to_string()),
                        Eid(100),
                        Value::Aid("parent/child".to_string()),
                        Eid(300),
                        Value::Aid("age".to_string()),
                        Number(13),
                    ],
                    0,
                    1,
                ),
                (
                    vec![
                        Value::Aid("root".to_string()),
                        Eid(100),
                        Value::Aid("parent/child".to_string()),
                        Eid(300),
                        Value::Aid("name".to_string()),
                        String("Mabel".to_string()),
                    ],
                    0,
                    1,
                ),
                (
                    vec![
                        Value::Aid("root".to_string()),
                        Eid(200),
                        Value::Aid("parent/child".to_string()),
                        Eid(400),
                        Value::Aid("age".to_string()),
                        Number(12),
                    ],
                    0,
                    1,
                ),
                (
                    vec![
                        Value::Aid("root".to_string()),
                        Eid(200),
                        Value::Aid("parent/child".to_string()),
                        Eid(400),
                        Value::Aid("name".to_string()),
                        String("Dipper".to_string()),
                    ],
                    0,
                    1,
                ),
            ]],
        },
        {
            let (a, b, c) = (1, 2, 3);
            Case {
                description: "[name {join/binding [pattern/e pattern/a pattern/v]}]",
                plan: Plan::Pull(Pull {
                    variables: vec![],
                    paths: vec![
                        PullLevel {
                            variables: vec![],
                            plan: Box::new(Plan::MatchA(a, "join/binding".to_string(), b)),
                            pull_attributes: vec![
                                "pattern/e".to_string(),
                                "pattern/a".to_string(),
                                "pattern/v".to_string(),
                            ],
                            path_attributes: vec!["root".to_string(), "join/binding".to_string()],
                        },
                        PullLevel {
                            variables: vec![],
                            plan: Box::new(Plan::MatchA(a, "name".to_string(), c)),
                            pull_attributes: vec![],
                            path_attributes: vec!["root".to_string(), "name".to_string()],
                        },
                    ],
                }),
                transactions: vec![vec![
                    TxData(1, 100, "name".to_string(), String("rule".to_string())),
                    TxData(1, 100, "join/binding".to_string(), Eid(200)),
                    TxData(1, 100, "join/binding".to_string(), Eid(300)),
                    TxData(
                        1,
                        200,
                        "pattern/a".to_string(),
                        Value::Aid("xyz".to_string()),
                    ),
                    TxData(1, 300, "pattern/e".to_string(), Eid(12345)),
                    TxData(
                        1,
                        300,
                        "pattern/a".to_string(),
                        Value::Aid("asd".to_string()),
                    ),
                ]],
                expectations: vec![vec![
                    (
                        vec![
                            Value::Aid("root".to_string()),
                            Eid(100),
                            Value::Aid("name".to_string()),
                            String("rule".to_string()),
                        ],
                        0,
                        1,
                    ),
                    (
                        vec![
                            Value::Aid("root".to_string()),
                            Eid(100),
                            Value::Aid("join/binding".to_string()),
                            Eid(200),
                            Value::Aid("pattern/a".to_string()),
                            Value::Aid("xyz".to_string()),
                        ],
                        0,
                        1,
                    ),
                    (
                        vec![
                            Value::Aid("root".to_string()),
                            Eid(100),
                            Value::Aid("join/binding".to_string()),
                            Eid(300),
                            Value::Aid("pattern/e".to_string()),
                            Eid(12345),
                        ],
                        0,
                        1,
                    ),
                    (
                        vec![
                            Value::Aid("root".to_string()),
                            Eid(100),
                            Value::Aid("join/binding".to_string()),
                            Eid(300),
                            Value::Aid("pattern/a".to_string()),
                            Value::Aid("asd".to_string()),
                        ],
                        0,
                        1,
                    ),
                ]],
            }
        },
    ];

    for case in cases.drain(..) {
        let mut domain = Domain::new(0);

        println!("{}", case.description);

        let deps = dependencies(&case);

        for dep in deps.iter() {
            let config = AttributeConfig {
                input_semantics: AttributeSemantics::Raw,
                trace_slack: None,
            };
            domain.create_attribute(dep, config).unwrap();
        }

        let mut transacted: Vec<Update> = Vec::new();
        let mut seen: HashSet<(Vec<Value>, u64, isize)> = HashSet::new();

        for (tx_id, tx_data) in case.transactions.iter().enumerate() {
            let updates = domain.transact(tx_data.clone()).unwrap();
            transacted.extend(updates);
            domain.advance_to(tx_id as u64 + 1).unwrap();

            let mut expected: HashSet<(Vec<Value>, u64, isize)> =
                case.expectations[tx_id].iter().cloned().collect();

            for result in evaluate(&case.plan, &transacted) {
                if seen.contains(&result) {
                    continue;
                }
                if !expected.remove(&result) {
                    panic!("Unknown result {:?}.", result);
                }
                seen.insert(result);
            }

            if !expected.is_empty() {
                panic!("No result.");
            }
        }
    }
}
