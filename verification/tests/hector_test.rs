use declarative_dataflow::domain::AttributeConfig;
use declarative_dataflow::hector::{extended, proposer, Extender, Stage};
use declarative_dataflow::server::{Config, Context, Server};
use declarative_dataflow::{AttributeSemantics, Binding, Hector, Value};

fn context(attributes: &[&str]) -> Context {
    let mut server: Server<u64> = Server::new(Config::default());
    for name in attributes {
        let config = AttributeConfig {
            input_semantics: AttributeSemantics::Raw,
            trace_slack: None,
        };
        server.context.internal.create_attribute(name, config).unwrap();
    }
    server.context
}

fn triangles_plan() -> Hector {
    let (a, b, c) = (1, 2, 3);
    Hector {
        variables: vec![a, b, c],
        bindings: vec![
            Binding::attribute(a, "edge", b),
            Binding::attribute(b, "edge", c),
            Binding::attribute(a, "edge", c),
        ],
    }
}

fn layout(stages: &[Stage]) -> Vec<(u32, Vec<usize>)> {
    stages
        .iter()
        .map(|stage| (stage.variable, stage.bindings.clone()))
        .collect()
}

fn extending(stage: &Stage) -> Vec<(usize, usize, bool)> {
    stage
        .extenders
        .iter()
        .map(|extender| (extender.binding, extender.key, extender.forward))
        .collect()
}

/// The values that the binding has for `variable` together with `other` for its other
/// variable.
fn extensions(pairs: &[(u64, u64)], binding: &Binding, variable: u32, other: u64) -> Vec<u64> {
    pairs
        .iter()
        .filter_map(|(e, v)| {
            if binding.symbols.1 == variable && *e == other {
                Some(*v)
            } else if binding.symbols.0 == variable && *v == other {
                Some(*e)
            } else {
                None
            }
        })
        .collect()
}

/// Extends prefixes variable by variable: of the bindings that relate the variable to
/// one in front of it, the one with the fewest extensions proposes, the others
/// validate.
fn join(plan: &Hector, stages: &[Stage], pairs: &[(u64, u64)]) -> Vec<Vec<u64>> {
    let mut prefixes: Vec<Vec<u64>> = vec![vec![]];
    for (position, stage) in stages.iter().enumerate() {
        let mut extended = Vec::new();
        for prefix in prefixes.iter() {
            assert_eq!(prefix.len(), position);
            let bound: Vec<(&Binding, u64)> = stage
                .extenders
                .iter()
                .map(|extender| (&plan.bindings[extender.binding], prefix[extender.key]))
                .collect();
            let candidates: Vec<u64> = if bound.is_empty() {
                let mut all: Vec<u64> = pairs.iter().flat_map(|(e, v)| vec![*e, *v]).collect();
                all.sort();
                all.dedup();
                all
            } else {
                let counts: Vec<u64> = bound
                    .iter()
                    .map(|(binding, key)| {
                        extensions(pairs, binding, stage.variable, *key).len() as u64
                    })
                    .collect();
                let chosen = proposer(&counts);
                let proposals = extensions(pairs, bound[chosen].0, stage.variable, bound[chosen].1);
                proposals
                    .into_iter()
                    .filter(|candidate| {
                        bound.iter().all(|(binding, key)| {
                            extensions(pairs, binding, stage.variable, *key).contains(candidate)
                        })
                    })
                    .collect()
            };
            for candidate in candidates {
                let mut tuple = prefix.clone();
                tuple.push(candidate);
                extended.push(tuple);
            }
        }
        prefixes = extended;
    }
    prefixes
}

#[test]
fn triangles() {
    let plan = triangles_plan();
    let stages = plan.stages(&context(&["edge"])).unwrap();
    assert_eq!(
        layout(&stages),
        vec![(1, vec![0, 2]), (2, vec![0, 1]), (3, vec![1, 2])]
    );
    assert_eq!(extending(&stages[0]), vec![]);
    assert_eq!(extending(&stages[1]), vec![(0, 0, true)]);
    assert_eq!(extending(&stages[2]), vec![(1, 1, true), (2, 0, true)]);
    let pairs = [(1, 2), (2, 3), (1, 3)];
    assert_eq!(join(&plan, &stages, &pairs), vec![vec![1, 2, 3]]);
}

#[test]
fn a_binding_extends_by_either_of_its_variables() {
    let plan = Hector {
        variables: vec![3, 1, 2, 1],
        bindings: vec![
            Binding::attribute(1, "edge", 2),
            Binding::attribute(1, "edge", 3),
            Binding::attribute(2, "edge", 2),
        ],
    };
    let stages = plan.stages(&context(&["edge"])).unwrap();
    assert_eq!(
        layout(&stages),
        vec![
            (3, vec![1]),
            (1, vec![0, 1]),
            (2, vec![0, 2]),
            (1, vec![0, 1])
        ]
    );
    assert_eq!(extending(&stages[0]), vec![]);
    assert_eq!(stages[0].seed(&plan.bindings), (1, false));
    assert_eq!(stages[1].seed(&plan.bindings), (0, true));
    assert_eq!(stages[2].seed(&plan.bindings), (0, false));
    assert_eq!(extending(&stages[1]), vec![(1, 0, false)]);
    assert_eq!(extending(&stages[2]), vec![(0, 1, true)]);
    assert_eq!(extending(&stages[3]), vec![(0, 2, false), (1, 0, false)]);
}

#[test]
fn no_bindings_and_no_variables_give_the_empty_relation() {
    let plan = Hector {
        variables: vec![],
        bindings: vec![],
    };
    let stages = plan.stages(&context(&[])).unwrap();
    assert!(stages.is_empty());
}

#[test]
fn no_bindings_for_a_variable_is_a_conflict() {
    let plan = Hector {
        variables: vec![4],
        bindings: vec![],
    };
    let error = plan.stages(&context(&[])).unwrap_err();
    assert_eq!(error.category, "df.error.category/conflict");
    assert_eq!(error.message, "Variable 4 is not mentioned by any binding.");

    let plan = Hector {
        variables: vec![1, 2, 30, 40],
        bindings: vec![Binding::attribute(1, "edge", 2)],
    };
    let error = plan.stages(&context(&["edge"])).unwrap_err();
    assert_eq!(error.category, "df.error.category/conflict");
    assert_eq!(error.message, "Variable 30 is not mentioned by any binding.");
}

#[test]
fn a_binding_to_an_unknown_attribute_is_not_found() {
    let plan = Hector {
        variables: vec![1, 2, 3],
        bindings: vec![
            Binding::attribute(1, "edge", 2),
            Binding::attribute(1, "label", 2),
            Binding::attribute(1, "other", 2),
        ],
    };
    let error = plan.stages(&context(&["edge"])).unwrap_err();
    assert_eq!(error.category, "df.error.category/not-found");
    assert_eq!(error.message, "Attribute label does not exist.");
}

#[test]
fn bindings_without_variables_give_no_stage() {
    let plan = Hector {
        variables: vec![],
        bindings: vec![Binding::attribute(1, "edge", 2)],
    };
    assert!(plan.stages(&context(&["edge"])).unwrap().is_empty());
}

#[test]
fn the_proposer_has_the_fewest_extensions() {
    assert_eq!(proposer(&vec![5]), 0);
    assert_eq!(proposer(&vec![5, 3, 9]), 1);
    assert_eq!(proposer(&vec![5, 3, 9, 3, 3]), 1);
    assert_eq!(proposer(&vec![0, 0]), 0);
    assert_eq!(proposer(&vec![u64::MAX, 7, 6]), 2);
}

#[test]
fn a_prefix_is_extended_at_its_end() {
    let prefix = vec![Value::Eid(1), Value::Eid(2)];
    assert_eq!(
        extended(&prefix, &Value::Number(3)),
        vec![Value::Eid(1), Value::Eid(2), Value::Number(3)]
    );
    assert_eq!(extended(&vec![], &Value::Bool(true)), vec![Value::Bool(true)]);
}

#[test]
fn an_extender_reads_its_index_under_the_value_at_its_key() {
    let extender = Extender {
        binding: 0,
        key: 1,
        forward: true,
    };
    let prefix = vec![Value::Eid(10), Value::Eid(20), Value::Eid(30)];
    assert_eq!(extender.key_of(&prefix), Value::Eid(20));
    assert_eq!(extender.validated(&prefix), (Value::Eid(20), Value::Eid(30)));

    let first = Extender {
        binding: 2,
        key: 0,
        forward: false,
    };
    assert_eq!(first.key_of(&prefix), Value::Eid(10));
    assert_eq!(first.validated(&prefix), (Value::Eid(10), Value::Eid(30)));
    let single = vec![Value::String("a".to_string())];
    assert_eq!(
        first.validated(&single),
        (Value::String("a".to_string()), Value::String("a".to_string()))
    );
}
