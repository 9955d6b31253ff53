use declarative_dataflow::graphql::{
    ast_to_paths, selection_set_to_paths, Definition, Document, Field, Selection,
};
use declarative_dataflow::plan::PullLevel;
use declarative_dataflow::pull::GraphQl;
use declarative_dataflow::{Implementable, Plan};

fn field(name: &str, selection_set: Vec<Selection>) -> Selection {
    Selection::Field(Field {
        name: name.to_string(),
        selection_set,
    })
}

fn leaf(name: &str) -> Selection {
    field(name, vec![])
}

/// { hero { name friends { name pet { kind } } height } villain { name } }
fn query() -> Vec<Selection> {
    vec![
        field(
            "hero",
            vec![
                leaf("name"),
                field(
                    "friends",
                    vec![leaf("name"), field("pet", vec![leaf("kind")])],
                ),
                leaf("height"),
            ],
        ),
        field("villain", vec![leaf("name")]),
    ]
}

fn described(level: &PullLevel) -> String {
    let source = match &*level.plan {
        Plan::NameExpr(variables, name) => format!("relation {} {:?}", name, variables),
        Plan::MatchA(e, aid, v) => format!("attribute {} {} {}", e, aid, v),
        other => panic!("{:?}", other),
    };
    assert!(level.variables.is_empty());
    format!(
        "{} pulls {:?} along {:?}",
        source, level.pull_attributes, level.path_attributes
    )
}

#[test]
fn every_selection_set_below_the_root_becomes_a_level() {
    let levels = selection_set_to_paths(&query(), &vec![], true).unwrap();
    let described: Vec<String> = levels.iter().map(described).collect();
    assert_eq!(
        described,
        vec![
            r#"attribute 0 pet 1 pulls ["kind"] along ["hero", "friends", "pet"]"#,
            r#"attribute 0 friends 1 pulls ["name"] along ["hero", "friends"]"#,
            r#"relation hero [0, 1] pulls ["name", "height"] along ["hero"]"#,
            r#"relation villain [0, 1] pulls ["name"] along ["villain"]"#,
        ]
    );
}

#[test]
fn fields_selected_at_the_root_are_not_pulled() {
    let levels = selection_set_to_paths(&vec![leaf("name"), leaf("age")], &vec![], true).unwrap();
    assert!(levels.is_empty());
    assert!(selection_set_to_paths(&vec![], &vec!["hero".to_string()], true)
        .unwrap()
        .is_empty());
    let nothing_pulled = vec![field("hero", vec![field("friends", vec![field("pet", vec![])])])];
    let levels = selection_set_to_paths(&nothing_pulled, &vec![], true).unwrap();
    assert_eq!(levels.len(), 1);
    assert_eq!(
        described(&levels[0]),
        r#"attribute 0 friends 1 pulls ["pet"] along ["hero", "friends"]"#
    );
}

#[test]
fn a_selection_set_below_a_path_binds_to_the_last_attribute() {
    let parent = vec!["hero".to_string(), "friends".to_string()];
    let levels = selection_set_to_paths(&vec![leaf("name")], &parent, false).unwrap();
    assert_eq!(levels.len(), 1);
    assert_eq!(
        described(&levels[0]),
        r#"attribute 0 friends 1 pulls ["name"] along ["hero", "friends"]"#
    );
    let levels = selection_set_to_paths(&vec![leaf("name")], &parent, true).unwrap();
    assert_eq!(
        described(&levels[0]),
        r#"relation friends [0, 1] pulls ["name"] along ["hero", "friends"]"#
    );
}

#[test]
fn selections_other_than_fields_are_unsupported() {
    let error = selection_set_to_paths(
        &vec![leaf("name"), Selection::FragmentSpread],
        &vec!["hero".to_string()],
        true,
    )
    .unwrap_err();
    assert_eq!(error.category, "df.error.category/unsupported");
    assert_eq!(error.message, "Only fields can be selected.");

    let nested = vec![field(
        "hero",
        vec![leaf("name"), field("pet", vec![Selection::InlineFragment])],
    )];
    let error = selection_set_to_paths(&nested, &vec![], true).unwrap_err();
    assert_eq!(error.category, "df.error.category/unsupported");
    assert_eq!(error.message, "Only fields can be selected.");
}

#[test]
fn a_document_is_folded_definition_by_definition() {
    let ast = Document {
        definitions: vec![
            Definition::SelectionSet(query()),
            Definition::SelectionSet(vec![field("extra", vec![leaf("id")])]),
        ],
    };
    let levels = ast_to_paths(&ast).unwrap();
    assert_eq!(levels.len(), 5);
    assert_eq!(
        described(&levels[4]),
        r#"relation extra [0, 1] pulls ["id"] along ["extra"]"#
    );
    assert!(ast_to_paths(&Document { definitions: vec![] })
        .unwrap()
        .is_empty());

    let plan = GraphQl::new("{ ... }".to_string(), &ast).unwrap();
    assert_eq!(plan.query, "{ ... }");
    assert_eq!(plan.paths.len(), 5);
    let pull = plan.implement();
    assert!(pull.variables.is_empty());
    assert_eq!(pull.paths.len(), 5);
    assert_eq!(
        described(&pull.paths[4]),
        r#"relation extra [0, 1] pulls ["id"] along ["extra"]"#
    );
}

#[test]
fn a_query_depends_on_its_roots_and_on_the_fields_below() {
    let ast = Document {
        definitions: vec![
            Definition::SelectionSet(query()),
            Definition::SelectionSet(vec![field("extra", vec![leaf("id")])]),
        ],
    };
    let plan = GraphQl::new("{ ... }".to_string(), &ast).unwrap();

    let sorted = |mut names: Vec<String>| {
        names.sort();
        names
    };
    let deps = plan.dependencies();
    assert_eq!(sorted(deps.names), vec!["extra", "hero", "villain"]);
    assert_eq!(
        sorted(deps.attributes),
        vec!["friends", "height", "id", "kind", "name", "pet"]
    );
    let deps = Implementable::dependencies(&plan);
    assert_eq!(sorted(deps.names), vec!["extra", "hero", "villain"]);
    assert_eq!(deps.attributes.len(), 6);

    let pull = plan.implement();
    assert_eq!(sorted(pull.dependencies().names), vec!["extra", "hero", "villain"]);

    let nothing = GraphQl::new("".to_string(), &Document { definitions: vec![] }).unwrap();
    let deps = nothing.dependencies();
    assert!(deps.names.is_empty() && deps.attributes.is_empty());
}

#[test]
fn a_query_of_anything_but_fields_is_no_plan() {
    let ast = Document {
        definitions: vec![Definition::SelectionSet(query()), Definition::Query],
    };
    let error = GraphQl::new("query { a }".to_string(), &ast).unwrap_err();
    assert_eq!(error.category, "df.error.category/unsupported");
    assert_eq!(error.message, "Only selection sets can be queried.");

    let ast = Document {
        definitions: vec![Definition::SelectionSet(vec![field(
            "hero",
            vec![Selection::InlineFragment],
        )])],
    };
    let error = GraphQl::new("{ hero { ... on Human { name } } }".to_string(), &ast).unwrap_err();
    assert_eq!(error.category, "df.error.category/unsupported");
    assert_eq!(error.message, "Only fields can be selected.");
}

#[test]
fn definitions_other_than_selection_sets_are_unsupported() {
    for definition in [
        Definition::Query,
        Definition::Mutation,
        Definition::Subscription,
        Definition::Fragment,
    ] {
        let ast = Document {
            definitions: vec![Definition::SelectionSet(query()), definition],
        };
        let error = ast_to_paths(&ast).unwrap_err();
        assert_eq!(error.category, "df.error.category/unsupported");
        assert_eq!(error.message, "Only selection sets can be queried.");
    }
    let ast = Document {
        definitions: vec![Definition::SelectionSet(vec![Selection::FragmentSpread])],
    };
    let error = ast_to_paths(&ast).unwrap_err();
    assert_eq!(error.message, "Only fields can be selected.");
}
