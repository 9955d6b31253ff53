//! Folding of a parsed GraphQL query into pull levels, one per path.

use crate::error::{unsupported, Error};
use crate::names::clone_names;
use crate::plan::{
    level_attributes, level_names, levels_attributes, levels_names, Dependencies, Implementable,
    Plan, Pull, PullLevel,
};
use crate::pull::{levels_dependencies, GraphQl};
use crate::value::{texts, Var};
use vstd::prelude::*;
use vstd::string::StringExecFns;

verus! {

/// A field of a selection set, with the fields selected below it.
#[derive(Debug)]
pub struct Field {
    /// The name of the field: an attribute, or at the root a published relation.
    pub name: String,
    /// What is selected below the field. A field without a selection is pulled.
    pub selection_set: Vec<Selection>,
}

/// An item of a selection set.
#[derive(Debug)]
pub enum Selection {
    /// A field.
    Field(Field),
    /// The spread of a named fragment.
    FragmentSpread,
    /// A fragment given in place.
    InlineFragment,
}

/// A definition of a query document.
#[derive(Debug)]
pub enum Definition {
    /// A selection set on its own.
    SelectionSet(Vec<Selection>),
    /// A query operation.
    Query,
    /// A mutation operation.
    Mutation,
    /// A subscription operation.
    Subscription,
    /// The definition of a fragment.
    Fragment,
}

/// A parsed query document.
#[derive(Debug)]
pub struct Document {
    /// The definitions, in the order of the text.
    pub definitions: Vec<Definition>,
}

/// What a pull level made from a query holds.
pub struct LevelView {
    /// Whether the entities come from the published relation `source`, or else from
    /// the attribute `source` that leads from the parent to them.
    pub root: bool,
    /// The last name of the path.
    pub source: Seq<char>,
    /// The fields to pull.
    pub pull_attributes: Seq<Seq<char>>,
    /// The names from the root down to the level.
    pub path_attributes: Seq<Seq<char>>,
}

/// Whether `level` is the pull level that `view` describes: the entities are the
/// second column of the published relation, or the values of the attribute.
pub open spec fn describes(level: PullLevel, view: LevelView) -> bool {
    &&& level.variables@.len() == 0
    &&& texts(level.pull_attributes@) == view.pull_attributes
    &&& texts(level.path_attributes@) == view.path_attributes
    &&& if view.root {
        &&& *level.plan matches Plan::NameExpr(variables, name)
        &&& variables@ == seq![0u32, 1u32]
        &&& name@ == view.source
    } else {
        &&& *level.plan matches Plan::MatchA(e, aid, v)
        &&& e == 0
        &&& v == 1
        &&& aid@ == view.source
    }
}

/// Whether `levels` are the pull levels that `views` describe, one for one.
pub open spec fn all_described(levels: Seq<PullLevel>, views: Seq<LevelView>) -> bool {
    &&& levels.len() == views.len()
    &&& forall|i: int| 0 <= i < levels.len() ==> describes(#[trigger] levels[i], views[i])
}

/// Whether every item, at any depth, is a field.
pub open spec fn fields_only(items: Seq<Selection>) -> bool
    decreases items,
{
    if items.len() == 0 {
        true
    } else {
        fields_only(items.drop_last()) && match items.last() {
            Selection::Field(field) => fields_only(field.selection_set@),
            _ => false,
        }
    }
}

/// The names of the fields without a selection of their own, in order.
pub open spec fn leaves(items: Seq<Selection>) -> Seq<Seq<char>>
    decreases items.len(),
{
    if items.len() == 0 {
        Seq::empty()
    } else {
        match items.last() {
            Selection::Field(field) => if field.selection_set@.len() == 0 {
                leaves(items.drop_last()).push(field.name@)
            } else {
                leaves(items.drop_last())
            },
            _ => leaves(items.drop_last()),
        }
    }
}

/// The levels of the fields below the items, item by item.
pub open spec fn nested_levels(items: Seq<Selection>, parent: Seq<Seq<char>>) -> Seq<LevelView>
    decreases items, 0nat,
{
    if items.len() == 0 {
        Seq::empty()
    } else {
        nested_levels(items.drop_last(), parent) + match items.last() {
            Selection::Field(field) => set_levels(
                field.selection_set@,
                parent.push(field.name@),
                parent.len() == 0,
            ),
            _ => Seq::empty(),
        }
    }
}

/// The level of the selection set itself, if it pulls a field and lies below the root.
pub open spec fn own_level(items: Seq<Selection>, parent: Seq<Seq<char>>, at_root: bool) -> Seq<
    LevelView,
> {
    if leaves(items).len() > 0 && parent.len() > 0 {
        seq![
            LevelView {
                root: at_root,
                source: parent.last(),
                pull_attributes: leaves(items),
                path_attributes: parent,
            },
        ]
    } else {
        Seq::empty()
    }
}

/// The levels of a selection set that is reached along `parent`: those of the fields
/// below it, then its own.
pub open spec fn set_levels(items: Seq<Selection>, parent: Seq<Seq<char>>, at_root: bool) -> Seq<
    LevelView,
>
    decreases items, 1nat,
{
    nested_levels(items, parent) + own_level(items, parent, at_root)
}

/// Whether every definition is a selection set of fields only.
pub open spec fn selections_only(definitions: Seq<Definition>) -> bool
    decreases definitions.len(),
{
    if definitions.len() == 0 {
        true
    } else {
        selections_only(definitions.drop_last()) && match definitions.last() {
            Definition::SelectionSet(items) => fields_only(items@),
            _ => false,
        }
    }
}

/// The levels of the definitions, one definition after the other.
pub open spec fn document_levels(definitions: Seq<Definition>) -> Seq<LevelView>
    decreases definitions.len(),
{
    if definitions.len() == 0 {
        Seq::empty()
    } else {
        document_levels(definitions.drop_last()) + match definitions.last() {
            Definition::SelectionSet(items) => set_levels(items@, Seq::empty(), true),
            _ => Seq::empty(),
        }
    }
}

/// The text of the error for a selection that is not a field.
pub open spec fn fragments_unsupported() -> Seq<char> {
    "Only fields can be selected."@
}

/// The text of the error for a definition that is not a selection set.
pub open spec fn operations_unsupported() -> Seq<char> {
    "Only selection sets can be queried."@
}

/// Appends `more` to `levels`.
fn extend_levels(levels: &mut Vec<PullLevel>, more: Vec<PullLevel>)
    ensures
        final(levels)@ == old(levels)@ + more@,
{
    let mut more = more;
    levels.append(&mut more);
}

/// Folds a selection set into pull levels: one for every selection set below the root
/// that pulls a field, the deepest first.
///
/// Fails as unsupported when an item, at any depth, is not a field.
pub fn selection_set_to_paths(
    selection_set: &Vec<Selection>,
    parent_path: &Vec<String>,
    at_root: bool,
) -> (result: Result<Vec<PullLevel>, Error>)
    ensures
        result is Ok == fields_only(selection_set@),
        result matches Ok(levels) ==> all_described(
            levels@,
            set_levels(selection_set@, texts(parent_path@), at_root),
        ),
        result matches Err(error) ==> error.says(unsupported(), fragments_unsupported()),
    decreases selection_set,
{
    let ghost parent = texts(parent_path@);
    let mut result: Vec<PullLevel> = Vec::new();
    let mut pull_attributes: Vec<String> = Vec::new();
    let mut i: usize = 0;
    proof {
        assert(selection_set@.subrange(0, 0) =~= Seq::<Selection>::empty());
        assert(texts(pull_attributes@) =~= Seq::<Seq<char>>::empty());
    }
    while i < selection_set.len()
        invariant
            i <= selection_set.len(),
            parent == texts(parent_path@),
            fields_only(selection_set@.subrange(0, i as int)),
            texts(pull_attributes@) == leaves(selection_set@.subrange(0, i as int)),
            all_described(result@, nested_levels(selection_set@.subrange(0, i as int), parent)),
        decreases selection_set.len() - i,
    {
        let ghost shorter = selection_set@.subrange(0, i as int);
        let ghost longer = selection_set@.subrange(0, i + 1);
        proof {
            assert(longer.drop_last() =~= shorter);
            assert(longer.last() == selection_set@[i as int]);
        }
        match &selection_set[i] {
            Selection::Field(field) => {
                if field.selection_set.len() == 0 {
                    let ghost before = texts(pull_attributes@);
                    pull_attributes.push(field.name.clone());
                    assert(texts(pull_attributes@) =~= before.push(field.name@));
                }
                let mut new_parent_path = clone_names(parent_path);
                new_parent_path.push(field.name.clone());
                assert(texts(new_parent_path@) =~= parent.push(field.name@));
                proof {
                    vstd::std_specs::vec::axiom_vec_index_decreases(*selection_set, i as int);
                    let ghost item = selection_set@[i as int];
                    assert(decreases_to!(item => item->Field_0));
                    assert(decreases_to!(field => field.selection_set));
                }
                let nested = match selection_set_to_paths(
                    &field.selection_set,
                    &new_parent_path,
                    parent_path.len() == 0,
                ) {
                    Ok(nested) => nested,
                    Err(error) => {
                        proof {
                            lemma_fields_only_prefix(selection_set@, i + 1);
                        }
                        return Err(error);
                    },
                };
                let ghost before = result@;
                extend_levels(&mut result, nested);
                proof {
                    let earlier = nested_levels(shorter, parent);
                    let below = set_levels(
                        field.selection_set@,
                        parent.push(field.name@),
                        parent.len() == 0,
                    );
                    assert(nested_levels(longer, parent) == earlier + below);
                    assert forall|k: int| 0 <= k < result@.len() implies describes(
                        #[trigger] result@[k],
                        (earlier + below)[k],
                    ) by {
                        if k < before.len() {
                            assert(result@[k] == before[k]);
                        } else {
                            assert(result@[k] == nested@[k - before.len()]);
                        }
                    }
                }
            },
            _ => {
                proof {
                    lemma_fields_only_prefix(selection_set@, i + 1);
                }
                return Err(Error::unsupported(String::from_str("Only fields can be selected.")));
            },
        }
        i += 1;
    }
    assert(selection_set@.subrange(0, selection_set.len() as int) =~= selection_set@);
    if pull_attributes.len() > 0 && parent_path.len() > 0 {
        let source = parent_path[parent_path.len() - 1].clone();
        assert(source@ == parent.last());
        let plan = if at_root {
            let mut variables: Vec<Var> = Vec::new();
            variables.push(0);
            variables.push(1);
            assert(variables@ =~= seq![0u32, 1u32]);
            Plan::NameExpr(variables, source)
        } else {
            Plan::MatchA(0, source, 1)
        };
        let level = PullLevel {
            variables: Vec::new(),
            plan: Box::new(plan),
            pull_attributes,
            path_attributes: clone_names(parent_path),
        };
        let ghost before = result@;
        result.push(level);
        proof {
            let nested = nested_levels(selection_set@, parent);
            let own = own_level(selection_set@, parent, at_root);
            assert forall|k: int| 0 <= k < result@.len() implies describes(
                #[trigger] result@[k],
                (nested + own)[k],
            ) by {
                if k < before.len() {
                    assert(result@[k] == before[k]);
                }
            }
        }
    } else {
        assert(nested_levels(selection_set@, parent) + own_level(selection_set@, parent, at_root)
            =~= nested_levels(selection_set@, parent));
    }
    Ok(result)
}

/// A list holds fields only if one of its prefixes does not.
proof fn lemma_fields_only_prefix(items: Seq<Selection>, n: int)
    requires
        0 <= n <= items.len(),
        !fields_only(items.subrange(0, n)),
    ensures
        !fields_only(items),
    decreases items.len() - n,
{
    if n < items.len() {
        let longer = items.subrange(0, n + 1);
        assert(longer.drop_last() =~= items.subrange(0, n));
        lemma_fields_only_prefix(items, n + 1);
    } else {
        assert(items.subrange(0, n) =~= items);
    }
}

/// A list of definitions holds selection sets of fields only if one of its prefixes
/// does not.
proof fn lemma_selections_only_prefix(definitions: Seq<Definition>, n: int)
    requires
        0 <= n <= definitions.len(),
        !selections_only(definitions.subrange(0, n)),
    ensures
        !selections_only(definitions),
    decreases definitions.len() - n,
{
    if n < definitions.len() {
        let longer = definitions.subrange(0, n + 1);
        assert(longer.drop_last() =~= definitions.subrange(0, n));
        lemma_selections_only_prefix(definitions, n + 1);
    } else {
        assert(definitions.subrange(0, n) =~= definitions);
    }
}

/// Converts a parsed query to pull levels: those of its selection sets, in order.
///
/// Fails as unsupported when a definition is not a selection set, or when an item of
/// one is not a field.
pub fn ast_to_paths(ast: &Document) -> (result: Result<Vec<PullLevel>, Error>)
    ensures
        result is Ok == selections_only(ast.definitions@),
        result matches Ok(levels) ==> all_described(levels@, document_levels(ast.definitions@)),
        result matches Err(error) ==> error.category@ == unsupported() && (error.message@
            == fragments_unsupported() || error.message@ == operations_unsupported()),
{
    let mut result: Vec<PullLevel> = Vec::new();
    let root: Vec<String> = Vec::new();
    let mut i: usize = 0;
    proof {
        assert(ast.definitions@.subrange(0, 0) =~= Seq::<Definition>::empty());
        assert(texts(root@) =~= Seq::<Seq<char>>::empty());
    }
    while i < ast.definitions.len()
        invariant
            i <= ast.definitions.len(),
            texts(root@) == Seq::<Seq<char>>::empty(),
            selections_only(ast.definitions@.subrange(0, i as int)),
            all_described(result@, document_levels(ast.definitions@.subrange(0, i as int))),
        decreases ast.definitions.len() - i,
    {
        let ghost shorter = ast.definitions@.subrange(0, i as int);
        let ghost longer = ast.definitions@.subrange(0, i + 1);
        proof {
            assert(longer.drop_last() =~= shorter);
            assert(longer.last() == ast.definitions@[i as int]);
        }
        match &ast.definitions[i] {
            Definition::SelectionSet(items) => {
                let levels = match selection_set_to_paths(items, &root, true) {
                    Ok(levels) => levels,
                    Err(error) => {
                        proof {
                            lemma_selections_only_prefix(ast.definitions@, i + 1);
                        }
                        return Err(error);
                    },
                };
                let ghost before = result@;
                extend_levels(&mut result, levels);
                proof {
                    let earlier = document_levels(shorter);
                    let more = set_levels(items@, Seq::empty(), true);
                    assert forall|k: int| 0 <= k < result@.len() implies describes(
                        #[trigger] result@[k],
                        (earlier + more)[k],
                    ) by {
                        if k < before.len() {
                            assert(result@[k] == before[k]);
                        } else {
                            assert(result@[k] == levels@[k - before.len()]);
                        }
                    }
                }
            },
            _ => {
                proof {
                    lemma_selections_only_prefix(ast.definitions@, i + 1);
                }
                return Err(
                    Error::unsupported(String::from_str("Only selection sets can be queried.")),
                );
            },
        }
        i += 1;
    }
    assert(ast.definitions@.subrange(0, ast.definitions.len() as int) =~= ast.definitions@);
    Ok(result)
}

/// The relations that the levels start from: the last name of the path of every
/// level at the root.
pub open spec fn root_relations(views: Seq<LevelView>) -> Set<Seq<char>>
    decreases views.len(),
{
    if views.len() == 0 {
        Set::empty()
    } else if views.last().root {
        root_relations(views.drop_last()).insert(views.last().source)
    } else {
        root_relations(views.drop_last())
    }
}

/// The attributes that the levels read: the last name of the path of every level
/// below the root, and every field that a level pulls.
pub open spec fn read_attributes(views: Seq<LevelView>) -> Set<Seq<char>>
    decreases views.len(),
{
    if views.len() == 0 {
        Set::empty()
    } else {
        let pulled = views.last().pull_attributes.to_set();
        let before = read_attributes(views.drop_last()).union(pulled);
        if views.last().root {
            before
        } else {
            before.insert(views.last().source)
        }
    }
}

/// What pull levels need is told by what describes them: they need the relations that
/// they start from and the attributes that they read.
pub proof fn lemma_described_needs(levels: Seq<PullLevel>, views: Seq<LevelView>)
    requires
        all_described(levels, views),
    ensures
        levels_names(levels) == root_relations(views),
        levels_attributes(levels) == read_attributes(views),
    decreases levels.len(),
{
    if levels.len() > 0 {
        let level = levels.last();
        let view = views.last();
        assert(describes(level, view));
        assert forall|i: int| 0 <= i < levels.drop_last().len() implies describes(
            #[trigger] levels.drop_last()[i],
            views.drop_last()[i],
        ) by {
            assert(describes(levels[i], views[i]));
        }
        lemma_described_needs(levels.drop_last(), views.drop_last());
        assert(crate::names::text_set(level.pull_attributes@) =~= view.pull_attributes.to_set());
        if view.root {
            assert(level_names(level) =~= Set::<Seq<char>>::empty().insert(view.source));
            assert(level_attributes(level) =~= view.pull_attributes.to_set());
        } else {
            assert(level_names(level) =~= Set::<Seq<char>>::empty());
            assert(level_attributes(level) =~= view.pull_attributes.to_set().insert(
                view.source,
            ));
        }
        assert(levels_names(levels) =~= root_relations(views));
        assert(levels_attributes(levels) =~= read_attributes(views));
    }
}

impl GraphQl {
    /// Folds a parsed query into the plan that it stands for.
    ///
    /// Fails as unsupported when the query holds anything but selection sets of
    /// fields.
    pub fn new(query: String, ast: &Document) -> (result: Result<GraphQl, Error>)
        ensures
            result is Ok == selections_only(ast.definitions@),
            result matches Ok(plan) ==> {
                &&& plan.query == query
                &&& all_described(plan.paths@, document_levels(ast.definitions@))
                &&& levels_names(plan.paths@) == root_relations(
                    document_levels(ast.definitions@),
                )
                &&& levels_attributes(plan.paths@) == read_attributes(
                    document_levels(ast.definitions@),
                )
            },
            result matches Err(error) ==> error.category@ == unsupported() && (error.message@
                == fragments_unsupported() || error.message@ == operations_unsupported()),
    {
        match ast_to_paths(ast) {
            Ok(paths) => {
                proof {
                    lemma_described_needs(paths@, document_levels(ast.definitions@));
                }
                Ok(GraphQl { query, paths })
            },
            Err(error) => Err(error),
        }
    }

    /// What has to be available before the query can be implemented: what any of the
    /// levels needs that the query was folded into. That is the relation of every
    /// field at the root, the attribute of every field below that has a selection of
    /// its own, and every field that is pulled.
    pub fn dependencies(&self) -> (deps: Dependencies)
        ensures
            deps.wf(),
            deps.name_set() == levels_names(self.paths@),
            deps.attribute_set() == levels_attributes(self.paths@),
    {
        levels_dependencies(&self.paths)
    }

    /// The pull expression that the query stands for: the union of its levels.
    pub fn implement(self) -> (pull: Pull)
        ensures
            pull.variables@.len() == 0,
            pull.paths == self.paths,
    {
        Pull { variables: Vec::new(), paths: self.paths }
    }
}

impl Implementable for GraphQl {
    open spec fn names(&self) -> Set<Seq<char>> {
        levels_names(self.paths@)
    }

    open spec fn attributes(&self) -> Set<Seq<char>> {
        levels_attributes(self.paths@)
    }

    fn dependencies(&self) -> (deps: Dependencies) {
        GraphQl::dependencies(self)
    }
}

} // verus!
