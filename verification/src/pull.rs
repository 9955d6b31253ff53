//! Pull expressions: tuples that carry the path along which a value was reached.

use crate::names::{clone_names, lemma_texts_empty};
use crate::plan::{
    level_attributes, level_names, levels_attributes, levels_names, Dependencies, Implementable,
    Pull, PullLevel,
};
use crate::time::{advanced, lattice_advance_by, Time};
use crate::value::{clone_tuple, texts, views, Aid, Value, ValueView};
use vstd::prelude::*;

verus! {

/// A plan for GraphQL queries, e.g. `{ Heroes { name age weight } }`
#[derive(Debug)]
pub struct GraphQl {
    /// String representation of GraphQL query
    pub query: String,
    /// The pull levels that the query was folded into, one per path.
    pub paths: Vec<PullLevel>,
}

/// `values` with an attribute in front of each: constant, value, constant, value, and
/// so on. With no value or no constant, the values alone.
pub open spec fn interleaved(values: Seq<ValueView>, constants: Seq<Seq<char>>) -> Seq<
    ValueView,
> {
    if values.len() == 0 || constants.len() == 0 {
        values
    } else {
        Seq::new(
            values.len() + constants.len(),
            |i: int|
                if i % 2 == 0 {
                    ValueView::Aid(constants[i / 2])
                } else {
                    values[i / 2]
                },
        )
    }
}

/// Whether `constants` can label `values`: there is one constant for each value, or one
/// more.
pub open spec fn labels(values: nat, constants: nat) -> bool {
    values == 0 || constants == 0 || constants == values || constants == values + 1
}

/// Interleaves the attributes of a path between the values of a tuple.
pub fn interleave(values: &Vec<Value>, constants: &Vec<Aid>) -> (result: Vec<Value>)
    requires
        labels(values@.len(), constants@.len()),
    ensures
        views(result@) == interleaved(views(values@), texts(constants@)),
{
    if values.len() == 0 || constants.len() == 0 {
        clone_tuple(values)
    } else {
        let mut result: Vec<Value> = Vec::new();
        let mut i: usize = 0;
        while i < constants.len()
            invariant
                i <= constants.len(),
                constants@.len() == values@.len() || constants@.len() == values@.len() + 1,
                result@.len() == if i <= values@.len() {
                    2 * (i as int)
                } else {
                    2 * (values@.len() as int) + 1
                },
                forall|j: int|
                    0 <= j < result@.len() ==> #[trigger] result@[j]@ == if j % 2 == 0 {
                        ValueView::Aid(constants@[j / 2]@)
                    } else {
                        values@[j / 2]@
                    },
            decreases constants.len() - i,
        {
            result.push(Value::Aid(constants[i].clone()));
            if i < values.len() {
                result.push(values[i].clone());
            }
            i += 1;
        }
        assert(views(result@) =~= interleaved(views(values@), texts(constants@)));
        result
    }
}

/// What a pull level does with the tuples of its input.
#[derive(Clone, Copy, Debug, PartialEq, Eq, Structural)]
pub enum Pulling {
    /// Nothing is pulled and no path is given: the input passes through.
    Nothing,
    /// No attribute is pulled: each tuple is interleaved with the path.
    Path,
    /// Each pulled attribute contributes, for each tuple, the values found under the
    /// tuple's last entity.
    Attributes,
}

impl PullLevel {
    /// What has to be available before the level can be implemented: what its input
    /// needs, and the attributes that it pulls.
    pub fn dependencies(&self) -> (deps: Dependencies)
        ensures
            deps.wf(),
            deps.name_set() == level_names(*self),
            deps.attribute_set() == level_attributes(*self),
        decreases self,
    {
        let input = self.plan.dependencies();
        let pulled = Dependencies {
            names: Vec::new(),
            attributes: clone_names(&self.pull_attributes),
        };
        proof {
            lemma_texts_empty();
        }
        let deps = Dependencies::merge(input, pulled);
        assert(deps.name_set() =~= level_names(*self));
        deps
    }

    /// What the level does with the tuples of its input.
    pub fn pulling(&self) -> (pulling: Pulling)
        ensures
            pulling == if self.pull_attributes@.len() > 0 {
                Pulling::Attributes
            } else if self.path_attributes@.len() > 0 {
                Pulling::Path
            } else {
                Pulling::Nothing
            },
    {
        if self.pull_attributes.len() > 0 {
            Pulling::Attributes
        } else if self.path_attributes.len() > 0 {
            Pulling::Path
        } else {
            Pulling::Nothing
        }
    }

    /// The entity under which the attributes of a path are looked up: its last value.
    pub fn entity(path: &Vec<Value>) -> (entity: Value)
        requires
            path@.len() > 0,
        ensures
            entity@ == path@.last()@,
    {
        path[path.len() - 1].clone()
    }

    /// The tuple emitted for `value` found under `attribute` for the last entity of
    /// `path`: the path interleaved with the path attributes, then the attribute, then
    /// the value. A path of as many values as there are path attributes comes out with
    /// twice as many values and two more; the output names no variables, its positions
    /// are told by this layout alone.
    pub fn pulled(&self, path: &Vec<Value>, attribute: &Aid, value: &Value) -> (result: Vec<
        Value,
    >)
        requires
            labels(path@.len(), self.path_attributes@.len()),
        ensures
            views(result@) == interleaved(views(path@), texts(self.path_attributes@)).push(
                ValueView::Aid(attribute@),
            ).push(value@),
    {
        let mut result = interleave(path, &self.path_attributes);
        let ghost inner = views(result@);
        result.push(Value::Aid(attribute.clone()));
        result.push(value.clone());
        assert(views(result@) =~= inner.push(ValueView::Aid(attribute@)).push(value@));
        result
    }

    /// The time at which an update of a pulled attribute enters the iteration: its own
    /// time advanced by the frontier to which the attribute has been compacted, at
    /// round 0. Values are so not replayed at times that compaction has passed.
    pub fn entered_at(time: Time, frontier: &Vec<Time>) -> (entered: (Time, u64))
        ensures
            entered == (advanced(time, frontier@), 0u64),
    {
        (lattice_advance_by(time, frontier), 0)
    }
}

/// What any of the pull levels needs.
pub fn levels_dependencies(levels: &Vec<PullLevel>) -> (deps: Dependencies)
    ensures
        deps.wf(),
        deps.name_set() == levels_names(levels@),
        deps.attribute_set() == levels_attributes(levels@),
    decreases levels,
{
    let mut deps = Dependencies::none();
    let mut i: usize = 0;
    assert(levels@.subrange(0, 0) =~= Seq::<PullLevel>::empty());
    while i < levels.len()
        invariant
            i <= levels.len(),
            deps.wf(),
            deps.name_set() == levels_names(levels@.subrange(0, i as int)),
            deps.attribute_set() == levels_attributes(levels@.subrange(0, i as int)),
        decreases levels.len() - i,
    {
        proof {
            vstd::std_specs::vec::axiom_vec_index_decreases(*levels, i as int);
            let longer = levels@.subrange(0, i + 1);
            assert(longer.drop_last() =~= levels@.subrange(0, i as int));
            assert(longer.last() == levels@[i as int]);
        }
        let next = levels[i].dependencies();
        deps = Dependencies::merge(deps, next);
        i += 1;
    }
    assert(levels@.subrange(0, levels.len() as int) =~= levels@);
    deps
}

impl Pull {
    /// What has to be available before the pull can be implemented: what any of its
    /// paths needs.
    pub fn dependencies(&self) -> (deps: Dependencies)
        ensures
            deps.wf(),
            deps.name_set() == levels_names(self.paths@),
            deps.attribute_set() == levels_attributes(self.paths@),
        decreases self,
    {
        levels_dependencies(&self.paths)
    }
}

impl Implementable for PullLevel {
    open spec fn names(&self) -> Set<Seq<char>> {
        level_names(*self)
    }

    open spec fn attributes(&self) -> Set<Seq<char>> {
        level_attributes(*self)
    }

    fn dependencies(&self) -> (deps: Dependencies) {
        PullLevel::dependencies(self)
    }
}

impl Implementable for Pull {
    open spec fn names(&self) -> Set<Seq<char>> {
        levels_names(self.paths@)
    }

    open spec fn attributes(&self) -> Set<Seq<char>> {
        levels_attributes(self.paths@)
    }

    fn dependencies(&self) -> (deps: Dependencies) {
        Pull::dependencies(self)
    }
}

} // verus!
