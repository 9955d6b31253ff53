//! Query plans: an algebra of relational operators over attributes and rules.

use crate::names::{contains, lemma_texts_empty, lemma_texts_push, text_set};
use crate::value::{texts, Aid, Eid, Value, Var};
use vstd::prelude::*;
use vstd::string::StringExecFns;

verus! {

/// An attribute that yields pairs for two variables.
#[derive(Debug, PartialEq, Eq, PartialOrd, Ord, Hash)]
pub struct Binding {
    /// The variables bound to the entity and to the value.
    pub symbols: (Var, Var),
    /// The attribute that yields the pairs.
    pub source: Aid,
}

impl Clone for Binding {
    fn clone(&self) -> (copy: Binding)
        ensures
            copy == *self,
    {
        Binding { symbols: (self.symbols.0, self.symbols.1), source: self.source.clone() }
    }
}

impl Binding {
    /// The binding of attribute `name` to the variables `e` and `v`.
    pub fn attribute(e: Var, name: &str, v: Var) -> (binding: Binding)
        ensures
            binding.symbols == (e, v),
            binding.source@ == name@,
    {
        Binding { symbols: (e, v), source: String::from_str(name) }
    }

    /// Whether the binding constrains `variable`.
    pub open spec fn mentions(&self, variable: Var) -> bool {
        self.symbols.0 == variable || self.symbols.1 == variable
    }
}

/// A plan stage projecting its source to only the specified variables.
#[derive(Debug)]
pub struct Project {
    /// Variables to keep.
    pub variables: Vec<Var>,
    /// Plan for the data source.
    pub plan: Box<Plan>,
}

/// Permitted aggregation functions.
#[derive(Clone, Copy, Debug, PartialEq, Eq, Structural, PartialOrd, Ord, Hash)]
pub enum AggregationFn {
    Min,
    Max,
    Median,
    Count,
    Sum,
    Avg,
    Variance,
}

/// A plan stage aggregating its source by key variables.
#[derive(Debug)]
pub struct Aggregate {
    /// Variables of the output.
    pub variables: Vec<Var>,
    /// Plan for the data source.
    pub plan: Box<Plan>,
    /// Functions to apply, one per aggregated variable.
    pub aggregation_fns: Vec<AggregationFn>,
    /// Variables to group by.
    pub key_variables: Vec<Var>,
}

/// A plan stage taking the union over its sources.
#[derive(Debug)]
pub struct Union {
    /// Variables of the output.
    pub variables: Vec<Var>,
    /// Plans for the data sources.
    pub plans: Vec<Plan>,
}

/// A plan stage joining two sources on the specified variables.
#[derive(Debug)]
pub struct Join {
    /// Variables to join on.
    pub variables: Vec<Var>,
    /// Plan for the left input.
    pub left_plan: Box<Plan>,
    /// Plan for the right input.
    pub right_plan: Box<Plan>,
}

/// A plan stage anti-joining two sources on the specified variables.
#[derive(Debug)]
pub struct Antijoin {
    /// Variables to join on.
    pub variables: Vec<Var>,
    /// Plan for the left input.
    pub left_plan: Box<Plan>,
    /// Plan for the right input.
    pub right_plan: Box<Plan>,
}

/// Permitted comparison predicates.
#[derive(Clone, Copy, Debug, PartialEq, Eq, Structural, PartialOrd, Ord, Hash)]
pub enum Predicate {
    Lt,
    Gt,
    Lte,
    Gte,
    Eq,
    Neq,
}

/// A plan stage filtering its source by a predicate.
#[derive(Debug)]
pub struct Filter {
    /// Variables the predicate is applied to.
    pub variables: Vec<Var>,
    /// The predicate.
    pub predicate: Predicate,
    /// Plan for the data source.
    pub plan: Box<Plan>,
    /// Constant operands, by argument position.
    pub constants: Vec<Option<Value>>,
}

/// Permitted functions.
#[derive(Clone, Copy, Debug, PartialEq, Eq, Structural, PartialOrd, Ord, Hash)]
pub enum Function {
    Truncate,
    Add,
    Subtract,
}

/// A plan stage extending its source by the result of a function.
#[derive(Debug)]
pub struct Transform {
    /// Variables the function is applied to.
    pub variables: Vec<Var>,
    /// Variable that receives the result.
    pub result_variable: Var,
    /// Plan for the data source.
    pub plan: Box<Plan>,
    /// The function.
    pub function: Function,
    /// Constant operands, by argument position.
    pub constants: Vec<Option<Value>>,
}

/// A worst-case-optimal join over attribute bindings.
#[derive(Debug)]
pub struct Hector {
    /// Variables of the output, in order.
    pub variables: Vec<Var>,
    /// Bindings to join.
    pub bindings: Vec<Binding>,
}

/// A plan stage extracting all matching [e a v] tuples for a set of attributes and an
/// input relation specifying entities.
#[derive(Debug)]
pub struct PullLevel {
    /// Variables of the output.
    pub variables: Vec<Var>,
    /// Plan for the input relation.
    pub plan: Box<Plan>,
    /// Attributes to pull for the input entities.
    pub pull_attributes: Vec<Aid>,
    /// Attribute names to distinguish plans of the same length.
    pub path_attributes: Vec<Aid>,
}

/// A plan stage for pull queries split into individual paths.
#[derive(Debug)]
pub struct Pull {
    /// Variables of the output.
    pub variables: Vec<Var>,
    /// Individual paths to pull.
    pub paths: Vec<PullLevel>,
}

/// Possible query plan types.
#[derive(Debug)]
pub enum Plan {
    /// Projection
    Project(Project),
    /// Aggregation
    Aggregate(Aggregate),
    /// Union
    Union(Union),
    /// Equijoin
    Join(Join),
    /// Worst-case-optimal join
    Hector(Hector),
    /// Antijoin
    Antijoin(Antijoin),
    /// Negation
    Negate(Box<Plan>),
    /// Filters bindings by one of the built-in predicates
    Filter(Filter),
    /// Transforms a binding by a function expression
    Transform(Transform),
    /// Data pattern of the form [?e a ?v]
    MatchA(Var, Aid, Var),
    /// Data pattern of the form [e a ?v]
    MatchEA(Eid, Aid, Var),
    /// Data pattern of the form [?e a v]
    MatchAV(Var, Aid, Value),
    /// Sources data from a query-local relation
    RuleExpr(Vec<Var>, String),
    /// Sources data from a published relation
    NameExpr(Vec<Var>, String),
    /// Pull expression
    Pull(Pull),
    /// Single-level pull expression
    PullLevel(PullLevel),
}

/// A named relation.
#[derive(Debug)]
pub struct Rule {
    /// The name identifying the relation.
    pub name: String,
    /// The plan describing contents of the relation.
    pub plan: Plan,
}

/// Creates a query plan that provides values for the target variables under the
/// constraints expressed by the bindings.
pub fn q(target_variables: Vec<Var>, bindings: Vec<Binding>) -> (plan: Plan)
    ensures
        plan == Plan::Hector(Hector { variables: target_variables, bindings }),
{
    Plan::Hector(Hector { variables: target_variables, bindings })
}

/// The rule names and the attributes that a plan needs, each held once.
#[derive(Debug)]
pub struct Dependencies {
    /// Names of the rules and published relations that are needed.
    pub names: Vec<String>,
    /// Attributes that are needed.
    pub attributes: Vec<Aid>,
}

/// Adds to `into` the names of `from` that it does not hold yet.
fn add_missing(into: &mut Vec<String>, from: &Vec<String>)
    requires
        texts(old(into)@).no_duplicates(),
    ensures
        texts(final(into)@).no_duplicates(),
        text_set(final(into)@) == text_set(old(into)@).union(text_set(from@)),
{
    let mut i: usize = 0;
    proof {
        lemma_texts_empty();
        assert(from@.subrange(0, 0) =~= Seq::<String>::empty());
        assert(text_set(into@) =~= text_set(old(into)@).union(text_set(from@.subrange(0, 0))));
    }
    while i < from.len()
        invariant
            i <= from.len(),
            texts(into@).no_duplicates(),
            text_set(into@) == text_set(old(into)@).union(text_set(from@.subrange(0, i as int))),
        decreases from.len() - i,
    {
        proof {
            lemma_texts_push(from@.subrange(0, i as int), from@[i as int]);
            assert(from@.subrange(0, i as int).push(from@[i as int]) =~= from@.subrange(
                0,
                i + 1,
            ));
        }
        if !contains(into, from[i].as_str()) {
            proof {
                lemma_texts_push(into@, from@[i as int]);
            }
            into.push(from[i].clone());
            assert(text_set(into@) =~= text_set(old(into)@).union(
                text_set(from@.subrange(0, i + 1)),
            ));
        } else {
            assert(text_set(into@) =~= text_set(old(into)@).union(
                text_set(from@.subrange(0, i + 1)),
            ));
        }
        i += 1;
    }
    assert(from@.subrange(0, from.len() as int) =~= from@);
}

impl Dependencies {
    /// The set of names that are needed.
    pub open spec fn name_set(&self) -> Set<Seq<char>> {
        text_set(self.names@)
    }

    /// The set of attributes that are needed.
    pub open spec fn attribute_set(&self) -> Set<Seq<char>> {
        text_set(self.attributes@)
    }

    /// No name and no attribute is listed twice.
    pub open spec fn wf(&self) -> bool {
        texts(self.names@).no_duplicates() && texts(self.attributes@).no_duplicates()
    }

    /// Nothing is needed.
    pub fn none() -> (deps: Dependencies)
        ensures
            deps.wf(),
            deps.name_set() == Set::<Seq<char>>::empty(),
            deps.attribute_set() == Set::<Seq<char>>::empty(),
    {
        proof {
            lemma_texts_empty();
        }
        Dependencies { names: Vec::new(), attributes: Vec::new() }
    }

    /// One rule or published relation is needed.
    pub fn name(name: &str) -> (deps: Dependencies)
        ensures
            deps.wf(),
            deps.name_set() == Set::<Seq<char>>::empty().insert(name@),
            deps.attribute_set() == Set::<Seq<char>>::empty(),
    {
        let mut names: Vec<String> = Vec::new();
        let owned = String::from_str(name);
        proof {
            lemma_texts_empty();
            lemma_texts_push(names@, owned);
        }
        names.push(owned);
        Dependencies { names, attributes: Vec::new() }
    }

    /// One attribute is needed.
    pub fn attribute(aid: &str) -> (deps: Dependencies)
        ensures
            deps.wf(),
            deps.name_set() == Set::<Seq<char>>::empty(),
            deps.attribute_set() == Set::<Seq<char>>::empty().insert(aid@),
    {
        let mut attributes: Vec<String> = Vec::new();
        let owned = String::from_str(aid);
        proof {
            lemma_texts_empty();
            lemma_texts_push(attributes@, owned);
        }
        attributes.push(owned);
        Dependencies { names: Vec::new(), attributes }
    }

    /// What either of two plans needs.
    pub fn merge(left: Dependencies, right: Dependencies) -> (deps: Dependencies)
        ensures
            deps.wf(),
            deps.name_set() == left.name_set().union(right.name_set()),
            deps.attribute_set() == left.attribute_set().union(right.attribute_set()),
    {
        let mut deps = Dependencies::none();
        add_missing(&mut deps.names, &left.names);
        add_missing(&mut deps.names, &right.names);
        add_missing(&mut deps.attributes, &left.attributes);
        add_missing(&mut deps.attributes, &right.attributes);
        assert(deps.name_set() =~= left.name_set().union(right.name_set()));
        assert(deps.attribute_set() =~= left.attribute_set().union(right.attribute_set()));
        deps
    }
}

/// The attributes that the bindings draw on.
pub open spec fn bindings_attributes(bindings: Seq<Binding>) -> Set<Seq<char>> {
    Set::new(
        |aid: Seq<char>| exists|i: int| 0 <= i < bindings.len() && bindings[i].source@ == aid,
    )
}

/// The rules and published relations that a plan refers to.
pub open spec fn plan_names(plan: Plan) -> Set<Seq<char>>
    decreases plan,
{
    match plan {
        Plan::Project(p) => plan_names(*p.plan),
        Plan::Aggregate(a) => plan_names(*a.plan),
        Plan::Union(u) => plans_names(u.plans@),
        Plan::Join(j) => plan_names(*j.left_plan).union(plan_names(*j.right_plan)),
        Plan::Hector(_) => Set::empty(),
        Plan::Antijoin(j) => plan_names(*j.left_plan).union(plan_names(*j.right_plan)),
        Plan::Negate(inner) => plan_names(*inner),
        Plan::Filter(f) => plan_names(*f.plan),
        Plan::Transform(t) => plan_names(*t.plan),
        Plan::MatchA(_, _, _) => Set::empty(),
        Plan::MatchEA(_, _, _) => Set::empty(),
        Plan::MatchAV(_, _, _) => Set::empty(),
        Plan::RuleExpr(_, name) => Set::empty().insert(name@),
        Plan::NameExpr(_, name) => Set::empty().insert(name@),
        Plan::Pull(p) => levels_names(p.paths@),
        Plan::PullLevel(level) => level_names(level),
    }
}

/// The rules and published relations that a pull level refers to: those of its input.
pub open spec fn level_names(level: PullLevel) -> Set<Seq<char>>
    decreases level,
{
    plan_names(*level.plan)
}

/// The rules and published relations that any of the pull levels refers to.
pub open spec fn levels_names(levels: Seq<PullLevel>) -> Set<Seq<char>>
    decreases levels,
{
    if levels.len() == 0 {
        Set::empty()
    } else {
        levels_names(levels.drop_last()).union(level_names(levels.last()))
    }
}

/// The rules and published relations that any of the plans refers to.
pub open spec fn plans_names(plans: Seq<Plan>) -> Set<Seq<char>>
    decreases plans,
{
    if plans.len() == 0 {
        Set::empty()
    } else {
        plans_names(plans.drop_last()).union(plan_names(plans.last()))
    }
}

/// The attributes that a plan reads.
pub open spec fn plan_attributes(plan: Plan) -> Set<Seq<char>>
    decreases plan,
{
    match plan {
        Plan::Project(p) => plan_attributes(*p.plan),
        Plan::Aggregate(a) => plan_attributes(*a.plan),
        Plan::Union(u) => plans_attributes(u.plans@),
        Plan::Join(j) => plan_attributes(*j.left_plan).union(plan_attributes(*j.right_plan)),
        Plan::Hector(h) => bindings_attributes(h.bindings@),
        Plan::Antijoin(j) => plan_attributes(*j.left_plan).union(
            plan_attributes(*j.right_plan),
        ),
        Plan::Negate(inner) => plan_attributes(*inner),
        Plan::Filter(f) => plan_attributes(*f.plan),
        Plan::Transform(t) => plan_attributes(*t.plan),
        Plan::MatchA(_, aid, _) => Set::empty().insert(aid@),
        Plan::MatchEA(_, aid, _) => Set::empty().insert(aid@),
        Plan::MatchAV(_, aid, _) => Set::empty().insert(aid@),
        Plan::RuleExpr(_, _) => Set::empty(),
        Plan::NameExpr(_, _) => Set::empty(),
        Plan::Pull(p) => levels_attributes(p.paths@),
        Plan::PullLevel(level) => level_attributes(level),
    }
}

/// The attributes that a pull level reads: those that its input reads, and those that
/// it pulls.
pub open spec fn level_attributes(level: PullLevel) -> Set<Seq<char>>
    decreases level,
{
    plan_attributes(*level.plan).union(text_set(level.pull_attributes@))
}

/// The attributes that any of the pull levels reads.
pub open spec fn levels_attributes(levels: Seq<PullLevel>) -> Set<Seq<char>>
    decreases levels,
{
    if levels.len() == 0 {
        Set::empty()
    } else {
        levels_attributes(levels.drop_last()).union(level_attributes(levels.last()))
    }
}

/// The attributes that any of the plans reads.
pub open spec fn plans_attributes(plans: Seq<Plan>) -> Set<Seq<char>>
    decreases plans,
{
    if plans.len() == 0 {
        Set::empty()
    } else {
        plans_attributes(plans.drop_last()).union(plan_attributes(plans.last()))
    }
}

impl Hector {
    /// The attributes of the bindings, each once.
    pub fn dependencies(&self) -> (deps: Dependencies)
        ensures
            deps.wf(),
            deps.name_set() == Set::<Seq<char>>::empty(),
            deps.attribute_set() == bindings_attributes(self.bindings@),
    {
        let mut deps = Dependencies::none();
        let mut i: usize = 0;
        assert(deps.attribute_set() =~= bindings_attributes(self.bindings@.subrange(0, 0)));
        while i < self.bindings.len()
            invariant
                i <= self.bindings.len(),
                deps.wf(),
                deps.name_set() == Set::<Seq<char>>::empty(),
                deps.attribute_set() == bindings_attributes(self.bindings@.subrange(0, i as int)),
            decreases self.bindings.len() - i,
        {
            let ghost before = deps.attribute_set();
            let ghost source = self.bindings@[i as int].source@;
            if !contains(&deps.attributes, self.bindings[i].source.as_str()) {
                proof {
                    lemma_texts_push(deps.attributes@, self.bindings@[i as int].source);
                }
                deps.attributes.push(self.bindings[i].source.clone());
            }
            proof {
                let shorter = self.bindings@.subrange(0, i as int);
                let longer = self.bindings@.subrange(0, i + 1);
                assert(deps.attribute_set() =~= before.insert(source));
                assert forall|aid: Seq<char>|
                    bindings_attributes(longer).contains(aid) == before.insert(source).contains(
                        aid,
                    ) by {
                    if bindings_attributes(longer).contains(aid) {
                        let k = choose|k: int| 0 <= k < longer.len() && longer[k].source@ == aid;
                        if k < i {
                            assert(shorter[k].source@ == aid);
                        }
                    }
                    if before.contains(aid) {
                        let k = choose|k: int|
                            0 <= k < shorter.len() && shorter[k].source@ == aid;
                        assert(longer[k].source@ == aid);
                    }
                    if aid == source {
                        assert(longer[i as int].source@ == aid);
                    }
                }
                assert(deps.attribute_set() =~= bindings_attributes(longer));
            }
            i += 1;
        }
        assert(self.bindings@.subrange(0, self.bindings.len() as int) =~= self.bindings@);
        deps
    }
}

impl Plan {
    /// The rules and attributes that have to be available before this plan can be
    /// implemented.
    pub fn dependencies(&self) -> (deps: Dependencies)
        ensures
            deps.wf(),
            deps.name_set() == plan_names(*self),
            deps.attribute_set() == plan_attributes(*self),
        decreases self,
    {
        match self {
            Plan::Project(p) => p.plan.dependencies(),
            Plan::Aggregate(a) => a.plan.dependencies(),
            Plan::Union(u) => {
                let mut deps = Dependencies::none();
                let mut i: usize = 0;
                assert(u.plans@.subrange(0, 0) =~= Seq::<Plan>::empty());
                while i < u.plans.len()
                    invariant
                        i <= u.plans.len(),
                        *self == Plan::Union(*u),
                        deps.wf(),
                        deps.name_set() == plans_names(u.plans@.subrange(0, i as int)),
                        deps.attribute_set() == plans_attributes(u.plans@.subrange(0, i as int)),
                    decreases u.plans.len() - i,
                {
                    proof {
                        vstd::std_specs::vec::axiom_vec_index_decreases(u.plans, i as int);
                        assert(decreases_to!(*self => self->Union_0));
                    }
                    let next = u.plans[i].dependencies();
                    proof {
                        let longer = u.plans@.subrange(0, i + 1);
                        assert(longer.drop_last() =~= u.plans@.subrange(0, i as int));
                        assert(longer.last() == u.plans@[i as int]);
                    }
                    deps = Dependencies::merge(deps, next);
                    i += 1;
                }
                assert(u.plans@.subrange(0, u.plans.len() as int) =~= u.plans@);
                deps
            },
            Plan::Join(j) => Dependencies::merge(
                j.left_plan.dependencies(),
                j.right_plan.dependencies(),
            ),
            Plan::Hector(h) => h.dependencies(),
            Plan::Antijoin(j) => Dependencies::merge(
                j.left_plan.dependencies(),
                j.right_plan.dependencies(),
            ),
            Plan::Negate(inner) => inner.dependencies(),
            Plan::Filter(f) => f.plan.dependencies(),
            Plan::Transform(t) => t.plan.dependencies(),
            Plan::MatchA(_, aid, _) => Dependencies::attribute(aid.as_str()),
            Plan::MatchEA(_, aid, _) => Dependencies::attribute(aid.as_str()),
            Plan::MatchAV(_, aid, _) => Dependencies::attribute(aid.as_str()),
            Plan::RuleExpr(_, name) => Dependencies::name(name.as_str()),
            Plan::NameExpr(_, name) => Dependencies::name(name.as_str()),
            Plan::Pull(p) => p.dependencies(),
            Plan::PullLevel(level) => level.dependencies(),
        }
    }
}

/// The variables that a plan declares: those of its output, and for a filter or a
/// transform those that the predicate or the function is applied to.
pub open spec fn plan_variables(plan: Plan) -> Seq<Var>
    decreases plan,
{
    match plan {
        Plan::Project(p) => p.variables@,
        Plan::Aggregate(a) => a.variables@,
        Plan::Union(u) => u.variables@,
        Plan::Join(j) => j.variables@,
        Plan::Hector(h) => h.variables@,
        Plan::Antijoin(j) => j.variables@,
        Plan::Negate(inner) => plan_variables(*inner),
        Plan::Filter(f) => f.variables@,
        Plan::Transform(t) => t.variables@,
        Plan::MatchA(e, _, v) => seq![e, v],
        Plan::MatchEA(_, _, v) => seq![v],
        Plan::MatchAV(e, _, _) => seq![e],
        Plan::RuleExpr(variables, _) => variables@,
        Plan::NameExpr(variables, _) => variables@,
        Plan::Pull(p) => p.variables@,
        Plan::PullLevel(p) => p.variables@,
    }
}

/// Whether a plan can be turned into bindings for the worst-case-optimal join: it is a
/// pattern over an attribute with both positions variable, or such a join already.
pub open spec fn bindable(plan: Plan) -> bool {
    plan is MatchA || plan is Hector
}

/// The bindings that a bindable plan stands for.
pub open spec fn plan_bindings(plan: Plan) -> Seq<Binding> {
    match plan {
        Plan::MatchA(e, aid, v) => seq![Binding { symbols: (e, v), source: aid }],
        Plan::Hector(h) => h.bindings@,
        _ => Seq::empty(),
    }
}

/// Copies a list of variables.
pub fn clone_variables(variables: &Vec<Var>) -> (copy: Vec<Var>)
    ensures
        copy@ == variables@,
{
    let mut copy: Vec<Var> = Vec::new();
    let mut i: usize = 0;
    while i < variables.len()
        invariant
            i <= variables.len(),
            copy@ == variables@.subrange(0, i as int),
        decreases variables.len() - i,
    {
        copy.push(variables[i]);
        assert(copy@ =~= variables@.subrange(0, i + 1));
        i += 1;
    }
    assert(variables@.subrange(0, variables.len() as int) =~= variables@);
    copy
}

impl Plan {
    /// The variables that the plan declares: those of its output, and for a filter or
    /// a transform those that the predicate or the function is applied to.
    pub fn variables(&self) -> (variables: Vec<Var>)
        ensures
            variables@ == plan_variables(*self),
        decreases self,
    {
        match self {
            Plan::Project(p) => clone_variables(&p.variables),
            Plan::Aggregate(a) => clone_variables(&a.variables),
            Plan::Union(u) => clone_variables(&u.variables),
            Plan::Join(j) => clone_variables(&j.variables),
            Plan::Hector(h) => clone_variables(&h.variables),
            Plan::Antijoin(j) => clone_variables(&j.variables),
            Plan::Negate(inner) => inner.variables(),
            Plan::Filter(f) => clone_variables(&f.variables),
            Plan::Transform(t) => clone_variables(&t.variables),
            Plan::MatchA(e, _, v) => {
                let mut variables: Vec<Var> = Vec::new();
                variables.push(*e);
                variables.push(*v);
                assert(variables@ =~= seq![*e, *v]);
                variables
            },
            Plan::MatchEA(_, _, v) => {
                let mut variables: Vec<Var> = Vec::new();
                variables.push(*v);
                assert(variables@ =~= seq![*v]);
                variables
            },
            Plan::MatchAV(e, _, _) => {
                let mut variables: Vec<Var> = Vec::new();
                variables.push(*e);
                assert(variables@ =~= seq![*e]);
                variables
            },
            Plan::RuleExpr(variables, _) => clone_variables(variables),
            Plan::NameExpr(variables, _) => clone_variables(variables),
            Plan::Pull(p) => clone_variables(&p.variables),
            Plan::PullLevel(p) => clone_variables(&p.variables),
        }
    }

    /// Whether the plan can be turned into bindings.
    pub fn can_bind(&self) -> (possible: bool)
        ensures
            possible == bindable(*self),
    {
        match self {
            Plan::MatchA(_, _, _) => true,
            Plan::Hector(_) => true,
            _ => false,
        }
    }

    /// Transforms the plan into an equivalent set of bindings that the
    /// worst-case-optimal join can unify.
    pub fn into_bindings(&self) -> (bindings: Vec<Binding>)
        requires
            bindable(*self),
        ensures
            bindings@ == plan_bindings(*self),
    {
        let mut bindings: Vec<Binding> = Vec::new();
        match self {
            Plan::MatchA(e, aid, v) => {
                bindings.push(Binding { symbols: (*e, *v), source: aid.clone() });
                assert(bindings@ =~= plan_bindings(*self));
            },
            Plan::Hector(h) => {
                let mut i: usize = 0;
                while i < h.bindings.len()
                    invariant
                        i <= h.bindings.len(),
                        bindings@ == h.bindings@.subrange(0, i as int),
                    decreases h.bindings.len() - i,
                {
                    bindings.push(h.bindings[i].clone());
                    assert(bindings@ =~= h.bindings@.subrange(0, i + 1));
                    i += 1;
                }
                assert(h.bindings@.subrange(0, h.bindings.len() as int) =~= h.bindings@);
            },
            _ => {},
        }
        bindings
    }
}

/// A type that can be implemented as a simple relation.
pub trait Implementable {
    /// The rules and published relations that have to be available before this can be
    /// implemented.
    spec fn names(&self) -> Set<Seq<char>>;

    /// The attributes that have to exist before this can be implemented.
    spec fn attributes(&self) -> Set<Seq<char>>;

    /// Returns the names of the rules and of the attributes that need to be available
    /// before implementing this one, each once.
    fn dependencies(&self) -> (deps: Dependencies)
        ensures
            deps.wf(),
            deps.name_set() == self.names(),
            deps.attribute_set() == self.attributes(),
    ;
}

impl Implementable for Plan {
    open spec fn names(&self) -> Set<Seq<char>> {
        plan_names(*self)
    }

    open spec fn attributes(&self) -> Set<Seq<char>> {
        plan_attributes(*self)
    }

    fn dependencies(&self) -> (deps: Dependencies) {
        Plan::dependencies(self)
    }
}

impl Implementable for Hector {
    open spec fn names(&self) -> Set<Seq<char>> {
        Set::empty()
    }

    open spec fn attributes(&self) -> Set<Seq<char>> {
        bindings_attributes(self.bindings@)
    }

    fn dependencies(&self) -> (deps: Dependencies) {
        Hector::dependencies(self)
    }
}

} // verus!
