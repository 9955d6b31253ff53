//! Lowering of a plan: what it reads, and the tuples that its patterns produce.

use crate::error::{conflict, frame, framed, not_found, Error};
use crate::hector::{first_unbound, unbound_variable};
use crate::names::{contains, text_set};
use crate::plan::{Binding, Plan, PullLevel};
use crate::rules::ImplContext;
use crate::value::{texts, Eid, Value, ValueView, Var};
use vstd::prelude::*;
use vstd::string::StringExecFns;

verus! {

/// One of the three arrangements of an index.
#[derive(Clone, Copy, Debug, PartialEq, Eq, Structural)]
pub enum Trace {
    /// Keys alone: counts the extensions of a key.
    Count,
    /// Keys with their values: proposes the extensions of a key.
    Propose,
    /// Pairs of key and value: validates a proposed extension.
    Validate,
}

/// Something that the dataflow of a plan reads.
#[derive(Debug)]
pub enum Source {
    /// A trace of the index from entity to value of an attribute.
    Forward(String, Trace),
    /// A trace of the index from value to entity of an attribute.
    Reverse(String, Trace),
    /// The trace of a published relation.
    Relation(String),
    /// The recursive variable of a rule that is being lowered with the plan.
    Local(String),
}

/// What a [`Source`] stands for.
pub enum SourceView {
    Forward(Seq<char>, Trace),
    Reverse(Seq<char>, Trace),
    Relation(Seq<char>),
    Local(Seq<char>),
}

impl View for Source {
    type V = SourceView;

    open spec fn view(&self) -> SourceView {
        match *self {
            Source::Forward(aid, trace) => SourceView::Forward(aid@, trace),
            Source::Reverse(aid, trace) => SourceView::Reverse(aid@, trace),
            Source::Relation(name) => SourceView::Relation(name@),
            Source::Local(name) => SourceView::Local(name@),
        }
    }
}

impl Source {
    /// Whether the source is imported from outside the dataflow that is being built,
    /// at a site that hands out a shutdown button.
    pub fn is_import(&self) -> (imported: bool)
        ensures
            imported == !(self@ is Local),
    {
        match self {
            Source::Local(_) => false,
            _ => true,
        }
    }
}

/// The views of a list of sources, position by position.
pub open spec fn source_views(sources: Seq<Source>) -> Seq<SourceView> {
    Seq::new(sources.len(), |i: int| sources[i]@)
}

/// Whether a source is at hand: the attribute exists, the relation is published, the
/// rule has a recursive variable.
pub open spec fn at_hand(
    source: SourceView,
    attributes: Set<Seq<char>>,
    relations: Set<Seq<char>>,
    local: Set<Seq<char>>,
) -> bool {
    match source {
        SourceView::Forward(aid, _) => attributes.contains(aid),
        SourceView::Reverse(aid, _) => attributes.contains(aid),
        SourceView::Relation(name) => relations.contains(name),
        SourceView::Local(name) => local.contains(name),
    }
}

/// Whether every one of the sources is at hand.
pub open spec fn all_at_hand(
    sources: Seq<SourceView>,
    attributes: Set<Seq<char>>,
    relations: Set<Seq<char>>,
    local: Set<Seq<char>>,
) -> bool {
    forall|i: int|
        0 <= i < sources.len() ==> at_hand(#[trigger] sources[i], attributes, relations, local)
}

/// `error` is the not-found error about the first of the sources that is not at hand.
pub open spec fn reports_absent(
    sources: Seq<SourceView>,
    attributes: Set<Seq<char>>,
    relations: Set<Seq<char>>,
    local: Set<Seq<char>>,
    error: Error,
) -> bool {
    exists|i: int|
        #![trigger sources[i]]
        {
            &&& 0 <= i < sources.len()
            &&& !at_hand(sources[i], attributes, relations, local)
            &&& forall|j: int|
                0 <= j < i ==> at_hand(#[trigger] sources[j], attributes, relations, local)
            &&& error.says(not_found(), absent(sources[i]))
        }
}

/// The text of the error for a source that is not at hand.
pub open spec fn absent(source: SourceView) -> Seq<char> {
    match source {
        SourceView::Forward(aid, _) => framed("Attribute "@, aid, " does not exist."@),
        SourceView::Reverse(aid, _) => framed("Attribute "@, aid, " does not exist."@),
        SourceView::Relation(name) => framed("Relation "@, name, " is not published."@),
        SourceView::Local(name) => framed("Rule "@, name, " is not being lowered."@),
    }
}

/// What the join over the bindings reads: for each binding, in order, the three traces
/// of the forward index of its attribute, then those of the reverse index.
pub open spec fn bindings_sources(bindings: Seq<Binding>) -> Seq<SourceView>
    decreases bindings.len(),
{
    if bindings.len() == 0 {
        Seq::empty()
    } else {
        bindings_sources(bindings.drop_last()) + binding_sources(bindings.last().source@)
    }
}

/// The six traces of an attribute: count, propose and validate of the forward index,
/// then of the reverse index.
pub open spec fn binding_sources(aid: Seq<char>) -> Seq<SourceView> {
    seq![
        SourceView::Forward(aid, Trace::Count),
        SourceView::Forward(aid, Trace::Propose),
        SourceView::Forward(aid, Trace::Validate),
        SourceView::Reverse(aid, Trace::Count),
        SourceView::Reverse(aid, Trace::Propose),
        SourceView::Reverse(aid, Trace::Validate),
    ]
}

/// What pulling the attributes reads: for each, in order, the proposals of its forward
/// index.
pub open spec fn pulled_sources(attributes: Seq<Seq<char>>) -> Seq<SourceView> {
    Seq::new(attributes.len(), |i: int| SourceView::Forward(attributes[i], Trace::Propose))
}

/// What the dataflow of a plan reads, in the order in which the plan is lowered.
pub open spec fn plan_sources(plan: Plan) -> Seq<SourceView>
    decreases plan,
{
    match plan {
        Plan::Project(p) => plan_sources(*p.plan),
        Plan::Aggregate(a) => plan_sources(*a.plan),
        Plan::Union(u) => plans_sources(u.plans@),
        Plan::Join(j) => plan_sources(*j.left_plan) + plan_sources(*j.right_plan),
        Plan::Hector(h) => bindings_sources(h.bindings@),
        Plan::Antijoin(j) => plan_sources(*j.left_plan) + plan_sources(*j.right_plan),
        Plan::Negate(inner) => plan_sources(*inner),
        Plan::Filter(f) => plan_sources(*f.plan),
        Plan::Transform(t) => plan_sources(*t.plan),
        Plan::MatchA(_, aid, _) => seq![SourceView::Forward(aid@, Trace::Validate)],
        Plan::MatchEA(_, aid, _) => seq![SourceView::Forward(aid@, Trace::Propose)],
        Plan::MatchAV(_, aid, _) => seq![SourceView::Reverse(aid@, Trace::Propose)],
        Plan::RuleExpr(_, name) => seq![SourceView::Local(name@)],
        Plan::NameExpr(_, name) => seq![SourceView::Relation(name@)],
        Plan::Pull(p) => levels_sources(p.paths@),
        Plan::PullLevel(level) => level_sources(level),
    }
}

/// What the dataflows of the plans read, one plan after the other.
pub open spec fn plans_sources(plans: Seq<Plan>) -> Seq<SourceView>
    decreases plans,
{
    if plans.len() == 0 {
        Seq::empty()
    } else {
        plans_sources(plans.drop_last()) + plan_sources(plans.last())
    }
}

/// What the dataflow of a pull level reads: what its input reads, then the proposals
/// of every pulled attribute.
pub open spec fn level_sources(level: PullLevel) -> Seq<SourceView>
    decreases level,
{
    plan_sources(*level.plan) + pulled_sources(texts(level.pull_attributes@))
}

/// What the dataflows of the pull levels read, one level after the other.
pub open spec fn levels_sources(levels: Seq<PullLevel>) -> Seq<SourceView>
    decreases levels,
{
    if levels.len() == 0 {
        Seq::empty()
    } else {
        levels_sources(levels.drop_last()) + level_sources(levels.last())
    }
}

/// The first of two findings, or the second where the first is none.
pub open spec fn or_else(first: Option<Var>, second: Option<Var>) -> Option<Var> {
    match first {
        Some(variable) => Some(variable),
        None => second,
    }
}

/// The first variable that no binding mentions of the first join in the plan that has
/// such a variable, in the order in which the plan is lowered. None if every variable
/// of every join in the plan is mentioned by a binding of the join.
pub open spec fn plan_unbound(plan: Plan) -> Option<Var>
    decreases plan,
{
    match plan {
        Plan::Project(p) => plan_unbound(*p.plan),
        Plan::Aggregate(a) => plan_unbound(*a.plan),
        Plan::Union(u) => plans_unbound(u.plans@),
        Plan::Join(j) => or_else(plan_unbound(*j.left_plan), plan_unbound(*j.right_plan)),
        Plan::Hector(h) => first_unbound(h.bindings@, h.variables@, 0),
        Plan::Antijoin(j) => or_else(plan_unbound(*j.left_plan), plan_unbound(*j.right_plan)),
        Plan::Negate(inner) => plan_unbound(*inner),
        Plan::Filter(f) => plan_unbound(*f.plan),
        Plan::Transform(t) => plan_unbound(*t.plan),
        Plan::MatchA(_, _, _) => None,
        Plan::MatchEA(_, _, _) => None,
        Plan::MatchAV(_, _, _) => None,
        Plan::RuleExpr(_, _) => None,
        Plan::NameExpr(_, _) => None,
        Plan::Pull(p) => levels_unbound(p.paths@),
        Plan::PullLevel(level) => level_unbound(level),
    }
}

/// The first unbound variable of the first of the plans that has one.
pub open spec fn plans_unbound(plans: Seq<Plan>) -> Option<Var>
    decreases plans,
{
    if plans.len() == 0 {
        None
    } else {
        or_else(plans_unbound(plans.drop_last()), plan_unbound(plans.last()))
    }
}

/// The first unbound variable of the input of a pull level.
pub open spec fn level_unbound(level: PullLevel) -> Option<Var>
    decreases level,
{
    plan_unbound(*level.plan)
}

/// The first unbound variable of the first of the pull levels that has one.
pub open spec fn levels_unbound(levels: Seq<PullLevel>) -> Option<Var>
    decreases levels,
{
    if levels.len() == 0 {
        None
    } else {
        or_else(levels_unbound(levels.drop_last()), level_unbound(levels.last()))
    }
}

/// Whether a plan can be lowered: everything that it reads is at hand, and every
/// variable of every join in it is mentioned by a binding of the join.
pub open spec fn plannable(
    plan: Plan,
    attributes: Set<Seq<char>>,
    relations: Set<Seq<char>>,
    local: Set<Seq<char>>,
) -> bool {
    all_at_hand(plan_sources(plan), attributes, relations, local) && plan_unbound(plan) is None
}

/// `error` says why a plan cannot be lowered: it is the not-found error about the
/// first source that is not at hand, or else the conflict about the first variable of
/// a join that no binding mentions.
pub open spec fn reports_refusal(
    plan: Plan,
    attributes: Set<Seq<char>>,
    relations: Set<Seq<char>>,
    local: Set<Seq<char>>,
    error: Error,
) -> bool {
    if !all_at_hand(plan_sources(plan), attributes, relations, local) {
        reports_absent(plan_sources(plan), attributes, relations, local, error)
    } else {
        plan_unbound(plan) matches Some(variable) && error.says(
            conflict(),
            unbound_variable(variable),
        )
    }
}

/// Whether the attribute of every trace among the sources exists.
pub open spec fn traces_exist(sources: Seq<SourceView>, attributes: Set<Seq<char>>) -> bool {
    forall|i: int|
        0 <= i < sources.len() ==> match #[trigger] sources[i] {
            SourceView::Forward(aid, _) => attributes.contains(aid),
            SourceView::Reverse(aid, _) => attributes.contains(aid),
            _ => true,
        }
}

/// The traces of two lists of sources exist when those of the two together do.
proof fn lemma_traces_split(a: Seq<SourceView>, b: Seq<SourceView>, attributes: Set<Seq<char>>)
    requires
        traces_exist(a + b, attributes),
    ensures
        traces_exist(a, attributes),
        traces_exist(b, attributes),
{
    assert forall|i: int| 0 <= i < a.len() implies match #[trigger] a[i] {
        SourceView::Forward(aid, _) => attributes.contains(aid),
        SourceView::Reverse(aid, _) => attributes.contains(aid),
        _ => true,
    } by {
        assert((a + b)[i] == a[i]);
    }
    assert forall|i: int| 0 <= i < b.len() implies match #[trigger] b[i] {
        SourceView::Forward(aid, _) => attributes.contains(aid),
        SourceView::Reverse(aid, _) => attributes.contains(aid),
        _ => true,
    } by {
        assert((a + b)[a.len() + i] == b[i]);
    }
}

/// The attributes of the bindings exist when the traces that a join over them reads
/// do.
proof fn lemma_bindings_exist(bindings: Seq<Binding>, attributes: Set<Seq<char>>)
    requires
        traces_exist(bindings_sources(bindings), attributes),
    ensures
        forall|i: int|
            0 <= i < bindings.len() ==> attributes.contains(#[trigger] bindings[i].source@),
    decreases bindings.len(),
{
    if bindings.len() > 0 {
        let earlier = bindings_sources(bindings.drop_last());
        let last = binding_sources(bindings.last().source@);
        lemma_traces_split(earlier, last, attributes);
        lemma_bindings_exist(bindings.drop_last(), attributes);
        assert(last[0] == SourceView::Forward(bindings.last().source@, Trace::Count));
        assert forall|i: int| 0 <= i < bindings.len() implies attributes.contains(
            #[trigger] bindings[i].source@,
        ) by {
            if i < bindings.len() - 1 {
                assert(bindings.drop_last()[i] == bindings[i]);
            }
        }
    }
}

/// The traces that one of the plans reads exist when those that all of them read do.
proof fn lemma_plans_exist(plans: Seq<Plan>, attributes: Set<Seq<char>>, i: int)
    requires
        traces_exist(plans_sources(plans), attributes),
        0 <= i < plans.len(),
    ensures
        traces_exist(plan_sources(plans[i]), attributes),
    decreases plans.len(),
{
    lemma_traces_split(plans_sources(plans.drop_last()), plan_sources(plans.last()), attributes);
    if i < plans.len() - 1 {
        lemma_plans_exist(plans.drop_last(), attributes, i);
        assert(plans.drop_last()[i] == plans[i]);
    }
}

/// The traces that one of the pull levels reads exist when those that all of them read
/// do.
proof fn lemma_levels_exist(levels: Seq<PullLevel>, attributes: Set<Seq<char>>, i: int)
    requires
        traces_exist(levels_sources(levels), attributes),
        0 <= i < levels.len(),
    ensures
        traces_exist(level_sources(levels[i]), attributes),
    decreases levels.len(),
{
    lemma_traces_split(
        levels_sources(levels.drop_last()),
        level_sources(levels.last()),
        attributes,
    );
    if i < levels.len() - 1 {
        lemma_levels_exist(levels.drop_last(), attributes, i);
        assert(levels.drop_last()[i] == levels[i]);
    }
}

/// What is found among the first plans is found among all of them.
proof fn lemma_plans_unbound(plans: Seq<Plan>, n: int)
    requires
        0 <= n <= plans.len(),
        plans_unbound(plans.subrange(0, n)) is Some,
    ensures
        plans_unbound(plans) == plans_unbound(plans.subrange(0, n)),
    decreases plans.len() - n,
{
    if n < plans.len() {
        let longer = plans.subrange(0, n + 1);
        assert(longer.drop_last() =~= plans.subrange(0, n));
        lemma_plans_unbound(plans, n + 1);
    } else {
        assert(plans.subrange(0, n) =~= plans);
    }
}

/// What is found among the first pull levels is found among all of them.
proof fn lemma_levels_unbound(levels: Seq<PullLevel>, n: int)
    requires
        0 <= n <= levels.len(),
        levels_unbound(levels.subrange(0, n)) is Some,
    ensures
        levels_unbound(levels) == levels_unbound(levels.subrange(0, n)),
    decreases levels.len() - n,
{
    if n < levels.len() {
        let longer = levels.subrange(0, n + 1);
        assert(longer.drop_last() =~= levels.subrange(0, n));
        lemma_levels_unbound(levels, n + 1);
    } else {
        assert(levels.subrange(0, n) =~= levels);
    }
}

/// Appends what pulling the attributes reads.
fn gather_pulled(attributes: &Vec<String>, sources: &mut Vec<Source>)
    ensures
        source_views(final(sources)@) == source_views(old(sources)@) + pulled_sources(
            texts(attributes@),
        ),
{
    let ghost start = source_views(sources@);
    let mut i: usize = 0;
    assert(source_views(sources@) =~= start + pulled_sources(
        texts(attributes@.subrange(0, 0)),
    ));
    while i < attributes.len()
        invariant
            i <= attributes.len(),
            source_views(sources@) == start + pulled_sources(
                texts(attributes@.subrange(0, i as int)),
            ),
        decreases attributes.len() - i,
    {
        let ghost before = source_views(sources@);
        sources.push(Source::Forward(attributes[i].clone(), Trace::Propose));
        proof {
            let shorter = texts(attributes@.subrange(0, i as int));
            let longer = texts(attributes@.subrange(0, i + 1));
            assert(longer =~= shorter.push(attributes@[i as int]@));
            assert(pulled_sources(longer) =~= pulled_sources(shorter).push(
                SourceView::Forward(attributes@[i as int]@, Trace::Propose),
            ));
            assert(source_views(sources@) =~= before.push(
                SourceView::Forward(attributes@[i as int]@, Trace::Propose),
            ));
        }
        assert(source_views(sources@) =~= start + pulled_sources(
            texts(attributes@.subrange(0, i + 1)),
        ));
        i += 1;
    }
    assert(attributes@.subrange(0, attributes.len() as int) =~= attributes@);
}

/// Appends what the join over the bindings reads.
fn gather_bindings(bindings: &Vec<Binding>, sources: &mut Vec<Source>)
    ensures
        source_views(final(sources)@) == source_views(old(sources)@) + bindings_sources(
            bindings@,
        ),
{
    let ghost start = source_views(sources@);
    let mut i: usize = 0;
    assert(source_views(sources@) =~= start + bindings_sources(bindings@.subrange(0, 0)));
    while i < bindings.len()
        invariant
            i <= bindings.len(),
            source_views(sources@) == start + bindings_sources(bindings@.subrange(0, i as int)),
        decreases bindings.len() - i,
    {
        let ghost before = source_views(sources@);
        let aid = &bindings[i].source;
        sources.push(Source::Forward(aid.clone(), Trace::Count));
        sources.push(Source::Forward(aid.clone(), Trace::Propose));
        sources.push(Source::Forward(aid.clone(), Trace::Validate));
        sources.push(Source::Reverse(aid.clone(), Trace::Count));
        sources.push(Source::Reverse(aid.clone(), Trace::Propose));
        sources.push(Source::Reverse(aid.clone(), Trace::Validate));
        proof {
            let longer = bindings@.subrange(0, i + 1);
            assert(longer.drop_last() =~= bindings@.subrange(0, i as int));
            assert(longer.last() == bindings@[i as int]);
            assert(source_views(sources@) =~= before + binding_sources(aid@));
        }
        i += 1;
    }
    assert(bindings@.subrange(0, bindings.len() as int) =~= bindings@);
}

impl PullLevel {
    /// Appends what the dataflow of the level reads.
    pub fn gather(&self, sources: &mut Vec<Source>)
        ensures
            source_views(final(sources)@) == source_views(old(sources)@) + level_sources(*self),
        decreases self, 1nat,
    {
        self.plan.gather(sources);
        gather_pulled(&self.pull_attributes, sources);
    }
}

impl PullLevel {
    /// Lays out every join in the input of the level, and so finds the first variable
    /// of a join that no binding mentions.
    fn lay_out<I: ImplContext>(&self, context: &I) -> (result: Result<(), Error>)
        requires
            traces_exist(level_sources(*self), context.attributes()),
        ensures
            result is Ok == (level_unbound(*self) is None),
            result matches Err(error) ==> level_unbound(*self) matches Some(variable)
                && error.says(conflict(), unbound_variable(variable)),
        decreases self, 1nat,
    {
        proof {
            lemma_traces_split(
                plan_sources(*self.plan),
                pulled_sources(texts(self.pull_attributes@)),
                context.attributes(),
            );
        }
        self.plan.lay_out(context)
    }
}

impl Plan {
    /// Lays out every join in the plan with `Hector::stages`, in the order in which the
    /// plan is lowered, and so finds the first variable of a join that no binding
    /// mentions.
    fn lay_out<I: ImplContext>(&self, context: &I) -> (result: Result<(), Error>)
        requires
            traces_exist(plan_sources(*self), context.attributes()),
        ensures
            result is Ok == (plan_unbound(*self) is None),
            result matches Err(error) ==> plan_unbound(*self) matches Some(variable)
                && error.says(conflict(), unbound_variable(variable)),
        decreases self, 0nat,
    {
        match self {
            Plan::Project(p) => p.plan.lay_out(context),
            Plan::Aggregate(a) => a.plan.lay_out(context),
            Plan::Union(u) => {
                let mut i: usize = 0;
                assert(u.plans@.subrange(0, 0) =~= Seq::<Plan>::empty());
                while i < u.plans.len()
                    invariant
                        i <= u.plans.len(),
                        *self == Plan::Union(*u),
                        traces_exist(plans_sources(u.plans@), context.attributes()),
                        plans_unbound(u.plans@.subrange(0, i as int)) is None,
                    decreases u.plans.len() - i,
                {
                    proof {
                        vstd::std_specs::vec::axiom_vec_index_decreases(u.plans, i as int);
                        assert(decreases_to!(*self => self->Union_0));
                        lemma_plans_exist(u.plans@, context.attributes(), i as int);
                        let longer = u.plans@.subrange(0, i + 1);
                        assert(longer.drop_last() =~= u.plans@.subrange(0, i as int));
                        assert(longer.last() == u.plans@[i as int]);
                    }
                    match u.plans[i].lay_out(context) {
                        Ok(_) => {},
                        Err(error) => {
                            proof {
                                lemma_plans_unbound(u.plans@, i + 1);
                            }
                            return Err(error);
                        },
                    }
                    i += 1;
                }
                assert(u.plans@.subrange(0, u.plans.len() as int) =~= u.plans@);
                Ok(())
            },
            Plan::Join(j) => {
                proof {
                    lemma_traces_split(
                        plan_sources(*j.left_plan),
                        plan_sources(*j.right_plan),
                        context.attributes(),
                    );
                }
                match j.left_plan.lay_out(context) {
                    Ok(_) => j.right_plan.lay_out(context),
                    Err(error) => Err(error),
                }
            },
            Plan::Hector(h) => {
                proof {
                    lemma_bindings_exist(h.bindings@, context.attributes());
                }
                match h.stages(context) {
                    Ok(_) => Ok(()),
                    Err(error) => Err(error),
                }
            },
            Plan::Antijoin(j) => {
                proof {
                    lemma_traces_split(
                        plan_sources(*j.left_plan),
                        plan_sources(*j.right_plan),
                        context.attributes(),
                    );
                }
                match j.left_plan.lay_out(context) {
                    Ok(_) => j.right_plan.lay_out(context),
                    Err(error) => Err(error),
                }
            },
            Plan::Negate(inner) => inner.lay_out(context),
            Plan::Filter(f) => f.plan.lay_out(context),
            Plan::Transform(t) => t.plan.lay_out(context),
            Plan::MatchA(_, _, _) => Ok(()),
            Plan::MatchEA(_, _, _) => Ok(()),
            Plan::MatchAV(_, _, _) => Ok(()),
            Plan::RuleExpr(_, _) => Ok(()),
            Plan::NameExpr(_, _) => Ok(()),
            Plan::Pull(p) => {
                let mut i: usize = 0;
                assert(p.paths@.subrange(0, 0) =~= Seq::<PullLevel>::empty());
                while i < p.paths.len()
                    invariant
                        i <= p.paths.len(),
                        *self == Plan::Pull(*p),
                        traces_exist(levels_sources(p.paths@), context.attributes()),
                        levels_unbound(p.paths@.subrange(0, i as int)) is None,
                    decreases p.paths.len() - i,
                {
                    proof {
                        vstd::std_specs::vec::axiom_vec_index_decreases(p.paths, i as int);
                        assert(decreases_to!(*self => self->Pull_0));
                        lemma_levels_exist(p.paths@, context.attributes(), i as int);
                        let longer = p.paths@.subrange(0, i + 1);
                        assert(longer.drop_last() =~= p.paths@.subrange(0, i as int));
                        assert(longer.last() == p.paths@[i as int]);
                    }
                    match p.paths[i].lay_out(context) {
                        Ok(_) => {},
                        Err(error) => {
                            proof {
                                lemma_levels_unbound(p.paths@, i + 1);
                            }
                            return Err(error);
                        },
                    }
                    i += 1;
                }
                assert(p.paths@.subrange(0, p.paths.len() as int) =~= p.paths@);
                Ok(())
            },
            Plan::PullLevel(level) => level.lay_out(context),
        }
    }

    /// Appends what the dataflow of the plan reads.
    pub fn gather(&self, sources: &mut Vec<Source>)
        ensures
            source_views(final(sources)@) == source_views(old(sources)@) + plan_sources(*self),
        decreases self, 0nat,
    {
        let ghost start = source_views(sources@);
        match self {
            Plan::Project(p) => p.plan.gather(sources),
            Plan::Aggregate(a) => a.plan.gather(sources),
            Plan::Union(u) => {
                let mut i: usize = 0;
                assert(u.plans@.subrange(0, 0) =~= Seq::<Plan>::empty());
                assert(source_views(sources@) =~= start + plans_sources(u.plans@.subrange(0, 0)));
                while i < u.plans.len()
                    invariant
                        i <= u.plans.len(),
                        *self == Plan::Union(*u),
                        source_views(sources@) == start + plans_sources(
                            u.plans@.subrange(0, i as int),
                        ),
                    decreases u.plans.len() - i,
                {
                    proof {
                        vstd::std_specs::vec::axiom_vec_index_decreases(u.plans, i as int);
                        assert(decreases_to!(*self => self->Union_0));
                        let longer = u.plans@.subrange(0, i + 1);
                        assert(longer.drop_last() =~= u.plans@.subrange(0, i as int));
                        assert(longer.last() == u.plans@[i as int]);
                    }
                    u.plans[i].gather(sources);
                    i += 1;
                }
                assert(u.plans@.subrange(0, u.plans.len() as int) =~= u.plans@);
            },
            Plan::Join(j) => {
                j.left_plan.gather(sources);
                j.right_plan.gather(sources);
            },
            Plan::Hector(h) => gather_bindings(&h.bindings, sources),
            Plan::Antijoin(j) => {
                j.left_plan.gather(sources);
                j.right_plan.gather(sources);
            },
            Plan::Negate(inner) => inner.gather(sources),
            Plan::Filter(f) => f.plan.gather(sources),
            Plan::Transform(t) => t.plan.gather(sources),
            Plan::MatchA(_, aid, _) => {
                sources.push(Source::Forward(aid.clone(), Trace::Validate));
                assert(source_views(sources@) =~= start + plan_sources(*self));
            },
            Plan::MatchEA(_, aid, _) => {
                sources.push(Source::Forward(aid.clone(), Trace::Propose));
                assert(source_views(sources@) =~= start + plan_sources(*self));
            },
            Plan::MatchAV(_, aid, _) => {
                sources.push(Source::Reverse(aid.clone(), Trace::Propose));
                assert(source_views(sources@) =~= start + plan_sources(*self));
            },
            Plan::RuleExpr(_, name) => {
                sources.push(Source::Local(name.clone()));
                assert(source_views(sources@) =~= start + plan_sources(*self));
            },
            Plan::NameExpr(_, name) => {
                sources.push(Source::Relation(name.clone()));
                assert(source_views(sources@) =~= start + plan_sources(*self));
            },
            Plan::Pull(p) => {
                let mut i: usize = 0;
                assert(p.paths@.subrange(0, 0) =~= Seq::<PullLevel>::empty());
                assert(source_views(sources@) =~= start + levels_sources(
                    p.paths@.subrange(0, 0),
                ));
                while i < p.paths.len()
                    invariant
                        i <= p.paths.len(),
                        *self == Plan::Pull(*p),
                        source_views(sources@) == start + levels_sources(
                            p.paths@.subrange(0, i as int),
                        ),
                    decreases p.paths.len() - i,
                {
                    proof {
                        vstd::std_specs::vec::axiom_vec_index_decreases(p.paths, i as int);
                        assert(decreases_to!(*self => self->Pull_0));
                        let longer = p.paths@.subrange(0, i + 1);
                        assert(longer.drop_last() =~= p.paths@.subrange(0, i as int));
                        assert(longer.last() == p.paths@[i as int]);
                    }
                    p.paths[i].gather(sources);
                    i += 1;
                }
                assert(p.paths@.subrange(0, p.paths.len() as int) =~= p.paths@);
            },
            Plan::PullLevel(level) => level.gather(sources),
        }
    }

    /// Lists what the dataflow of the plan reads, in the order in which the plan is
    /// lowered. Every source but a local one is imported at a site of its own, which
    /// hands out one shutdown button; the buttons are merged into the handle of the
    /// relation in this order.
    ///
    /// Every join in the plan is laid out on the way, so that a plan that comes back
    /// can be lowered.
    ///
    /// Fails with a not-found error for the first source that is not at hand: an
    /// attribute that does not exist, a relation that is not published, or a rule
    /// that is not among `local`, those that are being lowered with the plan. Where
    /// everything is at hand, fails with a conflict for the first variable of a join
    /// that no binding of the join mentions.
    pub fn implement<I: ImplContext>(&self, context: &I, local: &Vec<String>) -> (result: Result<
        Vec<Source>,
        Error,
    >)
        ensures
            result is Ok == plannable(
                *self,
                context.attributes(),
                context.relations(),
                text_set(local@),
            ),
            result matches Ok(sources) ==> source_views(sources@) == plan_sources(*self),
            result matches Err(error) ==> reports_refusal(
                *self,
                context.attributes(),
                context.relations(),
                text_set(local@),
                error,
            ),
    {
        let mut sources: Vec<Source> = Vec::new();
        assert(source_views(sources@) =~= Seq::<SourceView>::empty());
        self.gather(&mut sources);
        assert(source_views(sources@) =~= plan_sources(*self));
        let mut i: usize = 0;
        while i < sources.len()
            invariant
                i <= sources.len(),
                source_views(sources@) == plan_sources(*self),
                forall|j: int|
                    0 <= j < i ==> at_hand(
                        #[trigger] plan_sources(*self)[j],
                        context.attributes(),
                        context.relations(),
                        text_set(local@),
                    ),
            decreases sources.len() - i,
        {
            assert(source_views(sources@)[i as int] == sources@[i as int]@);
            let missing = match &sources[i] {
                Source::Forward(aid, _) => if context.has_attribute(aid.as_str()) {
                    None
                } else {
                    Some(frame("Attribute ", aid.as_str(), " does not exist."))
                },
                Source::Reverse(aid, _) => if context.has_attribute(aid.as_str()) {
                    None
                } else {
                    Some(frame("Attribute ", aid.as_str(), " does not exist."))
                },
                Source::Relation(name) => if context.has_relation(name.as_str()) {
                    None
                } else {
                    Some(frame("Relation ", name.as_str(), " is not published."))
                },
                Source::Local(name) => if contains(local, name.as_str()) {
                    None
                } else {
                    Some(frame("Rule ", name.as_str(), " is not being lowered."))
                },
            };
            match missing {
                Some(message) => {
                    return Err(Error::not_found(message));
                },
                None => {},
            }
            i += 1;
        }
        match self.lay_out(context) {
            Ok(_) => Ok(sources),
            Err(error) => Err(error),
        }
    }

    /// The tuple that the pattern [?e a ?v] makes of a pair of the attribute.
    pub fn match_a(e: &Value, v: &Value) -> (tuple: Vec<Value>)
        ensures
            crate::value::views(tuple@) == seq![e@, v@],
    {
        let mut tuple: Vec<Value> = Vec::new();
        tuple.push(e.clone());
        tuple.push(v.clone());
        assert(crate::value::views(tuple@) =~= seq![e@, v@]);
        tuple
    }

    /// The tuple that the pattern [e a ?v] makes of a pair of the attribute, if the
    /// pair is one of the entity `eid`.
    pub fn match_ea(eid: Eid, e: &Value, v: &Value) -> (tuple: Option<Vec<Value>>)
        ensures
            tuple is Some == (e@ == ValueView::Eid(eid)),
            tuple matches Some(t) ==> crate::value::views(t@) == seq![v@],
    {
        if e.same(&Value::Eid(eid)) {
            let mut tuple: Vec<Value> = Vec::new();
            tuple.push(v.clone());
            assert(crate::value::views(tuple@) =~= seq![v@]);
            Some(tuple)
        } else {
            None
        }
    }

    /// The tuple that the pattern [?e a v] makes of a pair of the attribute's reverse
    /// index, if the pair is one of the value `wanted`.
    pub fn match_av(wanted: &Value, v: &Value, e: &Value) -> (tuple: Option<Vec<Value>>)
        ensures
            tuple is Some == (v@ == wanted@),
            tuple matches Some(t) ==> crate::value::views(t@) == seq![e@],
    {
        if v.same(wanted) {
            let mut tuple: Vec<Value> = Vec::new();
            tuple.push(e.clone());
            assert(crate::value::views(tuple@) =~= seq![e@]);
            Some(tuple)
        } else {
            None
        }
    }
}

} // verus!
