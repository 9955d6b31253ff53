//! What has to be built, and in which order, to publish a named relation.

use crate::error::{conflict, frame, framed, not_found, Error};
use crate::hector::{first_unbound, unbound_variable};
use crate::names::{
    lemma_text_less_total, lemma_text_less_transitive, str_less, strictly_sorted, text_less,
};
use crate::implement::{
    all_at_hand, at_hand, bindings_sources, plan_sources, plannable, reports_refusal,
    source_views, Source,
};
use crate::names::{lemma_texts_empty, text_set};
use crate::plan::{bindable, plan_bindings, plan_variables, q, Plan, Rule};
use crate::value::texts;
use crate::rules::{
    collect_dependencies, complete, defined, reachable, reports_missing, rule_names, slice_texts,
    sound, ImplContext,
};
use crate::rules::lemma_root_reachable;
use vstd::prelude::*;
use vstd::string::StringExecFns;

verus! {

/// The rules to turn into dataflow for one published relation, sorted by name. Each of
/// them is wrapped in a recursive variable, seeded at iteration 1, before any body is
/// lowered, and each variable is closed with the rule's tuples in this order.
#[derive(Debug)]
pub struct Lowering<'a> {
    /// The name of the relation to publish.
    pub publish: String,
    /// The rules to lower, sorted by name.
    pub rules: Vec<&'a Rule>,
    /// For each rule, what the dataflow of its plan reads, in the order in which the
    /// plan is lowered. All of it is at hand.
    pub sources: Vec<Vec<Source>>,
}

/// The names of the rules that are needed to define `roots`.
pub open spec fn needed(rules: Map<Seq<char>, Rule>, roots: Seq<Seq<char>>) -> Set<Seq<char>> {
    Set::new(|name: Seq<char>| reachable(rules, roots, name))
}

/// The plan of the rule `name` can be lowered: everything that it reads is at hand,
/// which is to say that the attributes exist, the relations are published, and the
/// rules are among those needed; and every variable of every join in it is mentioned
/// by a binding of the join.
pub open spec fn grounded<I: ImplContext>(context: &I, roots: Seq<Seq<char>>, name: Seq<char>)
    -> bool {
    plannable(
        context.rules()[name].plan,
        context.attributes(),
        context.relations(),
        needed(context.rules(), roots),
    )
}

/// `name` is the first, in the order of names, of the needed rules whose plan cannot
/// be lowered.
pub open spec fn first_ungrounded<I: ImplContext>(
    context: &I,
    roots: Seq<Seq<char>>,
    name: Seq<char>,
) -> bool {
    &&& reachable(context.rules(), roots, name)
    &&& !grounded(context, roots, name)
    &&& forall|other: Seq<char>|
        #![trigger reachable(context.rules(), roots, other)]
        reachable(context.rules(), roots, other) && text_less(other, name) ==> grounded(
            context,
            roots,
            other,
        )
}

/// Every needed rule has a recursive variable.
pub open spec fn arranged<I: ImplContext>(context: &I, roots: Seq<Seq<char>>) -> bool {
    forall|other: Seq<char>| #[trigger]
        reachable(context.rules(), roots, other) ==> context.underconstrained().contains(other)
}

/// `sources` holds, for each of `rules`, what the plan of the rule reads.
pub open spec fn sourced(rules: Seq<&Rule>, sources: Seq<Vec<Source>>) -> bool {
    &&& sources.len() == rules.len()
    &&& forall|k: int|
        0 <= k < rules.len() ==> source_views(#[trigger] sources[k]@) == plan_sources(
            rules[k].plan,
        )
}

/// The text of the error for a published name that has no recursive variable.
pub open spec fn undefined_name(name: Seq<char>) -> Seq<char> {
    framed("Attempted to publish undefined name "@, name, "."@)
}

/// The text of the error for a rule that has no recursive variable.
pub open spec fn unarranged_rule(name: Seq<char>) -> Seq<char> {
    framed("Rule "@, name, " should be in local arrangements, but isn't."@)
}

/// `name` is the first, in the order of names, of the needed rules that has no
/// recursive variable.
pub open spec fn first_unarranged(
    rules: Map<Seq<char>, Rule>,
    recursive: Set<Seq<char>>,
    roots: Seq<Seq<char>>,
    name: Seq<char>,
) -> bool {
    &&& reachable(rules, roots, name)
    &&& !recursive.contains(name)
    &&& forall|other: Seq<char>|
        #![trigger reachable(rules, roots, other)]
        reachable(rules, roots, other) && text_less(other, name) ==> recursive.contains(other)
}

/// Orders rules by name.
fn sort_by_name<'a>(found: &Vec<&'a Rule>) -> (sorted: Vec<&'a Rule>)
    requires
        rule_names(found@).no_duplicates(),
    ensures
        strictly_sorted(rule_names(sorted@)),
        sorted.len() == found.len(),
        forall|i: int| 0 <= i < sorted.len() ==> found@.contains(#[trigger] sorted[i]),
        forall|j: int| 0 <= j < found.len() ==> sorted@.contains(#[trigger] found[j]),
{
    let mut sorted: Vec<&'a Rule> = Vec::new();
    let mut k: usize = 0;
    while k < found.len()
        invariant
            k <= found.len(),
            sorted.len() == k,
            rule_names(found@).no_duplicates(),
            strictly_sorted(rule_names(sorted@)),
            forall|i: int|
                0 <= i < sorted.len() ==> exists|j: int|
                    0 <= j < k && found[j] == #[trigger] sorted[i],
            forall|j: int| 0 <= j < k ==> sorted@.contains(#[trigger] found[j]),
        decreases found.len() - k,
    {
        let rule = found[k];
        let mut p: usize = 0;
        while p < sorted.len() && str_less(sorted[p].name.as_str(), rule.name.as_str())
            invariant
                p <= sorted.len(),
                forall|i: int| 0 <= i < p ==> text_less(#[trigger] sorted[i].name@, rule.name@),
            decreases sorted.len() - p,
        {
            p += 1;
        }
        proof {
            let names = rule_names(sorted@);
            let ghost before = sorted@;
            let after = sorted@.insert(p as int, rule);
            assert forall|i: int| p <= i < before.len() implies text_less(
                rule.name@,
                #[trigger] before[i].name@,
            ) by {
                let j = choose|j: int| 0 <= j < k && found[j] == before[i];
                assert(rule_names(found@)[j] == before[i].name@);
                assert(rule_names(found@)[k as int] == rule.name@);
                assert(before[i].name@ != rule.name@);
                let jp = choose|jp: int| 0 <= jp < k && found[jp] == before[p as int];
                assert(rule_names(found@)[jp] == before[p as int].name@);
                lemma_text_less_total(before[p as int].name@, rule.name@);
                assert(text_less(rule.name@, before[p as int].name@));
                if i > p {
                    assert(names[p as int] == before[p as int].name@);
                    assert(names[i] == before[i].name@);
                    lemma_text_less_transitive(
                        rule.name@,
                        before[p as int].name@,
                        before[i].name@,
                    );
                }
            }
            assert forall|i: int, j: int| 0 <= i < j < after.len() implies text_less(
                rule_names(after)[i],
                rule_names(after)[j],
            ) by {
                let a = if i < p { i } else { i - 1 };
                let b = if j < p { j } else { j - 1 };
                if i != p && j != p {
                    assert(names[a] == before[a].name@);
                    assert(names[b] == before[b].name@);
                    assert(text_less(names[a], names[b]));
                }
            }
            assert forall|i: int| 0 <= i < after.len() implies exists|j: int|
                0 <= j < k + 1 && found[j] == #[trigger] after[i] by {
                if i < p {
                    let j = choose|j: int| 0 <= j < k && found[j] == before[i];
                    assert(found[j] == after[i]);
                } else if i == p {
                    assert(found[k as int] == after[i]);
                } else {
                    let j = choose|j: int| 0 <= j < k && found[j] == before[i - 1];
                    assert(found[j] == after[i]);
                }
            }
            assert forall|j: int| 0 <= j < k + 1 implies after.contains(#[trigger] found[j]) by {
                if j < k {
                    let i = choose|i: int| 0 <= i < before.len() && before[i] == found[j];
                    if i < p {
                        assert(after[i] == found[j]);
                    } else {
                        assert(after[i + 1] == found[j]);
                    }
                } else {
                    assert(after[p as int] == found[j]);
                }
            }
        }
        sorted.insert(p, rule);
        k += 1;
    }
    proof {
        assert forall|i: int| 0 <= i < sorted.len() implies found@.contains(
            #[trigger] sorted[i],
        ) by {
            let j = choose|j: int| 0 <= j < k && found[j] == sorted[i];
            assert(found@[j] == sorted[i]);
        }
    }
    sorted
}

/// Decides what to build for the relation `name`: the rules that it is defined by, in
/// the order of their names, and what the plan of each reads.
///
/// Fails with a not-found error when a rule or an attribute that is needed is missing,
/// when `name` has no recursive variable to publish, when one of the rules has none to
/// be closed with, or when the plan of a rule reads something that is not at hand.
/// Fails with a conflict when a join in the plan of a rule has a variable that no
/// binding of the join mentions.
pub fn implement<'a, I: ImplContext>(name: &str, context: &'a I) -> (result: Result<
    Lowering<'a>,
    Error,
>)
    ensures
        result is Ok == (complete(context.rules(), context.attributes(), seq![name@])
            && arranged(context, seq![name@]) && forall|other: Seq<char>| #[trigger]
            reachable(context.rules(), seq![name@], other) ==> grounded(
                context,
                seq![name@],
                other,
            )),
        result matches Ok(lowering) ==> {
            &&& lowering.publish@ == name@
            &&& sound(context.rules(), seq![name@], lowering.rules@)
            &&& strictly_sorted(rule_names(lowering.rules@))
            &&& forall|other: Seq<char>| #[trigger]
                reachable(context.rules(), seq![name@], other) ==> rule_names(
                    lowering.rules@,
                ).contains(other)
            &&& sourced(lowering.rules@, lowering.sources@)
        },
        result matches Err(error) ==> if !complete(
            context.rules(),
            context.attributes(),
            seq![name@],
        ) {
            reports_missing(context.rules(), context.attributes(), seq![name@], error)
        } else if !context.underconstrained().contains(name@) {
            error.says(not_found(), undefined_name(name@))
        } else if !arranged(context, seq![name@]) {
            exists|other: Seq<char>| #[trigger]
                first_unarranged(
                    context.rules(),
                    context.underconstrained(),
                    seq![name@],
                    other,
                ) && error.says(not_found(), unarranged_rule(other))
        } else {
            exists|other: Seq<char>| #[trigger]
                first_ungrounded(context, seq![name@], other) && reports_refusal(
                    context.rules()[other].plan,
                    context.attributes(),
                    context.relations(),
                    needed(context.rules(), seq![name@]),
                    error,
                )
        },
{
    let ghost rules = context.rules();
    let ghost roots = seq![name@];
    let publish = [name];
    assert(slice_texts(publish@) =~= roots);
    let found = match collect_dependencies(context, publish.as_slice()) {
        Ok(found) => found,
        Err(error) => {
            return Err(error);
        },
    };
    let sorted = sort_by_name(&found);
    proof {
        lemma_sorted_sound(rules, roots, found@, sorted@);
        lemma_root_reachable(rules, roots, 0);
    }
    if !context.is_underconstrained(name) {
        return Err(
            Error::not_found(frame("Attempted to publish undefined name ", name, ".")),
        );
    }
    let mut local: Vec<String> = Vec::new();
    let mut i: usize = 0;
    proof {
        lemma_texts_empty();
    }
    while i < sorted.len()
        invariant
            i <= sorted.len(),
            rules == context.rules(),
            roots == seq![name@],
            complete(rules, context.attributes(), roots),
            context.underconstrained().contains(name@),
            sound(rules, roots, sorted@),
            strictly_sorted(rule_names(sorted@)),
            forall|other: Seq<char>| #[trigger]
                reachable(rules, roots, other) ==> rule_names(sorted@).contains(other),
            forall|j: int|
                0 <= j < i ==> context.underconstrained().contains(#[trigger] sorted[j].name@),
            texts(local@) == rule_names(sorted@).subrange(0, i as int),
        decreases sorted.len() - i,
    {
        let rule = sorted[i];
        if !context.is_underconstrained(rule.name.as_str()) {
            proof {
                let missing = rule.name@;
                assert forall|other: Seq<char>|
                    #![trigger reachable(rules, roots, other)]
                    reachable(rules, roots, other) && text_less(
                        other,
                        missing,
                    ) implies context.underconstrained().contains(other) by {
                    lemma_before(rule_names(sorted@), i as int, other);
                    let j = choose|j: int| 0 <= j < i && rule_names(sorted@)[j] == other;
                    assert(sorted[j].name@ == other);
                }
                assert(first_unarranged(rules, context.underconstrained(), roots, missing));
            }
            return Err(
                Error::not_found(
                    frame(
                        "Rule ",
                        rule.name.as_str(),
                        " should be in local arrangements, but isn't.",
                    ),
                ),
            );
        }
        let ghost before = texts(local@);
        local.push(rule.name.clone());
        assert(texts(local@) =~= before.push(rule.name@));
        assert(texts(local@) =~= rule_names(sorted@).subrange(0, i + 1));
        i += 1;
    }
    proof {
        assert(rule_names(sorted@).subrange(0, sorted@.len() as int) =~= rule_names(sorted@));
        assert forall|other: Seq<char>| #[trigger]
            reachable(rules, roots, other) implies context.underconstrained().contains(other) by {
            let names = rule_names(sorted@);
            let j = choose|j: int| 0 <= j < names.len() && names[j] == other;
            assert(sorted[j].name@ == other);
        }
        assert forall|other: Seq<char>|
            text_set(local@).contains(other) == needed(rules, roots).contains(other) by {
            let names = rule_names(sorted@);
            if names.contains(other) {
                let j = choose|j: int| 0 <= j < names.len() && names[j] == other;
                assert(sorted[j].name@ == other);
            }
        }
        assert(text_set(local@) =~= needed(rules, roots));
    }
    let mut sources: Vec<Vec<Source>> = Vec::new();
    let mut k: usize = 0;
    while k < sorted.len()
        invariant
            k <= sorted.len(),
            rules == context.rules(),
            roots == seq![name@],
            complete(rules, context.attributes(), roots),
            context.underconstrained().contains(name@),
            arranged(context, roots),
            sound(rules, roots, sorted@),
            strictly_sorted(rule_names(sorted@)),
            forall|other: Seq<char>| #[trigger]
                reachable(rules, roots, other) ==> rule_names(sorted@).contains(other),
            text_set(local@) == needed(rules, roots),
            sourced(sorted@.subrange(0, k as int), sources@),
            forall|j: int| 0 <= j < k ==> grounded(context, roots, #[trigger] sorted[j].name@),
        decreases sorted.len() - k,
    {
        let rule = sorted[k];
        assert(*rule == rules[rule.name@]);
        match rule.plan.implement(context, &local) {
            Err(error) => {
                proof {
                    let missing = rule.name@;
                    assert forall|other: Seq<char>|
                        #![trigger reachable(rules, roots, other)]
                        reachable(rules, roots, other) && text_less(
                            other,
                            missing,
                        ) implies grounded(context, roots, other) by {
                        lemma_before(rule_names(sorted@), k as int, other);
                        let j = choose|j: int| 0 <= j < k && rule_names(sorted@)[j] == other;
                        assert(sorted[j].name@ == other);
                    }
                    assert(first_ungrounded(context, roots, missing));
                }
                return Err(error);
            },
            Ok(read) => {
                let ghost earlier = sources@;
                sources.push(read);
                proof {
                    let rules_so_far = sorted@.subrange(0, k + 1);
                    assert forall|j: int| 0 <= j < rules_so_far.len() implies source_views(
                        #[trigger] sources@[j]@,
                    ) == plan_sources(rules_so_far[j].plan) by {
                        if j < k {
                            assert(sources@[j] == earlier[j]);
                            assert(sorted@.subrange(0, k as int)[j] == rules_so_far[j]);
                        }
                    }
                }
            },
        }
        k += 1;
    }
    proof {
        assert(sorted@.subrange(0, sorted@.len() as int) =~= sorted@);
        assert forall|other: Seq<char>| #[trigger]
            reachable(rules, roots, other) implies grounded(context, roots, other) by {
            let names = rule_names(sorted@);
            let j = choose|j: int| 0 <= j < names.len() && names[j] == other;
            assert(sorted[j].name@ == other);
        }
    }
    Ok(Lowering { publish: String::from_str(name), rules: sorted, sources })
}

/// In a sorted list, a name that comes before the one at `position` stands in front
/// of it, if it stands in the list at all.
proof fn lemma_before(names: Seq<Seq<char>>, position: int, other: Seq<char>)
    requires
        strictly_sorted(names),
        0 <= position < names.len(),
        names.contains(other),
        text_less(other, names[position]),
    ensures
        exists|j: int| 0 <= j < position && names[j] == other,
{
    let j = choose|j: int| 0 <= j < names.len() && names[j] == other;
    if j > position {
        assert(text_less(names[position], names[j]));
        lemma_text_less_transitive(names[position], other, names[position]);
        crate::names::lemma_text_less_irreflexive(names[position]);
    } else if j == position {
        crate::names::lemma_text_less_irreflexive(other);
    }
}

/// `name` is the first, in the order of names, of the needed rules other than
/// `publish`.
pub open spec fn first_other(
    rules: Map<Seq<char>, Rule>,
    publish: Seq<char>,
    name: Seq<char>,
) -> bool {
    &&& reachable(rules, seq![publish], name)
    &&& name != publish
    &&& forall|other: Seq<char>|
        #![trigger reachable(rules, seq![publish], other)]
        reachable(rules, seq![publish], other) && text_less(other, name) ==> other == publish
}

/// No rule but `name` itself is needed to define `name`.
pub open spec fn alone(rules: Map<Seq<char>, Rule>, name: Seq<char>) -> bool {
    forall|other: Seq<char>| #[trigger] reachable(rules, seq![name], other) ==> other == name
}

/// Decides what to build for the relation `name` when its rule is to be run as one
/// worst-case-optimal join: the rule, and the join over the bindings that its plan
/// stands for. Only `name` itself is given a recursive variable, so the rule may refer
/// to no other.
///
/// Fails with a not-found error when a rule or an attribute that is needed is missing,
/// when `name` has no recursive variable to publish, or when another rule is needed.
/// Fails with a conflict when the join has a variable that no binding mentions.
pub fn implement_neu<'a, I: ImplContext>(name: &str, context: &'a I) -> (result: Result<
    (Lowering<'a>, Plan),
    Error,
>)
    requires
        context.rules().dom().contains(name@) ==> bindable(context.rules()[name@].plan),
    ensures
        result is Ok == (complete(context.rules(), context.attributes(), seq![name@])
            && context.underconstrained().contains(name@) && alone(context.rules(), name@)
            && first_unbound(
            plan_bindings(context.rules()[name@].plan),
            plan_variables(context.rules()[name@].plan),
            0,
        ) is None),
        result matches Ok((lowering, plan)) ==> {
            &&& lowering.publish@ == name@
            &&& lowering.rules@.len() == 1
            &&& *lowering.rules@[0] == context.rules()[name@]
            &&& plan matches Plan::Hector(join)
            &&& join.variables@ == plan_variables(context.rules()[name@].plan)
            &&& join.bindings@ == plan_bindings(context.rules()[name@].plan)
            &&& lowering.sources@.len() == 1
            &&& source_views(lowering.sources@[0]@) == bindings_sources(join.bindings@)
        },
        result matches Err(error) ==> if !complete(
            context.rules(),
            context.attributes(),
            seq![name@],
        ) {
            reports_missing(context.rules(), context.attributes(), seq![name@], error)
        } else if !context.underconstrained().contains(name@) {
            error.says(not_found(), undefined_name(name@))
        } else if !alone(context.rules(), name@) {
            exists|other: Seq<char>| #[trigger]
                first_other(context.rules(), name@, other) && error.says(
                    not_found(),
                    unarranged_rule(other),
                )
        } else {
            first_unbound(
                plan_bindings(context.rules()[name@].plan),
                plan_variables(context.rules()[name@].plan),
                0,
            ) matches Some(variable) && error.says(conflict(), unbound_variable(variable))
        },
{
    let ghost rules = context.rules();
    let ghost roots = seq![name@];
    let publish = [name];
    assert(slice_texts(publish@) =~= roots);
    let found = match collect_dependencies(context, publish.as_slice()) {
        Ok(found) => found,
        Err(error) => {
            return Err(error);
        },
    };
    let sorted = sort_by_name(&found);
    proof {
        lemma_sorted_sound(rules, roots, found@, sorted@);
        lemma_root_reachable(rules, roots, 0);
    }
    if !context.is_underconstrained(name) {
        return Err(
            Error::not_found(frame("Attempted to publish undefined name ", name, ".")),
        );
    }
    let wanted = String::from_str(name);
    let mut i: usize = 0;
    while i < sorted.len()
        invariant
            i <= sorted.len(),
            wanted@ == name@,
            rules == context.rules(),
            roots == seq![name@],
            complete(rules, context.attributes(), roots),
            context.underconstrained().contains(name@),
            sound(rules, roots, sorted@),
            strictly_sorted(rule_names(sorted@)),
            forall|other: Seq<char>| #[trigger]
                reachable(rules, roots, other) ==> rule_names(sorted@).contains(other),
            forall|j: int| 0 <= j < i ==> #[trigger] sorted[j].name@ == name@,
        decreases sorted.len() - i,
    {
        let rule = sorted[i];
        if rule.name != wanted {
            proof {
                let missing = rule.name@;
                assert forall|other: Seq<char>|
                    #![trigger reachable(rules, roots, other)]
                    reachable(rules, roots, other) && text_less(other, missing) implies other
                    == name@ by {
                    let names = rule_names(sorted@);
                    let j = choose|j: int| 0 <= j < names.len() && names[j] == other;
                    assert(sorted[j].name@ == other);
                    assert(names[i as int] == missing);
                    if j > i {
                        assert(text_less(names[i as int], names[j]));
                        lemma_text_less_transitive(missing, other, missing);
                        crate::names::lemma_text_less_irreflexive(missing);
                    } else if j == i {
                        crate::names::lemma_text_less_irreflexive(missing);
                    }
                }
                assert(first_other(rules, name@, missing));
            }
            return Err(
                Error::not_found(
                    frame(
                        "Rule ",
                        rule.name.as_str(),
                        " should be in local arrangements, but isn't.",
                    ),
                ),
            );
        }
        i += 1;
    }
    proof {
        let names = rule_names(sorted@);
        assert forall|other: Seq<char>| #[trigger] reachable(rules, roots, other) implies other
            == name@ by {
            let j = choose|j: int| 0 <= j < names.len() && names[j] == other;
            assert(sorted[j].name@ == other);
        }
        assert(names.contains(name@));
        if sorted.len() > 1 {
            assert(names[0] == sorted[0].name@);
            assert(names[1] == sorted[1].name@);
            assert(text_less(names[0], names[1]));
            crate::names::lemma_text_less_irreflexive(name@);
        }
    }
    let rule = sorted[0];
    let plan = q(rule.plan.variables(), rule.plan.into_bindings());
    let local: Vec<String> = Vec::new();
    let mut sources: Vec<Vec<Source>> = Vec::new();
    proof {
        assert(rule_names(sorted@)[0] == rule.name@);
        assert(reachable(rules, roots, rule.name@));
        assert(*rule == rules[name@]);
        assert(defined(rules, context.attributes(), name@));
        let bindings = plan_bindings(rule.plan);
        assert forall|i: int| 0 <= i < bindings.len() implies context.attributes().contains(
            #[trigger] bindings[i].source@,
        ) by {
            assert(crate::plan::plan_attributes(rule.plan).contains(bindings[i].source@));
        }
        lemma_bindings_at_hand(
            bindings,
            context.attributes(),
            context.relations(),
            text_set(local@),
        );
    }
    match plan.implement(context, &local) {
        Ok(read) => {
            sources.push(read);
        },
        Err(error) => {
            return Err(error);
        },
    }
    Ok((Lowering { publish: wanted, rules: sorted, sources }, plan))
}

/// What a join over bindings reads is at hand when the attributes of the bindings
/// exist.
proof fn lemma_bindings_at_hand(
    bindings: Seq<crate::plan::Binding>,
    attributes: Set<Seq<char>>,
    relations: Set<Seq<char>>,
    local: Set<Seq<char>>,
)
    requires
        forall|i: int|
            0 <= i < bindings.len() ==> attributes.contains(#[trigger] bindings[i].source@),
    ensures
        all_at_hand(bindings_sources(bindings), attributes, relations, local),
    decreases bindings.len(),
{
    if bindings.len() > 0 {
        let shorter = bindings.drop_last();
        assert forall|i: int| 0 <= i < shorter.len() implies attributes.contains(
            #[trigger] shorter[i].source@,
        ) by {
            assert(shorter[i] == bindings[i]);
        }
        lemma_bindings_at_hand(shorter, attributes, relations, local);
        let earlier = bindings_sources(shorter);
        let last = crate::implement::binding_sources(bindings.last().source@);
        let all = bindings_sources(bindings);
        assert(all == earlier + last);
        assert forall|i: int| 0 <= i < all.len() implies at_hand(
            #[trigger] all[i],
            attributes,
            relations,
            local,
        ) by {
            if i < earlier.len() {
                assert(all[i] == earlier[i]);
            } else {
                assert(all[i] == last[i - earlier.len()]);
                assert(attributes.contains(bindings[bindings.len() - 1].source@));
            }
        }
    }
}

/// A list with the same entries as a sound list of distinct names is sound.
proof fn lemma_sorted_sound(
    rules: Map<Seq<char>, Rule>,
    roots: Seq<Seq<char>>,
    found: Seq<&Rule>,
    sorted: Seq<&Rule>,
)
    requires
        sound(rules, roots, found),
        strictly_sorted(rule_names(sorted)),
        forall|i: int| 0 <= i < sorted.len() ==> found.contains(#[trigger] sorted[i]),
        forall|j: int| 0 <= j < found.len() ==> sorted.contains(#[trigger] found[j]),
    ensures
        sound(rules, roots, sorted),
        forall|name: Seq<char>|
            rule_names(found).contains(name) ==> rule_names(sorted).contains(name),
{
    let names = rule_names(sorted);
    assert forall|i: int, j: int|
        0 <= i < names.len() && 0 <= j < names.len() && i != j implies names[i] != names[j] by {
        if i < j {
            assert(text_less(names[i], names[j]));
        } else {
            assert(text_less(names[j], names[i]));
        }
        crate::names::lemma_text_less_irreflexive(names[i]);
    }
    assert forall|i: int| #![trigger sorted[i]] 0 <= i < sorted.len() implies {
        &&& rules.dom().contains(sorted[i].name@)
        &&& *sorted[i] == rules[sorted[i].name@]
        &&& reachable(rules, roots, sorted[i].name@)
    } by {
        assert(found.contains(sorted[i]));
        let j = choose|j: int| 0 <= j < found.len() && found[j] == sorted[i];
        assert(found[j] == sorted[i]);
    }
    assert forall|name: Seq<char>| rule_names(found).contains(name) implies rule_names(
        sorted,
    ).contains(name) by {
        let j = choose|j: int| 0 <= j < rule_names(found).len() && rule_names(found)[j] == name;
        assert(sorted.contains(found[j]));
        let i = choose|i: int| 0 <= i < sorted.len() && sorted[i] == found[j];
        assert(rule_names(sorted)[i] == name);
    }
}

} // verus!
