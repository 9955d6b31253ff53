//! Named rules and the closure of their dependencies.

use crate::error::{frame, framed, not_found, Error};
use crate::plan::{plan_attributes, plan_names, Rule};
use crate::value::texts;
use vstd::prelude::*;
use vstd::string::StringExecFns;

verus! {

/// A thing that can provide the global state required while plans are implemented.
pub trait ImplContext {
    /// The rules that are registered, by name.
    spec fn rules(&self) -> Map<Seq<char>, Rule>;

    /// The attributes that exist.
    spec fn attributes(&self) -> Set<Seq<char>>;

    /// The names of the relations that are published.
    spec fn relations(&self) -> Set<Seq<char>>;

    /// The names of the rules that have to be wrapped in a recursive variable.
    spec fn underconstrained(&self) -> Set<Seq<char>>;

    /// Finitely many rules are registered, each under its own name.
    proof fn lemma_rules(&self)
        ensures
            self.rules().dom().finite(),
            forall|name: Seq<char>| #[trigger]
                self.rules().dom().contains(name) ==> self.rules()[name].name@ == name,
    ;

    /// Returns the rule registered under `name`.
    fn rule(&self, name: &str) -> (rule: Option<&Rule>)
        ensures
            rule is Some == self.rules().dom().contains(name@),
            rule matches Some(r) ==> *r == self.rules()[name@],
    ;

    /// Checks whether an attribute of that name exists.
    fn has_attribute(&self, name: &str) -> (known: bool)
        ensures
            known == self.attributes().contains(name@),
    ;

    /// Checks whether a relation is published under that name.
    fn has_relation(&self, name: &str) -> (known: bool)
        ensures
            known == self.relations().contains(name@),
    ;

    /// Checks whether the rule of that name has to be wrapped in a recursive variable.
    fn is_underconstrained(&self, name: &str) -> (recursive: bool)
        ensures
            recursive == self.underconstrained().contains(name@),
    ;
}

/// `path` starts at one of `roots`, and every later name is referred to by the plan of
/// the rule registered under the name before it.
pub open spec fn chain(
    rules: Map<Seq<char>, Rule>,
    roots: Seq<Seq<char>>,
    path: Seq<Seq<char>>,
) -> bool {
    &&& path.len() > 0
    &&& roots.contains(path[0])
    &&& forall|i: int|
        #![trigger path[i]]
        0 <= i < path.len() - 1 ==> rules.dom().contains(path[i]) && plan_names(
            rules[path[i]].plan,
        ).contains(path[i + 1])
}

/// `name` is one of `roots` or is used, directly or through other rules, in the
/// definition of one of them.
pub open spec fn reachable(
    rules: Map<Seq<char>, Rule>,
    roots: Seq<Seq<char>>,
    name: Seq<char>,
) -> bool {
    exists|path: Seq<Seq<char>>| #[trigger] chain(rules, roots, path) && path.last() == name
}

/// A rule is registered under `name`, and the attributes that its plan reads exist.
pub open spec fn defined(
    rules: Map<Seq<char>, Rule>,
    attributes: Set<Seq<char>>,
    name: Seq<char>,
) -> bool {
    rules.dom().contains(name) && plan_attributes(rules[name].plan).subset_of(attributes)
}

/// Every name reachable from `roots` is defined.
pub open spec fn complete(
    rules: Map<Seq<char>, Rule>,
    attributes: Set<Seq<char>>,
    roots: Seq<Seq<char>>,
) -> bool {
    forall|name: Seq<char>| #[trigger]
        reachable(rules, roots, name) ==> defined(rules, attributes, name)
}

/// The texts of a list of names given as string slices.
pub open spec fn slice_texts(names: Seq<&str>) -> Seq<Seq<char>> {
    Seq::new(names.len(), |i: int| names[i]@)
}

/// The names of a list of rules, position by position.
pub open spec fn rule_names(found: Seq<&Rule>) -> Seq<Seq<char>> {
    Seq::new(found.len(), |i: int| found[i].name@)
}

/// The text of the error for a name under which no rule is registered.
pub open spec fn unknown_rule(name: Seq<char>) -> Seq<char> {
    framed("Unknown rule "@, name, "."@)
}

/// The text of the error for an attribute that a rule reads and that does not exist.
pub open spec fn unknown_attribute(aid: Seq<char>) -> Seq<char> {
    framed("Rule depends on unknown attribute "@, aid, "."@)
}

/// `error` reports a rule that is needed and not registered, or an attribute that a
/// needed rule reads and that does not exist.
pub open spec fn reports_missing(
    rules: Map<Seq<char>, Rule>,
    attributes: Set<Seq<char>>,
    roots: Seq<Seq<char>>,
    error: Error,
) -> bool {
    error.category@ == not_found() && exists|name: Seq<char>|
        {
            &&& #[trigger] reachable(rules, roots, name)
            &&& if rules.dom().contains(name) {
                exists|aid: Seq<char>|
                    {
                        &&& #[trigger] plan_attributes(rules[name].plan).contains(aid)
                        &&& !attributes.contains(aid)
                        &&& error.message@ == unknown_attribute(aid)
                    }
            } else {
                error.message@ == unknown_rule(name)
            }
        }
}

/// The names in the order in which they first occur, each once.
pub open spec fn firsts(names: Seq<Seq<char>>) -> Seq<Seq<char>>
    decreases names.len(),
{
    if names.len() == 0 {
        Seq::empty()
    } else {
        let before = firsts(names.drop_last());
        if before.contains(names.last()) {
            before
        } else {
            before.push(names.last())
        }
    }
}

/// The plan of the rule at `earlier` refers to the rule at `later`.
pub open spec fn refers(found: Seq<&Rule>, earlier: int, later: int) -> bool {
    plan_names(found[earlier].plan).contains(found[later].name@)
}

/// The rule at `earlier` stands in front of the rule at `later` and is the first
/// whose plan refers to it.
pub open spec fn first_refers(found: Seq<&Rule>, earlier: int, later: int) -> bool {
    &&& 0 <= earlier < later
    &&& refers(found, earlier, later)
    &&& forall|before: int| 0 <= before < earlier ==> !#[trigger] refers(found, before, later)
}

/// The rule at `position` is referred to by the plan of a rule in front of it.
pub open spec fn led_to(found: Seq<&Rule>, position: int) -> bool {
    exists|earlier: int| #[trigger] first_refers(found, earlier, position)
}

/// From `from` on the rules stand breadth first: of two of them, the one in front is
/// first referred to by a rule that stands no later than the rule that first refers to
/// the other.
pub open spec fn breadth_first(found: Seq<&Rule>, from: int) -> bool {
    forall|i: int, k: int, p: int, q: int|
        from <= i <= k < found.len() && #[trigger] first_refers(found, p, i)
            && #[trigger] first_refers(found, q, k) ==> p <= q
}

/// The rules stand in the order in which they were discovered: first those of the
/// roots, in the order given and each where it first occurs, then the others breadth
/// first, each behind a rule whose plan refers to it.
pub open spec fn discovered(roots: Seq<Seq<char>>, found: Seq<&Rule>) -> bool {
    &&& firsts(roots).len() <= found.len()
    &&& rule_names(found).subrange(0, firsts(roots).len() as int) == firsts(roots)
    &&& forall|position: int|
        firsts(roots).len() <= position < found.len() ==> #[trigger] led_to(found, position)
    &&& breadth_first(found, firsts(roots).len() as int)
}

/// Every entry of `found` is the rule registered under its name, is reachable from
/// `roots`, and occurs once.
pub open spec fn sound(
    rules: Map<Seq<char>, Rule>,
    roots: Seq<Seq<char>>,
    found: Seq<&Rule>,
) -> bool {
    &&& rule_names(found).no_duplicates()
    &&& forall|i: int|
        #![trigger found[i]]
        0 <= i < found.len() ==> {
            &&& rules.dom().contains(found[i].name@)
            &&& *found[i] == rules[found[i].name@]
            &&& reachable(rules, roots, found[i].name@)
        }
}

/// For each of the first `next` entries of `found`, what its plan refers to is in `found`
/// and what it reads exists.
pub open spec fn closed(
    attributes: Set<Seq<char>>,
    found: Seq<&Rule>,
    next: int,
) -> bool {
    forall|i: int|
        #![trigger found[i]]
        0 <= i < next ==> {
            &&& plan_names(found[i].plan).subset_of(rule_names(found).to_set())
            &&& plan_attributes(found[i].plan).subset_of(attributes)
        }
}

/// A root is reachable.
pub proof fn lemma_root_reachable(rules: Map<Seq<char>, Rule>, roots: Seq<Seq<char>>, k: int)
    requires
        0 <= k < roots.len(),
    ensures
        reachable(rules, roots, roots[k]),
{
    let path = seq![roots[k]];
    assert(chain(rules, roots, path));
    assert(path.last() == roots[k]);
}

/// What the plan of a reachable rule refers to is reachable.
pub proof fn lemma_step_reachable(
    rules: Map<Seq<char>, Rule>,
    roots: Seq<Seq<char>>,
    from: Seq<char>,
    to: Seq<char>,
)
    requires
        reachable(rules, roots, from),
        rules.dom().contains(from),
        plan_names(rules[from].plan).contains(to),
    ensures
        reachable(rules, roots, to),
{
    let path = choose|path: Seq<Seq<char>>| #[trigger]
        chain(rules, roots, path) && path.last() == from;
    let longer = path.push(to);
    assert forall|i: int|
        #![trigger longer[i]]
        0 <= i < longer.len() - 1 implies rules.dom().contains(longer[i]) && plan_names(
        rules[longer[i]].plan,
    ).contains(longer[i + 1]) by {
        if i < path.len() - 1 {
            assert(longer[i] == path[i]);
            assert(longer[i + 1] == path[i + 1]);
        } else {
            assert(longer[i] == from);
        }
    }
    assert(longer[0] == path[0]);
    assert(chain(rules, roots, longer));
    assert(longer.last() == to);
}

/// A list that holds the roots and is closed holds every name of a chain.
proof fn lemma_chain_found(
    rules: Map<Seq<char>, Rule>,
    attributes: Set<Seq<char>>,
    roots: Seq<Seq<char>>,
    found: Seq<&Rule>,
    path: Seq<Seq<char>>,
    k: int,
)
    requires
        sound(rules, roots, found),
        closed(attributes, found, found.len() as int),
        forall|j: int| 0 <= j < roots.len() ==> rule_names(found).contains(#[trigger] roots[j]),
        chain(rules, roots, path),
        0 <= k < path.len(),
    ensures
        rule_names(found).contains(path[k]),
    decreases k,
{
    if k == 0 {
        let j = choose|j: int| 0 <= j < roots.len() && roots[j] == path[0];
        assert(rule_names(found).contains(roots[j]));
    } else {
        lemma_chain_found(rules, attributes, roots, found, path, k - 1);
        let before = path[k - 1];
        let i = choose|i: int| 0 <= i < rule_names(found).len() && rule_names(found)[i] == before;
        assert(found[i].name@ == before);
        assert(*found[i] == rules[before]);
        assert(plan_names(found[i].plan).contains(path[k]));
        assert(rule_names(found).to_set().contains(path[k]));
    }
}

/// Appending a rule that is not yet listed keeps the list sound and what was closed,
/// closed.
proof fn lemma_push(
    rules: Map<Seq<char>, Rule>,
    attributes: Set<Seq<char>>,
    roots: Seq<Seq<char>>,
    found: Seq<&Rule>,
    rule: &Rule,
    next: int,
)
    requires
        sound(rules, roots, found),
        closed(attributes, found, next),
        0 <= next <= found.len(),
        !rule_names(found).contains(rule.name@),
        rules.dom().contains(rule.name@),
        *rule == rules[rule.name@],
        reachable(rules, roots, rule.name@),
    ensures
        sound(rules, roots, found.push(rule)),
        closed(attributes, found.push(rule), next),
        rule_names(found.push(rule)) == rule_names(found).push(rule.name@),
        forall|name: Seq<char>|
            rule_names(found).contains(name) ==> rule_names(found.push(rule)).contains(name),
        rule_names(found.push(rule)).contains(rule.name@),
{
    let longer = found.push(rule);
    assert(rule_names(longer) =~= rule_names(found).push(rule.name@));
    assert forall|name: Seq<char>| rule_names(found).contains(name) implies rule_names(
        longer,
    ).contains(name) by {
        let i = choose|i: int| 0 <= i < rule_names(found).len() && rule_names(found)[i] == name;
        assert(rule_names(longer)[i] == name);
    }
    assert(rule_names(longer)[found.len() as int] == rule.name@);
    assert forall|i: int| #![trigger longer[i]] 0 <= i < longer.len() implies {
        &&& rules.dom().contains(longer[i].name@)
        &&& *longer[i] == rules[longer[i].name@]
        &&& reachable(rules, roots, longer[i].name@)
    } by {
        if i < found.len() {
            assert(longer[i] == found[i]);
        }
    }
    assert forall|i: int| #![trigger longer[i]] 0 <= i < next implies {
        &&& plan_names(longer[i].plan).subset_of(rule_names(longer).to_set())
        &&& plan_attributes(longer[i].plan).subset_of(attributes)
    } by {
        assert(longer[i] == found[i]);
        assert forall|name: Seq<char>| plan_names(longer[i].plan).contains(name) implies rule_names(
            longer,
        ).to_set().contains(name) by {
            assert(rule_names(found).to_set().contains(name));
        }
    }
}

/// A sound list is no longer than the number of registered rules.
proof fn lemma_bounded(rules: Map<Seq<char>, Rule>, roots: Seq<Seq<char>>, found: Seq<&Rule>)
    requires
        sound(rules, roots, found),
        rules.dom().finite(),
    ensures
        found.len() <= rules.dom().len(),
{
    let names = rule_names(found);
    names.unique_seq_to_set();
    assert forall|name: Seq<char>| names.to_set().contains(name) implies rules.dom().contains(
        name,
    ) by {
        let i = choose|i: int| 0 <= i < names.len() && names[i] == name;
        assert(found[i].name@ == name);
    }
    vstd::set_lib::lemma_len_subset(names.to_set(), rules.dom());
}

/// `found` starts with `first`, the rules of the roots. The rules behind them stand
/// breadth first, and each is first referred to by the plan of a rule at `next` or in
/// front of it.
pub open spec fn ordered(
    roots: Seq<Seq<char>>,
    first: Seq<&Rule>,
    found: Seq<&Rule>,
    next: int,
) -> bool {
    &&& rule_names(first) == firsts(roots)
    &&& first.len() <= found.len()
    &&& found.subrange(0, first.len() as int) == first
    &&& forall|position: int|
        first.len() <= position < found.len() ==> #[trigger] led_to(found, position)
    &&& breadth_first(found, first.len() as int)
    &&& forall|position: int, earlier: int|
        first.len() <= position < found.len() && #[trigger] first_refers(found, earlier, position)
            ==> earlier <= next
}

/// A rule that stands at the end changes nothing for the rules in front of it.
proof fn lemma_first_refers_push(found: Seq<&Rule>, rule: &Rule, earlier: int, later: int)
    requires
        0 <= later < found.len(),
    ensures
        first_refers(found.push(rule), earlier, later) == first_refers(found, earlier, later),
{
    let longer = found.push(rule);
    if 0 <= earlier < later {
        assert(longer[earlier] == found[earlier]);
        assert(longer[later] == found[later]);
        assert(refers(longer, earlier, later) == refers(found, earlier, later));
        if first_refers(found, earlier, later) {
            assert forall|before: int| 0 <= before < earlier implies !#[trigger] refers(
                longer,
                before,
                later,
            ) by {
                assert(longer[before] == found[before]);
                assert(!refers(found, before, later));
            }
        }
        if first_refers(longer, earlier, later) {
            assert forall|before: int| 0 <= before < earlier implies !#[trigger] refers(
                found,
                before,
                later,
            ) by {
                assert(longer[before] == found[before]);
                assert(!refers(longer, before, later));
            }
        }
    }
}

/// One rule is the first to refer to another.
proof fn lemma_first_refers_one(found: Seq<&Rule>, p: int, q: int, later: int)
    requires
        first_refers(found, p, later),
        first_refers(found, q, later),
    ensures
        p == q,
{
    if p < q {
        assert(!refers(found, p, later));
    }
    if q < p {
        assert(!refers(found, q, later));
    }
}

/// A rule that is not yet listed and that the plan of the rule at `next` refers to
/// keeps the order when it is put at the end.
proof fn lemma_ordered_push(
    attributes: Set<Seq<char>>,
    roots: Seq<Seq<char>>,
    first: Seq<&Rule>,
    found: Seq<&Rule>,
    rule: &Rule,
    next: int,
)
    requires
        ordered(roots, first, found, next),
        closed(attributes, found, next),
        0 <= next < found.len(),
        plan_names(found[next].plan).contains(rule.name@),
        !rule_names(found).contains(rule.name@),
    ensures
        ordered(roots, first, found.push(rule), next),
{
    let longer = found.push(rule);
    let last = found.len() as int;
    assert(longer.subrange(0, first.len() as int) =~= found.subrange(0, first.len() as int));
    assert(longer[next] == found[next]);
    assert(refers(longer, next, last));
    assert forall|before: int| 0 <= before < next implies !#[trigger] refers(
        longer,
        before,
        last,
    ) by {
        assert(longer[before] == found[before]);
        if plan_names(found[before].plan).contains(rule.name@) {
            assert(rule_names(found).to_set().contains(rule.name@));
        }
    }
    assert(first_refers(longer, next, last));
    assert forall|position: int| first.len() <= position < longer.len() implies #[trigger] led_to(
        longer,
        position,
    ) by {
        if position < last {
            assert(led_to(found, position));
            let earlier = choose|earlier: int| #[trigger] first_refers(found, earlier, position);
            lemma_first_refers_push(found, rule, earlier, position);
        }
    }
    assert forall|position: int, earlier: int|
        first.len() <= position < longer.len() && #[trigger] first_refers(
            longer,
            earlier,
            position,
        ) implies earlier <= next by {
        if position < last {
            lemma_first_refers_push(found, rule, earlier, position);
        } else {
            lemma_first_refers_one(longer, earlier, next, last);
        }
    }
    assert forall|i: int, k: int, p: int, q: int|
        first.len() <= i <= k < longer.len() && #[trigger] first_refers(longer, p, i)
            && #[trigger] first_refers(longer, q, k) implies p <= q by {
        if k < last {
            lemma_first_refers_push(found, rule, p, i);
            lemma_first_refers_push(found, rule, q, k);
        } else {
            lemma_first_refers_one(longer, q, next, last);
        }
    }
}

/// Rules in order are rules as they were discovered.
proof fn lemma_ordered_discovered(
    roots: Seq<Seq<char>>,
    first: Seq<&Rule>,
    found: Seq<&Rule>,
    next: int,
)
    requires
        ordered(roots, first, found, next),
    ensures
        discovered(roots, found),
{
    assert(rule_names(first).len() == first.len());
    assert(rule_names(found).subrange(0, first.len() as int) =~= rule_names(
        found.subrange(0, first.len() as int),
    ));
}

/// Whether a rule of that name is listed.
fn listed(found: &Vec<&Rule>, name: &str) -> (held: bool)
    ensures
        held == rule_names(found@).contains(name@),
{
    let wanted = String::from_str(name);
    let mut i: usize = 0;
    while i < found.len()
        invariant
            i <= found.len(),
            wanted@ == name@,
            forall|j: int| 0 <= j < i ==> found[j].name@ != name@,
        decreases found.len() - i,
    {
        if found[i].name == wanted {
            assert(rule_names(found@)[i as int] == name@);
            return true;
        }
        i += 1;
    }
    assert forall|j: int| 0 <= j < rule_names(found@).len() implies rule_names(found@)[j]
        != name@ by {
        assert(rule_names(found@)[j] == found[j].name@);
    }
    false
}

/// Returns a deduplicated list of all rules used in the definition of the specified
/// names. Includes the rules of the specified names. The rules come in the order in
/// which they are discovered: those of the names first, then those that their plans
/// refer to, and so on.
///
/// Fails with a not-found error when a rule that is needed is not registered, or when a
/// plan among them reads an attribute that does not exist.
pub fn collect_dependencies<'a, I: ImplContext>(context: &'a I, names: &[&str]) -> (result:
    Result<Vec<&'a Rule>, Error>)
    ensures
        result is Ok == complete(context.rules(), context.attributes(), slice_texts(names@)),
        result matches Ok(found) ==> {
            &&& sound(context.rules(), slice_texts(names@), found@)
            &&& forall|name: Seq<char>| #[trigger]
                reachable(context.rules(), slice_texts(names@), name) ==> rule_names(
                    found@,
                ).contains(name)
            &&& discovered(slice_texts(names@), found@)
        },
        result matches Err(error) ==> reports_missing(
            context.rules(),
            context.attributes(),
            slice_texts(names@),
            error,
        ),
{
    let ghost rules = context.rules();
    let ghost attributes = context.attributes();
    let ghost roots = slice_texts(names@);
    proof {
        context.lemma_rules();
    }
    let mut found: Vec<&'a Rule> = Vec::new();
    let mut k: usize = 0;
    assert(rule_names(found@) =~= Seq::<Seq<char>>::empty());
    while k < names.len()
        invariant
            k <= names.len(),
            rules == context.rules(),
            attributes == context.attributes(),
            roots == slice_texts(names@),
            forall|name: Seq<char>| #[trigger]
                rules.dom().contains(name) ==> rules[name].name@ == name,
            sound(rules, roots, found@),
            forall|j: int| 0 <= j < k ==> rule_names(found@).contains(#[trigger] roots[j]),
            rule_names(found@) == firsts(roots.subrange(0, k as int)),
        decreases names.len() - k,
    {
        let name = names[k];
        assert(roots[k as int] == name@);
        proof {
            lemma_root_reachable(rules, roots, k as int);
            let longer = roots.subrange(0, k + 1);
            assert(longer.drop_last() =~= roots.subrange(0, k as int));
            assert(longer.last() == name@);
        }
        if !listed(&found, name) {
            match context.rule(name) {
                None => {
                    return Err(Error::not_found(frame("Unknown rule ", name, ".")));
                },
                Some(rule) => {
                    proof {
                        lemma_push(rules, attributes, roots, found@, rule, 0);
                    }
                    found.push(rule);
                },
            }
        }
        k += 1;
    }
    let ghost first = found@;
    proof {
        assert(roots.len() == names.len());
        assert(roots.subrange(0, k as int) =~= roots);
        assert(first.subrange(0, first.len() as int) =~= first);
    }
    let mut next: usize = 0;
    while next < found.len()
        invariant
            next <= found.len(),
            ordered(roots, first, found@, next as int),
            rules == context.rules(),
            attributes == context.attributes(),
            roots == slice_texts(names@),
            rules.dom().finite(),
            forall|name: Seq<char>| #[trigger]
                rules.dom().contains(name) ==> rules[name].name@ == name,
            sound(rules, roots, found@),
            closed(attributes, found@, next as int),
            forall|j: int|
                0 <= j < roots.len() ==> rule_names(found@).contains(#[trigger] roots[j]),
        decreases rules.dom().len() - next,
    {
        proof {
            lemma_bounded(rules, roots, found@);
        }
        let rule = found[next];
        let ghost from = rule.name@;
        let dependencies = rule.plan.dependencies();
        let mut j: usize = 0;
        while j < dependencies.names.len()
            invariant
                j <= dependencies.names.len(),
                next < found.len(),
                rule == found[next as int],
                from == rule.name@,
                rules == context.rules(),
                attributes == context.attributes(),
                roots == slice_texts(names@),
                forall|name: Seq<char>| #[trigger]
                    rules.dom().contains(name) ==> rules[name].name@ == name,
                dependencies.name_set() == plan_names(rule.plan),
                ordered(roots, first, found@, next as int),
                sound(rules, roots, found@),
                closed(attributes, found@, next as int),
                forall|j: int|
                    0 <= j < roots.len() ==> rule_names(found@).contains(#[trigger] roots[j]),
                forall|i: int|
                    0 <= i < j ==> rule_names(found@).contains(#[trigger] dependencies.names[i]@),
            decreases dependencies.names.len() - j,
        {
            let name = dependencies.names[j].as_str();
            proof {
                assert(texts(dependencies.names@)[j as int] == name@);
                assert(plan_names(rule.plan).contains(name@));
                assert(*rule == rules[from]);
                lemma_step_reachable(rules, roots, from, name@);
            }
            if !listed(&found, name) {
                match context.rule(name) {
                    None => {
                        return Err(Error::not_found(frame("Unknown rule ", name, ".")));
                    },
                    Some(dependency) => {
                        proof {
                            lemma_push(rules, attributes, roots, found@, dependency, next as int);
                            lemma_ordered_push(
                                attributes,
                                roots,
                                first,
                                found@,
                                dependency,
                                next as int,
                            );
                        }
                        found.push(dependency);
                    },
                }
            }
            j += 1;
        }
        let mut j: usize = 0;
        while j < dependencies.attributes.len()
            invariant
                j <= dependencies.attributes.len(),
                from == rule.name@,
                rules.dom().contains(from),
                *rule == rules[from],
                reachable(rules, roots, from),
                rules == context.rules(),
                attributes == context.attributes(),
                roots == slice_texts(names@),
                dependencies.attribute_set() == plan_attributes(rule.plan),
                forall|i: int|
                    0 <= i < j ==> attributes.contains(#[trigger] dependencies.attributes[i]@),
            decreases dependencies.attributes.len() - j,
        {
            let aid = dependencies.attributes[j].as_str();
            if !context.has_attribute(aid) {
                proof {
                    assert(texts(dependencies.attributes@)[j as int] == aid@);
                    assert(plan_attributes(rules[from].plan).contains(aid@));
                }
                return Err(
                    Error::not_found(frame("Rule depends on unknown attribute ", aid, ".")),
                );
            }
            j += 1;
        }
        proof {
            assert forall|name: Seq<char>| plan_names(rule.plan).contains(name) implies rule_names(
                found@,
            ).to_set().contains(name) by {
                let i = choose|i: int|
                    0 <= i < texts(dependencies.names@).len() && texts(dependencies.names@)[i]
                        == name;
                assert(dependencies.names[i]@ == name);
            }
            assert forall|aid: Seq<char>|
                plan_attributes(rule.plan).contains(aid) implies attributes.contains(aid) by {
                let i = choose|i: int|
                    0 <= i < texts(dependencies.attributes@).len() && texts(
                        dependencies.attributes@,
                    )[i] == aid;
                assert(dependencies.attributes[i]@ == aid);
            }
            lemma_bounded(rules, roots, found@);
        }
        next += 1;
    }
    proof {
        assert forall|name: Seq<char>| #[trigger] reachable(rules, roots, name) implies rule_names(
            found@,
        ).contains(name) && defined(rules, attributes, name) by {
            let path = choose|path: Seq<Seq<char>>| #[trigger]
                chain(rules, roots, path) && path.last() == name;
            lemma_chain_found(rules, attributes, roots, found@, path, path.len() - 1);
            let i = choose|i: int|
                0 <= i < rule_names(found@).len() && rule_names(found@)[i] == name;
            assert(found@[i].name@ == name);
        }
        lemma_ordered_discovered(roots, first, found@, next as int);
    }
    Ok(found)
}

} // verus!
