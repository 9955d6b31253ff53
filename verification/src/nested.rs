//! Nesting of pulled paths into objects, as results of GraphQL queries are shaped.

use crate::error::{decimal, decimal_text};
use crate::value::{views, Value, ValueView};
use vstd::map::*;
use vstd::prelude::*;
use vstd::string::StringExecFns;

verus! {

/// A nested value: a value, or an object that maps names to nested values.
#[derive(Debug)]
pub enum Nested {
    /// A value at the end of a path.
    Leaf(Value),
    /// The members of an object, each name once, in the order in which they came.
    Object(Vec<(String, Nested)>),
}

/// What a [`Nested`] stands for.
pub enum NestedView {
    Leaf(ValueView),
    Object(Map<Seq<char>, NestedView>),
}

impl View for Nested {
    type V = NestedView;

    open spec fn view(&self) -> NestedView {
        nested_view(*self)
    }
}

/// What a nested value stands for.
pub open spec fn nested_view(nested: Nested) -> NestedView
    decreases nested,
{
    match nested {
        Nested::Leaf(value) => NestedView::Leaf(value@),
        Nested::Object(members) => NestedView::Object(members_view(members@)),
    }
}

/// The object that a list of members stands for.
pub open spec fn members_view(members: Seq<(String, Nested)>) -> Map<Seq<char>, NestedView>
    decreases members,
{
    if members.len() == 0 {
        Map::empty()
    } else {
        members_view(members.drop_last()).insert(
            members.last().0@,
            nested_view(members.last().1),
        )
    }
}

/// The names of a list of members, position by position.
pub open spec fn member_names(members: Seq<(String, Nested)>) -> Seq<Seq<char>> {
    Seq::new(members.len(), |i: int| members[i].0@)
}

/// No object, at any depth, has two members of one name.
pub open spec fn nested_wf(nested: Nested) -> bool
    decreases nested,
{
    match nested {
        Nested::Leaf(_) => true,
        Nested::Object(members) => members_wf(members@),
    }
}

/// No two of the members have one name, and each of them is well formed.
pub open spec fn members_wf(members: Seq<(String, Nested)>) -> bool
    decreases members,
{
    if members.len() == 0 {
        true
    } else {
        &&& members_wf(members.drop_last())
        &&& !member_names(members.drop_last()).contains(members.last().0@)
        &&& nested_wf(members.last().1)
    }
}

/// The name under which a value of a path is nested: an attribute by its name, an
/// entity by its number.
pub open spec fn step_name(value: ValueView) -> Seq<char> {
    match value {
        ValueView::Aid(name) => name,
        ValueView::Eid(eid) => decimal(eid as nat),
        _ => Seq::empty(),
    }
}

/// Whether a path can be nested: it ends in an attribute and a value, and in front of
/// them holds attributes and entities only.
pub open spec fn nestable(path: Seq<ValueView>) -> bool {
    &&& path.len() >= 2
    &&& path[path.len() - 2] is Aid
    &&& forall|i: int| 0 <= i < path.len() - 2 ==> (#[trigger] path[i] is Aid || path[i] is Eid)
}

/// The object with `leaf` put under `last` below the objects named by `steps`.
/// Objects are made where there are none, and a value in the way of one is
/// replaced by it. Under `last` an object stays, and anything else is replaced by
/// the leaf.
pub open spec fn nested_under(
    object: Map<Seq<char>, NestedView>,
    steps: Seq<Seq<char>>,
    last: Seq<char>,
    leaf: ValueView,
) -> Map<Seq<char>, NestedView>
    decreases steps.len(),
{
    if steps.len() == 0 {
        if object.dom().contains(last) && object[last] is Object {
            object
        } else {
            object.insert(last, NestedView::Leaf(leaf))
        }
    } else {
        let below = if object.dom().contains(steps[0]) {
            match object[steps[0]] {
                NestedView::Object(members) => members,
                NestedView::Leaf(_) => Map::empty(),
            }
        } else {
            Map::empty()
        };
        object.insert(
            steps[0],
            NestedView::Object(nested_under(below, steps.drop_first(), last, leaf)),
        )
    }
}

/// The names under which the values of a path, from `from` on and without the last
/// two, are nested.
pub open spec fn steps(path: Seq<ValueView>, from: int) -> Seq<Seq<char>> {
    Seq::new((path.len() - 2 - from) as nat, |i: int| step_name(path[from + i]))
}

/// The object with one path nested into it.
pub open spec fn with_path(object: Map<Seq<char>, NestedView>, path: Seq<ValueView>) -> Map<
    Seq<char>,
    NestedView,
> {
    nested_under(object, steps(path, 0), step_name(path[path.len() - 2]), path.last())
}

/// The object with the first `n` paths nested into it, one after the other.
pub open spec fn with_paths(paths: Seq<Seq<ValueView>>, n: nat) -> Map<Seq<char>, NestedView>
    decreases n,
{
    if n == 0 {
        Map::empty()
    } else {
        with_path(with_paths(paths, (n - 1) as nat), paths[n - 1])
    }
}

/// The views of a list of paths, position by position.
pub open spec fn path_views(paths: Seq<Vec<Value>>) -> Seq<Seq<ValueView>> {
    Seq::new(paths.len(), |i: int| views(paths[i]@))
}

/// An object has a member of a name exactly if the list of its members holds one,
/// and then the member is what the object gives for the name.
proof fn lemma_members(members: Seq<(String, Nested)>)
    requires
        members_wf(members),
    ensures
        forall|name: Seq<char>|
            members_view(members).dom().contains(name) <==> member_names(members).contains(name),
        forall|i: int|
            0 <= i < members.len() ==> members_view(members).dom().contains(
                #[trigger] members[i].0@,
            ) && members_view(members)[members[i].0@] == nested_view(members[i].1)
                && nested_wf(members[i].1),
        member_names(members).no_duplicates(),
    decreases members.len(),
{
    if members.len() > 0 {
        let shorter = members.drop_last();
        lemma_members(shorter);
        let names = member_names(members);
        assert(member_names(shorter) =~= names.drop_last());
        assert forall|name: Seq<char>|
            members_view(members).dom().contains(name) <==> names.contains(name) by {
            if names.contains(name) {
                let i = choose|i: int| 0 <= i < names.len() && names[i] == name;
                if i < shorter.len() {
                    assert(member_names(shorter)[i] == name);
                }
            }
            if member_names(shorter).contains(name) {
                let i = choose|i: int|
                    0 <= i < member_names(shorter).len() && member_names(shorter)[i] == name;
                assert(names[i] == name);
            }
            assert(names[members.len() - 1] == members.last().0@);
        }
        assert forall|i: int| 0 <= i < members.len() implies members_view(members).dom().contains(
            #[trigger] members[i].0@,
        ) && members_view(members)[members[i].0@] == nested_view(members[i].1) && nested_wf(
            members[i].1,
        ) by {
            if i < shorter.len() {
                assert(shorter[i] == members[i]);
                assert(member_names(shorter)[i] == members[i].0@);
            }
        }
        assert forall|i: int, j: int| 0 <= i < names.len() && 0 <= j < names.len() && i
            != j implies names[i] != names[j] by {
            if i < shorter.len() && j < shorter.len() {
                assert(member_names(shorter)[i] == names[i]);
                assert(member_names(shorter)[j] == names[j]);
            } else if i < shorter.len() {
                assert(member_names(shorter)[i] == names[i]);
            } else {
                assert(member_names(shorter)[j] == names[j]);
            }
        }
    }
}

/// A list of well-formed members with different names is well formed.
proof fn lemma_members_wf(members: Seq<(String, Nested)>)
    requires
        member_names(members).no_duplicates(),
        forall|i: int| 0 <= i < members.len() ==> nested_wf(#[trigger] members[i].1),
    ensures
        members_wf(members),
    decreases members.len(),
{
    if members.len() > 0 {
        let shorter = members.drop_last();
        let names = member_names(members);
        assert(member_names(shorter) =~= names.drop_last());
        assert forall|i: int| 0 <= i < shorter.len() implies nested_wf(#[trigger] shorter[i].1) by {
            assert(shorter[i] == members[i]);
        }
        lemma_members_wf(shorter);
        if member_names(shorter).contains(members.last().0@) {
            let i = choose|i: int|
                0 <= i < member_names(shorter).len() && member_names(shorter)[i]
                    == members.last().0@;
            assert(names[i] == names[members.len() - 1]);
        }
    }
}

/// Without the member at `index` the object is without the member's name.
proof fn lemma_members_remove(members: Seq<(String, Nested)>, index: int)
    requires
        members_wf(members),
        0 <= index < members.len(),
    ensures
        members_wf(members.remove(index)),
        members_view(members.remove(index)) == members_view(members).remove(members[index].0@),
        !member_names(members.remove(index)).contains(members[index].0@),
{
    lemma_members(members);
    let rest = members.remove(index);
    let names = member_names(members);
    assert forall|i: int, j: int|
        0 <= i < rest.len() && 0 <= j < rest.len() && i != j implies member_names(rest)[i]
        != member_names(rest)[j] by {
        let i0 = if i < index { i } else { i + 1 };
        let j0 = if j < index { j } else { j + 1 };
        assert(member_names(rest)[i] == names[i0]);
        assert(member_names(rest)[j] == names[j0]);
    }
    assert forall|i: int| 0 <= i < rest.len() implies nested_wf(#[trigger] rest[i].1) by {
        let i0 = if i < index { i } else { i + 1 };
        assert(rest[i] == members[i0]);
        assert(members_view(members).dom().contains(members[i0].0@));
    }
    lemma_members_wf(rest);
    lemma_members(rest);
    let removed = members_view(members).remove(members[index].0@);
    if member_names(rest).contains(members[index].0@) {
        let i = choose|i: int|
            0 <= i < member_names(rest).len() && member_names(rest)[i] == members[index].0@;
        let i0 = if i < index { i } else { i + 1 };
        assert(names[i0] == names[index]);
    }
    let left = members_view(rest);
    assert_maps_equal!(left, removed, name => {
        assert(names[index] == members[index].0@);
        if left.dom().contains(name) {
            assert(member_names(rest).contains(name));
            let i = choose|i: int|
                0 <= i < member_names(rest).len() && member_names(rest)[i] == name;
            let i0 = if i < index { i } else { i + 1 };
            assert(rest[i] == members[i0]);
            assert(names[i0] == name);
            assert(members_view(members).dom().contains(members[i0].0@));
            assert(left.dom().contains(rest[i].0@));
            assert(left[rest[i].0@] == nested_view(rest[i].1));
        }
        if removed.dom().contains(name) {
            assert(names.contains(name));
            let i0 = choose|i: int| 0 <= i < names.len() && names[i] == name;
            let i = if i0 < index { i0 } else { i0 - 1 };
            assert(member_names(rest)[i] == name);
        }
    });
}

/// With a member of a new name at the end the object has the member under the name.
proof fn lemma_members_push(members: Seq<(String, Nested)>, name: String, nested: Nested)
    requires
        members_wf(members),
        !member_names(members).contains(name@),
        nested_wf(nested),
    ensures
        members_wf(members.push((name, nested))),
        members_view(members.push((name, nested))) == members_view(members).insert(
            name@,
            nested_view(nested),
        ),
{
    let longer = members.push((name, nested));
    assert(longer.drop_last() =~= members);
}

/// The position of the member of that name, if there is one.
fn find(members: &Vec<(String, Nested)>, name: &String) -> (found: Option<usize>)
    ensures
        found matches Some(i) ==> i < members@.len() && members@[i as int].0@ == name@,
        found is None ==> !member_names(members@).contains(name@),
{
    let mut i: usize = 0;
    while i < members.len()
        invariant
            i <= members.len(),
            forall|j: int| 0 <= j < i ==> members@[j].0@ != name@,
        decreases members.len() - i,
    {
        if members[i].0 == *name {
            return Some(i);
        }
        i += 1;
    }
    assert forall|j: int| 0 <= j < member_names(members@).len() implies member_names(members@)[j]
        != name@ by {
        assert(member_names(members@)[j] == members@[j].0@);
    }
    None
}

/// The name under which a value of a path is nested.
fn step_text(value: &Value) -> (name: String)
    requires
        value@ is Aid || value@ is Eid,
    ensures
        name@ == step_name(value@),
{
    match value {
        Value::Aid(name) => name.clone(),
        Value::Eid(eid) => decimal_text(*eid),
        _ => String::from_str(""),
    }
}

/// Nests the end of `path` into `members`, below the objects named by the values of
/// the path from `from` on.
fn nest(members: Vec<(String, Nested)>, path: &Vec<Value>, from: usize) -> (nested: Vec<
    (String, Nested),
>)
    requires
        members_wf(members@),
        nestable(views(path@)),
        from <= path@.len() - 2,
    ensures
        members_wf(nested@),
        members_view(nested@) == nested_under(
            members_view(members@),
            steps(views(path@), from as int),
            step_name(views(path@)[path@.len() - 2]),
            views(path@).last(),
        ),
    decreases path@.len() - from,
{
    let ghost object = members_view(members@);
    let ghost before = members@;
    let mut members = members;
    proof {
        lemma_members(before);
    }
    if from == path.len() - 2 {
        assert(steps(views(path@), from as int) =~= Seq::<Seq<char>>::empty());
        assert(views(path@)[from as int] == path@[from as int]@);
        let last = step_text(&path[from]);
        let leaf = path[from + 1].clone();
        assert(views(path@).last() == path@[from + 1]@);
        match find(&members, &last) {
            Some(i) => {
                let keep = match &members[i].1 {
                    Nested::Object(_) => true,
                    Nested::Leaf(_) => false,
                };
                assert(object[last@] == nested_view(before[i as int].1));
                if !keep {
                    members.remove(i);
                    proof {
                        lemma_members_remove(before, i as int);
                        lemma_members_push(before.remove(i as int), last, Nested::Leaf(leaf));
                    }
                    members.push((last, Nested::Leaf(leaf)));
                    assert(members_view(members@) =~= object.insert(
                        last@,
                        NestedView::Leaf(leaf@),
                    ));
                }
            },
            None => {
                proof {
                    lemma_members_push(before, last, Nested::Leaf(leaf));
                }
                members.push((last, Nested::Leaf(leaf)));
            },
        }
        members
    } else {
        assert(views(path@)[from as int] == path@[from as int]@);
        let step = step_text(&path[from]);
        proof {
            let all = steps(views(path@), from as int);
            assert(all[0] == step@);
            assert(all.drop_first() =~= steps(views(path@), from + 1));
        }
        match find(&members, &step) {
            Some(i) => {
                let (name, child) = members.remove(i);
                proof {
                    lemma_members_remove(before, i as int);
                    assert(object[step@] == nested_view(child));
                }
                let below = match child {
                    Nested::Object(below) => below,
                    Nested::Leaf(_) => {
                        let empty: Vec<(String, Nested)> = Vec::new();
                        empty
                    },
                };
                let nested = nest(below, path, from + 1);
                proof {
                    lemma_members_push(before.remove(i as int), name, Nested::Object(nested));
                }
                members.push((name, Nested::Object(nested)));
                assert(members_view(members@) =~= object.insert(
                    step@,
                    NestedView::Object(members_view(nested@)),
                ));
                members
            },
            None => {
                let empty: Vec<(String, Nested)> = Vec::new();
                let nested = nest(empty, path, from + 1);
                proof {
                    lemma_members_push(before, step, Nested::Object(nested));
                }
                members.push((step, Nested::Object(nested)));
                members
            },
        }
    }
}

/// Converts a list of paths to a nested value, as the results of a GraphQL query are
/// shaped: each path ends in an attribute and a value, which becomes a member of the
/// object that the attributes and entities in front of them lead to.
pub fn paths_to_nested(paths: Vec<Vec<Value>>) -> (nested: Nested)
    requires
        forall|i: int| 0 <= i < paths@.len() ==> nestable(#[trigger] views(paths@[i]@)),
    ensures
        nested_wf(nested),
        nested@ == NestedView::Object(with_paths(path_views(paths@), paths@.len())),
{
    let mut members: Vec<(String, Nested)> = Vec::new();
    let mut i: usize = 0;
    while i < paths.len()
        invariant
            i <= paths.len(),
            forall|i: int| 0 <= i < paths@.len() ==> nestable(#[trigger] views(paths@[i]@)),
            members_wf(members@),
            members_view(members@) == with_paths(path_views(paths@), i as nat),
        decreases paths.len() - i,
    {
        assert(path_views(paths@)[i as int] == views(paths@[i as int]@));
        members = nest(members, &paths[i], 0);
        i += 1;
    }
    Nested::Object(members)
}

/// Whether a path can be nested.
pub fn can_nest(path: &Vec<Value>) -> (possible: bool)
    ensures
        possible == nestable(views(path@)),
{
    if path.len() < 2 {
        return false;
    }
    match &path[path.len() - 2] {
        Value::Aid(_) => {},
        _ => {
            assert(views(path@)[path@.len() - 2] == path@[path@.len() - 2]@);
            return false;
        },
    }
    assert(views(path@)[path@.len() - 2] == path@[path@.len() - 2]@);
    let mut i: usize = 0;
    while i < path.len() - 2
        invariant
            i <= path.len() - 2,
            path.len() >= 2,
            forall|j: int|
                0 <= j < i ==> (#[trigger] views(path@)[j] is Aid || views(path@)[j] is Eid),
        decreases path.len() - i,
    {
        assert(views(path@)[i as int] == path@[i as int]@);
        match &path[i] {
            Value::Aid(_) => {},
            Value::Eid(_) => {},
            _ => {
                return false;
            },
        }
        i += 1;
    }
    true
}

} // verus!
