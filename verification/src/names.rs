//! Lists of names used as sets and as keys.

use crate::value::texts;
use vstd::prelude::*;
use vstd::string::StringExecFns;

verus! {

/// The set of texts that occur in `names`.
pub open spec fn text_set(names: Seq<String>) -> Set<Seq<char>> {
    Set::new(|text: Seq<char>| texts(names).contains(text))
}

/// Pushing a name appends its text.
pub proof fn lemma_texts_push(names: Seq<String>, name: String)
    ensures
        texts(names.push(name)) == texts(names).push(name@),
        text_set(names.push(name)) == text_set(names).insert(name@),
{
    let pushed = texts(names.push(name));
    let expected = texts(names).push(name@);
    assert(pushed =~= expected);
    assert forall|text: Seq<char>|
        text_set(names.push(name)).contains(text) == text_set(names).insert(name@).contains(
            text,
        ) by {
        if texts(names).contains(text) {
            let i = choose|i: int| 0 <= i < texts(names).len() && texts(names)[i] == text;
            assert(expected[i] == text);
        }
        if text == name@ {
            assert(expected[names.len() as int] == text);
        }
        if expected.contains(text) {
            let i = choose|i: int| 0 <= i < expected.len() && expected[i] == text;
            if i < names.len() {
                assert(texts(names)[i] == text);
            }
        }
    }
    assert(text_set(names.push(name)) =~= text_set(names).insert(name@));
}

/// The empty list holds no text.
pub proof fn lemma_texts_empty()
    ensures
        texts(Seq::<String>::empty()) == Seq::<Seq<char>>::empty(),
        text_set(Seq::<String>::empty()) == Set::<Seq<char>>::empty(),
{
    assert(texts(Seq::<String>::empty()) =~= Seq::<Seq<char>>::empty());
    assert(text_set(Seq::<String>::empty()) =~= Set::<Seq<char>>::empty());
}

/// Copies a list of names.
pub fn clone_names(names: &Vec<String>) -> (copy: Vec<String>)
    ensures
        texts(copy@) == texts(names@),
        text_set(copy@) == text_set(names@),
{
    let mut copy: Vec<String> = Vec::new();
    let mut i: usize = 0;
    while i < names.len()
        invariant
            i <= names.len(),
            copy@.len() == i,
            forall|j: int| 0 <= j < i ==> copy@[j]@ == names@[j]@,
        decreases names.len() - i,
    {
        copy.push(names[i].clone());
        i += 1;
    }
    assert(texts(copy@) =~= texts(names@));
    copy
}

/// The first position of `name` in `names`, if it occurs.
pub fn position(names: &Vec<String>, name: &str) -> (found: Option<usize>)
    ensures
        found matches Some(i) ==> i < names.len() && names[i as int]@ == name@ && forall|j: int|
            0 <= j < i ==> names[j]@ != name@,
        found is None ==> !texts(names@).contains(name@),
{
    let wanted = String::from_str(name);
    let mut i: usize = 0;
    while i < names.len()
        invariant
            i <= names.len(),
            wanted@ == name@,
            forall|j: int| 0 <= j < i ==> names[j]@ != name@,
        decreases names.len() - i,
    {
        if names[i] == wanted {
            return Some(i);
        }
        i += 1;
    }
    assert forall|j: int| 0 <= j < texts(names@).len() implies texts(names@)[j] != name@ by {
        assert(texts(names@)[j] == names[j]@);
    }
    None
}

/// Whether `name` occurs in `names`.
pub fn contains(names: &Vec<String>, name: &str) -> (found: bool)
    ensures
        found == texts(names@).contains(name@),
        found == text_set(names@).contains(name@),
{
    match position(names, name) {
        Some(i) => {
            assert(texts(names@)[i as int] == name@);
            true
        },
        None => false,
    }
}

/// Whether `a` comes before `b` in the lexicographic order of their code points.
pub open spec fn text_less(a: Seq<char>, b: Seq<char>) -> bool
    decreases a.len(),
{
    if b.len() == 0 {
        false
    } else if a.len() == 0 {
        true
    } else if a[0] != b[0] {
        (a[0] as int) < (b[0] as int)
    } else {
        text_less(a.drop_first(), b.drop_first())
    }
}

/// Of two different texts one comes before the other.
pub proof fn lemma_text_less_total(a: Seq<char>, b: Seq<char>)
    ensures
        a == b || text_less(a, b) || text_less(b, a),
    decreases a.len(),
{
    if a.len() == 0 || b.len() == 0 {
        if a.len() == 0 && b.len() == 0 {
            assert(a =~= b);
        }
    } else if a[0] == b[0] {
        lemma_text_less_total(a.drop_first(), b.drop_first());
        if a.drop_first() == b.drop_first() {
            assert(a =~= seq![a[0]] + a.drop_first());
            assert(b =~= seq![b[0]] + b.drop_first());
        }
    } else {
        assert(a[0] as int != b[0] as int);
    }
}

/// No text comes before itself.
pub proof fn lemma_text_less_irreflexive(a: Seq<char>)
    ensures
        !text_less(a, a),
    decreases a.len(),
{
    if a.len() > 0 {
        lemma_text_less_irreflexive(a.drop_first());
    }
}

/// The order of texts is transitive.
pub proof fn lemma_text_less_transitive(a: Seq<char>, b: Seq<char>, c: Seq<char>)
    requires
        text_less(a, b),
        text_less(b, c),
    ensures
        text_less(a, c),
    decreases a.len(),
{
    if a.len() > 0 && a[0] == b[0] && b[0] == c[0] {
        lemma_text_less_transitive(a.drop_first(), b.drop_first(), c.drop_first());
    }
}

/// Compares two strings with `<` of `str`. Trusted: strings are ordered
/// lexicographically by their code points.
#[verifier::external_body]
pub(crate) fn str_less(a: &str, b: &str) -> (less: bool)
    ensures
        less == text_less(a@, b@),
{
    a < b
}

/// Every text comes before the texts behind it.
pub open spec fn strictly_sorted(names: Seq<Seq<char>>) -> bool {
    forall|i: int, j: int| 0 <= i < j < names.len() ==> text_less(names[i], names[j])
}

} // verus!
