//! Relations between variables: positional tuples and the variables that name their
//! positions.

use crate::value::{clone_tuple, views, Value, ValueView, Var};
use vstd::prelude::*;

verus! {

/// The variables of a collection of tuples, each of which has one value for each
/// variable, at the variable's offset.
#[derive(Debug)]
pub struct CollectionRelation {
    /// The variables that name the positions of the tuples.
    pub variables: Vec<Var>,
}

/// `offset` is the first position at which `variable` occurs in `variables`.
pub open spec fn first_at(variables: Seq<Var>, variable: Var, offset: int) -> bool {
    &&& 0 <= offset < variables.len()
    &&& variables[offset] == variable
    &&& forall|j: int| 0 <= j < offset ==> variables[j] != variable
}

/// The positions, among the first `n`, of the variables that `key` does not hold, in
/// ascending order.
pub open spec fn rest_offsets(variables: Seq<Var>, key: Seq<Var>, n: nat) -> Seq<usize>
    decreases n,
{
    if n == 0 {
        Seq::empty()
    } else {
        let before = rest_offsets(variables, key, (n - 1) as nat);
        if key.contains(variables[n - 1]) {
            before
        } else {
            before.push((n - 1) as usize)
        }
    }
}

/// The variables at `offsets`, in the order of the offsets.
pub open spec fn picked_variables(variables: Seq<Var>, offsets: Seq<usize>) -> Seq<Var> {
    Seq::new(offsets.len(), |i: int| variables[offsets[i] as int])
}

/// The values of `tuple` at `offsets`, in the order of the offsets.
pub open spec fn picked(tuple: Seq<ValueView>, offsets: Seq<usize>) -> Seq<ValueView> {
    Seq::new(offsets.len(), |i: int| tuple[offsets[i] as int])
}

/// How the tuples of a relation are split into a key and the remaining values.
#[derive(Debug)]
pub enum Split {
    /// The key variables are the relation's own: a tuple is its own key.
    Whole,
    /// There is no key variable: a tuple is all values.
    Keyless,
    /// The key holds the values at the first offsets, the rest those at the second.
    Offsets(Vec<usize>, Vec<usize>),
}

impl Split {
    /// Whether the split can be applied to tuples of `arity` values.
    pub open spec fn fits(&self, arity: nat) -> bool {
        match *self {
            Split::Offsets(key, rest) => {
                &&& forall|i: int| 0 <= i < key@.len() ==> key@[i] < arity
                &&& forall|i: int| 0 <= i < rest@.len() ==> rest@[i] < arity
            },
            _ => true,
        }
    }

    /// The key and the remaining values of `tuple`.
    pub open spec fn applied(&self, tuple: Seq<ValueView>) -> (Seq<ValueView>, Seq<ValueView>) {
        match *self {
            Split::Whole => (tuple, Seq::empty()),
            Split::Keyless => (Seq::empty(), tuple),
            Split::Offsets(key, rest) => (picked(tuple, key@), picked(tuple, rest@)),
        }
    }

    /// Splits a tuple into its key and the remaining values.
    pub fn apply(&self, tuple: &Vec<Value>) -> (parts: (Vec<Value>, Vec<Value>))
        requires
            self.fits(tuple@.len()),
        ensures
            (views(parts.0@), views(parts.1@)) == self.applied(views(tuple@)),
    {
        match self {
            Split::Whole => {
                let rest: Vec<Value> = Vec::new();
                assert(views(rest@) =~= Seq::<ValueView>::empty());
                (clone_tuple(tuple), rest)
            },
            Split::Keyless => {
                let key: Vec<Value> = Vec::new();
                assert(views(key@) =~= Seq::<ValueView>::empty());
                (key, clone_tuple(tuple))
            },
            Split::Offsets(key_offsets, rest_offsets) => {
                (pick(tuple, key_offsets), pick(tuple, rest_offsets))
            },
        }
    }
}

/// Copies the values of `tuple` at `offsets`.
fn pick(tuple: &Vec<Value>, offsets: &Vec<usize>) -> (values: Vec<Value>)
    requires
        forall|i: int| 0 <= i < offsets@.len() ==> offsets@[i] < tuple@.len(),
    ensures
        views(values@) == picked(views(tuple@), offsets@),
{
    let mut values: Vec<Value> = Vec::new();
    let mut i: usize = 0;
    while i < offsets.len()
        invariant
            i <= offsets.len(),
            values@.len() == i,
            forall|i: int| 0 <= i < offsets@.len() ==> offsets@[i] < tuple@.len(),
            forall|j: int| 0 <= j < i ==> values@[j]@ == tuple@[offsets@[j] as int]@,
        decreases offsets.len() - i,
    {
        values.push(tuple[offsets[i]].clone());
        i += 1;
    }
    assert(views(values@) =~= picked(views(tuple@), offsets@));
    values
}

/// Puts a copy of every value of `more` behind those of `tuple`.
fn append_values(tuple: &mut Vec<Value>, more: &Vec<Value>)
    ensures
        views(final(tuple)@) == views(old(tuple)@) + views(more@),
{
    let ghost before = tuple@;
    let mut i: usize = 0;
    while i < more.len()
        invariant
            i <= more.len(),
            tuple@.len() == before.len() + i,
            forall|j: int| 0 <= j < before.len() ==> tuple@[j] == before[j],
            forall|j: int| 0 <= j < i ==> tuple@[before.len() + j]@ == more@[j]@,
        decreases more.len() - i,
    {
        tuple.push(more[i].clone());
        i += 1;
    }
    assert(views(tuple@) =~= views(before) + views(more@));
}

/// The tuple that a join gives for a key and the remaining values of the left and of
/// the right tuple that share it: the key, then the left values, then the right ones.
pub fn joined(key: &Vec<Value>, left: &Vec<Value>, right: &Vec<Value>) -> (tuple: Vec<Value>)
    ensures
        views(tuple@) == views(key@) + views(left@) + views(right@),
{
    let mut tuple = clone_tuple(key);
    append_values(&mut tuple, left);
    append_values(&mut tuple, right);
    tuple
}

/// The tuple of a key and the remaining values: the key first.
pub fn rejoined(key: &Vec<Value>, rest: &Vec<Value>) -> (tuple: Vec<Value>)
    ensures
        views(tuple@) == views(key@) + views(rest@),
{
    let mut tuple = clone_tuple(key);
    append_values(&mut tuple, rest);
    tuple
}

/// Whether `variable` occurs in `variables`.
pub(crate) fn holds(variables: &Vec<Var>, variable: Var) -> (found: bool)
    ensures
        found == variables@.contains(variable),
{
    let mut i: usize = 0;
    while i < variables.len()
        invariant
            i <= variables.len(),
            forall|j: int| 0 <= j < i ==> variables@[j] != variable,
        decreases variables.len() - i,
    {
        if variables[i] == variable {
            return true;
        }
        i += 1;
    }
    false
}

/// Whether two lists of variables are the same.
fn same_variables(a: &Vec<Var>, b: &Vec<Var>) -> (same: bool)
    ensures
        same == (a@ == b@),
{
    if a.len() != b.len() {
        return false;
    }
    let mut i: usize = 0;
    while i < a.len()
        invariant
            i <= a.len(),
            a.len() == b.len(),
            forall|j: int| 0 <= j < i ==> a@[j] == b@[j],
        decreases a.len() - i,
    {
        if a[i] != b[i] {
            return false;
        }
        i += 1;
    }
    assert(a@ =~= b@);
    true
}

impl CollectionRelation {
    /// List the variable identifiers.
    pub fn variables(&self) -> (variables: &Vec<Var>)
        ensures
            variables@ == self.variables@,
    {
        &self.variables
    }

    /// Returns the offset at which values for this variable occur.
    pub fn offset(&self, variable: Var) -> (offset: usize)
        requires
            self.variables@.contains(variable),
        ensures
            first_at(self.variables@, variable, offset as int),
    {
        let mut i: usize = 0;
        while self.variables[i] != variable
            invariant
                i < self.variables.len(),
                exists|j: int| i <= j < self.variables@.len() && self.variables@[j] == variable,
                forall|j: int| 0 <= j < i ==> self.variables@[j] != variable,
            decreases self.variables@.len() - i,
        {
            i += 1;
        }
        i
    }

    /// The variables of the relation that are not among `key`, in their order.
    pub fn rest_variables(&self, key: &Vec<Var>) -> (rest: Vec<Var>)
        ensures
            rest@ == picked_variables(
                self.variables@,
                rest_offsets(self.variables@, key@, self.variables@.len()),
            ),
    {
        let mut rest: Vec<Var> = Vec::new();
        let mut i: usize = 0;
        assert(rest@ =~= picked_variables(
            self.variables@,
            rest_offsets(self.variables@, key@, 0),
        ));
        while i < self.variables.len()
            invariant
                i <= self.variables.len(),
                forall|j: int|
                    0 <= j < rest_offsets(self.variables@, key@, i as nat).len()
                        ==> #[trigger] rest_offsets(self.variables@, key@, i as nat)[j] < i,
                rest@ == picked_variables(
                    self.variables@,
                    rest_offsets(self.variables@, key@, i as nat),
                ),
            decreases self.variables.len() - i,
        {
            let ghost before = rest_offsets(self.variables@, key@, i as nat);
            if !holds(key, self.variables[i]) {
                rest.push(self.variables[i]);
                assert(rest@ =~= picked_variables(self.variables@, before.push(i)));
            }
            i += 1;
        }
        rest
    }

    /// The variables of the tuples that joining this relation with `right` on the
    /// variables `key` gives: the key, then what is left of this relation, then what
    /// is left of the other.
    pub fn joined_variables(&self, right: &CollectionRelation, key: &Vec<Var>) -> (joined: Vec<
        Var,
    >)
        ensures
            joined@ == key@ + picked_variables(
                self.variables@,
                rest_offsets(self.variables@, key@, self.variables@.len()),
            ) + picked_variables(
                right.variables@,
                rest_offsets(right.variables@, key@, right.variables@.len()),
            ),
    {
        let mut joined: Vec<Var> = Vec::new();
        let mut i: usize = 0;
        while i < key.len()
            invariant
                i <= key.len(),
                joined@ == key@.subrange(0, i as int),
            decreases key.len() - i,
        {
            joined.push(key[i]);
            assert(joined@ =~= key@.subrange(0, i + 1));
            i += 1;
        }
        assert(key@.subrange(0, key.len() as int) =~= key@);
        let mut left = self.rest_variables(key);
        let mut right = right.rest_variables(key);
        joined.append(&mut left);
        joined.append(&mut right);
        joined
    }

    /// How to separate the fields of a tuple into those of `variables` and those not.
    ///
    /// A tuple is mapped to a key, which holds exactly the values of `variables` in that
    /// order, and the remaining values in the order in which they stand.
    pub fn tuples_by_variables(&self, variables: &Vec<Var>) -> (split: Split)
        requires
            forall|k: int| 0 <= k < variables@.len() ==> self.variables@.contains(variables@[k]),
        ensures
            split.fits(self.variables@.len()),
            variables@ == self.variables@ ==> split is Whole,
            variables@ != self.variables@ && variables@.len() == 0 ==> split is Keyless,
            variables@ != self.variables@ && variables@.len() > 0 ==> {
                &&& split matches Split::Offsets(key, rest)
                &&& key@.len() == variables@.len()
                &&& forall|k: int|
                    0 <= k < key@.len() ==> first_at(self.variables@, variables@[k], key@[k] as int)
                &&& rest@ == rest_offsets(self.variables@, variables@, self.variables@.len())
            },
    {
        if same_variables(variables, &self.variables) {
            Split::Whole
        } else if variables.len() == 0 {
            Split::Keyless
        } else {
            let mut key: Vec<usize> = Vec::new();
            let mut k: usize = 0;
            while k < variables.len()
                invariant
                    k <= variables.len(),
                    key@.len() == k,
                    forall|k: int|
                        0 <= k < variables@.len() ==> self.variables@.contains(variables@[k]),
                    forall|j: int|
                        0 <= j < k ==> first_at(self.variables@, variables@[j], key@[j] as int),
                decreases variables.len() - k,
            {
                key.push(self.offset(variables[k]));
                k += 1;
            }
            let mut rest: Vec<usize> = Vec::new();
            let mut i: usize = 0;
            while i < self.variables.len()
                invariant
                    i <= self.variables.len(),
                    rest@ == rest_offsets(self.variables@, variables@, i as nat),
                    forall|j: int| 0 <= j < rest@.len() ==> rest@[j] < i,
                decreases self.variables.len() - i,
            {
                if !holds(variables, self.variables[i]) {
                    rest.push(i);
                }
                i += 1;
            }
            Split::Offsets(key, rest)
        }
    }
}

} // verus!
