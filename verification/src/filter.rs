//! Filters: which two values of a tuple a predicate compares, and when it holds.

use crate::plan::Predicate;
use crate::relation::{first_at, holds, CollectionRelation};
use crate::value::{views, Value, ValueView, Var};
use vstd::prelude::*;

verus! {

/// How a value stands to another in the order in which collections hold their values.
#[derive(Clone, Copy, Debug, PartialEq, Eq, Structural)]
pub enum Order {
    /// The first comes before the second.
    Less,
    /// They are the same.
    Equal,
    /// The first comes after the second.
    Greater,
}

/// Whether `predicate` holds of two values of which the first stands to the second as
/// `order` says.
pub open spec fn satisfied(predicate: Predicate, order: Order) -> bool {
    match predicate {
        Predicate::Lt => order is Less,
        Predicate::Gt => order is Greater,
        Predicate::Lte => !(order is Greater),
        Predicate::Gte => !(order is Less),
        Predicate::Eq => order is Equal,
        Predicate::Neq => !(order is Equal),
    }
}

/// The constant that stands at the argument position `position`, if one does.
pub open spec fn constant_at(constants: Seq<Option<Value>>, position: int) -> Option<ValueView> {
    if 0 <= position < constants.len() {
        match constants[position] {
            Some(constant) => Some(constant@),
            None => None,
        }
    } else {
        None
    }
}

/// `value` is what `tuple` holds for `variables[k]`: the value at the first offset of
/// that variable in the relation.
pub open spec fn held(
    variables: Seq<Var>,
    k: int,
    relation: Seq<Var>,
    tuple: Seq<ValueView>,
    value: ValueView,
) -> bool {
    exists|offset: int| #[trigger]
        first_at(relation, variables[k], offset) && offset < tuple.len() && tuple[offset]
            == value
}

/// The filter can be applied to the tuples of the relation: the relation holds the
/// variable, or the two variables, that the predicate is applied to.
pub open spec fn applies(
    variables: Seq<Var>,
    constants: Seq<Option<Value>>,
    relation: Seq<Var>,
) -> bool {
    &&& variables.len() >= 1
    &&& relation.contains(variables[0])
    &&& constant_at(constants, 0) is None && constant_at(constants, 1) is None ==> variables.len()
        >= 2 && relation.contains(variables[1])
}

/// `left` and `right` are the two values that the predicate compares: a constant at
/// the first argument position and the tuple's value for the first variable; or that
/// value and a constant at the second position; or, with neither constant, the
/// tuple's values for the first and the second variable.
pub open spec fn compared(
    variables: Seq<Var>,
    constants: Seq<Option<Value>>,
    relation: Seq<Var>,
    tuple: Seq<ValueView>,
    left: ValueView,
    right: ValueView,
) -> bool {
    match constant_at(constants, 0) {
        Some(constant) => left == constant && held(variables, 0, relation, tuple, right),
        None => match constant_at(constants, 1) {
            Some(constant) => held(variables, 0, relation, tuple, left) && right == constant,
            None => held(variables, 0, relation, tuple, left) && held(
                variables,
                1,
                relation,
                tuple,
                right,
            ),
        },
    }
}

/// The constant at an argument position, if one stands there.
fn constant(constants: &Vec<Option<Value>>, position: usize) -> (constant: Option<Value>)
    ensures
        match constant {
            Some(value) => constant_at(constants@, position as int) == Some(value@),
            None => constant_at(constants@, position as int) is None,
        },
{
    if position < constants.len() {
        match &constants[position] {
            Some(value) => Some(value.clone()),
            None => None,
        }
    } else {
        None
    }
}

/// Whether a constant stands at an argument position.
fn is_constant(constants: &Vec<Option<Value>>, position: usize) -> (constant: bool)
    ensures
        constant == constant_at(constants@, position as int) is Some,
{
    position < constants.len() && constants[position].is_some()
}

/// The tuple's value for the variable `variables[k]`.
fn value_of(
    variables: &Vec<Var>,
    k: usize,
    relation: &CollectionRelation,
    tuple: &Vec<Value>,
) -> (value: Value)
    requires
        k < variables@.len(),
        relation.variables@.contains(variables@[k as int]),
        tuple@.len() == relation.variables@.len(),
    ensures
        held(variables@, k as int, relation.variables@, views(tuple@), value@),
{
    let offset = relation.offset(variables[k]);
    assert(first_at(relation.variables@, variables@[k as int], offset as int));
    tuple[offset].clone()
}

impl Predicate {
    /// Whether the predicate holds of two values of which the first stands to the
    /// second as `order` says.
    pub fn holds(&self, order: Order) -> (holds: bool)
        ensures
            holds == satisfied(*self, order),
    {
        match self {
            Predicate::Lt => order == Order::Less,
            Predicate::Gt => order == Order::Greater,
            Predicate::Lte => order != Order::Greater,
            Predicate::Gte => order != Order::Less,
            Predicate::Eq => order == Order::Equal,
            Predicate::Neq => order != Order::Equal,
        }
    }
}

/// Whether a filter over `variables` and `constants` can be applied to the tuples of
/// the relation.
pub fn can_apply(
    variables: &Vec<Var>,
    constants: &Vec<Option<Value>>,
    relation: &CollectionRelation,
) -> (fits: bool)
    ensures
        fits == applies(variables@, constants@, relation.variables@),
{
    if variables.len() < 1 || !holds(&relation.variables, variables[0]) {
        return false;
    }
    if is_constant(constants, 0) || is_constant(constants, 1) {
        return true;
    }
    variables.len() >= 2 && holds(&relation.variables, variables[1])
}

/// The two values of a tuple of the relation that a filter over `variables` and
/// `constants` compares.
pub fn operands(
    variables: &Vec<Var>,
    constants: &Vec<Option<Value>>,
    relation: &CollectionRelation,
    tuple: &Vec<Value>,
) -> (pair: (Value, Value))
    requires
        applies(variables@, constants@, relation.variables@),
        tuple@.len() == relation.variables@.len(),
    ensures
        compared(
            variables@,
            constants@,
            relation.variables@,
            views(tuple@),
            pair.0@,
            pair.1@,
        ),
{
    match constant(constants, 0) {
        Some(left) => (left, value_of(variables, 0, relation, tuple)),
        None => match constant(constants, 1) {
            Some(right) => (value_of(variables, 0, relation, tuple), right),
            None => (
                value_of(variables, 0, relation, tuple),
                value_of(variables, 1, relation, tuple),
            ),
        },
    }
}

} // verus!
