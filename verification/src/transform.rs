//! Transforms: the value that a function gives for a tuple.

use crate::filter::constant_at;
use crate::plan::Function;
use crate::relation::{first_at, holds, CollectionRelation};
use crate::value::{views, Value, ValueView, Var};
use vstd::prelude::*;
use vstd::string::StringExecFns;

verus! {

/// The first offset of `variable` in the relation.
pub open spec fn offset_of(relation: Seq<Var>, variable: Var) -> int {
    choose|offset: int| first_at(relation, variable, offset)
}

/// A variable has one first offset.
pub proof fn lemma_offset_of(relation: Seq<Var>, variable: Var, offset: int)
    requires
        first_at(relation, variable, offset),
    ensures
        offset_of(relation, variable) == offset,
{
    let chosen = offset_of(relation, variable);
    assert(first_at(relation, variable, chosen));
    if chosen < offset {
        assert(relation[chosen] != variable);
    }
    if offset < chosen {
        assert(relation[offset] != variable);
    }
}

/// The values that the tuple holds for the variables from the position `from` on, in
/// the order of the variables.
pub open spec fn variable_values(
    variables: Seq<Var>,
    relation: Seq<Var>,
    tuple: Seq<ValueView>,
    from: int,
) -> Seq<ValueView> {
    Seq::new(
        (variables.len() - from) as nat,
        |k: int| tuple[offset_of(relation, variables[from + k])],
    )
}

/// The constants that stand at the argument positions from `from` up to `n`, in the
/// order of the positions.
pub open spec fn constant_values(constants: Seq<Option<Value>>, from: nat, n: nat) -> Seq<
    ValueView,
>
    decreases n,
{
    if n <= from {
        Seq::empty()
    } else {
        let before = constant_values(constants, from, (n - 1) as nat);
        match constants[n - 1] {
            Some(constant) => before.push(constant@),
            None => before,
        }
    }
}

/// The number that a value is, if it is one.
pub open spec fn number_of(value: ValueView) -> Option<i64> {
    match value {
        ValueView::Number(number) => Some(number),
        _ => None,
    }
}

/// `start` with the first `n` values added to it one after the other, or taken off it.
/// There is no result where one of the values is no number, or where the result leaves
/// the range of numbers on the way.
pub open spec fn folded(start: Option<i64>, values: Seq<ValueView>, minus: bool, n: nat) -> Option<
    i64,
>
    decreases n,
{
    if n == 0 {
        start
    } else {
        match (folded(start, values, minus, (n - 1) as nat), number_of(values[n - 1])) {
            (Some(before), Some(number)) => {
                let next = if minus {
                    before - number
                } else {
                    before + number
                };
                if i64::MIN <= next <= i64::MAX {
                    Some(next as i64)
                } else {
                    None
                }
            },
            _ => None,
        }
    }
}

/// The milliseconds of the interval that a constant names: a minute or an hour, and an
/// hour where there is no constant.
pub open spec fn interval_of(constant: Option<ValueView>) -> Option<u64> {
    match constant {
        None => Some(3600000),
        Some(ValueView::String(name)) => if name == ":minute"@ {
            Some(60000)
        } else if name == ":hour"@ {
            Some(3600000)
        } else {
            None
        },
        Some(_) => None,
    }
}

/// A number as a value.
pub open spec fn number_value(number: Option<i64>) -> Option<ValueView> {
    match number {
        Some(n) => Some(ValueView::Number(n)),
        None => None,
    }
}

/// The value that the function gives for a tuple of the relation.
///
/// A sum is that of the tuple's numbers for the variables and of the constants. A
/// difference is that of a minuend and everything else: the minuend is the constant
/// at the first argument position, or else the tuple's number for the first variable.
/// A truncated instant is the tuple's instant for the first variable, less what it is
/// beyond a multiple of the interval that the constant at the second position names.
/// There is no value where an operand is not of the kind that the function takes.
pub open spec fn applied(
    function: Function,
    variables: Seq<Var>,
    constants: Seq<Option<Value>>,
    relation: Seq<Var>,
    tuple: Seq<ValueView>,
) -> Option<ValueView> {
    match function {
        Function::Add => {
            let operands = variable_values(variables, relation, tuple, 0) + constant_values(
                constants,
                0,
                constants.len(),
            );
            number_value(folded(Some(0), operands, false, operands.len()))
        },
        Function::Subtract => {
            let operands = variable_values(
                variables,
                relation,
                tuple,
                if constant_at(constants, 0) is Some || variables.len() == 0 {
                    0
                } else {
                    1
                },
            ) + constant_values(constants, 1, constants.len());
            let minuend = match constant_at(constants, 0) {
                Some(constant) => number_of(constant),
                None => if variables.len() == 0 {
                    None
                } else {
                    number_of(tuple[offset_of(relation, variables[0])])
                },
            };
            number_value(folded(minuend, operands, true, operands.len()))
        },
        Function::Truncate => if variables.len() == 0 {
            None
        } else {
            match (
                tuple[offset_of(relation, variables[0])],
                interval_of(constant_at(constants, 1)),
            ) {
                (ValueView::Instant(instant), Some(interval)) => Some(
                    ValueView::Instant((instant - instant % interval) as u64),
                ),
                _ => None,
            }
        },
    }
}

/// What a value is, if there is one.
pub open spec fn value_view(value: Option<Value>) -> Option<ValueView> {
    match value {
        Some(v) => Some(v@),
        None => None,
    }
}

/// Whether the relation holds every one of the variables.
pub open spec fn binds(variables: Seq<Var>, relation: Seq<Var>) -> bool {
    forall|k: int| 0 <= k < variables.len() ==> relation.contains(#[trigger] variables[k])
}

/// Whether the relation holds every one of the variables.
pub fn binds_all(variables: &Vec<Var>, relation: &CollectionRelation) -> (all: bool)
    ensures
        all == binds(variables@, relation.variables@),
{
    let mut k: usize = 0;
    while k < variables.len()
        invariant
            k <= variables.len(),
            forall|j: int| 0 <= j < k ==> relation.variables@.contains(#[trigger] variables@[j]),
        decreases variables.len() - k,
    {
        if !holds(&relation.variables, variables[k]) {
            return false;
        }
        k += 1;
    }
    true
}

/// The values of the tuple for the variables from `from` on, followed by the
/// constants from the position `first` on.
fn operands(
    variables: &Vec<Var>,
    constants: &Vec<Option<Value>>,
    relation: &CollectionRelation,
    tuple: &Vec<Value>,
    from: usize,
    first: usize,
) -> (values: Vec<Value>)
    requires
        binds(variables@, relation.variables@),
        tuple@.len() == relation.variables@.len(),
        from <= variables@.len(),
    ensures
        views(values@) == variable_values(
            variables@,
            relation.variables@,
            views(tuple@),
            from as int,
        ) + constant_values(constants@, first as nat, constants@.len()),
{
    let ghost of_variables = variable_values(
        variables@,
        relation.variables@,
        views(tuple@),
        from as int,
    );
    let mut values: Vec<Value> = Vec::new();
    let mut k: usize = from;
    while k < variables.len()
        invariant
            from <= k <= variables.len(),
            binds(variables@, relation.variables@),
            tuple@.len() == relation.variables@.len(),
            values@.len() == k - from,
            of_variables == variable_values(
                variables@,
                relation.variables@,
                views(tuple@),
                from as int,
            ),
            forall|j: int| 0 <= j < k - from ==> values@[j]@ == of_variables[j],
        decreases variables.len() - k,
    {
        let offset = relation.offset(variables[k]);
        proof {
            lemma_offset_of(relation.variables@, variables@[k as int], offset as int);
        }
        values.push(tuple[offset].clone());
        k += 1;
    }
    assert(views(values@) =~= of_variables);
    let mut p: usize = first;
    if first > constants.len() {
        assert(views(values@) =~= of_variables + constant_values(
            constants@,
            first as nat,
            constants@.len(),
        ));
        return values;
    }
    while p < constants.len()
        invariant
            first <= p <= constants.len(),
            views(values@) == of_variables + constant_values(constants@, first as nat, p as nat),
        decreases constants.len() - p,
    {
        let ghost before = views(values@);
        match &constants[p] {
            Some(constant) => {
                values.push(constant.clone());
                assert(views(values@) =~= before.push(constant@));
            },
            None => {},
        }
        assert(views(values@) =~= of_variables + constant_values(
            constants@,
            first as nat,
            (p + 1) as nat,
        ));
        p += 1;
    }
    values
}

/// The number that a value is, if it is one.
fn number(value: &Value) -> (number: Option<i64>)
    ensures
        number == number_of(value@),
{
    match value {
        Value::Number(number) => Some(*number),
        _ => None,
    }
}

/// Adds the values to `start` one after the other, or takes them off it.
fn fold(start: Option<i64>, values: &Vec<Value>, minus: bool) -> (result: Option<Value>)
    ensures
        value_view(result) == number_value(
            folded(start, views(values@), minus, values@.len() as nat),
        ),
{
    let mut result: i64 = match start {
        Some(start) => start,
        None => {
            proof {
                lemma_folded_none(views(values@), minus, values@.len() as nat);
            }
            return None;
        },
    };
    let mut i: usize = 0;
    while i < values.len()
        invariant
            i <= values.len(),
            folded(start, views(values@), minus, i as nat) == Some(result),
        decreases values.len() - i,
    {
        assert(views(values@)[i as int] == values@[i as int]@);
        let next = match number(&values[i]) {
            Some(number) => if minus {
                result.checked_sub(number)
            } else {
                result.checked_add(number)
            },
            None => None,
        };
        match next {
            Some(next) => {
                result = next;
            },
            None => {
                proof {
                    lemma_folded_stays_none(
                        start,
                        views(values@),
                        minus,
                        (i + 1) as nat,
                        values@.len() as nat,
                    );
                }
                return None;
            },
        }
        i += 1;
    }
    Some(Value::Number(result))
}

/// Nothing comes of no start.
proof fn lemma_folded_none(values: Seq<ValueView>, minus: bool, n: nat)
    ensures
        folded(None, values, minus, n) is None,
    decreases n,
{
    if n > 0 {
        lemma_folded_none(values, minus, (n - 1) as nat);
    }
}

/// Where there is no result on the way there is none in the end.
proof fn lemma_folded_stays_none(
    start: Option<i64>,
    values: Seq<ValueView>,
    minus: bool,
    n: nat,
    m: nat,
)
    requires
        n <= m,
        folded(start, values, minus, n) is None,
    ensures
        folded(start, values, minus, m) is None,
    decreases m,
{
    if n < m {
        lemma_folded_stays_none(start, values, minus, n, (m - 1) as nat);
    }
}

/// The milliseconds of the interval that the constant at the second argument position
/// names.
fn interval(constants: &Vec<Option<Value>>) -> (millis: Option<u64>)
    ensures
        millis == interval_of(constant_at(constants@, 1)),
{
    if 1 < constants.len() {
        match &constants[1] {
            None => Some(3600000),
            Some(Value::String(name)) => {
                if *name == String::from_str(":minute") {
                    Some(60000)
                } else if *name == String::from_str(":hour") {
                    Some(3600000)
                } else {
                    None
                }
            },
            Some(_) => None,
        }
    } else {
        Some(3600000)
    }
}

/// The value that the function gives for a tuple of the relation, if it gives one.
pub fn transformed(
    function: Function,
    variables: &Vec<Var>,
    constants: &Vec<Option<Value>>,
    relation: &CollectionRelation,
    tuple: &Vec<Value>,
) -> (value: Option<Value>)
    requires
        binds(variables@, relation.variables@),
        tuple@.len() == relation.variables@.len(),
    ensures
        value_view(value) == applied(
            function,
            variables@,
            constants@,
            relation.variables@,
            views(tuple@),
        ),
{
    match function {
        Function::Add => {
            let values = operands(variables, constants, relation, tuple, 0, 0);
            fold(Some(0), &values, false)
        },
        Function::Subtract => {
            let constant = if 0 < constants.len() {
                match &constants[0] {
                    Some(constant) => Some(number(constant)),
                    None => None,
                }
            } else {
                None
            };
            let (minuend, from) = match constant {
                Some(minuend) => (minuend, 0),
                None => if variables.len() == 0 {
                    (None, 0)
                } else {
                    let offset = relation.offset(variables[0]);
                    proof {
                        lemma_offset_of(relation.variables@, variables@[0], offset as int);
                    }
                    (number(&tuple[offset]), 1)
                },
            };
            let values = operands(variables, constants, relation, tuple, from, 1);
            fold(minuend, &values, true)
        },
        Function::Truncate => {
            if variables.len() == 0 {
                return None;
            }
            let offset = relation.offset(variables[0]);
            proof {
                lemma_offset_of(relation.variables@, variables@[0], offset as int);
            }
            match (&tuple[offset], interval(constants)) {
                (Value::Instant(instant), Some(millis)) => {
                    let beyond = *instant % millis;
                    Some(Value::Instant(*instant - beyond))
                },
                _ => None,
            }
        },
    }
}

} // verus!
