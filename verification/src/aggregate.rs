//! Aggregates: what a function gives for the values of a group, and how keys and
//! aggregates make the tuples of the output.

use crate::plan::{clone_variables, AggregationFn};
use crate::relation::{holds, rest_offsets, CollectionRelation};
use crate::transform::{lemma_offset_of, number_of, number_value, offset_of, value_view};
use crate::value::{views, Rational32, Value, ValueView, Var};
use vstd::prelude::*;

verus! {

/// What is added up over a group.
#[derive(Clone, Copy, Debug, PartialEq, Eq, Structural)]
pub enum Term {
    /// How often each value occurs.
    Count,
    /// Each number, as often as it occurs.
    Sum,
    /// The square of each number, as often as the number occurs.
    Squares,
}

/// The values of a group with the number of times that each occurs.
pub open spec fn group_views(group: Seq<(Value, i64)>) -> Seq<(ValueView, i64)> {
    Seq::new(group.len(), |i: int| (group[i].0@, group[i].1))
}

/// The number that `value` is, if it lies within the range of numbers.
pub open spec fn within(value: int) -> Option<i64> {
    if i64::MIN <= value <= i64::MAX {
        Some(value as i64)
    } else {
        None
    }
}

/// The product of two numbers, if there are two and it is a number.
pub open spec fn product(a: Option<i64>, b: Option<i64>) -> Option<i64> {
    match (a, b) {
        (Some(x), Some(y)) => within(x * y),
        _ => None,
    }
}

/// The difference of two numbers, if there are two and it is a number.
pub open spec fn difference(a: Option<i64>, b: Option<i64>) -> Option<i64> {
    match (a, b) {
        (Some(x), Some(y)) => within(x - y),
        _ => None,
    }
}

/// What one value that occurs `count` times adds to a total.
pub open spec fn term(kind: Term, value: ValueView, count: i64) -> Option<i64> {
    match kind {
        Term::Count => Some(count),
        Term::Sum => product(Some(count), number_of(value)),
        Term::Squares => product(product(Some(count), number_of(value)), number_of(value)),
    }
}

/// The total over the first `n` values of a group. There is none where a value that
/// has to be a number is none, or where the total leaves the range of numbers on the
/// way.
pub open spec fn totalled(kind: Term, group: Seq<(ValueView, i64)>, n: nat) -> Option<i64>
    decreases n,
{
    if n == 0 {
        Some(0)
    } else {
        match (totalled(kind, group, (n - 1) as nat), term(kind, group[n - 1].0, group[n - 1].1)) {
            (Some(before), Some(more)) => within(before + more),
            _ => None,
        }
    }
}

/// Whether `k` divides `n`.
pub open spec fn divides(k: int, n: int) -> bool {
    k != 0 && n % k == 0
}

/// Whether `numer / denom` is the fraction `of_numer / of_denom` in lowest terms: the
/// same fraction, with a positive denominator that has no divisor in common with the
/// numerator.
pub open spec fn lowest_terms(numer: int, denom: int, of_numer: int, of_denom: int) -> bool {
    &&& denom > 0
    &&& numer * of_denom == of_numer * denom
    &&& forall|k: int| k > 1 && #[trigger] divides(k, numer) ==> !divides(k, denom)
}

/// Numerator and denominator of a fraction in lowest terms.
pub uninterp spec fn lowest(numer: int, denom: int) -> (int, int);

/// Reduces a fraction with `num_rational::Ratio::new`. Trusted: the result depends on
/// numerator and denominator alone, and is the same fraction in lowest terms, with a
/// positive denominator.
#[verifier::external_body]
pub(crate) fn reduce(numer: i64, denom: i64) -> (reduced: (i64, i64))
    requires
        denom > 0,
        numer > i64::MIN,
    ensures
        (reduced.0 as int, reduced.1 as int) == lowest(numer as int, denom as int),
        lowest_terms(reduced.0 as int, reduced.1 as int, numer as int, denom as int),
{
    let ratio = num_rational::Rational64::new(numer, denom);
    (*ratio.numer(), *ratio.denom())
}

/// A fraction as a value: a rational of 32 bits, if numerator and denominator are
/// that small.
pub open spec fn as_rational(fraction: (int, int)) -> Option<ValueView> {
    if i32::MIN <= fraction.0 <= i32::MAX && i32::MIN <= fraction.1 <= i32::MAX {
        Some(
            ValueView::Rational32(
                Rational32 { numer: fraction.0 as i32, denom: fraction.1 as i32 },
            ),
        )
    } else {
        None
    }
}

/// The quotient of two numbers in lowest terms, as a value. There is none where the
/// denominator is not positive, or where the terms are no integers of 32 bits.
pub open spec fn quotient(numer: Option<i64>, denom: Option<i64>) -> Option<ValueView> {
    match (numer, denom) {
        (Some(n), Some(d)) => if d > 0 && n > i64::MIN {
            as_rational(lowest(n as int, d as int))
        } else {
            None
        },
        _ => None,
    }
}

/// What an aggregation function gives for a group: the values that the group holds
/// for a variable, in the order in which collections hold their values, each with the
/// number of times that it occurs.
///
/// The least value is the first and the greatest the last; the median is the one in
/// the middle, the later of two. The count is the number of occurrences, the sum that
/// of the numbers, each as often as it occurs. The average is the sum by the count,
/// and the variance the mean of the squares less the square of the mean: both are
/// rationals in lowest terms.
pub open spec fn aggregated(function: AggregationFn, group: Seq<(ValueView, i64)>) -> Option<
    ValueView,
> {
    let n = group.len();
    let count = totalled(Term::Count, group, n);
    let sum = totalled(Term::Sum, group, n);
    let squares = totalled(Term::Squares, group, n);
    match function {
        AggregationFn::Min => if n == 0 {
            None
        } else {
            Some(group[0].0)
        },
        AggregationFn::Max => if n == 0 {
            None
        } else {
            Some(group[n - 1].0)
        },
        AggregationFn::Median => if n == 0 {
            None
        } else {
            Some(group[(n / 2) as int].0)
        },
        AggregationFn::Count => number_value(count),
        AggregationFn::Sum => number_value(sum),
        AggregationFn::Avg => quotient(sum, count),
        AggregationFn::Variance => quotient(
            difference(product(count, squares), product(sum, sum)),
            product(count, count),
        ),
    }
}

/// The product of two numbers, if there are two and it is a number.
fn times(a: Option<i64>, b: Option<i64>) -> (result: Option<i64>)
    ensures
        result == product(a, b),
{
    match (a, b) {
        (Some(x), Some(y)) => x.checked_mul(y),
        _ => None,
    }
}

/// The difference of two numbers, if there are two and it is a number.
fn less(a: Option<i64>, b: Option<i64>) -> (result: Option<i64>)
    ensures
        result == difference(a, b),
{
    match (a, b) {
        (Some(x), Some(y)) => x.checked_sub(y),
        _ => None,
    }
}

/// The number that a value is, if it is one.
fn number(value: &Value) -> (number: Option<i64>)
    ensures
        number == number_of(value@),
{
    match value {
        Value::Number(number) => Some(*number),
        _ => None,
    }
}

/// Where there is no total on the way there is none in the end.
proof fn lemma_totalled_stays_none(kind: Term, group: Seq<(ValueView, i64)>, n: nat, m: nat)
    requires
        n <= m,
        totalled(kind, group, n) is None,
    ensures
        totalled(kind, group, m) is None,
    decreases m,
{
    if n < m {
        lemma_totalled_stays_none(kind, group, n, (m - 1) as nat);
    }
}

/// The total over a group.
pub fn total(kind: Term, group: &Vec<(Value, i64)>) -> (total: Option<i64>)
    ensures
        total == totalled(kind, group_views(group@), group@.len() as nat),
{
    let mut total: i64 = 0;
    let mut i: usize = 0;
    while i < group.len()
        invariant
            i <= group.len(),
            totalled(kind, group_views(group@), i as nat) == Some(total),
        decreases group.len() - i,
    {
        assert(group_views(group@)[i as int] == (group@[i as int].0@, group@[i as int].1));
        let count = group[i].1;
        let more = match kind {
            Term::Count => Some(count),
            Term::Sum => times(Some(count), number(&group[i].0)),
            Term::Squares => times(
                times(Some(count), number(&group[i].0)),
                number(&group[i].0),
            ),
        };
        let next = match more {
            Some(more) => total.checked_add(more),
            None => None,
        };
        match next {
            Some(next) => {
                total = next;
            },
            None => {
                proof {
                    lemma_totalled_stays_none(
                        kind,
                        group_views(group@),
                        (i + 1) as nat,
                        group@.len() as nat,
                    );
                }
                return None;
            },
        }
        i += 1;
    }
    Some(total)
}

/// A fraction as a value: a rational of 32 bits, if numerator and denominator are
/// that small.
pub fn rational(fraction: (i64, i64)) -> (value: Option<Value>)
    ensures
        value_view(value) == as_rational((fraction.0 as int, fraction.1 as int)),
{
    if -2147483648 <= fraction.0 && fraction.0 <= 2147483647 && -2147483648 <= fraction.1
        && fraction.1 <= 2147483647 {
        Some(Value::Rational32(Rational32 { numer: fraction.0 as i32, denom: fraction.1 as i32 }))
    } else {
        None
    }
}

/// The quotient of two numbers in lowest terms, as a value.
fn divided(numer: Option<i64>, denom: Option<i64>) -> (value: Option<Value>)
    ensures
        value_view(value) == quotient(numer, denom),
{
    match (numer, denom) {
        (Some(n), Some(d)) => if d > 0 && n > i64::MIN {
            rational(reduce(n, d))
        } else {
            None
        },
        _ => None,
    }
}

/// What an aggregation function gives for a group, if it gives a value.
pub fn aggregate(function: AggregationFn, group: &Vec<(Value, i64)>) -> (value: Option<Value>)
    ensures
        value_view(value) == aggregated(function, group_views(group@)),
{
    let n = group.len();
    proof {
        if n > 0 {
            assert(group_views(group@)[0] == (group@[0].0@, group@[0].1));
            assert(group_views(group@)[n - 1] == (group@[n - 1].0@, group@[n - 1].1));
            assert(group_views(group@)[(n / 2) as int] == (
                group@[(n / 2) as int].0@,
                group@[(n / 2) as int].1,
            ));
        }
    }
    match function {
        AggregationFn::Min => if n == 0 {
            None
        } else {
            Some(group[0].0.clone())
        },
        AggregationFn::Max => if n == 0 {
            None
        } else {
            Some(group[n - 1].0.clone())
        },
        AggregationFn::Median => if n == 0 {
            None
        } else {
            Some(group[n / 2].0.clone())
        },
        AggregationFn::Count => match total(Term::Count, group) {
            Some(count) => Some(Value::Number(count)),
            None => None,
        },
        AggregationFn::Sum => match total(Term::Sum, group) {
            Some(sum) => Some(Value::Number(sum)),
            None => None,
        },
        AggregationFn::Avg => divided(total(Term::Sum, group), total(Term::Count, group)),
        AggregationFn::Variance => {
            let count = total(Term::Count, group);
            let sum = total(Term::Sum, group);
            let squares = total(Term::Squares, group);
            divided(less(times(count, squares), times(sum, sum)), times(count, count))
        },
    }
}

/// The number of variables, among the first `n`, that are not among the key's.
pub open spec fn aggregates_before(variables: Seq<Var>, key_variables: Seq<Var>, n: nat) -> nat {
    rest_offsets(variables, key_variables, n).len()
}

/// The tuple that a key and the aggregates of its group make: for each variable of the
/// output the key's value for it, if it is one of the key's, and else the next of the
/// aggregates.
pub open spec fn arranged(
    variables: Seq<Var>,
    key_variables: Seq<Var>,
    key: Seq<ValueView>,
    aggregates: Seq<ValueView>,
) -> Seq<ValueView> {
    Seq::new(
        variables.len(),
        |i: int|
            if key_variables.contains(variables[i]) {
                key[offset_of(key_variables, variables[i])]
            } else {
                aggregates[aggregates_before(variables, key_variables, i as nat) as int]
            },
    )
}

/// The tuple that a key and the aggregates of its group make.
pub fn arrange(
    variables: &Vec<Var>,
    key_variables: &Vec<Var>,
    key: &Vec<Value>,
    aggregates: &Vec<Value>,
) -> (tuple: Vec<Value>)
    requires
        key@.len() == key_variables@.len(),
        aggregates@.len() == aggregates_before(variables@, key_variables@, variables@.len() as nat),
    ensures
        views(tuple@) == arranged(variables@, key_variables@, views(key@), views(aggregates@)),
{
    let keys = CollectionRelation { variables: clone_variables(key_variables) };
    let ghost expected = arranged(variables@, key_variables@, views(key@), views(aggregates@));
    let mut tuple: Vec<Value> = Vec::new();
    let mut next: usize = 0;
    let mut i: usize = 0;
    while i < variables.len()
        invariant
            i <= variables.len(),
            keys.variables@ == key_variables@,
            key@.len() == key_variables@.len(),
            next == aggregates_before(variables@, key_variables@, i as nat),
            next <= aggregates_before(variables@, key_variables@, variables@.len() as nat),
            aggregates@.len() == aggregates_before(
                variables@,
                key_variables@,
                variables@.len() as nat,
            ),
            tuple@.len() == i,
            expected == arranged(variables@, key_variables@, views(key@), views(aggregates@)),
            forall|j: int| 0 <= j < i ==> tuple@[j]@ == expected[j],
        decreases variables.len() - i,
    {
        proof {
            lemma_aggregates_grow(
                variables@,
                key_variables@,
                (i + 1) as nat,
                variables@.len() as nat,
            );
        }
        if holds(key_variables, variables[i]) {
            let offset = keys.offset(variables[i]);
            proof {
                lemma_offset_of(key_variables@, variables@[i as int], offset as int);
            }
            tuple.push(key[offset].clone());
        } else {
            assert(aggregates_before(variables@, key_variables@, (i + 1) as nat) == next + 1);
            assert(next < aggregates.len());
            tuple.push(aggregates[next].clone());
            next += 1;
        }
        i += 1;
    }
    assert(views(tuple@) =~= expected);
    tuple
}

/// More variables have no fewer aggregates.
proof fn lemma_aggregates_grow(variables: Seq<Var>, key_variables: Seq<Var>, n: nat, m: nat)
    requires
        n <= m,
    ensures
        aggregates_before(variables, key_variables, n) <= aggregates_before(
            variables,
            key_variables,
            m,
        ),
    decreases m,
{
    if n < m {
        lemma_aggregates_grow(variables, key_variables, n, (m - 1) as nat);
    }
}

} // verus!
