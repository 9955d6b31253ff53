//! Values, identifiers and change records.

use vstd::prelude::*;

verus! {

/// A unique entity identifier.
pub type Eid = u64;

/// A unique attribute identifier.
pub type Aid = String;

/// A variable used in a query.
pub type Var = u32;

/// A 32 bit rational, held as numerator and denominator.
#[derive(Clone, Copy, Debug, PartialEq, Eq, Structural, PartialOrd, Ord, Hash)]
pub struct Rational32 {
    /// Numerator.
    pub numer: i32,
    /// Denominator.
    pub denom: i32,
}

/// Possible data values: the least common denominator for the records moved around.
#[derive(Debug, Eq, PartialOrd, Ord, Hash)]
pub enum Value {
    /// An attribute identifier
    Aid(Aid),
    /// A string
    String(String),
    /// A boolean
    Bool(bool),
    /// A 64 bit signed integer
    Number(i64),
    /// A 32 bit rational
    Rational32(Rational32),
    /// An entity identifier
    Eid(Eid),
    /// Milliseconds since midnight, January 1, 1970 UTC
    Instant(u64),
    /// A 16 byte unique identifier.
    Uuid([u8; 16]),
    /// An operator address.
    Address(Vec<usize>),
}

/// What a [`Value`] denotes: the variant and its contents as mathematical values.
pub enum ValueView {
    Aid(Seq<char>),
    String(Seq<char>),
    Bool(bool),
    Number(i64),
    Rational32(Rational32),
    Eid(Eid),
    Instant(u64),
    Uuid(Seq<u8>),
    Address(Seq<usize>),
}

impl View for Value {
    type V = ValueView;

    open spec fn view(&self) -> ValueView {
        match *self {
            Value::Aid(a) => ValueView::Aid(a@),
            Value::String(s) => ValueView::String(s@),
            Value::Bool(b) => ValueView::Bool(b),
            Value::Number(n) => ValueView::Number(n),
            Value::Rational32(r) => ValueView::Rational32(r),
            Value::Eid(e) => ValueView::Eid(e),
            Value::Instant(t) => ValueView::Instant(t),
            Value::Uuid(u) => ValueView::Uuid(u@),
            Value::Address(a) => ValueView::Address(a@),
        }
    }
}

impl DeepView for Value {
    type V = ValueView;

    open spec fn deep_view(&self) -> ValueView {
        self@
    }
}

/// Whether two byte arrays hold the same bytes.
fn same_uuid(a: &[u8; 16], b: &[u8; 16]) -> (same: bool)
    ensures
        same == (a@ == b@),
{
    let mut i: usize = 0;
    while i < 16
        invariant
            i <= 16,
            forall|j: int| 0 <= j < i ==> a@[j] == b@[j],
        decreases 16 - i,
    {
        if a[i] != b[i] {
            return false;
        }
        i += 1;
    }
    assert(a@ =~= b@);
    true
}

/// Whether two operator addresses hold the same path.
fn same_address(a: &Vec<usize>, b: &Vec<usize>) -> (same: bool)
    ensures
        same == (a@ == b@),
{
    if a.len() != b.len() {
        return false;
    }
    let mut i: usize = 0;
    while i < a.len()
        invariant
            i <= a.len(),
            a.len() == b.len(),
            forall|j: int| 0 <= j < i ==> a@[j] == b@[j],
        decreases a.len() - i,
    {
        if a[i] != b[i] {
            return false;
        }
        i += 1;
    }
    assert(a@ =~= b@);
    true
}

impl Value {
    /// Structural equality: same variant, same contents.
    pub fn same(&self, other: &Value) -> (same: bool)
        ensures
            same == (self@ == other@),
    {
        match self {
            Value::Aid(a) => match other {
                Value::Aid(b) => *a == *b,
                _ => false,
            },
            Value::String(a) => match other {
                Value::String(b) => *a == *b,
                _ => false,
            },
            Value::Bool(a) => match other {
                Value::Bool(b) => *a == *b,
                _ => false,
            },
            Value::Number(a) => match other {
                Value::Number(b) => *a == *b,
                _ => false,
            },
            Value::Rational32(a) => match other {
                Value::Rational32(b) => a.numer == b.numer && a.denom == b.denom,
                _ => false,
            },
            Value::Eid(a) => match other {
                Value::Eid(b) => *a == *b,
                _ => false,
            },
            Value::Instant(a) => match other {
                Value::Instant(b) => *a == *b,
                _ => false,
            },
            Value::Uuid(a) => match other {
                Value::Uuid(b) => same_uuid(a, b),
                _ => false,
            },
            Value::Address(a) => match other {
                Value::Address(b) => same_address(a, b),
                _ => false,
            },
        }
    }
}

impl PartialEq for Value {
    fn eq(&self, other: &Value) -> (same: bool) {
        self.same(other)
    }
}

impl vstd::std_specs::cmp::PartialEqSpecImpl for Value {
    open spec fn obeys_eq_spec() -> bool {
        true
    }

    open spec fn eq_spec(&self, other: &Value) -> bool {
        self@ == other@
    }
}

impl Clone for Value {
    fn clone(&self) -> (copy: Value)
        ensures
            copy@ == self@,
    {
        match self {
            Value::Aid(a) => Value::Aid(a.clone()),
            Value::String(s) => Value::String(s.clone()),
            Value::Bool(b) => Value::Bool(*b),
            Value::Number(n) => Value::Number(*n),
            Value::Rational32(r) => Value::Rational32(*r),
            Value::Eid(e) => Value::Eid(*e),
            Value::Instant(t) => Value::Instant(*t),
            Value::Uuid(u) => Value::Uuid(*u),
            Value::Address(a) => {
                let copy = a.clone();
                assert(copy@ =~= a@);
                Value::Address(copy)
            },
        }
    }
}

/// Transaction data: a change of multiplicity for one entity, attribute and value.
/// Conceptually a pair of a datom and a difference, kept flat.
#[derive(Clone, Debug, PartialEq, Eq, PartialOrd, Ord, Hash)]
pub struct TxData(pub isize, pub Eid, pub Aid, pub Value);

/// An entity, attribute, value triple.
#[derive(Clone, Debug, PartialEq, Eq, PartialOrd, Ord, Hash)]
pub struct Datom(pub Eid, pub Aid, pub Value);

/// Attribute indices can have various operations applied to them, based on their
/// semantics.
#[derive(Clone, Copy, Debug, PartialEq, Eq, Structural, PartialOrd, Ord, Hash)]
pub enum AttributeSemantics {
    /// No special semantics enforced. Source is responsible for everything.
    Raw,
    /// Only a single value per eid is allowed at any given timestamp.
    CardinalityOne,
    /// Multiple different values for any given eid are allowed, but (e,v) pairs are
    /// enforced to be distinct.
    CardinalityMany,
}

/// The texts of a list of names, position by position.
pub open spec fn texts(names: Seq<String>) -> Seq<Seq<char>> {
    Seq::new(names.len(), |i: int| names[i]@)
}

/// The views of a tuple's values, position by position.
pub open spec fn views(tuple: Seq<Value>) -> Seq<ValueView> {
    Seq::new(tuple.len(), |i: int| tuple[i]@)
}

/// Copies a tuple.
pub fn clone_tuple(tuple: &Vec<Value>) -> (copy: Vec<Value>)
    ensures
        views(copy@) == views(tuple@),
{
    let mut copy: Vec<Value> = Vec::new();
    let mut i: usize = 0;
    while i < tuple.len()
        invariant
            i <= tuple.len(),
            copy@.len() == i,
            forall|j: int| 0 <= j < i ==> copy@[j]@ == tuple@[j]@,
        decreases tuple.len() - i,
    {
        copy.push(tuple[i].clone());
        i += 1;
    }
    assert(views(copy@) =~= views(tuple@));
    copy
}

} // verus!
