//! External sources of datoms: how a row of a file becomes datoms.

use crate::value::{texts, Aid, Eid, Value, ValueView};
use vstd::prelude::*;
use vstd::string::StringExecFns;

verus! {

/// A local filesystem data source of comma separated values.
#[derive(Debug)]
pub struct CsvFile {
    /// Path to a file on each workers local filesystem.
    pub path: String,
    /// Does the file include a header?
    pub has_headers: bool,
    /// Column delimiter to use.
    pub delimiter: u8,
    /// Comment variable to use.
    pub comment: Option<u8>,
    /// Allow flexible length records?
    pub flexible: bool,
    /// Special column offset for the entity id.
    pub eid_offset: usize,
    /// Special column offset for the timestamp.
    pub timestamp_offset: Option<usize>,
    /// Specifies the column offsets and their value types, that should be introduced.
    pub schema: Vec<(Aid, (usize, Value))>,
}

/// A local filesystem data source containing JSON objects.
#[derive(Clone, Debug, PartialEq, Eq, PartialOrd, Ord, Hash)]
pub struct JsonFile {
    /// Path to a file on each workers local filesystem.
    pub path: String,
}

/// An external source of datoms.
#[derive(Debug)]
pub enum Source {
    /// A file of comma separated values.
    CsvFile(CsvFile),
    /// A file of JSON objects, one per line.
    JsonFile(JsonFile),
}

/// A pair read from a source, for the attribute at a position of the schema or of the
/// list of names that the source was asked for.
#[derive(Debug)]
pub struct Sourced {
    /// The position of the attribute.
    pub attribute: usize,
    /// The entity.
    pub eid: Value,
    /// The value.
    pub value: Value,
}

/// What a [`Sourced`] stands for.
pub struct SourcedView {
    pub attribute: usize,
    pub eid: ValueView,
    pub value: ValueView,
}

impl View for Sourced {
    type V = SourcedView;

    open spec fn view(&self) -> SourcedView {
        SourcedView { attribute: self.attribute, eid: self.eid@, value: self.value@ }
    }
}

/// The views of a list of pairs, position by position.
pub open spec fn sourced_views(pairs: Seq<Sourced>) -> Seq<SourcedView> {
    Seq::new(pairs.len(), |i: int| pairs[i]@)
}

/// The views of the pairs, if there are any.
pub open spec fn pairs_view(pairs: Option<Vec<Sourced>>) -> Option<Seq<SourcedView>> {
    match pairs {
        Some(p) => Some(sourced_views(p@)),
        None => None,
    }
}

/// The view of the value, if there is one.
pub open spec fn value_view(value: Option<Value>) -> Option<ValueView> {
    match value {
        Some(v) => Some(v@),
        None => None,
    }
}

/// Whether the worker `worker` of `peers` reads the row at `index`: the rows are dealt
/// out in turn.
pub fn reads_row(index: usize, worker: usize, peers: usize) -> (mine: bool)
    requires
        peers > 0,
    ensures
        mine == (index % peers == worker),
{
    index % peers == worker
}

/// The digit that a character is, if it is one of `0` to `9`.
pub open spec fn digit_value(c: char) -> Option<nat> {
    if 48 <= c as int <= 57 {
        Some((c as int - 48) as nat)
    } else {
        None
    }
}

/// The number that a text of decimal digits spells; none if the text is empty or holds
/// anything but digits.
pub open spec fn decimal_value(digits: Seq<char>) -> Option<nat>
    decreases digits.len(),
{
    if digits.len() == 0 {
        None
    } else {
        match digit_value(digits.last()) {
            None => None,
            Some(digit) => if digits.len() == 1 {
                Some(digit)
            } else {
                match decimal_value(digits.drop_last()) {
                    Some(value) => Some(10 * value + digit),
                    None => None,
                }
            },
        }
    }
}

/// The number that a text spells as an unsigned integer of 64 bits: decimal digits,
/// with or without a plus sign in front, that spell a number within range.
pub open spec fn parsed_u64(text: Seq<char>) -> Option<u64> {
    let digits = if text.len() > 0 && text[0] == '+' {
        text.drop_first()
    } else {
        text
    };
    match decimal_value(digits) {
        Some(value) => if value <= u64::MAX {
            Some(value as u64)
        } else {
            None
        },
        None => None,
    }
}

/// The number that a text spells as a signed integer of 64 bits: decimal digits, with
/// or without a sign in front, that spell a number within range.
pub open spec fn parsed_i64(text: Seq<char>) -> Option<i64> {
    if text.len() > 0 && text[0] == '-' {
        match decimal_value(text.drop_first()) {
            Some(value) => if value <= 0x8000_0000_0000_0000 {
                Some((-(value as int)) as i64)
            } else {
                None
            },
            None => None,
        }
    } else {
        let digits = if text.len() > 0 && text[0] == '+' {
            text.drop_first()
        } else {
            text
        };
        match decimal_value(digits) {
            Some(value) => if value <= i64::MAX {
                Some(value as i64)
            } else {
                None
            },
            None => None,
        }
    }
}

/// Calls `str::parse::<u64>`. Trusted: a text is read as decimal digits after an
/// optional plus sign, and is not read when it is empty, holds anything else, or spells
/// a number out of range.
#[verifier::external_body]
pub(crate) fn parse_u64(text: &str) -> (number: Option<u64>)
    ensures
        number == parsed_u64(text@),
{
    text.parse::<u64>().ok()
}

/// Calls `str::parse::<i64>`. Trusted: a text is read as decimal digits after an
/// optional sign, and is not read when it is empty, holds anything else, or spells a
/// number out of range.
#[verifier::external_body]
pub(crate) fn parse_i64(text: &str) -> (number: Option<i64>)
    ensures
        number == parsed_i64(text@),
{
    text.parse::<i64>().ok()
}

/// The value that a field of a record is read as, given what the field reads as a
/// signed and as an unsigned number: a string as it stands, a number or an entity as
/// the number it spells. Other types are not read from records.
pub open spec fn typed(
    type_hint: ValueView,
    field: Seq<char>,
    number: Option<i64>,
    eid: Option<u64>,
) -> Option<ValueView> {
    match type_hint {
        ValueView::String(_) => Some(ValueView::String(field)),
        ValueView::Number(_) => match number {
            Some(n) => Some(ValueView::Number(n)),
            None => None,
        },
        ValueView::Eid(_) => match eid {
            Some(e) => Some(ValueView::Eid(e)),
            None => None,
        },
        _ => None,
    }
}

/// The pairs that a record gives for the first `n` entries of a schema, for the entity
/// `eid`; none if a column is missing or does not read as its type.
pub open spec fn record_pairs(
    schema: Seq<(Aid, (usize, Value))>,
    record: Seq<Seq<char>>,
    eid: Eid,
    n: nat,
) -> Option<Seq<SourcedView>>
    decreases n,
{
    if n == 0 {
        Some(Seq::empty())
    } else {
        let (offset, type_hint) = schema[n - 1].1;
        match record_pairs(schema, record, eid, (n - 1) as nat) {
            None => None,
            Some(pairs) => if offset < record.len() {
                match typed(
                    type_hint@,
                    record[offset as int],
                    parsed_i64(record[offset as int]),
                    parsed_u64(record[offset as int]),
                ) {
                    Some(value) => Some(
                        pairs.push(
                            SourcedView {
                                attribute: (n - 1) as usize,
                                eid: ValueView::Eid(eid),
                                value,
                            },
                        ),
                    ),
                    None => None,
                }
            } else {
                None
            },
        }
    }
}

impl CsvFile {
    /// Reads a field of a record as the type of `type_hint`.
    pub fn value(type_hint: &Value, field: &str) -> (value: Option<Value>)
        ensures
            value_view(value) == typed(type_hint@, field@, parsed_i64(field@), parsed_u64(field@)),
    {
        match type_hint {
            Value::String(_) => Some(Value::String(String::from_str(field))),
            Value::Number(_) => match parse_i64(field) {
                Some(n) => Some(Value::Number(n)),
                None => None,
            },
            Value::Eid(_) => match parse_u64(field) {
                Some(e) => Some(Value::Eid(e)),
                None => None,
            },
            _ => None,
        }
    }

    /// The pairs that a record of the file gives: one for each entry of the schema,
    /// in order, for the entity that the column at the entity offset spells.
    ///
    /// Gives nothing when that column or a column of the schema is missing, or when
    /// one of them does not read as its type.
    pub fn datoms(&self, record: &Vec<String>) -> (pairs: Option<Vec<Sourced>>)
        ensures
            pairs_view(pairs) == if self.eid_offset < record@.len() {
                match parsed_u64(record@[self.eid_offset as int]@) {
                    Some(eid) => record_pairs(
                        self.schema@,
                        texts(record@),
                        eid,
                        self.schema@.len(),
                    ),
                    None => None,
                }
            } else {
                None
            },
    {
        if self.eid_offset >= record.len() {
            return None;
        }
        let eid = match parse_u64(record[self.eid_offset].as_str()) {
            Some(eid) => eid,
            None => {
                return None;
            },
        };
        let mut pairs: Vec<Sourced> = Vec::new();
        let mut i: usize = 0;
        assert(sourced_views(pairs@) =~= Seq::<SourcedView>::empty());
        while i < self.schema.len()
            invariant
                i <= self.schema.len(),
                self.eid_offset < record@.len(),
                parsed_u64(record@[self.eid_offset as int]@) == Some(eid),
                record_pairs(self.schema@, texts(record@), eid, i as nat) == Some(
                    sourced_views(pairs@),
                ),
            decreases self.schema.len() - i,
        {
            let offset = (self.schema[i].1).0;
            if offset >= record.len() {
                proof {
                    assert(record_pairs(self.schema@, texts(record@), eid, (i + 1) as nat) is None);
                    lemma_record_pairs_none(
                        self.schema@,
                        texts(record@),
                        eid,
                        (i + 1) as nat,
                        self.schema@.len(),
                    );
                }
                return None;
            }
            assert(texts(record@)[offset as int] == record@[offset as int]@);
            let value = match CsvFile::value(&(self.schema[i].1).1, record[offset].as_str()) {
                Some(value) => value,
                None => {
                    proof {
                        assert(record_pairs(self.schema@, texts(record@), eid, (i + 1) as nat)
                            is None);
                        lemma_record_pairs_none(
                            self.schema@,
                            texts(record@),
                            eid,
                            (i + 1) as nat,
                            self.schema@.len(),
                        );
                    }
                    return None;
                },
            };
            let ghost before = sourced_views(pairs@);
            pairs.push(Sourced { attribute: i, eid: Value::Eid(eid), value });
            assert(sourced_views(pairs@) =~= before.push(
                SourcedView { attribute: i, eid: ValueView::Eid(eid), value: value@ },
            ));
            i += 1;
        }
        Some(pairs)
    }
}

/// A record that gives nothing for some entries of a schema gives nothing for more.
proof fn lemma_record_pairs_none(
    schema: Seq<(Aid, (usize, Value))>,
    record: Seq<Seq<char>>,
    eid: Eid,
    n: nat,
    m: nat,
)
    requires
        n <= m,
        record_pairs(schema, record, eid, n) is None,
    ensures
        record_pairs(schema, record, eid, m) is None,
    decreases m,
{
    if n < m {
        lemma_record_pairs_none(schema, record, eid, n, (m - 1) as nat);
    }
}

/// A member of a JSON object, as far as it can become a value.
#[derive(Debug)]
pub enum Member {
    /// The object has no member of the name.
    Absent,
    /// A string.
    String(String),
    /// A number: the integer that it is, if it is one of 64 bits with sign.
    Number(Option<i64>),
    /// A boolean.
    Bool(bool),
    /// Null, an array or an object.
    Other,
}

/// What a [`Member`] stands for.
pub enum MemberView {
    Absent,
    String(Seq<char>),
    Number(Option<i64>),
    Bool(bool),
    Other,
}

impl View for Member {
    type V = MemberView;

    open spec fn view(&self) -> MemberView {
        match *self {
            Member::Absent => MemberView::Absent,
            Member::String(text) => MemberView::String(text@),
            Member::Number(number) => MemberView::Number(number),
            Member::Bool(flag) => MemberView::Bool(flag),
            Member::Other => MemberView::Other,
        }
    }
}

/// The views of a list of members, position by position.
pub open spec fn member_views(members: Seq<Member>) -> Seq<MemberView> {
    Seq::new(members.len(), |i: int| members[i]@)
}

/// The members of an object, each with its name, position by position.
pub open spec fn named_views(members: Seq<(String, Member)>) -> Seq<(Seq<char>, MemberView)> {
    Seq::new(members.len(), |i: int| (members[i].0@, members[i].1@))
}

/// The views of an object's members, if there is an object.
pub open spec fn object_view(members: Option<Vec<(String, Member)>>) -> Option<
    Seq<(Seq<char>, MemberView)>,
> {
    match members {
        Some(m) => Some(named_views(m@)),
        None => None,
    }
}

/// The members, each with its name, of the JSON object that a line spells, if it
/// spells one.
pub uninterp spec fn json_object(line: Seq<char>) -> Option<Seq<(Seq<char>, MemberView)>>;

/// Parses a line with `serde_json::from_str` and hands out the members of the object
/// that it spells, each with its name. Trusted: the result depends on the line alone.
#[verifier::external_body]
pub(crate) fn parse_object(line: &str) -> (members: Option<Vec<(String, Member)>>)
    ensures
        object_view(members) == json_object(line@),
{
    let parsed: serde_json::Value = serde_json::from_str(line).ok()?;
    let object = parsed.as_object()?;
    let member = |value: &serde_json::Value| match value {
        serde_json::Value::String(text) => Member::String(text.clone()),
        serde_json::Value::Number(number) => Member::Number(number.as_i64()),
        serde_json::Value::Bool(flag) => Member::Bool(*flag),
        _ => Member::Other,
    };
    Some(object.iter().map(|(name, value)| (name.clone(), member(value))).collect())
}

/// The member of the name `name` from the position `from` on: the first of that
/// name, and an absent one where there is none.
pub open spec fn member_named(
    members: Seq<(Seq<char>, MemberView)>,
    name: Seq<char>,
    from: nat,
) -> MemberView
    decreases members.len() - from,
{
    if from >= members.len() {
        MemberView::Absent
    } else if members[from as int].0 == name {
        members[from as int].1
    } else {
        member_named(members, name, from + 1)
    }
}

/// The members of the given names, one for each name, in the order of the names.
pub open spec fn members_named(
    members: Seq<(Seq<char>, MemberView)>,
    names: Seq<Seq<char>>,
) -> Seq<MemberView> {
    Seq::new(names.len(), |i: int| member_named(members, names[i], 0))
}

impl Member {
    /// A copy of the member.
    pub fn copy(&self) -> (copy: Member)
        ensures
            copy@ == self@,
    {
        match self {
            Member::Absent => Member::Absent,
            Member::String(text) => Member::String(text.clone()),
            Member::Number(number) => Member::Number(*number),
            Member::Bool(flag) => Member::Bool(*flag),
            Member::Other => Member::Other,
        }
    }
}

/// The pairs that the first `n` members give for the entity `eid`: one for each
/// string, integer and boolean, in order; none if a member is anything else.
pub open spec fn member_pairs(members: Seq<MemberView>, eid: Eid, n: nat) -> Option<
    Seq<SourcedView>,
>
    decreases n,
{
    if n == 0 {
        Some(Seq::empty())
    } else {
        match member_pairs(members, eid, (n - 1) as nat) {
            None => None,
            Some(pairs) => {
                let attribute = (n - 1) as usize;
                let eid = ValueView::Eid(eid);
                match members[n - 1] {
                    MemberView::Absent => Some(pairs),
                    MemberView::String(text) => Some(
                        pairs.push(SourcedView { attribute, eid, value: ValueView::String(text) }),
                    ),
                    MemberView::Number(Some(number)) => Some(
                        pairs.push(
                            SourcedView { attribute, eid, value: ValueView::Number(number) },
                        ),
                    ),
                    MemberView::Bool(flag) => Some(
                        pairs.push(SourcedView { attribute, eid, value: ValueView::Bool(flag) }),
                    ),
                    _ => None,
                }
            },
        }
    }
}

/// Members that give nothing give nothing when more follow.
proof fn lemma_member_pairs_none(members: Seq<MemberView>, eid: Eid, n: nat, m: nat)
    requires
        n <= m,
        member_pairs(members, eid, n) is None,
    ensures
        member_pairs(members, eid, m) is None,
    decreases m,
{
    if n < m {
        lemma_member_pairs_none(members, eid, n, (m - 1) as nat);
    }
}

impl JsonFile {
    /// The pairs that the members of an object give: the object is the entity of the
    /// number `object_index`, and each member that is a string, an integer or a
    /// boolean is its value for the attribute at the member's position.
    ///
    /// Gives nothing when a member is a number that is no integer of 64 bits, null,
    /// an array or an object.
    pub fn datoms(object_index: u64, members: &Vec<Member>) -> (pairs: Option<Vec<Sourced>>)
        ensures
            pairs_view(pairs) == member_pairs(member_views(members@), object_index, members@.len()),
    {
        let mut pairs: Vec<Sourced> = Vec::new();
        let mut i: usize = 0;
        assert(sourced_views(pairs@) =~= Seq::<SourcedView>::empty());
        while i < members.len()
            invariant
                i <= members.len(),
                member_pairs(member_views(members@), object_index, i as nat) == Some(
                    sourced_views(pairs@),
                ),
            decreases members.len() - i,
        {
            let ghost before = sourced_views(pairs@);
            assert(member_views(members@)[i as int] == members@[i as int]@);
            let value = match &members[i] {
                Member::Absent => None,
                Member::String(text) => Some(Value::String(text.clone())),
                Member::Number(Some(number)) => Some(Value::Number(*number)),
                Member::Bool(flag) => Some(Value::Bool(*flag)),
                _ => {
                    proof {
                        lemma_member_pairs_none(
                            member_views(members@),
                            object_index,
                            (i + 1) as nat,
                            members@.len(),
                        );
                    }
                    return None;
                },
            };
            match value {
                Some(value) => {
                    pairs.push(Sourced { attribute: i, eid: Value::Eid(object_index), value });
                    assert(sourced_views(pairs@) =~= before.push(
                        SourcedView {
                            attribute: i,
                            eid: ValueView::Eid(object_index),
                            value: value@,
                        },
                    ));
                },
                None => {},
            }
            i += 1;
        }
        Some(pairs)
    }

    /// The member that an object has for a name: the first of that name, and an
    /// absent one where the object has none.
    pub fn member(object: &Vec<(String, Member)>, name: &str) -> (member: Member)
        ensures
            member@ == member_named(named_views(object@), name@, 0),
    {
        let wanted = String::from_str(name);
        let ghost members = named_views(object@);
        let mut i: usize = 0;
        while i < object.len()
            invariant
                i <= object.len(),
                wanted@ == name@,
                members == named_views(object@),
                member_named(members, name@, 0) == member_named(members, name@, i as nat),
            decreases object.len() - i,
        {
            assert(members[i as int] == (object@[i as int].0@, object@[i as int].1@));
            if object[i].0 == wanted {
                return object[i].1.copy();
            }
            i += 1;
        }
        Member::Absent
    }

    /// The members that an object has for the names, one for each name.
    pub fn members(object: &Vec<(String, Member)>, names: &Vec<String>) -> (members: Vec<Member>)
        ensures
            member_views(members@) == members_named(named_views(object@), texts(names@)),
    {
        let mut members: Vec<Member> = Vec::new();
        let mut i: usize = 0;
        while i < names.len()
            invariant
                i <= names.len(),
                members@.len() == i,
                forall|j: int|
                    0 <= j < i ==> members@[j]@ == member_named(
                        named_views(object@),
                        names@[j]@,
                        0,
                    ),
            decreases names.len() - i,
        {
            members.push(JsonFile::member(object, names[i].as_str()));
            i += 1;
        }
        assert(member_views(members@) =~= members_named(named_views(object@), texts(names@)));
        members
    }

    /// The pairs that a line of the file gives for the attributes `names`, as the
    /// object of the number `object_index`. An empty line gives no pair.
    ///
    /// Gives nothing when the line does not spell a JSON object, or when a member
    /// of one of the names cannot become a value.
    pub fn line(line: &str, names: &Vec<String>, object_index: u64) -> (pairs: Option<
        Vec<Sourced>,
    >)
        ensures
            pairs_view(pairs) == if line@.len() == 0 {
                Some(Seq::empty())
            } else {
                match json_object(line@) {
                    Some(object) => member_pairs(
                        members_named(object, texts(names@)),
                        object_index,
                        names@.len(),
                    ),
                    None => None,
                }
            },
    {
        if line.is_empty() {
            let pairs: Vec<Sourced> = Vec::new();
            assert(sourced_views(pairs@) =~= Seq::<SourcedView>::empty());
            return Some(pairs);
        }
        match parse_object(line) {
            Some(object) => {
                let members = JsonFile::members(&object, names);
                assert(member_views(members@).len() == names@.len());
                JsonFile::datoms(object_index, &members)
            },
            None => None,
        }
    }
}

} // verus!
