//! Attributes, and their inputs, that share one logical time.

use crate::error::{conflict, decimal, decimal_text, frame, framed, not_found, Error};
use crate::names::{lemma_texts_empty, lemma_texts_push, position, text_set};
use crate::shutdown::ShutdownHandle;
use crate::table::Table;
use crate::time::{less_equal, Time};
use crate::value::{texts, AttributeSemantics, TxData, Value, ValueView};
use differential_dataflow::operators::arrange::ShutdownButton;
use vstd::prelude::*;
use vstd::string::StringExecFns;

verus! {

/// Configuration of an attribute.
#[derive(Clone, Copy, Debug, PartialEq, Eq, Structural)]
pub struct AttributeConfig {
    /// How the updates that enter are turned into the attribute's pairs.
    pub input_semantics: AttributeSemantics,
    /// How far behind the current time the attribute's traces are compacted. Without
    /// it they are never compacted.
    pub trace_slack: Option<Time>,
}

/// Configuration of a named relation.
#[derive(Clone, Copy, Debug, PartialEq, Eq, Structural)]
pub struct RelationConfig {
    /// How far behind the current time the relation's trace is compacted. Without it
    /// the trace is never compacted.
    pub trace_slack: Option<Time>,
}

/// The indices over a collection of pairs that are required to take part in
/// worst-case-optimal joins: one to count the extensions of a key, one to propose them,
/// one to validate a pair. The three are arranged from the same updates and compacted
/// together.
#[derive(Debug)]
pub struct CollectionIndex {
    /// A name uniquely identifying this index.
    pub name: String,
    /// The frontier up to which the three traces may have been compacted.
    pub frontier: Vec<Time>,
    /// The frontier from which on readers tell the times of the traces apart. It is
    /// empty: the handles of the index give up subsetting their view of the data.
    pub distinguish: Vec<Time>,
}

/// What a [`CollectionIndex`] stands for.
pub struct IndexView {
    pub name: Seq<char>,
    pub frontier: Seq<Time>,
    pub distinguish: Seq<Time>,
}

impl View for CollectionIndex {
    type V = IndexView;

    open spec fn view(&self) -> IndexView {
        IndexView { name: self.name@, frontier: self.frontier@, distinguish: self.distinguish@ }
    }
}

impl CollectionIndex {
    /// Creates a named index. Its traces have not been allowed to compact, and its
    /// handles give up subsetting their view of the data.
    pub fn index(name: &str) -> (index: CollectionIndex)
        ensures
            index@ == (IndexView {
                name: name@,
                frontier: seq![0u64],
                distinguish: Seq::empty(),
            }),
    {
        let mut frontier: Vec<Time> = Vec::new();
        frontier.push(0);
        assert(frontier@ =~= seq![0u64]);
        CollectionIndex { name: String::from_str(name), frontier, distinguish: Vec::new() }
    }

    /// Allows the three traces to be compacted up to `frontier`.
    pub fn advance_by(&mut self, frontier: &[Time])
        ensures
            final(self)@ == (IndexView { frontier: frontier@, ..old(self)@ }),
    {
        let mut advanced: Vec<Time> = Vec::new();
        let mut i: usize = 0;
        while i < frontier.len()
            invariant
                i <= frontier.len(),
                advanced@ == frontier@.subrange(0, i as int),
            decreases frontier.len() - i,
        {
            advanced.push(frontier[i]);
            assert(advanced@ =~= frontier@.subrange(0, i + 1));
            i += 1;
        }
        assert(frontier@.subrange(0, frontier.len() as int) =~= frontier@);
        self.frontier = advanced;
    }

    /// The name of the operator that arranges, or imports, the trace of counts.
    pub fn count_name(&self) -> (name: String)
        ensures
            name@ == framed("Counts("@, self.name@, ")"@),
    {
        frame("Counts(", self.name.as_str(), ")")
    }

    /// The name of the operator that arranges, or imports, the trace of proposals.
    pub fn propose_name(&self) -> (name: String)
        ensures
            name@ == framed("Proposals("@, self.name@, ")"@),
    {
        frame("Proposals(", self.name.as_str(), ")")
    }

    /// The name of the operator that arranges, or imports, the trace of validations.
    pub fn validate_name(&self) -> (name: String)
        ensures
            name@ == framed("Validations("@, self.name@, ")"@),
    {
        frame("Validations(", self.name.as_str(), ")")
    }
}

impl CollectionIndex {
    /// Bundles the buttons that importing the traces of counts, of proposals and of
    /// validations into a scope has handed out, in this order.
    pub fn import<T>(
        &self,
        count: ShutdownButton<T>,
        propose: ShutdownButton<T>,
        validate: ShutdownButton<T>,
    ) -> (handle: ShutdownHandle<T>)
        ensures
            handle.buttons() == seq![count, propose, validate],
    {
        let mut handle = ShutdownHandle::empty();
        handle.add_button(count);
        handle.add_button(propose);
        handle.add_button(validate);
        assert(handle.buttons() =~= seq![count, propose, validate]);
        handle
    }
}

/// An attribute of a domain.
#[derive(Debug)]
pub struct Attribute {
    /// The configuration, for an attribute that was created with one.
    pub config: Option<AttributeConfig>,
    /// The index from entity to value.
    pub forward: CollectionIndex,
    /// The index from value to entity.
    pub reverse: CollectionIndex,
    /// The time of the attribute's ingest session, while it is open.
    pub session: Option<Time>,
}

/// What an [`Attribute`] stands for.
pub struct AttributeView {
    pub config: Option<AttributeConfig>,
    pub forward: IndexView,
    pub reverse: IndexView,
    pub session: Option<Time>,
}

impl View for Attribute {
    type V = AttributeView;

    open spec fn view(&self) -> AttributeView {
        AttributeView {
            config: self.config,
            forward: self.forward@,
            reverse: self.reverse@,
            session: self.session,
        }
    }
}

/// A named relation of a domain.
#[derive(Debug)]
pub struct Relation {
    /// The configuration.
    pub config: RelationConfig,
    /// The frontier up to which the relation's trace may have been compacted.
    pub frontier: Vec<Time>,
    /// The frontier from which on readers tell the times of the trace apart. It is
    /// empty: the handle of the relation gives up subsetting its view of the data.
    pub distinguish: Vec<Time>,
}

/// What a [`Relation`] stands for.
pub struct RelationView {
    pub config: RelationConfig,
    pub frontier: Seq<Time>,
    pub distinguish: Seq<Time>,
}

impl View for Relation {
    type V = RelationView;

    open spec fn view(&self) -> RelationView {
        RelationView {
            config: self.config,
            frontier: self.frontier@,
            distinguish: self.distinguish@,
        }
    }
}

/// An update handed to the ingest session of an attribute.
#[derive(Debug)]
pub struct Update {
    /// The attribute whose session takes the update.
    pub attribute: String,
    /// The entity.
    pub key: Value,
    /// The value.
    pub value: Value,
    /// The time of the session.
    pub time: Time,
    /// The change of multiplicity.
    pub diff: isize,
}

/// What an [`Update`] stands for.
pub struct UpdateView {
    pub attribute: Seq<char>,
    pub key: ValueView,
    pub value: ValueView,
    pub time: Time,
    pub diff: int,
}

impl View for Update {
    type V = UpdateView;

    open spec fn view(&self) -> UpdateView {
        UpdateView {
            attribute: self.attribute@,
            key: self.key@,
            value: self.value@,
            time: self.time,
            diff: self.diff as int,
        }
    }
}

/// The views of a list of updates, position by position.
pub open spec fn update_views(updates: Seq<Update>) -> Seq<UpdateView> {
    Seq::new(updates.len(), |i: int| updates[i]@)
}

/// A transaction that an unknown attribute stopped.
#[derive(Debug)]
pub struct Rejected {
    /// The updates of the datoms in front of the one that was rejected. They are
    /// handed to the sessions all the same.
    pub applied: Vec<Update>,
    /// Why the transaction stopped.
    pub error: Error,
}

/// The frontier of an index or trace after the domain has moved to `next`: behind it
/// by the slack, or as before where no slack is configured.
pub open spec fn compacted(frontier: Seq<Time>, slack: Option<Time>, next: Time) -> Seq<Time> {
    match slack {
        Some(slack) => seq![(next - slack) as u64],
        None => frontier,
    }
}

/// The slack of an attribute, if it has a configuration with one.
pub open spec fn slack_of(config: Option<AttributeConfig>) -> Option<Time> {
    match config {
        Some(config) => config.trace_slack,
        None => None,
    }
}

/// Whether a trace with a slack lags behind: it has not been allowed to compact, or up
/// to a time that is behind `now` by the slack at least.
pub open spec fn lags(frontier: Seq<Time>, slack: Option<Time>, now: Time) -> bool {
    slack matches Some(slack) ==> forall|i: int|
        0 <= i < frontier.len() ==> (#[trigger] frontier[i]) == 0 || frontier[i] + slack <= now
}

/// An attribute after the domain has moved to `next`.
pub open spec fn attribute_at(attribute: AttributeView, next: Time) -> AttributeView {
    let slack = slack_of(attribute.config);
    AttributeView {
        config: attribute.config,
        forward: IndexView {
            frontier: compacted(attribute.forward.frontier, slack, next),
            ..attribute.forward
        },
        reverse: IndexView {
            frontier: compacted(attribute.reverse.frontier, slack, next),
            ..attribute.reverse
        },
        session: match attribute.session {
            Some(_) => Some(next),
            None => None,
        },
    }
}

/// A relation after the domain has moved to `next`.
pub open spec fn relation_at(relation: RelationView, next: Time) -> RelationView {
    RelationView {
        frontier: compacted(relation.frontier, relation.config.trace_slack, next),
        ..relation
    }
}

/// The relation that is registered with a configuration: its trace has not been
/// allowed to compact, and its handle gives up subsetting its view of the data.
pub open spec fn registered(config: RelationConfig) -> RelationView {
    RelationView { config, frontier: seq![0u64], distinguish: Seq::empty() }
}

/// The attribute that is created under `name`.
pub open spec fn created(name: Seq<char>, config: Option<AttributeConfig>) -> AttributeView {
    AttributeView {
        config,
        forward: IndexView { name, frontier: seq![0u64], distinguish: Seq::empty() },
        reverse: IndexView { name, frontier: seq![0u64], distinguish: Seq::empty() },
        session: match config {
            Some(_) => Some(0u64),
            None => None,
        },
    }
}

/// The update that a datom becomes for a session at `time`.
pub open spec fn routed(datom: TxData, time: Time) -> UpdateView {
    UpdateView {
        attribute: datom.2@,
        key: ValueView::Eid(datom.1),
        value: datom.3@,
        time,
        diff: datom.0 as int,
    }
}

/// The text of the error for an attribute that exists already.
pub open spec fn attribute_exists(name: Seq<char>) -> Seq<char> {
    framed("An attribute of name "@, name, " already exists."@)
}

/// The text of the error for a datom of an attribute without an open session.
pub open spec fn attribute_missing(name: Seq<char>) -> Seq<char> {
    framed("Attribute "@, name, " does not exist."@)
}

/// The text of the error for an input that is not open.
pub open spec fn input_missing(name: Seq<char>) -> Seq<char> {
    framed("Input "@, name, " does not exist."@)
}

/// The text of the error for a sink that is not registered.
pub open spec fn sink_missing(name: Seq<char>) -> Seq<char> {
    framed("Unknown sink "@, name, ""@)
}

/// The text of the error for an attempt to move the domain back in time.
pub open spec fn rewind(now_at: Time, next: Time) -> Seq<char> {
    "Domain is at "@ + decimal(now_at as nat) + ", you attempted to rewind to "@ + decimal(
        next as nat,
    ) + "."@
}

/// A domain manages attributes (and their inputs) that share a timestamp semantics
/// (e.g. come from the same logical source).
#[derive(Debug)]
pub struct Domain {
    /// The current timestamp.
    now_at: Time,
    /// The attributes, with their indices and their ingest sessions.
    attributes: Table<Attribute>,
    /// The named relations, with their traces.
    relations: Table<Relation>,
    /// The named sinks that wait for a relation to flow into them.
    sinks: Vec<String>,
}

impl Domain {
    /// The current timestamp.
    pub closed spec fn now(&self) -> Time {
        self.now_at
    }

    /// The attributes, by name.
    pub closed spec fn attributes(&self) -> Map<Seq<char>, AttributeView> {
        Map::new(
            |name: Seq<char>| self.attributes@.dom().contains(name),
            |name: Seq<char>| self.attributes@[name]@,
        )
    }

    /// The named relations, by name.
    pub closed spec fn relations(&self) -> Map<Seq<char>, RelationView> {
        Map::new(
            |name: Seq<char>| self.relations@.dom().contains(name),
            |name: Seq<char>| self.relations@[name]@,
        )
    }

    /// The names of the sinks that wait for a relation to flow into them.
    pub closed spec fn sinks(&self) -> Set<Seq<char>> {
        text_set(self.sinks@)
    }

    /// The domain's tables are in order.
    pub closed spec fn tables_wf(&self) -> bool {
        self.attributes.wf() && self.relations.wf() && texts(self.sinks@).no_duplicates()
    }

    /// No ingest session is ahead of the current time, and no trace may have been
    /// compacted further than to the current time less its slack.
    pub open spec fn wf(&self) -> bool {
        &&& self.tables_wf()
        &&& forall|name: Seq<char>| #[trigger]
            self.attributes().dom().contains(name) ==> {
                let attribute = self.attributes()[name];
                &&& attribute.session matches Some(time) ==> time <= self.now()
                &&& lags(attribute.forward.frontier, slack_of(attribute.config), self.now())
                &&& lags(attribute.reverse.frontier, slack_of(attribute.config), self.now())
            }
        &&& forall|name: Seq<char>| #[trigger]
            self.relations().dom().contains(name) ==> lags(
                self.relations()[name].frontier,
                self.relations()[name].config.trace_slack,
                self.now(),
            )
    }

    /// Whether an ingest session is open for the attribute `name`.
    pub open spec fn open(&self, name: Seq<char>) -> bool {
        self.attributes().dom().contains(name) && self.attributes()[name].session is Some
    }

    /// Every open ingest session is at the current time.
    pub open spec fn in_step(&self) -> bool {
        forall|name: Seq<char>|
            self.open(name) ==> #[trigger] self.attributes()[name].session == Some(self.now())
    }

    /// Whether the slack of every attribute and relation can be taken off `next`.
    pub open spec fn slack_fits(&self, next: Time) -> bool {
        &&& forall|name: Seq<char>| #[trigger]
            self.attributes().dom().contains(name) ==> (self.attributes()[name].config matches Some(
                config,
            ) ==> (config.trace_slack matches Some(slack) ==> slack <= next))
        &&& forall|name: Seq<char>| #[trigger]
            self.relations().dom().contains(name) ==> (
            self.relations()[name].config.trace_slack matches Some(slack) ==> slack <= next)
    }

    /// Creates a new domain.
    pub fn new(start_at: Time) -> (domain: Domain)
        ensures
            domain.wf(),
            domain.now() == start_at,
            domain.attributes() == Map::<Seq<char>, AttributeView>::empty(),
            domain.relations() == Map::<Seq<char>, RelationView>::empty(),
            domain.sinks() == Set::<Seq<char>>::empty(),
    {
        let domain = Domain {
            now_at: start_at,
            attributes: Table::new(),
            relations: Table::new(),
            sinks: Vec::new(),
        };
        proof {
            lemma_texts_empty();
        }
        assert(domain.attributes() =~= Map::<Seq<char>, AttributeView>::empty());
        assert(domain.relations() =~= Map::<Seq<char>, RelationView>::empty());
        domain
    }

    /// Reports the current timestamp.
    pub fn time(&self) -> (now_at: &Time)
        ensures
            *now_at == self.now(),
    {
        &self.now_at
    }

    /// Whether an attribute of that name exists.
    pub fn has_attribute(&self, name: &str) -> (known: bool)
        ensures
            known == self.attributes().dom().contains(name@),
    {
        self.attributes.contains_key(name)
    }

    /// Whether a relation is published under that name.
    pub fn has_relation(&self, name: &str) -> (known: bool)
        ensures
            known == self.relations().dom().contains(name@),
    {
        self.relations.contains_key(name)
    }

    /// The attribute of that name.
    pub fn attribute(&self, name: &str) -> (attribute: Option<&Attribute>)
        ensures
            attribute is Some == self.attributes().dom().contains(name@),
            attribute matches Some(a) ==> a@ == self.attributes()[name@],
    {
        self.attributes.get(name)
    }

    /// The named relation of that name.
    pub fn relation(&self, name: &str) -> (relation: Option<&Relation>)
        ensures
            relation is Some == self.relations().dom().contains(name@),
            relation matches Some(r) ==> r@ == self.relations()[name@],
    {
        self.relations.get(name)
    }

    fn insert_attribute(&mut self, name: &str, config: Option<AttributeConfig>)
        requires
            old(self).wf(),
            !old(self).attributes().dom().contains(name@),
        ensures
            final(self).wf(),
            final(self).now() == old(self).now(),
            final(self).sinks() == old(self).sinks(),
            final(self).relations() == old(self).relations(),
            final(self).attributes() == old(self).attributes().insert(
                name@,
                created(name@, config),
            ),
    {
        let attribute = Attribute {
            config,
            forward: CollectionIndex::index(name),
            reverse: CollectionIndex::index(name),
            session: match config {
                Some(_) => Some(0),
                None => None,
            },
        };
        self.attributes.insert(String::from_str(name), attribute);
        assert(self.attributes() =~= old(self).attributes().insert(name@, created(name@, config)));
        assert(self.relations() =~= old(self).relations());
    }

    /// Creates a new collection of (e,v) tuples and indexes it in various ways. Stores
    /// forward and reverse indices, as well as the ingest session.
    ///
    /// Fails with a conflict when an attribute of that name exists.
    pub fn create_attribute(&mut self, name: &str, config: AttributeConfig) -> (result: Result<
        (),
        Error,
    >)
        requires
            old(self).wf(),
        ensures
            final(self).wf(),
            final(self).now() == old(self).now(),
            final(self).sinks() == old(self).sinks(),
            final(self).relations() == old(self).relations(),
            result is Err == old(self).attributes().dom().contains(name@),
            result matches Err(error) ==> error.says(conflict(), attribute_exists(name@))
                && final(self).attributes() == old(self).attributes(),
            result is Ok ==> final(self).attributes() == old(self).attributes().insert(
                name@,
                created(name@, Some(config)),
            ),
    {
        if self.attributes.contains_key(name) {
            Err(Error::conflict(frame("An attribute of name ", name, " already exists.")))
        } else {
            self.insert_attribute(name, Some(config));
            Ok(())
        }
    }

    /// Creates an attribute that is fed by an external source of datoms. It has indices
    /// but neither a configuration nor an ingest session.
    ///
    /// Fails with a conflict when an attribute of that name exists.
    pub fn create_source(&mut self, name: &str) -> (result: Result<(), Error>)
        requires
            old(self).wf(),
        ensures
            final(self).wf(),
            final(self).now() == old(self).now(),
            final(self).sinks() == old(self).sinks(),
            final(self).relations() == old(self).relations(),
            result is Err == old(self).attributes().dom().contains(name@),
            result matches Err(error) ==> error.says(conflict(), attribute_exists(name@))
                && final(self).attributes() == old(self).attributes(),
            result is Ok ==> final(self).attributes() == old(self).attributes().insert(
                name@,
                created(name@, None),
            ),
    {
        if self.attributes.contains_key(name) {
            Err(Error::conflict(frame("An attribute of name ", name, " already exists.")))
        } else {
            self.insert_attribute(name, None);
            Ok(())
        }
    }

    /// Inserts a new named relation, whose trace holds every distinction since the
    /// least time. A relation of that name is replaced.
    pub fn register_arrangement(&mut self, name: String, config: RelationConfig)
        requires
            old(self).wf(),
        ensures
            final(self).wf(),
            final(self).now() == old(self).now(),
            final(self).sinks() == old(self).sinks(),
            final(self).attributes() == old(self).attributes(),
            final(self).relations() == old(self).relations().insert(name@, registered(config)),
    {
        let mut frontier: Vec<Time> = Vec::new();
        frontier.push(0);
        assert(frontier@ =~= seq![0u64]);
        self.relations.insert(name, Relation { config, frontier, distinguish: Vec::new() });
        assert(self.relations() =~= old(self).relations().insert(name@, registered(config)));
        assert(self.attributes() =~= old(self).attributes());
    }

    /// Registers a named sink, into which a relation can be made to flow once.
    pub fn register_sink(&mut self, name: &str)
        requires
            old(self).wf(),
        ensures
            final(self).wf(),
            final(self).now() == old(self).now(),
            final(self).attributes() == old(self).attributes(),
            final(self).relations() == old(self).relations(),
            final(self).sinks() == old(self).sinks().insert(name@),
    {
        match position(&self.sinks, name) {
            None => {
                let owned = String::from_str(name);
                proof {
                    lemma_texts_push(self.sinks@, owned);
                }
                self.sinks.push(owned);
            },
            Some(i) => {
                assert(texts(self.sinks@)[i as int] == name@);
            },
        }
        assert(self.sinks() =~= old(self).sinks().insert(name@));
        assert(self.attributes() =~= old(self).attributes());
        assert(self.relations() =~= old(self).relations());
    }

    /// Takes the named sink, for a relation to flow into it. Sinks are used once.
    ///
    /// Fails with a not-found error when no sink of that name is registered.
    pub fn flow(&mut self, sink: &str) -> (result: Result<(), Error>)
        requires
            old(self).wf(),
        ensures
            final(self).wf(),
            final(self).now() == old(self).now(),
            final(self).attributes() == old(self).attributes(),
            final(self).relations() == old(self).relations(),
            result is Ok == old(self).sinks().contains(sink@),
            result matches Err(error) ==> error.says(not_found(), sink_missing(sink@)),
            final(self).sinks() == old(self).sinks().remove(sink@),
    {
        let ghost before = self.sinks@;
        match position(&self.sinks, sink) {
            None => {
                assert(self.sinks() =~= old(self).sinks().remove(sink@));
                Err(Error::not_found(frame("Unknown sink ", sink, "")))
            },
            Some(i) => {
                assert(texts(before)[i as int] == sink@);
                self.sinks.remove(i);
                proof {
                    let names = texts(before);
                    let rest = texts(self.sinks@);
                    assert(rest =~= names.remove(i as int));
                    assert forall|a: int, b: int|
                        0 <= a < rest.len() && 0 <= b < rest.len() && a != b implies rest[a]
                        != rest[b] by {
                        let a0 = if a < i { a } else { a + 1 };
                        let b0 = if b < i { b } else { b + 1 };
                        assert(rest[a] == names[a0]);
                        assert(rest[b] == names[b0]);
                    }
                    assert forall|name: Seq<char>|
                        self.sinks().contains(name) == old(self).sinks().remove(sink@).contains(
                            name,
                        ) by {
                        if rest.contains(name) {
                            let a = choose|a: int| 0 <= a < rest.len() && rest[a] == name;
                            let a0 = if a < i { a } else { a + 1 };
                            assert(names[a0] == name);
                            assert(names[i as int] == sink@);
                        }
                        if names.contains(name) && name != sink@ {
                            let a0 = choose|a: int| 0 <= a < names.len() && names[a] == name;
                            assert(names[i as int] == sink@);
                            let a = if a0 < i { a0 } else { a0 - 1 };
                            assert(rest[a] == name);
                        }
                    }
                    assert(self.sinks() =~= old(self).sinks().remove(sink@));
                    assert(self.attributes() =~= old(self).attributes());
                    assert(self.relations() =~= old(self).relations());
                }
                Ok(())
            },
        }
    }

    /// Removes the named relation of that name, if there is one, and with it the hold
    /// on its trace.
    pub fn remove_arrangement(&mut self, name: &str)
        requires
            old(self).wf(),
        ensures
            final(self).wf(),
            final(self).now() == old(self).now(),
            final(self).sinks() == old(self).sinks(),
            final(self).attributes() == old(self).attributes(),
            final(self).relations() == old(self).relations().remove(name@),
    {
        self.relations.remove(name);
        assert(self.relations() =~= old(self).relations().remove(name@));
        assert(self.attributes() =~= old(self).attributes());
    }

    /// Closes and drops an existing input.
    ///
    /// Fails with a not-found error when no ingest session is open under that name.
    pub fn close_input(&mut self, name: String) -> (result: Result<(), Error>)
        requires
            old(self).wf(),
        ensures
            final(self).wf(),
            final(self).now() == old(self).now(),
            final(self).sinks() == old(self).sinks(),
            final(self).relations() == old(self).relations(),
            result is Ok == old(self).open(name@),
            result matches Err(error) ==> error.says(not_found(), input_missing(name@))
                && final(self).attributes() == old(self).attributes(),
            result is Ok ==> final(self).attributes() == old(self).attributes().insert(
                name@,
                AttributeView { session: None, ..old(self).attributes()[name@] },
            ),
    {
        let open = match self.attributes.get(name.as_str()) {
            Some(attribute) => attribute.session.is_some(),
            None => false,
        };
        if !open {
            return Err(Error::not_found(frame("Input ", name.as_str(), " does not exist.")));
        }
        match self.attributes.remove(name.as_str()) {
            Some(attribute) => {
                let closed = Attribute {
                    config: attribute.config,
                    forward: attribute.forward,
                    reverse: attribute.reverse,
                    session: None,
                };
                self.attributes.insert(name, closed);
            },
            None => {},
        }
        assert(self.attributes() =~= old(self).attributes().insert(
            name@,
            AttributeView { session: None, ..old(self).attributes()[name@] },
        ));
        assert(self.relations() =~= old(self).relations());
        Ok(())
    }

    /// The first `n` datoms have open sessions, and `updates` holds what they are
    /// handed, in order: the entity under its identifier and the value, at the time of
    /// the session, with the datom's change of multiplicity.
    pub open spec fn dispatched(&self, tx_data: Seq<TxData>, updates: Seq<Update>, n: int) -> bool {
        &&& updates.len() == n
        &&& forall|i: int|
            #![trigger tx_data[i]]
            0 <= i < n ==> self.open(tx_data[i].2@) && updates[i]@ == routed(
                tx_data[i],
                self.attributes()[tx_data[i].2@].session->0,
            )
    }

    /// Whether `result` is what transacting `tx_data` gives: the updates for all the
    /// datoms, if each of them has an open session; otherwise those of the datoms in
    /// front of the first that has none, with a not-found error about it.
    pub open spec fn transacted(
        &self,
        tx_data: Seq<TxData>,
        result: Result<Vec<Update>, Rejected>,
    ) -> bool {
        match result {
            Ok(updates) => self.dispatched(tx_data, updates@, tx_data.len() as int),
            Err(rejected) => exists|n: int|
                #![trigger tx_data[n]]
                {
                    &&& 0 <= n < tx_data.len()
                    &&& !self.open(tx_data[n].2@)
                    &&& self.dispatched(tx_data, rejected.applied@, n)
                    &&& rejected.error.says(not_found(), attribute_missing(tx_data[n].2@))
                },
        }
    }

    /// Transacts data into one or more inputs: returns, for each datom in order, the
    /// update to hand to the ingest session of its attribute.
    ///
    /// Stops with a not-found error at the first datom whose attribute has no open
    /// session; the datoms in front of it are dispatched all the same.
    pub fn transact(&self, tx_data: Vec<TxData>) -> (result: Result<Vec<Update>, Rejected>)
        requires
            self.wf(),
        ensures
            self.transacted(tx_data@, result),
    {
        let mut updates: Vec<Update> = Vec::new();
        let mut i: usize = 0;
        while i < tx_data.len()
            invariant
                i <= tx_data.len(),
                self.wf(),
                self.dispatched(tx_data@, updates@, i as int),
            decreases tx_data.len() - i,
        {
            let datom = &tx_data[i];
            let session = match self.attributes.get(datom.2.as_str()) {
                Some(attribute) => attribute.session,
                None => None,
            };
            match session {
                None => {
                    let error = Error::not_found(
                        frame("Attribute ", datom.2.as_str(), " does not exist."),
                    );
                    return Err(Rejected { applied: updates, error });
                },
                Some(time) => {
                    updates.push(
                        Update {
                            attribute: datom.2.clone(),
                            key: Value::Eid(datom.1),
                            value: datom.3.clone(),
                            time,
                            diff: datom.0,
                        },
                    );
                },
            }
            i += 1;
        }
        Ok(updates)
    }

    /// Whether the domain can be advanced to `next`: the slack of every attribute and
    /// relation can be taken off it.
    pub fn can_advance_to(&self, next: Time) -> (fits: bool)
        requires
            self.wf(),
        ensures
            fits == self.slack_fits(next),
    {
        proof {
            self.attributes.lemma_entries();
            self.relations.lemma_entries();
        }
        let mut i: usize = 0;
        while i < self.attributes.len()
            invariant
                i <= self.attributes.keys().len(),
                self.wf(),
                forall|j: int|
                    0 <= j < i ==> (#[trigger] self.attributes.values()[j].config matches Some(
                        config,
                    ) ==> (config.trace_slack matches Some(slack) ==> slack <= next)),
            decreases self.attributes.keys().len() - i,
        {
            let attribute = self.attributes.value_at(i);
            let fits = match attribute.config {
                Some(config) => match config.trace_slack {
                    Some(slack) => slack <= next,
                    None => true,
                },
                None => true,
            };
            if !fits {
                proof {
                    self.attributes.lemma_entries();
                    assert(self.attributes().dom().contains(self.attributes.keys()[i as int]));
                }
                return false;
            }
            i += 1;
        }
        let mut k: usize = 0;
        while k < self.relations.len()
            invariant
                k <= self.relations.keys().len(),
                self.wf(),
                forall|j: int|
                    0 <= j < k ==> (
                    #[trigger] self.relations.values()[j].config.trace_slack matches Some(slack)
                        ==> slack <= next),
            decreases self.relations.keys().len() - k,
        {
            let fits = match self.relations.value_at(k).config.trace_slack {
                Some(slack) => slack <= next,
                None => true,
            };
            if !fits {
                proof {
                    self.relations.lemma_entries();
                    assert(self.relations().dom().contains(self.relations.keys()[k as int]));
                }
                return false;
            }
            k += 1;
        }
        proof {
            self.attributes.lemma_entries();
            self.relations.lemma_entries();
            assert forall|name: Seq<char>| #[trigger]
                self.attributes().dom().contains(name) implies (
            self.attributes()[name].config matches Some(config) ==> (
            config.trace_slack matches Some(slack) ==> slack <= next)) by {
                let j = self.attributes.index_of(name);
                assert(self.attributes.keys()[j] == name);
                assert(self.attributes@[name] == self.attributes.values()[j]);
            }
            assert forall|name: Seq<char>| #[trigger]
                self.relations().dom().contains(name) implies (
            self.relations()[name].config.trace_slack matches Some(slack) ==> slack
                <= next) by {
                let j = self.relations.index_of(name);
                assert(self.relations.keys()[j] == name);
                assert(self.relations@[name] == self.relations.values()[j]);
            }
        }
        true
    }

    /// Whether `after` is this domain advanced to `next`: as it is, if `next` is not
    /// after the current time; otherwise at `next`, with every attribute and relation
    /// as it is at `next`.
    pub open spec fn advanced(&self, after: Domain, next: Time) -> bool {
        &&& after.sinks() == self.sinks()
        &&& if next <= self.now() {
            &&& after.now() == self.now()
            &&& after.attributes() == self.attributes()
            &&& after.relations() == self.relations()
        } else {
            &&& after.now() == next
            &&& after.attributes() == self.attributes().map_values(
                |attribute: AttributeView| attribute_at(attribute, next),
            )
            &&& after.relations() == self.relations().map_values(
                |relation: RelationView| relation_at(relation, next),
            )
        }
    }

    /// Advances the domain to `next`: every open ingest session is advanced to `next`
    /// and flushed, and the traces of every attribute and relation with a configured
    /// slack are allowed to compact up to `next` less the slack.
    ///
    /// Fails with a conflict, and changes nothing, when `next` is before the current
    /// time. Advancing to the current time changes nothing either: a session that was
    /// opened since the domain was last advanced stays behind until the next advance.
    /// After every other advance all open sessions are in step with the domain.
    pub fn advance_to(&mut self, next: Time) -> (result: Result<(), Error>)
        requires
            old(self).wf(),
            next > old(self).now() ==> old(self).slack_fits(next),
        ensures
            final(self).wf(),
            result is Err == (next < old(self).now()),
            result matches Err(error) ==> error.says(conflict(), rewind(old(self).now(), next)),
            old(self).advanced(*final(self), next),
            result is Ok && (next > old(self).now() || old(self).in_step())
                ==> final(self).in_step(),
    {
        if !less_equal(self.now_at, next) {
            let mut message = String::from_str("Domain is at ");
            message.append(decimal_text(self.now_at).as_str());
            message.append(", you attempted to rewind to ");
            message.append(decimal_text(next).as_str());
            message.append(".");
            return Err(Error::conflict(message));
        }
        if next == self.now_at {
            return Ok(());
        }
        let ghost before = *self;
        proof {
            before.attributes.lemma_entries();
            before.relations.lemma_entries();
            assert forall|j: int| 0 <= j < before.attributes.keys().len() implies (
            #[trigger] before.attributes.values()[j].config matches Some(config) ==> (
            config.trace_slack matches Some(slack) ==> slack <= next)) by {
                assert(before.attributes().dom().contains(before.attributes.keys()[j]));
            }
            assert forall|j: int| 0 <= j < before.relations.keys().len() implies (
            #[trigger] before.relations.values()[j].config.trace_slack matches Some(slack)
                ==> slack <= next) by {
                assert(before.relations().dom().contains(before.relations.keys()[j]));
            }
        }
        self.now_at = next;
        let mut i: usize = 0;
        while i < self.attributes.len()
            invariant
                i <= self.attributes.keys().len(),
                self.now_at == next,
                self.sinks == before.sinks,
                self.attributes.wf(),
                self.relations == before.relations,
                self.attributes.keys() == before.attributes.keys(),
                self.attributes.values().len() == before.attributes.values().len(),
                before.attributes.keys().len() == before.attributes.values().len(),
                forall|j: int|
                    0 <= j < before.attributes.keys().len() ==> (
                    #[trigger] before.attributes.values()[j].config matches Some(config) ==> (
                    config.trace_slack matches Some(slack) ==> slack <= next)),
                forall|j: int|
                    0 <= j < i ==> #[trigger] self.attributes.values()[j]@ == attribute_at(
                        before.attributes.values()[j]@,
                        next,
                    ),
                forall|j: int|
                    i <= j < self.attributes.keys().len() ==> #[trigger] self.attributes.values()[j]
                        == before.attributes.values()[j],
            decreases self.attributes.keys().len() - i,
        {
            let attribute = self.attributes.value_at(i);
            let slack = match attribute.config {
                Some(config) => config.trace_slack,
                None => None,
            };
            let advanced = Attribute {
                config: attribute.config,
                forward: CollectionIndex {
                    name: attribute.forward.name.clone(),
                    frontier: advance_frontier(&attribute.forward.frontier, slack, next),
                    distinguish: advance_frontier(&attribute.forward.distinguish, None, next),
                },
                reverse: CollectionIndex {
                    name: attribute.reverse.name.clone(),
                    frontier: advance_frontier(&attribute.reverse.frontier, slack, next),
                    distinguish: advance_frontier(&attribute.reverse.distinguish, None, next),
                },
                session: match attribute.session {
                    Some(_) => Some(next),
                    None => None,
                },
            };
            self.attributes.set_value_at(i, advanced);
            i += 1;
        }
        let ghost attributes = self.attributes;
        let mut k: usize = 0;
        while k < self.relations.len()
            invariant
                k <= self.relations.keys().len(),
                self.now_at == next,
                self.sinks == before.sinks,
                self.attributes == attributes,
                self.relations.wf(),
                self.relations.keys() == before.relations.keys(),
                self.relations.values().len() == before.relations.values().len(),
                before.relations.keys().len() == before.relations.values().len(),
                forall|j: int|
                    0 <= j < before.relations.keys().len() ==> (
                    #[trigger] before.relations.values()[j].config.trace_slack matches Some(slack)
                        ==> slack <= next),
                forall|j: int|
                    0 <= j < k ==> #[trigger] self.relations.values()[j]@ == relation_at(
                        before.relations.values()[j]@,
                        next,
                    ),
                forall|j: int|
                    k <= j < self.relations.keys().len() ==> #[trigger] self.relations.values()[j]
                        == before.relations.values()[j],
            decreases self.relations.keys().len() - k,
        {
            let relation = self.relations.value_at(k);
            let advanced = Relation {
                config: relation.config,
                frontier: advance_frontier(&relation.frontier, relation.config.trace_slack, next),
                distinguish: advance_frontier(&relation.distinguish, None, next),
            };
            self.relations.set_value_at(k, advanced);
            k += 1;
        }
        proof {
            self.attributes.lemma_entries();
            self.relations.lemma_entries();
            assert(self.attributes().dom() =~= before.attributes().dom());
            assert(self.relations().dom() =~= before.relations().dom());
            let attributes_at = before.attributes().map_values(
                |attribute: AttributeView| attribute_at(attribute, next),
            );
            let relations_at = before.relations().map_values(
                |relation: RelationView| relation_at(relation, next),
            );
            assert forall|name: Seq<char>| #[trigger]
                self.attributes().dom().contains(name) implies self.attributes()[name]
                == attribute_at(before.attributes()[name], next) by {
                let j = self.attributes.index_of(name);
                assert(before.attributes.keys()[j] == name);
                assert(self.attributes@[name] == self.attributes.values()[j]);
                assert(before.attributes@[name] == before.attributes.values()[j]);
            }
            assert forall|name: Seq<char>| #[trigger]
                self.relations().dom().contains(name) implies self.relations()[name]
                == relation_at(before.relations()[name], next) by {
                let j = self.relations.index_of(name);
                assert(before.relations.keys()[j] == name);
                assert(self.relations@[name] == self.relations.values()[j]);
                assert(before.relations@[name] == before.relations.values()[j]);
            }
            assert(self.attributes() =~= attributes_at);
            assert(self.relations() =~= relations_at);
        }
        Ok(())
    }
}

/// The frontier of a trace after the domain has moved to `next`.
fn advance_frontier(frontier: &Vec<Time>, slack: Option<Time>, next: Time) -> (advanced: Vec<
    Time,
>)
    requires
        slack matches Some(slack) ==> slack <= next,
    ensures
        advanced@ == compacted(frontier@, slack, next),
{
    let mut advanced: Vec<Time> = Vec::new();
    match slack {
        Some(slack) => {
            advanced.push(next - slack);
            assert(advanced@ =~= seq![(next - slack) as u64]);
        },
        None => {
            let mut i: usize = 0;
            while i < frontier.len()
                invariant
                    i <= frontier.len(),
                    advanced@ == frontier@.subrange(0, i as int),
                decreases frontier.len() - i,
            {
                advanced.push(frontier[i]);
                assert(advanced@ =~= frontier@.subrange(0, i + 1));
                i += 1;
            }
            assert(frontier@.subrange(0, frontier.len() as int) =~= frontier@);
        },
    }
    advanced
}

} // verus!
