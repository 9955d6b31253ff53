//! Registration of rules, bookkeeping of interest, and the release of what nobody is
//! interested in any more.

use crate::domain::{
    registered, rewind, AttributeView, Domain, Rejected, RelationConfig, RelationView, Update,
};
use crate::error::{conflict, frame, framed, unsupported, Error};
use crate::names::{contains, lemma_texts_empty, lemma_texts_push, text_set};
use crate::plan::Rule;
use crate::rules::ImplContext;
use crate::shutdown::ShutdownHandle;
use crate::sources::Source;
use crate::table::Table;
use crate::time::Time;
use crate::value::{AttributeSemantics, TxData};
use differential_dataflow::operators::arrange::ShutdownButton;
use vstd::prelude::*;
use vstd::string::StringExecFns;

verus! {

/// Server configuration.
#[derive(Clone, Copy, Debug, PartialEq, Eq, Structural)]
pub struct Config {
    /// Port at which this server will listen at.
    pub port: u16,
    /// Should inputs via CLI be accepted?
    pub enable_cli: bool,
    /// Should as-of queries be possible?
    pub enable_history: bool,
    /// Should queries use the optimizer during implementation?
    pub enable_optimizer: bool,
    /// Should queries on the query graph be available?
    pub enable_meta: bool,
    /// Do clients have to advance the domain themselves?
    pub manual_advance: bool,
}

impl Config {
    /// The port at which the worker of that index listens: the base port and the
    /// index. None if there is no such port.
    pub fn worker_port(&self, index: usize) -> (port: Option<u16>)
        ensures
            port == if self.port + index <= u16::MAX {
                Some((self.port + index) as u16)
            } else {
                None::<u16>
            },
    {
        if index <= (u16::MAX - self.port) as usize {
            Some(self.port + index as u16)
        } else {
            None
        }
    }
}

impl Default for Config {
    fn default() -> (config: Config)
        ensures
            config == (Config {
                port: 6262,
                enable_cli: false,
                enable_history: false,
                enable_optimizer: false,
                enable_meta: false,
                manual_advance: false,
            }),
    {
        Config {
            port: 6262,
            enable_cli: false,
            enable_history: false,
            enable_optimizer: false,
            enable_meta: false,
            manual_advance: false,
        }
    }
}

/// A request of a client.
#[derive(Debug)]
pub enum Request {
    /// Sends datoms to the attributes of the domain.
    Transact(Vec<TxData>),
    /// Expresses interest in a named relation.
    Interest(String),
    /// Withdraws the interest in a named relation.
    Uninterest(String),
    /// Registers a rule.
    Register(Rule),
    /// Registers an external source of datoms for the named attributes.
    RegisterSource(Vec<String>, Source),
    /// Registers a sink for the tuples of a relation under a name.
    RegisterSink(String),
    /// Creates a named attribute with the given semantics.
    CreateAttribute(String, AttributeSemantics),
    /// Advances the domain, or the domain of the given name, to the given time.
    AdvanceDomain(Option<String>, Time),
    /// Closes the named input.
    CloseInput(String),
    /// Lets the tuples of the first, a relation, flow into the second, a sink.
    Flow(String, String),
    /// Publishes, under the first, the relation that the second, a GraphQL query,
    /// describes.
    GraphQl(String, String),
}

/// A mutation of server state.
#[derive(Debug)]
pub struct Command {
    /// The worker that received this command from a client in the first place and is
    /// therefore the one that should receive all outputs.
    pub owner: usize,
    /// The client token that issued the command. Only relevant to the owning worker,
    /// as no one else has the connection.
    pub client: usize,
    /// Requests issued by the client.
    pub requests: Vec<Request>,
}

/// The state that plans are implemented against.
#[derive(Debug)]
pub struct Context {
    /// Representation of named rules.
    pub rules: Table<Rule>,
    /// Names of the rules that are wrapped in a recursive variable when they are
    /// lowered: every rule that is registered with the server.
    pub underconstrained: Vec<String>,
    /// The attributes and relations of the server's one domain.
    pub internal: Domain,
}

impl Context {
    /// The context's tables and its domain are in order.
    pub open spec fn wf(&self) -> bool {
        self.rules.wf() && self.internal.wf()
    }

    /// The rules that are registered, by name.
    pub open spec fn registered(&self) -> Map<Seq<char>, Rule> {
        Map::new(
            |name: Seq<char>| self.rules@.dom().contains(name) && self.rules@[name].name@ == name,
            |name: Seq<char>| self.rules@[name],
        )
    }
}

impl ImplContext for Context {
    open spec fn rules(&self) -> Map<Seq<char>, Rule> {
        self.registered()
    }

    open spec fn attributes(&self) -> Set<Seq<char>> {
        self.internal.attributes().dom()
    }

    open spec fn relations(&self) -> Set<Seq<char>> {
        self.internal.relations().dom()
    }

    open spec fn underconstrained(&self) -> Set<Seq<char>> {
        text_set(self.underconstrained@)
    }

    proof fn lemma_rules(&self) {
        let keys = self.rules.keys().to_set();
        vstd::seq_lib::seq_to_set_is_finite(self.rules.keys());
        assert(self.registered().dom().subset_of(keys));
        vstd::set_lib::lemma_len_subset(self.registered().dom(), keys);
    }

    fn rule(&self, name: &str) -> (rule: Option<&Rule>) {
        let wanted = String::from_str(name);
        match self.rules.get(name) {
            Some(rule) => {
                if rule.name == wanted {
                    Some(rule)
                } else {
                    None
                }
            },
            None => None,
        }
    }

    fn has_attribute(&self, name: &str) -> (known: bool) {
        self.internal.has_attribute(name)
    }

    fn has_relation(&self, name: &str) -> (known: bool) {
        self.internal.has_relation(name)
    }

    fn is_underconstrained(&self, name: &str) -> (recursive: bool) {
        contains(&self.underconstrained, name)
    }
}

/// What the server keeps of interest and of published relations.
#[verifier::reject_recursive_types(T)]
pub struct ServerState<T> {
    /// For each relation that somebody is interested in, the tokens of the clients.
    pub interests: Map<Seq<char>, Set<usize>>,
    /// For each published relation, the buttons that release what it imports.
    pub handles: Map<Seq<char>, Seq<ShutdownButton<T>>>,
    /// The published relations of the domain.
    pub relations: Map<Seq<char>, RelationView>,
}

/// The state after `client` has expressed interest in `name`.
pub open spec fn after_interest<T>(state: ServerState<T>, name: Seq<char>, client: usize)
    -> ServerState<T> {
    let tokens = if state.interests.dom().contains(name) {
        state.interests[name]
    } else {
        Set::empty()
    };
    ServerState { interests: state.interests.insert(name, tokens.insert(client)), ..state }
}

/// The state after the relation `name` has been compiled and published.
pub open spec fn after_publish<T>(
    state: ServerState<T>,
    name: Seq<char>,
    config: RelationConfig,
    buttons: Seq<ShutdownButton<T>>,
) -> ServerState<T> {
    ServerState {
        interests: state.interests,
        handles: state.handles.insert(name, buttons),
        relations: state.relations.insert(name, registered(config)),
    }
}

/// The state after `client` has withdrawn its interest in `name`: when no token is
/// left, the relation and its handle are gone.
pub open spec fn after_uninterest<T>(state: ServerState<T>, name: Seq<char>, client: usize)
    -> ServerState<T> {
    if !state.interests.dom().contains(name) {
        state
    } else {
        let remaining = state.interests[name].remove(client);
        if remaining =~= Set::empty() {
            ServerState {
                interests: state.interests.remove(name),
                handles: state.handles.remove(name),
                relations: state.relations.remove(name),
            }
        } else {
            ServerState { interests: state.interests.insert(name, remaining), ..state }
        }
    }
}

/// Interest followed by the withdrawal of it returns the server to the state before:
/// the tokens of other clients stay, and where there were none, the relation that was
/// compiled in between is released and removed again.
pub proof fn lemma_interest_uninterest<T>(
    state: ServerState<T>,
    name: Seq<char>,
    client: usize,
    config: RelationConfig,
    buttons: Seq<ShutdownButton<T>>,
)
    requires
        state.interests.dom().contains(name) ==> !state.interests[name].contains(client)
            && state.interests[name].len() > 0 && state.interests[name].finite(),
        !state.interests.dom().contains(name) ==> !state.handles.dom().contains(name)
            && !state.relations.dom().contains(name),
    ensures
        state.interests.dom().contains(name) ==> after_uninterest(
            after_interest(state, name, client),
            name,
            client,
        ) == state,
        !state.interests.dom().contains(name) ==> after_uninterest(
            after_publish(after_interest(state, name, client), name, config, buttons),
            name,
            client,
        ) == state,
{
    if state.interests.dom().contains(name) {
        let tokens = state.interests[name];
        assert(tokens.insert(client).remove(client) =~= tokens);
        assert(!(tokens =~= Set::empty())) by {
            if tokens =~= Set::empty() {
                assert(tokens.len() == 0);
            }
        }
        let between = after_interest(state, name, client);
        let back = after_uninterest(between, name, client);
        assert(back.interests =~= state.interests);
    } else {
        let between = after_publish(after_interest(state, name, client), name, config, buttons);
        assert(Set::<usize>::empty().insert(client).remove(client) =~= Set::<usize>::empty());
        let back = after_uninterest(between, name, client);
        assert(back.interests =~= state.interests);
        assert(back.handles =~= state.handles);
        assert(back.relations =~= state.relations);
    }
}

/// When the last interested client withdraws, nothing of the relation is left: no
/// token, no published relation, and no handle, so that none of its shutdown buttons
/// is live.
pub proof fn lemma_no_interest_no_buttons<T>(state: ServerState<T>, name: Seq<char>, client: usize)
    requires
        state.interests.dom().contains(name),
        state.interests[name].subset_of(Set::empty().insert(client)),
    ensures
        !after_uninterest(state, name, client).interests.dom().contains(name),
        !after_uninterest(state, name, client).handles.dom().contains(name),
        !after_uninterest(state, name, client).relations.dom().contains(name),
{
    assert(state.interests[name].remove(client) =~= Set::empty());
}

/// The tokens of a list of clients.
pub open spec fn token_set(tokens: Seq<usize>) -> Set<usize> {
    tokens.to_set()
}

/// Server context: the rules, the domain, who is interested in what, and the handles
/// to what has been compiled.
#[verifier::reject_recursive_types(T)]
pub struct Server<T> {
    /// Server configuration.
    pub config: Config,
    /// Implementation context.
    pub context: Context,
    /// Mapping from query names to interested client tokens.
    pub interests: Table<Vec<usize>>,
    /// Mapping from query names to their shutdown handles.
    pub shutdown_handles: Table<ShutdownHandle<T>>,
    /// The number of commands that have been sequenced.
    pub next_tx: u64,
}

/// The text of the error for a rule that is registered already.
pub open spec fn rule_exists(name: Seq<char>) -> Seq<char> {
    framed("A rule of name "@, name, " already exists."@)
}

/// The text of the error for an attempt to advance a domain by name.
pub open spec fn named_domains() -> Seq<char> {
    "Named domains are not yet supported."@
}

impl<T> Server<T> {
    /// Who is interested in what, the handles, and the published relations.
    pub open spec fn state(&self) -> ServerState<T> {
        ServerState {
            interests: Map::new(
                |name: Seq<char>| self.interests@.dom().contains(name),
                |name: Seq<char>| token_set(self.interests@[name]@),
            ),
            handles: Map::new(
                |name: Seq<char>| self.shutdown_handles@.dom().contains(name),
                |name: Seq<char>| self.shutdown_handles@[name].buttons(),
            ),
            relations: self.context.internal.relations(),
        }
    }

    /// The tables are in order, and whoever is listed as interested is listed once;
    /// no relation is listed without anybody interested in it. The relations that are
    /// published are those that the server has a handle to.
    pub open spec fn wf(&self) -> bool {
        &&& self.context.wf()
        &&& self.interests.wf()
        &&& self.shutdown_handles.wf()
        &&& forall|name: Seq<char>| #[trigger]
            self.interests@.dom().contains(name) ==> self.interests@[name]@.no_duplicates()
                && self.interests@[name]@.len() > 0
        &&& self.state().handles.dom() == self.state().relations.dom()
    }

    /// Creates a new server state from a configuration.
    pub fn new(config: Config) -> (server: Self)
        ensures
            server.wf(),
            server.config == config,
            server.next_tx == 0,
            server.context.internal.now() == 0,
            server.context.internal.attributes() == Map::<Seq<char>, AttributeView>::empty(),
            server.context.internal.sinks() == Set::<Seq<char>>::empty(),
            server.context.rules@ == Map::<Seq<char>, Rule>::empty(),
            server.context.registered() == Map::<Seq<char>, Rule>::empty(),
            server.context.underconstrained() == Set::<Seq<char>>::empty(),
            server.state().interests == Map::<Seq<char>, Set<usize>>::empty(),
            server.state().handles == Map::<Seq<char>, Seq<ShutdownButton<T>>>::empty(),
            server.state().relations == Map::<Seq<char>, RelationView>::empty(),
    {
        let server = Server {
            config,
            context: Context {
                rules: Table::new(),
                underconstrained: Vec::new(),
                internal: Domain::new(0),
            },
            interests: Table::new(),
            shutdown_handles: Table::new(),
            next_tx: 0,
        };
        assert(server.context.registered() =~= Map::<Seq<char>, Rule>::empty());
        proof {
            lemma_texts_empty();
        }
        assert(server.state().interests =~= Map::<Seq<char>, Set<usize>>::empty());
        assert(server.state().handles =~= Map::<Seq<char>, Seq<ShutdownButton<T>>>::empty());
        server
    }

    /// Counts a command that the sequencer has handed out and returns its number,
    /// the time to which the domain is advanced once the command is done.
    pub fn sequence(&mut self) -> (tx: u64)
        requires
            old(self).next_tx < u64::MAX,
        ensures
            tx == old(self).next_tx + 1,
            final(self).next_tx == tx,
            final(self).config == old(self).config,
            final(self).context == old(self).context,
            final(self).interests == old(self).interests,
            final(self).shutdown_handles == old(self).shutdown_handles,
    {
        self.next_tx = self.next_tx + 1;
        self.next_tx
    }

    /// Registers a rule under its name, as one to wrap in a recursive variable when
    /// it is lowered. The rule is not compiled.
    ///
    /// Fails with a conflict when a rule of that name is registered.
    pub fn register(&mut self, rule: Rule) -> (result: Result<(), Error>)
        requires
            old(self).wf(),
        ensures
            final(self).wf(),
            final(self).state() == old(self).state(),
            final(self).context.internal == old(self).context.internal,
            final(self).config == old(self).config,
            final(self).next_tx == old(self).next_tx,
            result is Err == old(self).context.rules@.dom().contains(rule.name@),
            result matches Err(error) ==> {
                &&& error.says(conflict(), rule_exists(rule.name@))
                &&& final(self).context.rules == old(self).context.rules
                &&& final(self).context.registered() == old(self).context.registered()
                &&& final(self).context.underconstrained() == old(self).context.underconstrained()
            },
            result is Ok ==> {
                &&& final(self).context.rules@ == old(self).context.rules@.insert(rule.name@, rule)
                &&& final(self).context.registered() == old(self).context.registered().insert(
                    rule.name@,
                    rule,
                )
                &&& final(self).context.underconstrained() == old(
                    self,
                ).context.underconstrained().insert(rule.name@)
            },
    {
        if self.context.rules.contains_key(rule.name.as_str()) {
            Err(Error::conflict(frame("A rule of name ", rule.name.as_str(), " already exists.")))
        } else {
            let name = rule.name.clone();
            proof {
                lemma_texts_push(self.context.underconstrained@, name);
            }
            self.context.underconstrained.push(rule.name.clone());
            self.context.rules.insert(name, rule);
            assert(self.context.registered() =~= old(self).context.registered().insert(
                rule.name@,
                rule,
            ));
            assert(self.state().interests =~= old(self).state().interests);
            assert(self.state().handles =~= old(self).state().handles);
            Ok(())
        }
    }

    /// Records the interest of `client` in the relation `name`. Returns whether the
    /// relation has to be compiled and published: it is not among the published
    /// relations.
    pub fn interest(&mut self, name: &str, client: usize) -> (compile: bool)
        requires
            old(self).wf(),
        ensures
            final(self).wf(),
            final(self).state() == after_interest(old(self).state(), name@, client),
            final(self).context == old(self).context,
            final(self).config == old(self).config,
            final(self).next_tx == old(self).next_tx,
            compile == !old(self).state().relations.dom().contains(name@),
    {
        let mut tokens = match self.interests.remove(name) {
            Some(tokens) => tokens,
            None => Vec::new(),
        };
        let ghost before = tokens@;
        if !holds_token(&tokens, client) {
            tokens.push(client);
        }
        proof {
            assert(token_set(tokens@) =~= token_set(before).insert(client)) by {
                assert forall|token: usize| token_set(tokens@).contains(token) == token_set(
                    before,
                ).insert(client).contains(token) by {
                    if before.contains(token) {
                        let i = choose|i: int| 0 <= i < before.len() && before[i] == token;
                        assert(tokens@[i] == token);
                    }
                    if tokens@.contains(token) {
                        let i = choose|i: int| 0 <= i < tokens@.len() && tokens@[i] == token;
                        if i < before.len() {
                            assert(before[i] == token);
                        }
                    }
                    if token == client && !before.contains(client) {
                        assert(tokens@[before.len() as int] == client);
                    }
                }
            }
            assert(token_set(Seq::<usize>::empty()) =~= Set::<usize>::empty());
        }
        self.interests.insert(String::from_str(name), tokens);
        assert(self.state().interests =~= after_interest(
            old(self).state(),
            name@,
            client,
        ).interests);
        assert(self.state().handles =~= old(self).state().handles);
        self.context.internal.relation(name).is_none()
    }

    /// Records that the relation `name` has been compiled: keeps the handle to it,
    /// and lists it among the published relations of the domain. A handle that was
    /// kept for the name is shut down.
    pub fn publish(&mut self, name: &str, config: RelationConfig, handle: ShutdownHandle<T>)
        requires
            old(self).wf(),
        ensures
            final(self).wf(),
            final(self).state() == after_publish(
                old(self).state(),
                name@,
                config,
                handle.buttons(),
            ),
            final(self).context.rules == old(self).context.rules,
            final(self).context.underconstrained == old(self).context.underconstrained,
            final(self).context.internal.now() == old(self).context.internal.now(),
            final(self).context.internal.attributes() == old(self).context.internal.attributes(),
            final(self).context.internal.sinks() == old(self).context.internal.sinks(),
            final(self).config == old(self).config,
            final(self).next_tx == old(self).next_tx,
    {
        match self.shutdown_handles.insert(String::from_str(name), handle) {
            Some(replaced) => {
                let mut replaced = replaced;
                replaced.shutdown();
            },
            None => {},
        }
        self.context.internal.register_arrangement(String::from_str(name), config);
        assert(self.state().handles =~= old(self).state().handles.insert(
            name@,
            handle.buttons(),
        ));
        assert(self.state().interests =~= old(self).state().interests);
    }

    /// Withdraws the interest of `client` in the relation `name`. When nobody is
    /// interested any more, the handle to the relation is shut down, which releases
    /// every trace that the relation imports, and the relation is removed.
    pub fn uninterest(&mut self, name: &str, client: usize)
        requires
            old(self).wf(),
        ensures
            final(self).wf(),
            final(self).state() == after_uninterest(old(self).state(), name@, client),
            final(self).context.rules == old(self).context.rules,
            final(self).context.underconstrained == old(self).context.underconstrained,
            final(self).context.internal.now() == old(self).context.internal.now(),
            final(self).context.internal.attributes() == old(self).context.internal.attributes(),
            final(self).context.internal.sinks() == old(self).context.internal.sinks(),
            final(self).config == old(self).config,
            final(self).next_tx == old(self).next_tx,
    {
        let tokens = match self.interests.remove(name) {
            Some(tokens) => tokens,
            None => {
                assert(self.state().interests =~= old(self).state().interests);
                assert(self.state().handles =~= old(self).state().handles);
                return ;
            },
        };
        let ghost before = tokens@;
        let remaining = without_token(tokens, client);
        proof {
            assert(token_set(remaining@) =~= token_set(before).remove(client));
            if remaining@.len() > 0 {
                assert(token_set(remaining@).contains(remaining@[0]));
            }
        }
        if remaining.len() == 0 {
            match self.shutdown_handles.remove(name) {
                Some(handle) => {
                    let mut handle = handle;
                    handle.shutdown();
                },
                None => {},
            }
            self.context.internal.remove_arrangement(name);
            assert(self.state().interests =~= old(self).state().interests.remove(name@));
            assert(self.state().handles =~= old(self).state().handles.remove(name@));
        } else {
            self.interests.insert(String::from_str(name), remaining);
            assert(self.state().interests =~= old(self).state().interests.insert(
                name@,
                token_set(before).remove(client),
            ));
            assert(self.state().handles =~= old(self).state().handles);
        }
    }

    /// Transacts data into the domain, on the worker that owns the command: only the
    /// owner introduces new inputs. On every other worker nothing is dispatched.
    pub fn transact(&self, tx_data: Vec<TxData>, owner: usize, worker: usize) -> (result: Result<
        Vec<Update>,
        Rejected,
    >)
        requires
            self.wf(),
        ensures
            owner == worker ==> self.context.internal.transacted(tx_data@, result),
            owner != worker ==> (result matches Ok(updates) && updates@.len() == 0),
    {
        if owner == worker {
            self.context.internal.transact(tx_data)
        } else {
            Ok(Vec::new())
        }
    }

    /// Advances the server's domain to `next`. Domains other than it cannot be named.
    ///
    /// Fails as unsupported when a name is given, and with a conflict when `next` is
    /// before the current time.
    pub fn advance_domain(&mut self, name: Option<String>, next: Time) -> (result: Result<
        (),
        Error,
    >)
        requires
            old(self).wf(),
            name is None && next > old(self).context.internal.now() ==> old(
                self,
            ).context.internal.slack_fits(next),
        ensures
            final(self).wf(),
            final(self).context.rules == old(self).context.rules,
            final(self).context.underconstrained == old(self).context.underconstrained,
            final(self).interests == old(self).interests,
            final(self).shutdown_handles == old(self).shutdown_handles,
            final(self).config == old(self).config,
            final(self).next_tx == old(self).next_tx,
            result is Ok == (name is None && next >= old(self).context.internal.now()),
            result matches Err(error) ==> if name is Some {
                error.says(unsupported(), named_domains())
            } else {
                error.says(conflict(), rewind(old(self).context.internal.now(), next))
            },
            name is Some ==> final(self).context.internal == old(self).context.internal,
            name is None ==> old(self).context.internal.advanced(
                final(self).context.internal,
                next,
            ),
    {
        match name {
            Some(_) => Err(
                Error::unsupported(String::from_str("Named domains are not yet supported.")),
            ),
            None => {
                let result = self.context.internal.advance_to(next);
                let ghost before = old(self).context.internal.relations().dom();
                assert(self.context.internal.relations().dom() =~= before);
                result
            },
        }
    }
}

/// Whether `client` is among the tokens.
fn holds_token(tokens: &Vec<usize>, client: usize) -> (found: bool)
    ensures
        found == tokens@.contains(client),
{
    let mut i: usize = 0;
    while i < tokens.len()
        invariant
            i <= tokens.len(),
            forall|j: int| 0 <= j < i ==> tokens@[j] != client,
        decreases tokens.len() - i,
    {
        if tokens[i] == client {
            return true;
        }
        i += 1;
    }
    false
}

/// The tokens other than `client`, in their order.
fn without_token(tokens: Vec<usize>, client: usize) -> (remaining: Vec<usize>)
    requires
        tokens@.no_duplicates(),
    ensures
        remaining@.no_duplicates(),
        token_set(remaining@) == token_set(tokens@).remove(client),
{
    let mut remaining: Vec<usize> = Vec::new();
    let mut i: usize = 0;
    while i < tokens.len()
        invariant
            i <= tokens.len(),
            tokens@.no_duplicates(),
            remaining@.no_duplicates(),
            forall|token: usize|
                #![trigger remaining@.contains(token)]
                remaining@.contains(token) <==> token != client && tokens@.subrange(
                    0,
                    i as int,
                ).contains(token),
        decreases tokens.len() - i,
    {
        let token = tokens[i];
        let ghost shorter = tokens@.subrange(0, i as int);
        let ghost longer = tokens@.subrange(0, i + 1);
        let ghost kept = remaining@;
        if token != client {
            remaining.push(token);
        }
        proof {
            assert(longer =~= shorter.push(token));
            assert forall|other: usize| longer.contains(other) == (shorter.contains(other)
                || other == token) by {
                if shorter.contains(other) {
                    let k = choose|k: int| 0 <= k < shorter.len() && shorter[k] == other;
                    assert(longer[k] == other);
                }
                if longer.contains(other) {
                    let k = choose|k: int| 0 <= k < longer.len() && longer[k] == other;
                    if k < i {
                        assert(shorter[k] == other);
                    }
                }
                assert(longer[i as int] == token);
            }
            assert(!shorter.contains(token)) by {
                if shorter.contains(token) {
                    let k = choose|k: int| 0 <= k < shorter.len() && shorter[k] == token;
                    assert(tokens@[k] == token);
                    assert(tokens@[i as int] == token);
                }
            }
            if token != client {
                assert(!kept.contains(token));
                assert(remaining@ =~= kept.push(token));
                assert forall|other: usize| remaining@.contains(other) == (kept.contains(other)
                    || other == token) by {
                    if kept.contains(other) {
                        let k = choose|k: int| 0 <= k < kept.len() && kept[k] == other;
                        assert(remaining@[k] == other);
                    }
                    if remaining@.contains(other) {
                        let k = choose|k: int| 0 <= k < remaining@.len() && remaining@[k] == other;
                        if k < kept.len() {
                            assert(kept[k] == other);
                        }
                    }
                    assert(remaining@[kept.len() as int] == token);
                }
            }
            assert forall|other: usize|
                #![trigger remaining@.contains(other)]
                remaining@.contains(other) <==> other != client && longer.contains(other) by {
                assert(kept.contains(other) <==> other != client && shorter.contains(other));
            }
        }
        i += 1;
        assert(tokens@.subrange(0, i as int) == longer);
    }
    proof {
        assert(tokens@.subrange(0, tokens@.len() as int) =~= tokens@);
        assert(token_set(remaining@) =~= token_set(tokens@).remove(client));
    }
    remaining
}

} // verus!
