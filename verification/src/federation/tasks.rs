//! A federation inside one process: who is told what, and what is made of
//! how the parts end.
use vstd::prelude::*;
use crate::federation::period::Period;
use crate::federation::report::{ClientOutcome, ClientProgress, Completed, Fault, FederationError, Progress};
use crate::node::bridge::ConnectionMode;
use crate::node::settings::{ClientTls, NodeConfig, PLACEHOLDER_AUTH_TOKEN};
use crate::node::startup_guard::{ClientAppKind, RuntimeMode};
use crate::privacy::mechanism::GaussianClippingPrivacy;
use crate::text::{decimal, decimal_text, texts};

verus! {

/// How long to wait before the server is asked again whether it is well.
pub const HEALTH_RETRY_MILLIS: u64 = 25;

/// What every node in the federation shares.
///
/// The three things a federation decides for itself, the server's address,
/// the identity and the local address, are not among them.
#[derive(Debug)]
pub struct NodeTemplate {
    /// How strict the deployment is.
    pub mode: RuntimeMode,
    /// Whether the placeholder client is permitted.
    pub allow_stub_client: bool,
    /// Which kind of client will connect to each node.
    pub client_app_kind: ClientAppKind,
    /// How a node learns of its tasks.
    pub connection_mode: ConnectionMode,
    /// The transform of updates that leave a node.
    pub local_privacy: Option<GaussianClippingPrivacy>,
    /// The seed of its noise.
    pub privacy_seed: Option<u64>,
    /// The credential every node shows at registration.
    pub auth_token: String,
    /// How the upstream hop is secured.
    pub client_tls: ClientTls,
}

impl NodeTemplate {
    /// Whether nothing is set but what a node in the same process needs: a
    /// real client, tasks on request, no transform, the placeholder
    /// credential, which an open server never looks at, and no TLS.
    pub open spec fn is_plain(self) -> bool {
        &&& self.mode == RuntimeMode::Research
        &&& !self.allow_stub_client
        &&& self.client_app_kind == ClientAppKind::Real
        &&& self.connection_mode == ConnectionMode::Pull
        &&& self.local_privacy is None
        &&& self.privacy_seed is None
        &&& self.auth_token@ == PLACEHOLDER_AUTH_TOKEN@
        &&& self.client_tls is Plaintext
    }
}

impl Default for NodeTemplate {
    fn default() -> (r: NodeTemplate)
        ensures
            r.is_plain(),
    {
        NodeTemplate {
            mode: RuntimeMode::Research,
            allow_stub_client: false,
            client_app_kind: ClientAppKind::Real,
            connection_mode: ConnectionMode::Pull,
            local_privacy: None,
            privacy_seed: None,
            auth_token: PLACEHOLDER_AUTH_TOKEN.to_owned(),
            client_tls: ClientTls::Plaintext,
        }
    }
}

/// How to run the federation.
#[derive(Debug)]
pub struct FederationConfig {
    /// How many nodes to run, and how many clients.
    pub nodes: usize,
    /// What every node shares.
    pub node: NodeTemplate,
    /// What every identity starts with.
    pub client_id_prefix: String,
    /// How long the server may take to answer that it is well.
    pub startup_timeout: Period,
    /// How long the parts may take to stop.
    pub shutdown_grace: Period,
    /// Rounds each client completes.
    pub rounds: usize,
    /// How long a client waits before it asks again for a round.
    pub client_poll_interval: Period,
    /// The deadline of the whole run.
    pub timeout: Period,
}

impl Default for FederationConfig {
    fn default() -> (r: FederationConfig)
        ensures
            r.nodes == 2,
            r.node.is_plain(),
            r.client_id_prefix@ == "client"@,
            r.startup_timeout == (Period { secs: 30, nanos: 0 }),
            r.shutdown_grace == (Period { secs: 2, nanos: 0 }),
            r.rounds == 1,
            r.client_poll_interval == (Period { secs: 0, nanos: 5_000_000 }),
            r.timeout == (Period { secs: 300, nanos: 0 }),
    {
        FederationConfig {
            nodes: 2,
            node: NodeTemplate::default(),
            client_id_prefix: "client".to_owned(),
            startup_timeout: Period::from_secs(30),
            shutdown_grace: Period::from_secs(2),
            rounds: 1,
            client_poll_interval: Period::from_millis(5),
            timeout: Period::from_secs(300),
        }
    }
}

/// The identity of participant `i`.
pub open spec fn identity(prefix: Seq<char>, i: nat) -> Seq<char> {
    prefix + "-"@ + decimal(i)
}

/// Two numbers are written alike only where they are the same.
pub proof fn lemma_decimal_injective(a: nat, b: nat)
    requires
        decimal(a) == decimal(b),
    ensures
        a == b,
    decreases a,
{
    let x = decimal(a);
    let y = decimal(b);
    lemma_decimal_length(a);
    lemma_decimal_length(b);
    if a < 10 {
        assert(x.len() == 1);
        assert(b < 10);
        assert(x[0] == y[0]);
    } else {
        assert(b >= 10);
        assert(x.drop_last() =~= decimal(a / 10));
        assert(y.drop_last() =~= decimal(b / 10));
        lemma_decimal_injective(a / 10, b / 10);
        assert(x.last() == y.last());
    }
}

proof fn lemma_decimal_length(a: nat)
    ensures
        decimal(a).len() >= 1,
        decimal(a).len() == 1 <==> a < 10,
    decreases a,
{
    if a >= 10 {
        lemma_decimal_length(a / 10);
    }
}

/// No two participants have the same identity.
pub proof fn identities_are_distinct(prefix: Seq<char>, i: nat, j: nat)
    requires
        i != j,
    ensures
        identity(prefix, i) != identity(prefix, j),
{
    if identity(prefix, i) == identity(prefix, j) {
        let head = (prefix + "-"@).len() as int;
        assert(identity(prefix, i).skip(head) =~= decimal(i));
        assert(identity(prefix, j).skip(head) =~= decimal(j));
        lemma_decimal_injective(i, j);
    }
}

/// A running server and its nodes, by their addresses.
#[derive(Debug)]
pub struct Federation {
    grpc_addr: String,
    http_addr: String,
    node_addrs: Vec<String>,
    client_ids: Vec<String>,
    shutdown_grace: Period,
    client_poll_interval: Period,
}

/// What a client is told.
#[derive(Debug)]
pub struct ClientRun {
    /// Where its node listens.
    pub address: String,
    /// Its identity.
    pub client_id: String,
    /// Rounds it completes.
    pub rounds: usize,
    /// How long it waits before it asks again for a round.
    pub poll_interval: Period,
}

/// What a [`Federation`] holds.
pub struct Layout {
    pub grpc: Seq<char>,
    pub http: Seq<char>,
    pub nodes: Seq<Seq<char>>,
    pub ids: Seq<Seq<char>>,
    pub shutdown_grace: Period,
    pub poll_interval: Period,
}

/// `addr` as a link.
pub open spec fn link(addr: Seq<char>) -> Seq<char> {
    "http://"@ + addr
}

fn link_to(addr: &str) -> (r: String)
    ensures
        r@ == link(addr@),
{
    "http://".to_owned().concat(addr)
}

impl View for Federation {
    type V = Layout;

    closed spec fn view(&self) -> Layout {
        Layout {
            grpc: self.grpc_addr@,
            http: self.http_addr@,
            nodes: texts(self.node_addrs@),
            ids: texts(self.client_ids@),
            shutdown_grace: self.shutdown_grace,
            poll_interval: self.client_poll_interval,
        }
    }
}

impl Layout {
    /// Whether every node has an identity.
    pub open spec fn wf(self) -> bool {
        self.nodes.len() == self.ids.len()
    }
}

/// The identities of the first `n` participants.
pub open spec fn identities(prefix: Seq<char>, n: nat) -> Seq<Seq<char>> {
    Seq::new(n, |i: int| identity(prefix, i as nat))
}

fn make_identities(prefix: &str, n: usize) -> (r: Vec<String>)
    ensures
        texts(r@) == identities(prefix@, n as nat),
{
    let mut out: Vec<String> = Vec::new();
    let mut i: usize = 0;
    while i < n
        invariant
            i <= n,
            out.len() == i,
            forall|k: int| 0 <= k < i ==> (#[trigger] out@[k])@ == identity(prefix@, k as nat),
        decreases n - i,
    {
        out.push(prefix.to_owned().concat("-").concat(decimal_text(i as u64).as_str()));
        i = i + 1;
    }
    proof {
        assert(texts(out@) =~= identities(prefix@, n as nat));
    }
    out
}

/// What the listener of node `i` is called.
pub fn node_listener_name(i: usize) -> (r: String)
    ensures
        r@ == "node "@ + decimal(i as nat),
{
    "node ".to_owned().concat(decimal_text(i as u64).as_str())
}

impl FederationConfig {
    /// The configuration for clients that are supplied in code, which are
    /// therefore not the placeholder.
    pub fn with_real_clients(self) -> (r: FederationConfig)
        ensures
            r == (FederationConfig {
                node: NodeTemplate { client_app_kind: ClientAppKind::Real, ..self.node },
                ..self
            }),
    {
        let mut out: FederationConfig = self;
        out.node.client_app_kind = ClientAppKind::Real;
        out
    }
}

impl Federation {
    /// Lays out a federation whose listeners are bound at these addresses.
    pub fn lay_out(
        config: &FederationConfig,
        grpc_addr: String,
        http_addr: String,
        node_addrs: Vec<String>,
    ) -> (r: Federation)
        requires
            node_addrs.len() == config.nodes,
        ensures
            r@.wf(),
            r@ == (Layout {
                grpc: grpc_addr@,
                http: http_addr@,
                nodes: texts(node_addrs@),
                ids: identities(config.client_id_prefix@, config.nodes as nat),
                shutdown_grace: config.shutdown_grace,
                poll_interval: config.client_poll_interval,
            }),
    {
        Federation {
            grpc_addr,
            http_addr,
            node_addrs,
            client_ids: make_identities(config.client_id_prefix.as_str(), config.nodes),
            shutdown_grace: config.shutdown_grace,
            client_poll_interval: config.client_poll_interval,
        }
    }

    /// What node `index` is told.
    pub fn node_config(&self, node: &NodeTemplate, index: usize) -> (r: NodeConfig)
        requires
            self@.wf(),
            index < self@.nodes.len(),
        ensures
            r.mode == node.mode,
            r.allow_stub_client == node.allow_stub_client,
            r.client_app_kind == node.client_app_kind,
            r.server_addr@ == link(self@.grpc),
            r.client_id@ == self@.ids[index as int],
            r.local_addr@ == self@.nodes[index as int],
            r.connection_mode == node.connection_mode,
            r.local_privacy == node.local_privacy,
            r.privacy_seed == node.privacy_seed,
            r.auth_token@ == node.auth_token@,
            r.client_tls == node.client_tls,
    {
        NodeConfig {
            mode: node.mode,
            allow_stub_client: node.allow_stub_client,
            client_app_kind: node.client_app_kind,
            server_addr: link_to(self.grpc_addr.as_str()),
            client_id: self.client_ids[index].clone(),
            local_addr: self.node_addrs[index].clone(),
            connection_mode: node.connection_mode,
            local_privacy: node.local_privacy,
            privacy_seed: node.privacy_seed,
            auth_token: node.auth_token.clone(),
            client_tls: node.client_tls.duplicate(),
        }
    }

    /// The server's transport address.
    pub fn server_grpc_addr(&self) -> (r: &str)
        ensures
            r@ == self@.grpc,
    {
        self.grpc_addr.as_str()
    }

    /// The same address as a link.
    pub fn server_grpc_url(&self) -> (r: String)
        ensures
            r@ == link(self@.grpc),
    {
        link_to(self.grpc_addr.as_str())
    }

    /// The server's admin address.
    pub fn server_http_addr(&self) -> (r: &str)
        ensures
            r@ == self@.http,
    {
        self.http_addr.as_str()
    }

    /// Every node's address, in order.
    pub fn node_addrs(&self) -> (r: &Vec<String>)
        ensures
            texts(r@) == self@.nodes,
    {
        &self.node_addrs
    }

    /// Every node's address as a link, in order.
    pub fn node_urls(&self) -> (r: Vec<String>)
        ensures
            texts(r@) == Seq::new(self@.nodes.len(), |i: int| link(self@.nodes[i])),
    {
        let mut out: Vec<String> = Vec::new();
        let mut i: usize = 0;
        while i < self.node_addrs.len()
            invariant
                i <= self.node_addrs.len(),
                out.len() == i,
                forall|k: int| 0 <= k < i ==> (#[trigger] out@[k])@ == link(self@.nodes[k]),
            decreases self.node_addrs.len() - i,
        {
            out.push(link_to(self.node_addrs[i].as_str()));
            i = i + 1;
        }
        proof {
            assert(texts(out@) =~= Seq::new(self@.nodes.len(), |i: int| link(self@.nodes[i])));
        }
        out
    }

    /// The identity of node `index`, which the client attached to it presents
    /// too.
    pub fn client_id(&self, index: usize) -> (r: &str)
        requires
            index < self@.ids.len(),
        ensures
            r@ == self@.ids[index as int],
    {
        self.client_ids[index].as_str()
    }

    /// What the client of node `index` is told.
    pub fn client_config(&self, index: usize, rounds: usize) -> (r: ClientRun)
        requires
            self@.wf(),
            index < self@.nodes.len(),
        ensures
            r.address@ == link(self@.nodes[index as int]),
            r.client_id@ == self@.ids[index as int],
            r.rounds == rounds,
            r.poll_interval == self@.poll_interval,
    {
        ClientRun {
            address: link_to(self.node_addrs[index].as_str()),
            client_id: self.client_ids[index].clone(),
            rounds,
            poll_interval: self.client_poll_interval,
        }
    }

    /// How long the parts may take to stop.
    pub fn shutdown_grace(&self) -> (r: Period)
        ensures
            r == self@.shutdown_grace,
    {
        self.shutdown_grace
    }

    /// The clients that had not finished, and how far each got.
    pub fn unfinished(&self, finished: &[bool], attempted: &[usize], rounds: usize) -> (r: Vec<
        ClientProgress,
    >)
        requires
            finished@.len() == self@.ids.len(),
            attempted@.len() == self@.ids.len(),
        ensures
            Seq::new(r@.len(), |i: int| r@[i]@) == unfinished_of(
                self@.ids,
                finished@,
                attempted@,
                rounds as nat,
                finished@.len() as int,
            ),
    {
        let mut out: Vec<ClientProgress> = Vec::new();
        let mut i: usize = 0;
        proof {
            assert(Seq::new(0, |i: int| out@[i]@) =~= Seq::<Progress>::empty());
        }
        while i < finished.len()
            invariant
                i <= finished.len(),
                finished@.len() == self@.ids.len(),
                attempted@.len() == self@.ids.len(),
                Seq::new(out@.len(), |i: int| out@[i]@) == unfinished_of(
                    self@.ids,
                    finished@,
                    attempted@,
                    rounds as nat,
                    i as int,
                ),
            decreases finished.len() - i,
        {
            if !finished[i] {
                let ghost before = Seq::new(out@.len(), |i: int| out@[i]@);
                let one: ClientProgress = ClientProgress {
                    index: i,
                    client_id: self.client_ids[i].clone(),
                    rounds_attempted: attempted[i],
                    rounds_requested: rounds,
                };
                out.push(one);
                proof {
                    assert(Seq::new(out@.len(), |i: int| out@[i]@) =~= before.push(one@));
                }
            }
            i = i + 1;
        }
        out
    }
}

impl Federation {
    /// What the run comes to. `collected` is what its clients came to, or
    /// nothing where the deadline came first: then the run has stalled,
    /// whoever had finished by then.
    pub fn settle(
        &self,
        collected: Option<Result<Vec<ClientOutcome>, FederationError>>,
        finished: &[bool],
        attempted: &[usize],
        timeout: Period,
        total: usize,
        rounds: usize,
    ) -> (r: Result<FederationSummary, FederationError>)
        requires
            finished@.len() == self@.ids.len(),
            attempted@.len() == self@.ids.len(),
        ensures
            match collected {
                None => r is Err && r->Err_0@ == (Fault::Stalled {
                    timeout,
                    total: total as nat,
                    unfinished: unfinished_of(
                        self@.ids,
                        finished@,
                        attempted@,
                        rounds as nat,
                        finished@.len() as int,
                    ),
                }),
                Some(Err(e)) => r is Err && r->Err_0 == e,
                Some(Ok(clients)) => r is Ok && r->Ok_0.clients == clients
                    && r->Ok_0.server_grpc_addr@ == self@.grpc
                    && r->Ok_0.server_http_addr@ == self@.http,
            },
    {
        match collected {
            None => Err(
                FederationError::Stalled {
                    timeout,
                    total,
                    unfinished: self.unfinished(finished, attempted, rounds),
                },
            ),
            Some(Err(error)) => Err(error),
            Some(Ok(clients)) => Ok(
                FederationSummary {
                    clients,
                    server_grpc_addr: self.server_grpc_addr().to_owned(),
                    server_http_addr: self.server_http_addr().to_owned(),
                },
            ),
        }
    }
}

/// The clients among the first `k` that had not finished, and how far each
/// got.
pub open spec fn unfinished_of(
    ids: Seq<Seq<char>>,
    finished: Seq<bool>,
    attempted: Seq<usize>,
    rounds: nat,
    k: int,
) -> Seq<Progress>
    decreases k,
{
    if k <= 0 {
        Seq::empty()
    } else {
        let before = unfinished_of(ids, finished, attempted, rounds, k - 1);
        if finished[k - 1] {
            before
        } else {
            before.push(
                Progress {
                    index: (k - 1) as nat,
                    client_id: ids[k - 1],
                    attempted: attempted[k - 1] as nat,
                    requested: rounds,
                },
            )
        }
    }
}

/// How a part of the federation ended.
#[derive(Debug)]
pub enum ComponentEnd {
    /// The server stopped, with an error where there was one.
    Server(Option<String>),
    /// A node stopped, with an error where there was one.
    Node { index: usize, client_id: String, error: Option<String> },
    /// A part was cancelled.
    Cancelled { source: String },
    /// A part panicked.
    Panicked { source: String },
}

/// What is seen while the server starts.
#[derive(Debug)]
pub enum StartupEvent {
    /// A part ended; none where there is none left.
    Ended(Option<ComponentEnd>),
    /// The time is over.
    Deadline,
    /// The server was asked whether it is well, and this was the answer.
    Health(bool),
}

/// What is made of it.
#[derive(Debug)]
pub enum StartupVerdict {
    /// The server is up.
    Serving,
    /// The server is asked again after this many milliseconds.
    Again(u64),
    /// The federation does not start; where `cancel` is set, what runs is
    /// told to stop.
    Failed { error: FederationError, cancel: bool },
}

/// The fault that a part's end is while the server starts. A server that
/// ends without an error has not answered, which is all that can be said.
pub open spec fn startup_fault(end: Option<ComponentEnd>, addr: Seq<char>, timeout: Period) -> Fault {
    match end {
        Some(ComponentEnd::Server(Some(source))) => Fault::Server { source: source@ },
        Some(ComponentEnd::Node { index, client_id, error: Some(source) }) => Fault::Node {
            index: index as nat,
            client_id: client_id@,
            source: source@,
        },
        Some(ComponentEnd::Cancelled { source }) => Fault::Panic {
            what: "server"@,
            source: source@,
        },
        Some(ComponentEnd::Panicked { source }) => Fault::Panic {
            what: "server"@,
            source: source@,
        },
        _ => Fault::ServerStartupTimeout { addr, timeout },
    }
}

/// Decides on the start of the server.
pub fn await_server(event: StartupEvent, addr: &str, timeout: Period) -> (r: StartupVerdict)
    ensures
        match event {
            StartupEvent::Health(true) => r is Serving,
            StartupEvent::Health(false) => r == StartupVerdict::Again(HEALTH_RETRY_MILLIS),
            StartupEvent::Deadline => r is Failed && r->cancel && r->error@
                == (Fault::ServerStartupTimeout { addr: addr@, timeout }),
            StartupEvent::Ended(end) => r is Failed && !r->cancel && r->error@ == startup_fault(
                end,
                addr@,
                timeout,
            ),
        },
{
    match event {
        StartupEvent::Health(true) => StartupVerdict::Serving,
        StartupEvent::Health(false) => StartupVerdict::Again(HEALTH_RETRY_MILLIS),
        StartupEvent::Deadline => StartupVerdict::Failed {
            error: FederationError::ServerStartupTimeout { addr: addr.to_owned(), timeout },
            cancel: true,
        },
        StartupEvent::Ended(end) => {
            let error: FederationError = match end {
                Some(ComponentEnd::Server(Some(source))) => FederationError::Server { source },
                Some(ComponentEnd::Node { index, client_id, error: Some(source) }) =>
                    FederationError::Node { index, client_id, source },
                Some(ComponentEnd::Cancelled { source }) => FederationError::Panic {
                    what: "server".to_owned(),
                    source,
                },
                Some(ComponentEnd::Panicked { source }) => FederationError::Panic {
                    what: "server".to_owned(),
                    source,
                },
                _ => FederationError::ServerStartupTimeout { addr: addr.to_owned(), timeout },
            };
            StartupVerdict::Failed { error, cancel: false }
        },
    }
}

/// The fault that a part's end is during the shutdown, where it is one.
pub open spec fn shutdown_fault(end: ComponentEnd) -> Option<Fault> {
    match end {
        ComponentEnd::Server(Some(source)) => Some(Fault::Server { source: source@ }),
        ComponentEnd::Node { index, client_id, error: Some(source) } => Some(
            Fault::Node { index: index as nat, client_id: client_id@, source: source@ },
        ),
        ComponentEnd::Panicked { source } => Some(
            Fault::Panic { what: "federation"@, source: source@ },
        ),
        _ => None,
    }
}

/// The first fault of a shutdown. Every part is waited for even after a
/// fault is found.
#[derive(Debug)]
pub struct Drain {
    first: Option<FederationError>,
}

/// The fault of an optional error.
pub open spec fn fault_of(e: Option<FederationError>) -> Option<Fault> {
    match e {
        Some(e) => Some(e@),
        None => None,
    }
}

impl Drain {
    /// The fault found so far.
    pub closed spec fn found(self) -> Option<Fault> {
        fault_of(self.first)
    }

    /// Nothing has ended yet.
    pub fn new() -> (r: Drain)
        ensures
            r.found() is None,
    {
        Drain { first: None }
    }

    /// Takes the end of one part.
    pub fn take(&mut self, end: ComponentEnd)
        ensures
            final(self).found() == match old(self).found() {
                Some(f) => Some(f),
                None => shutdown_fault(end),
            },
    {
        let error: Option<FederationError> = match end {
            ComponentEnd::Server(Some(source)) => Some(FederationError::Server { source }),
            ComponentEnd::Node { index, client_id, error: Some(source) } => Some(
                FederationError::Node { index, client_id, source },
            ),
            ComponentEnd::Panicked { source } => Some(
                FederationError::Panic { what: "federation".to_owned(), source },
            ),
            _ => None,
        };
        if self.first.is_none() {
            self.first = error;
        }
    }

    /// What the shutdown comes to once every part has ended, or once the grace
    /// has run out and what is left was aborted: the first fault found.
    pub fn result(self) -> (r: Result<(), FederationError>)
        ensures
            r is Err <==> self.found() is Some,
            r is Err ==> Some(r->Err_0@) == self.found(),
    {
        match self.first {
            Some(error) => Err(error),
            None => Ok(()),
        }
    }
}

/// How a client ended.
#[derive(Debug)]
pub enum ClientEnd {
    /// It completed this many rounds.
    Completed { index: usize, client_id: String, rounds: usize },
    /// It returned an error.
    Failed { index: usize, client_id: String, source: String },
    /// Its task panicked.
    Panicked { source: String },
}

/// What the clients did, in the order of their indices.
#[derive(Debug)]
pub struct Collection {
    outcomes: Vec<ClientOutcome>,
}

/// `list` with `one` behind the last entry whose index is not above its own.
pub open spec fn placed(list: Seq<Completed>, one: Completed) -> Seq<Completed>
    decreases list.len(),
{
    if list.len() == 0 || list.last().index <= one.index {
        list.push(one)
    } else {
        placed(list.drop_last(), one).push(list.last())
    }
}

/// Whether the indices never fall.
pub open spec fn in_index_order(list: Seq<Completed>) -> bool {
    forall|i: int, j: int| 0 <= i < j < list.len() ==> list[i].index <= list[j].index
}

proof fn lemma_placed(list: Seq<Completed>, one: Completed, k: int)
    requires
        0 <= k <= list.len(),
        k > 0 ==> list[k - 1].index <= one.index,
        forall|i: int| k <= i < list.len() ==> one.index < (#[trigger] list[i]).index,
    ensures
        placed(list, one) == list.insert(k, one),
    decreases list.len(),
{
    if k == list.len() {
        assert(list.insert(k, one) =~= list.push(one));
    } else {
        assert(one.index < list[list.len() - 1].index);
        lemma_placed(list.drop_last(), one, k);
        assert(list.drop_last().insert(k, one).push(list.last()) =~= list.insert(k, one));
    }
}

/// Placing an outcome keeps the order of the indices, and adds that outcome
/// alone.
pub proof fn placing_keeps_the_order(list: Seq<Completed>, one: Completed)
    requires
        in_index_order(list),
    ensures
        in_index_order(placed(list, one)),
        placed(list, one).to_multiset() == list.to_multiset().insert(one),
    decreases list.len(),
{
    if list.len() == 0 || list.last().index <= one.index {
        let longer = list.push(one);
        assert forall|i: int, j: int| 0 <= i < j < longer.len() implies longer[i].index
            <= longer[j].index by {
            if j == list.len() {
                assert(list[i].index <= list.last().index);
            }
        }
        list.to_multiset_ensures();
    } else {
        let shorter = list.drop_last();
        placing_keeps_the_order(shorter, one);
        lemma_placed_bounded(shorter, one, list.last().index);
        list.to_multiset_ensures();
        shorter.to_multiset_ensures();
        placed(shorter, one).to_multiset_ensures();
        assert(shorter.push(list.last()) =~= list);
        assert(placed(list, one).to_multiset() =~= list.to_multiset().insert(one));
    }
}

proof fn lemma_placed_bounded(list: Seq<Completed>, one: Completed, most: nat)
    requires
        one.index <= most,
        forall|i: int| 0 <= i < list.len() ==> (#[trigger] list[i]).index <= most,
    ensures
        forall|i: int|
            0 <= i < placed(list, one).len() ==> (#[trigger] placed(list, one)[i]).index <= most,
    decreases list.len(),
{
    if list.len() > 0 && list.last().index > one.index {
        assert forall|i: int| 0 <= i < list.drop_last().len() implies (#[trigger] list.drop_last()[i]).index
            <= most by {
            assert(list[i].index <= most);
        }
        lemma_placed_bounded(list.drop_last(), one, most);
        let shorter = placed(list.drop_last(), one);
        assert forall|i: int| 0 <= i < placed(list, one).len() implies (#[trigger] placed(
            list,
            one,
        )[i]).index <= most by {
            if i < shorter.len() {
                assert(placed(list, one)[i] == shorter[i]);
            } else {
                assert(list[list.len() - 1].index <= most);
            }
        }
    } else {
        assert forall|i: int| 0 <= i < placed(list, one).len() implies (#[trigger] placed(
            list,
            one,
        )[i]).index <= most by {
            if i < list.len() {
                assert(list[i].index <= most);
            }
        }
    }
}

/// The outcomes of a list of clients.
pub open spec fn completed(list: Seq<ClientOutcome>) -> Seq<Completed> {
    Seq::new(list.len(), |i: int| list[i]@)
}

impl Collection {
    /// The outcomes so far.
    pub closed spec fn taken(self) -> Seq<Completed> {
        completed(self.outcomes@)
    }

    /// No client has ended yet.
    pub fn new() -> (r: Collection)
        ensures
            r.taken() == Seq::<Completed>::empty(),
    {
        let r: Collection = Collection { outcomes: Vec::new() };
        proof {
            assert(r.taken() =~= Seq::<Completed>::empty());
        }
        r
    }

    /// Takes the end of one client. An error ends the run.
    pub fn take(&mut self, end: ClientEnd) -> (r: Result<(), FederationError>)
        ensures
            match end {
                ClientEnd::Completed { index, client_id, rounds } => r is Ok && final(self).taken()
                    == placed(
                    old(self).taken(),
                    Completed { index: index as nat, client_id: client_id@, rounds: rounds as nat },
                ),
                ClientEnd::Failed { index, client_id, source } => r is Err && r->Err_0@
                    == (Fault::Client {
                    index: index as nat,
                    client_id: client_id@,
                    source: source@,
                }) && final(self).taken() == old(self).taken(),
                ClientEnd::Panicked { source } => r is Err && r->Err_0@ == (Fault::Panic {
                    what: "a client"@,
                    source: source@,
                }) && final(self).taken() == old(self).taken(),
            },
    {
        match end {
            ClientEnd::Completed { index, client_id, rounds } => {
                let one: ClientOutcome = ClientOutcome {
                    index,
                    client_id,
                    rounds_completed: rounds,
                };
                let ghost before = self.outcomes@;
                let mut k: usize = self.outcomes.len();
                while k > 0 && self.outcomes[k - 1].index > one.index
                    invariant
                        k <= self.outcomes.len(),
                        self.outcomes@ == before,
                        forall|i: int|
                            k <= i < self.outcomes.len() ==> one.index < (
                            #[trigger] self.outcomes@[i]).index,
                    decreases k,
                {
                    k = k - 1;
                }
                self.outcomes.insert(k, one);
                proof {
                    let list = completed(before);
                    assert forall|i: int| k <= i < list.len() implies one@.index < (
                    #[trigger] list[i]).index by {
                        assert(one.index < before[i].index);
                    }
                    lemma_placed(list, one@, k as int);
                    assert(completed(self.outcomes@) =~= list.insert(k as int, one@));
                }
                Ok(())
            },
            ClientEnd::Failed { index, client_id, source } => Err(
                FederationError::Client { index, client_id, source },
            ),
            ClientEnd::Panicked { source } => Err(
                FederationError::Panic { what: "a client".to_owned(), source },
            ),
        }
    }

    /// The outcomes.
    pub fn into_outcomes(self) -> (r: Vec<ClientOutcome>)
        ensures
            completed(r@) == self.taken(),
    {
        self.outcomes
    }
}

/// What a completed run did.
#[derive(Debug)]
pub struct FederationSummary {
    /// One entry per client, in index order.
    pub clients: Vec<ClientOutcome>,
    /// The server's transport address.
    pub server_grpc_addr: String,
    /// The server's admin address.
    pub server_http_addr: String,
}

/// What the run comes to: its own error outranks one of the shutdown, which
/// is almost always a consequence of it.
pub fn conclude(
    result: Result<FederationSummary, FederationError>,
    shutdown: Result<(), FederationError>,
) -> (r: Result<FederationSummary, FederationError>)
    ensures
        r == match (result, shutdown) {
            (Err(e), _) => Err(e),
            (Ok(_), Err(e)) => Err(e),
            (Ok(s), Ok(_)) => Ok(s),
        },
{
    match result {
        Err(error) => Err(error),
        Ok(summary) => match shutdown {
            Err(error) => Err(error),
            Ok(()) => Ok(summary),
        },
    }
}

/// A node and the client attached to it present the same identity, and no
/// other participant does.
pub proof fn participants_are_told_apart(prefix: Seq<char>, n: nat, i: int, j: int)
    requires
        0 <= i < n,
        0 <= j < n,
        i != j,
    ensures
        identities(prefix, n)[i] != identities(prefix, n)[j],
{
    identities_are_distinct(prefix, i as nat, j as nat);
}

/// A run that ran out of time names every client that had not finished, and
/// no other.
pub proof fn a_stall_names_who_had_not_finished(
    ids: Seq<Seq<char>>,
    finished: Seq<bool>,
    attempted: Seq<usize>,
    rounds: nat,
    k: int,
)
    requires
        0 <= k <= finished.len(),
        ids.len() == finished.len(),
        attempted.len() == finished.len(),
    ensures
        forall|i: int|
            0 <= i < k && !#[trigger] finished[i] ==> unfinished_of(
                ids,
                finished,
                attempted,
                rounds,
                k,
            ).contains(
                Progress {
                    index: i as nat,
                    client_id: ids[i],
                    attempted: attempted[i] as nat,
                    requested: rounds,
                },
            ),
        forall|a: int|
            0 <= a < unfinished_of(ids, finished, attempted, rounds, k).len() ==> {
                let p = #[trigger] unfinished_of(ids, finished, attempted, rounds, k)[a];
                p.index < k && !finished[p.index as int] && p.client_id == ids[p.index as int]
            },
    decreases k,
{
    if k > 0 {
        a_stall_names_who_had_not_finished(ids, finished, attempted, rounds, k - 1);
        let shorter = unfinished_of(ids, finished, attempted, rounds, k - 1);
        let longer = unfinished_of(ids, finished, attempted, rounds, k);
        assert forall|i: int| 0 <= i < k && !#[trigger] finished[i] implies longer.contains(
            Progress {
                index: i as nat,
                client_id: ids[i],
                attempted: attempted[i] as nat,
                requested: rounds,
            },
        ) by {
            let p = Progress {
                index: i as nat,
                client_id: ids[i],
                attempted: attempted[i] as nat,
                requested: rounds,
            };
            if i < k - 1 {
                let at = choose|at: int| 0 <= at < shorter.len() && shorter[at] == p;
                assert(longer[at] == p);
            } else {
                assert(longer[shorter.len() as int] == p);
            }
        }
        assert forall|a: int| 0 <= a < longer.len() implies {
            let p = #[trigger] longer[a];
            p.index < k && !finished[p.index as int] && p.client_id == ids[p.index as int]
        } by {
            if a < shorter.len() {
                assert(longer[a] == shorter[a]);
            }
        }
    }
}

} // verus!
