//! The supervision of a federation of processes, one decision at a time.
//!
//! The supervisor says what to do next; whoever runs it does that and hands
//! back what came of it. Each process binds a port of its own and reports
//! the address, so that no address is ever guessed.
use vstd::prelude::*;
use crate::federation::period::Period;
use crate::federation::process::{Failure, ProcessError, ProcessOutcome, ProcessParticipant, ProcessPlan, ProcessSummary};
use crate::federation::spawn::{Command, Spawn};
use crate::text::{copy_texts, decimal, decimal_text, texts};

verus! {

/// How long to wait between two looks at an address file.
pub const ADDRESS_POLL_MILLIS: u64 = 20;

/// How long to wait between two looks at the server's health.
pub const HEALTH_POLL_MILLIS: u64 = 25;

/// How long to wait between two looks at the clients.
pub const CLIENT_POLL_MILLIS: u64 = 50;

/// What a [`ProcessParticipant`] holds.
pub struct Participant {
    pub client_id: Seq<char>,
    pub node: Command,
    pub client: Command,
}

/// What a [`ProcessPlan`] holds.
pub struct Plan {
    pub server: Command,
    pub participants: Seq<Participant>,
    pub rounds: nat,
    pub startup_timeout: Period,
    pub run_timeout: Period,
}

impl View for ProcessParticipant {
    type V = Participant;

    open spec fn view(&self) -> Participant {
        Participant { client_id: self.client_id@, node: self.node@, client: self.client@ }
    }
}

impl View for ProcessPlan {
    type V = Plan;

    open spec fn view(&self) -> Plan {
        Plan {
            server: self.server@,
            participants: Seq::new(
                self.participants@.len(),
                |i: int| self.participants@[i]@,
            ),
            rounds: self.rounds as nat,
            startup_timeout: self.startup_timeout,
            run_timeout: self.run_timeout,
        }
    }
}

/// Where the supervision stands.
#[derive(Clone, Copy, Debug, PartialEq, Eq, Structural)]
pub enum Phase {
    /// The server is being started.
    ServerStart,
    /// The server's transport address is awaited.
    GrpcAddress,
    /// The server's admin address is awaited.
    HttpAddress,
    /// The server's health is awaited.
    Health,
    /// A node is being started.
    NodeStart(usize),
    /// A node's address is awaited.
    NodeAddress(usize),
    /// A client is being started.
    ClientStart(usize),
    /// The clients are awaited.
    Waiting,
    /// The run is over.
    Over,
}

/// Why a process was not started.
#[derive(Debug)]
pub enum StartFailure {
    /// Its log could not be created.
    Log { path: String, source: String },
    /// It could not be run.
    Spawn { source: String },
}

/// What a look at a process that is starting found.
#[derive(Debug)]
pub struct AddressPoll {
    /// What its address file holds, where it could be read.
    pub contents: Option<String>,
    /// The address in it, where there is one.
    pub address: Option<String>,
    /// How the process ended, where it has.
    pub exited: Option<String>,
    /// Whether its time is over.
    pub late: bool,
    /// What its log says.
    pub log: String,
}

/// What a look at the server's health found.
#[derive(Debug)]
pub struct HealthPoll {
    /// Whether it answered that it is well.
    pub answered: bool,
    /// How the process ended, where it has.
    pub exited: Option<String>,
    /// Whether its time is over.
    pub late: bool,
    /// What its log says.
    pub log: String,
}

/// What a look at one client found.
#[derive(Debug)]
pub enum ClientPoll {
    /// It is running, or that could not be told.
    Running,
    /// It has exited.
    Exited { success: bool, code: Option<i32>, status: String, log: String },
}

/// What came of the last action.
#[derive(Debug)]
pub enum Event {
    /// The process was started.
    Started,
    /// The process was not started.
    NotStarted(StartFailure),
    /// A look at an address file.
    Address(AddressPoll),
    /// A look at the server's health.
    Health(HealthPoll),
    /// A look at every client, in order, and whether the time is over.
    Clients(Vec<ClientPoll>, bool),
}

/// What to do next.
#[derive(Debug)]
pub enum Action {
    /// Start a process; it reports its address to a file where one is named.
    Start { label: String, command: Spawn, addr_file: Option<String> },
    /// Look for `key` in the address file of a process.
    AwaitAddress { label: String, key: &'static str },
    /// Ask the server at this address whether it is well.
    AwaitHealth { addr: String },
    /// Look at the clients.
    AwaitClients,
    /// Wait, then look again.
    Again { millis: u64 },
    /// The run is complete.
    Finish(ProcessSummary),
    /// The run has failed.
    Fail(ProcessError),
}

/// What a [`ProcessOutcome`] holds.
pub struct Outcome {
    pub index: nat,
    pub client_id: Seq<char>,
    pub exit_code: Option<i32>,
}

impl View for ProcessOutcome {
    type V = Outcome;

    open spec fn view(&self) -> Outcome {
        Outcome {
            index: self.index as nat,
            client_id: self.client_id@,
            exit_code: self.exit_code,
        }
    }
}

/// What an [`Action`] holds.
pub enum Move {
    Start { label: Seq<char>, command: Command, addr_file: Option<Seq<char>> },
    AwaitAddress { label: Seq<char>, key: Seq<char> },
    AwaitHealth { addr: Seq<char> },
    AwaitClients,
    Again { millis: nat },
    Finish { clients: Seq<Outcome>, grpc: Seq<char>, http: Seq<char>, recipe: Seq<Seq<char>> },
    Fail(Failure),
}

/// The contents of an optional text.
pub open spec fn text_of(t: Option<String>) -> Option<Seq<char>> {
    match t {
        Some(s) => Some(s@),
        None => None,
    }
}

impl View for Action {
    type V = Move;

    open spec fn view(&self) -> Move {
        match *self {
            Action::Start { label, command, addr_file } => Move::Start {
                label: label@,
                command: command@,
                addr_file: text_of(addr_file),
            },
            Action::AwaitAddress { label, key } => Move::AwaitAddress { label: label@, key: key@ },
            Action::AwaitHealth { addr } => Move::AwaitHealth { addr: addr@ },
            Action::AwaitClients => Move::AwaitClients,
            Action::Again { millis } => Move::Again { millis: millis as nat },
            Action::Finish(s) => Move::Finish {
                clients: Seq::new(s.clients@.len(), |i: int| s.clients@[i]@),
                grpc: s.server_grpc_addr@,
                http: s.server_http_addr@,
                recipe: texts(s.recipe@),
            },
            Action::Fail(e) => Move::Fail(e@),
        }
    }
}

/// A supervised run.
#[derive(Debug)]
pub struct Supervisor {
    plan: ProcessPlan,
    server_addr_file: String,
    node_addr_files: Vec<String>,
    phase: Phase,
    recipe: Vec<String>,
    grpc_addr: String,
    http_addr: String,
    node_urls: Vec<String>,
    exits: Vec<Option<Option<i32>>>,
}

/// What a [`Supervisor`] holds.
pub struct Run {
    pub plan: Plan,
    pub server_addr_file: Seq<char>,
    pub node_addr_files: Seq<Seq<char>>,
    pub phase: Phase,
    pub recipe: Seq<Seq<char>>,
    pub grpc: Seq<char>,
    pub http: Seq<char>,
    pub urls: Seq<Seq<char>>,
    /// The exit code of each client that has finished.
    pub exits: Seq<Option<Option<i32>>>,
}

/// The name of node `i` among the processes.
pub open spec fn node_label(i: nat) -> Seq<char> {
    "node-"@ + decimal(i)
}

/// The name of client `i` among the processes.
pub open spec fn client_label(i: nat) -> Seq<char> {
    "client-"@ + decimal(i)
}

/// A loopback address with a port for the system to choose.
pub open spec fn any_port() -> Seq<char> {
    "127.0.0.1:0"@
}

impl Plan {
    /// The server's command, which binds ports of its own and reports them.
    pub open spec fn server_command(self, addr_file: Seq<char>) -> Command {
        self.server.with_flag("--addr-file"@, addr_file).with_flag(
            "--grpc-addr"@,
            any_port(),
        ).with_flag("--http-addr"@, any_port())
    }

    /// The command of node `i`.
    pub open spec fn node_command(self, i: int, addr_file: Seq<char>, grpc: Seq<char>) -> Command {
        self.participants[i].node.with_flag("--addr-file"@, addr_file).with_flag(
            "--server"@,
            "http://"@ + grpc,
        ).with_flag("--client-id"@, self.participants[i].client_id).with_flag(
            "--local-addr"@,
            any_port(),
        )
    }

    /// The command of client `i`.
    pub open spec fn client_command(self, i: int, url: Seq<char>) -> Command {
        self.participants[i].client.with_flag("--address"@, url).with_flag(
            "--client-id"@,
            self.participants[i].client_id,
        ).with_flag("--rounds"@, decimal(self.rounds))
    }
}

impl Run {
    /// Whether the parts fit each other.
    pub open spec fn wf(self) -> bool {
        let n = self.plan.participants.len();
        &&& self.node_addr_files.len() == n
        &&& self.exits.len() == n
        &&& self.plan.startup_timeout.wf()
        &&& self.plan.run_timeout.wf()
        &&& match self.phase {
            Phase::NodeStart(i) => i < n && self.urls.len() == i,
            Phase::NodeAddress(i) => i < n && self.urls.len() == i,
            Phase::ClientStart(i) => i < n && self.urls.len() == n,
            Phase::Waiting | Phase::Over => true,
            _ => self.urls.len() == 0,
        }
    }

    /// Whether the event can come of the last action.
    pub open spec fn expects(self, e: Event) -> bool {
        match self.phase {
            Phase::ServerStart | Phase::NodeStart(_) | Phase::ClientStart(_) => e is Started || e is NotStarted,
            Phase::GrpcAddress | Phase::HttpAddress | Phase::NodeAddress(_) => e is Address,
            Phase::Health => e is Health,
            Phase::Waiting => e is Clients && e->Clients_0@.len() == self.plan.participants.len(),
            Phase::Over => false,
        }
    }

    /// The process that the run is busy with, by its name.
    pub open spec fn label(self) -> Seq<char> {
        match self.phase {
            Phase::NodeStart(i) => node_label(i as nat),
            Phase::NodeAddress(i) => node_label(i as nat),
            Phase::ClientStart(i) => client_label(i as nat),
            _ => "server"@,
        }
    }

    /// The program of the process that is being started.
    pub open spec fn program(self) -> Seq<char> {
        match self.phase {
            Phase::NodeStart(i) => self.plan.participants[i as int].node.program,
            Phase::ClientStart(i) => self.plan.participants[i as int].client.program,
            _ => self.plan.server.program,
        }
    }

    /// The key of the address that is awaited.
    pub open spec fn key(self) -> Seq<char> {
        match self.phase {
            Phase::GrpcAddress => "grpc"@,
            Phase::HttpAddress => "http"@,
            _ => "local"@,
        }
    }

    /// The run at another phase.
    pub open spec fn at(self, phase: Phase) -> Run {
        Run { phase, ..self }
    }

    /// The run ended by a failure.
    pub open spec fn failed(self, f: Failure) -> (Run, Move) {
        (self.at(Phase::Over), Move::Fail(f))
    }

    /// What comes before all: the server is started.
    pub open spec fn begun(plan: Plan, server_file: Seq<char>, node_files: Seq<Seq<char>>) -> (
        Run,
        Move,
    ) {
        let command = plan.server_command(server_file);
        (
            Run {
                plan,
                server_addr_file: server_file,
                node_addr_files: node_files,
                phase: Phase::ServerStart,
                recipe: seq![command.typed()],
                grpc: Seq::empty(),
                http: Seq::empty(),
                urls: Seq::empty(),
                exits: Seq::new(plan.participants.len(), |i: int| None),
            },
            Move::Start { label: "server"@, command, addr_file: Some(server_file) },
        )
    }

    /// From node `i` on: it is started, or, past the last, the clients are.
    pub open spec fn starting_node(self, i: int) -> (Run, Move) {
        if i < self.plan.participants.len() {
            let command = self.plan.node_command(i, self.node_addr_files[i], self.grpc);
            (
                Run {
                    phase: Phase::NodeStart(i as usize),
                    recipe: self.recipe.push(command.typed()),
                    ..self
                },
                Move::Start {
                    label: node_label(i as nat),
                    command,
                    addr_file: Some(self.node_addr_files[i]),
                },
            )
        } else {
            self.starting_client(0)
        }
    }

    /// From client `i` on: it is started, or, past the last, all are awaited.
    pub open spec fn starting_client(self, i: int) -> (Run, Move) {
        if i < self.plan.participants.len() {
            let command = self.plan.client_command(i, self.urls[i]);
            (
                Run {
                    phase: Phase::ClientStart(i as usize),
                    recipe: self.recipe.push(command.typed()),
                    ..self
                },
                Move::Start { label: client_label(i as nat), command, addr_file: None },
            )
        } else {
            (self.at(Phase::Waiting), Move::AwaitClients)
        }
    }

    /// What follows a start.
    pub open spec fn on_started(self) -> (Run, Move) {
        match self.phase {
            Phase::ServerStart => (
                self.at(Phase::GrpcAddress),
                Move::AwaitAddress { label: "server"@, key: "grpc"@ },
            ),
            Phase::NodeStart(i) => (
                self.at(Phase::NodeAddress(i)),
                Move::AwaitAddress { label: node_label(i as nat), key: "local"@ },
            ),
            Phase::ClientStart(i) => self.starting_client(i + 1),
            _ => (self, Move::AwaitClients),
        }
    }

    /// What follows a start that failed.
    pub open spec fn on_start_failure(self, f: StartFailure) -> (Run, Move) {
        self.failed(
            match f {
                StartFailure::Log { path, source } => Failure::Log { path: path@, source: source@ },
                StartFailure::Spawn { source } => Failure::Spawn {
                    label: self.label(),
                    program: self.program(),
                    source: source@,
                },
            },
        )
    }

    /// What follows the address of the process that was awaited.
    pub open spec fn on_address(self, address: Seq<char>) -> (Run, Move) {
        match self.phase {
            Phase::GrpcAddress => (
                Run { phase: Phase::HttpAddress, grpc: address, ..self },
                Move::AwaitAddress { label: "server"@, key: "http"@ },
            ),
            Phase::HttpAddress => (
                Run { phase: Phase::Health, http: address, ..self },
                Move::AwaitHealth { addr: address },
            ),
            Phase::NodeAddress(i) => (Run {
                urls: self.urls.push("http://"@ + address),
                ..self
            }).starting_node(i + 1),
            _ => (self, Move::AwaitClients),
        }
    }

    /// What follows a look at an address file. An address counts whatever
    /// else is so; a file that holds something else is a failure only once
    /// the time is over; a process that has died is reported as that.
    pub open spec fn on_address_poll(self, p: AddressPoll) -> (Run, Move) {
        if p.address is Some {
            self.on_address(p.address->0@)
        } else if p.late && p.contents is Some && p.contents->0@.len() > 0 {
            self.failed(
                Failure::UnreadableAddrFile {
                    label: self.label(),
                    key: self.key(),
                    contents: p.contents->0@,
                },
            )
        } else {
            self.on_no_answer(p.exited, p.late, p.log@, ADDRESS_POLL_MILLIS as nat)
        }
    }

    /// What follows a look that found nothing.
    pub open spec fn on_no_answer(
        self,
        exited: Option<String>,
        late: bool,
        log: Seq<char>,
        millis: nat,
    ) -> (Run, Move) {
        if exited is Some {
            self.failed(
                Failure::DiedDuringStartup { label: self.label(), status: exited->0@, log },
            )
        } else if late {
            self.failed(
                Failure::StartupTimeout {
                    label: self.label(),
                    timeout: self.plan.startup_timeout,
                    log,
                },
            )
        } else {
            (self, Move::Again { millis })
        }
    }

    /// What follows a look at the server's health.
    pub open spec fn on_health(self, p: HealthPoll) -> (Run, Move) {
        if p.answered {
            self.starting_node(0)
        } else {
            self.on_no_answer(p.exited, p.late, p.log@, HEALTH_POLL_MILLIS as nat)
        }
    }

    /// Whether client `i`, not yet finished, turns out to have failed.
    pub open spec fn fails(self, polls: Seq<ClientPoll>, i: int) -> bool {
        self.exits[i] is None && polls[i] is Exited && !polls[i]->success
    }

    /// The exit codes with those that the polls add.
    pub open spec fn exits_with(self, polls: Seq<ClientPoll>) -> Seq<Option<Option<i32>>> {
        Seq::new(
            self.exits.len(),
            |i: int|
                if self.exits[i] is None && polls[i] is Exited {
                    Some(polls[i]->code)
                } else {
                    self.exits[i]
                },
        )
    }

    /// The identities of the first `k` clients that have not finished.
    pub open spec fn running(self, k: int) -> Seq<Seq<char>>
        decreases k,
    {
        if k <= 0 {
            Seq::empty()
        } else if self.exits[k - 1] is None {
            self.running(k - 1).push(self.plan.participants[k - 1].client_id)
        } else {
            self.running(k - 1)
        }
    }

    /// The outcome of every client.
    pub open spec fn outcomes(self) -> Seq<Outcome> {
        Seq::new(
            self.exits.len(),
            |i: int|
                Outcome {
                    index: i as nat,
                    client_id: self.plan.participants[i].client_id,
                    exit_code: self.exits[i]->0,
                },
        )
    }

    /// What follows a look at the clients: the first failure ends the run;
    /// else the run is complete once none is running, and a failure that
    /// names every one still running once the time is over.
    pub open spec fn on_clients(self, polls: Seq<ClientPoll>, late: bool) -> (Run, Move) {
        let n = self.plan.participants.len();
        let next = Run { exits: self.exits_with(polls), ..self };
        if exists|i: int| 0 <= i < n && self.fails(polls, i) {
            let i = first_failing(self, polls, 0);
            self.failed(
                Failure::ClientFailed {
                    index: i as nat,
                    client_id: self.plan.participants[i].client_id,
                    status: polls[i]->status@,
                    log: polls[i]->log@,
                },
            )
        } else if next.running(n as int).len() == 0 {
            (
                next.at(Phase::Over),
                Move::Finish {
                    clients: next.outcomes(),
                    grpc: self.grpc,
                    http: self.http,
                    recipe: self.recipe,
                },
            )
        } else if late {
            next.failed(
                Failure::Stalled {
                    timeout: self.plan.run_timeout,
                    total: n,
                    unfinished: next.running(n as int),
                },
            )
        } else {
            (next, Move::Again { millis: CLIENT_POLL_MILLIS as nat })
        }
    }

    /// What follows an event.
    pub open spec fn next(self, e: Event) -> (Run, Move) {
        match e {
            Event::Started => self.on_started(),
            Event::NotStarted(f) => self.on_start_failure(f),
            Event::Address(p) => self.on_address_poll(p),
            Event::Health(p) => self.on_health(p),
            Event::Clients(polls, late) => self.on_clients(polls@, late),
        }
    }
}

/// The first client from `i` on that turns out to have failed.
pub open spec fn first_failing(run: Run, polls: Seq<ClientPoll>, i: int) -> int
    decreases run.plan.participants.len() - i,
{
    if i >= run.plan.participants.len() || run.fails(polls, i) {
        i
    } else {
        first_failing(run, polls, i + 1)
    }
}

impl View for Supervisor {
    type V = Run;

    closed spec fn view(&self) -> Run {
        Run {
            plan: self.plan@,
            server_addr_file: self.server_addr_file@,
            node_addr_files: texts(self.node_addr_files@),
            phase: self.phase,
            recipe: texts(self.recipe@),
            grpc: self.grpc_addr@,
            http: self.http_addr@,
            urls: texts(self.node_urls@),
            exits: self.exits@,
        }
    }
}

proof fn lemma_pushed(list: Seq<String>, t: String)
    ensures
        texts(list.push(t)) == texts(list).push(t@),
{
    assert(texts(list.push(t)) =~= texts(list).push(t@));
}

proof fn lemma_first_failing(run: Run, polls: Seq<ClientPoll>, i: int, k: int)
    requires
        0 <= i <= k < run.plan.participants.len(),
        run.fails(polls, k),
        forall|j: int| i <= j < k ==> !run.fails(polls, j),
    ensures
        first_failing(run, polls, i) == k,
    decreases k - i,
{
    if i < k {
        lemma_first_failing(run, polls, i + 1, k);
    }
}

fn numbered(prefix: &str, i: usize) -> (r: String)
    ensures
        r@ == prefix@ + decimal(i as nat),
{
    prefix.to_owned().concat(decimal_text(i as u64).as_str())
}

impl Supervisor {
    /// Starts a run, with the files that the server and each node report
    /// their addresses to.
    pub fn begin(plan: ProcessPlan, server_addr_file: String, node_addr_files: Vec<String>) -> (r:
        (Supervisor, Action))
        requires
            node_addr_files.len() == plan.participants.len(),
            plan.startup_timeout.wf(),
            plan.run_timeout.wf(),
        ensures
            r.0@.wf(),
            (r.0@, r.1@) == Run::begun(plan@, server_addr_file@, texts(node_addr_files@)),
    {
        let command: Spawn = plan.server.duplicate().flag(
            "--addr-file",
            server_addr_file.as_str(),
        ).flag("--grpc-addr", "127.0.0.1:0").flag("--http-addr", "127.0.0.1:0");
        let mut recipe: Vec<String> = Vec::new();
        let typed: String = command.recipe();
        recipe.push(typed);
        let mut exits: Vec<Option<Option<i32>>> = Vec::new();
        let mut i: usize = 0;
        while i < plan.participants.len()
            invariant
                i <= plan.participants.len(),
                exits.len() == i,
                forall|k: int| 0 <= k < i ==> (#[trigger] exits@[k]) is None,
            decreases plan.participants.len() - i,
        {
            exits.push(None);
            i = i + 1;
        }
        let action: Action = Action::Start {
            label: "server".to_owned(),
            command,
            addr_file: Some(server_addr_file.clone()),
        };
        let run: Supervisor = Supervisor {
            plan,
            server_addr_file,
            node_addr_files,
            phase: Phase::ServerStart,
            recipe,
            grpc_addr: String::new(),
            http_addr: String::new(),
            node_urls: Vec::new(),
            exits,
        };
        proof {
            let (model, _) = Run::begun(plan@, server_addr_file@, texts(node_addr_files@));
            assert(run@.recipe =~= model.recipe);
            assert(run@.exits =~= model.exits);
            assert(run@.urls =~= model.urls);
            assert(run@.grpc =~= model.grpc);
            assert(run@.http =~= model.http);
        }
        (run, action)
    }

    fn start_node(&mut self, i: usize) -> (r: Action)
        requires
            old(self)@.wf(),
            i <= old(self)@.plan.participants.len(),
            old(self)@.urls.len() == i,
        ensures
            (final(self)@, r@) == old(self)@.starting_node(i as int),
            final(self)@.wf(),
    {
        if i < self.plan.participants.len() {
            let url: String = "http://".to_owned().concat(self.grpc_addr.as_str());
            let command: Spawn = self.plan.participants[i].node.duplicate().flag(
                "--addr-file",
                self.node_addr_files[i].as_str(),
            ).flag("--server", url.as_str()).flag(
                "--client-id",
                self.plan.participants[i].client_id.as_str(),
            ).flag("--local-addr", "127.0.0.1:0");
            let typed: String = command.recipe();
            proof {
                lemma_pushed(self.recipe@, typed);
            }
            self.recipe.push(typed);
            self.phase = Phase::NodeStart(i);
            Action::Start {
                label: numbered("node-", i),
                command,
                addr_file: Some(self.node_addr_files[i].clone()),
            }
        } else {
            self.start_client(0)
        }
    }

    fn start_client(&mut self, i: usize) -> (r: Action)
        requires
            old(self)@.wf(),
            i <= old(self)@.plan.participants.len(),
            old(self)@.urls.len() == old(self)@.plan.participants.len(),
        ensures
            (final(self)@, r@) == old(self)@.starting_client(i as int),
            final(self)@.wf(),
    {
        if i < self.plan.participants.len() {
            let rounds: String = decimal_text(self.plan.rounds as u64);
            let command: Spawn = self.plan.participants[i].client.duplicate().flag(
                "--address",
                self.node_urls[i].as_str(),
            ).flag("--client-id", self.plan.participants[i].client_id.as_str()).flag(
                "--rounds",
                rounds.as_str(),
            );
            let typed: String = command.recipe();
            proof {
                lemma_pushed(self.recipe@, typed);
            }
            self.recipe.push(typed);
            self.phase = Phase::ClientStart(i);
            Action::Start { label: numbered("client-", i), command, addr_file: None }
        } else {
            self.phase = Phase::Waiting;
            Action::AwaitClients
        }
    }

    fn label(&self) -> (r: String)
        ensures
            r@ == self@.label(),
    {
        match self.phase {
            Phase::NodeStart(i) => numbered("node-", i),
            Phase::NodeAddress(i) => numbered("node-", i),
            Phase::ClientStart(i) => numbered("client-", i),
            _ => "server".to_owned(),
        }
    }

    fn program(&self) -> (r: String)
        requires
            self@.wf(),
        ensures
            r@ == self@.program(),
    {
        match self.phase {
            Phase::NodeStart(i) => self.plan.participants[i].node.program.clone(),
            Phase::ClientStart(i) => self.plan.participants[i].client.program.clone(),
            _ => self.plan.server.program.clone(),
        }
    }

    fn key(&self) -> (r: &'static str)
        ensures
            r@ == self@.key(),
    {
        match self.phase {
            Phase::GrpcAddress => "grpc",
            Phase::HttpAddress => "http",
            _ => "local",
        }
    }

    fn fail(&mut self, e: ProcessError) -> (r: Action)
        requires
            old(self)@.wf(),
        ensures
            (final(self)@, r@) == old(self)@.failed(e@),
            final(self)@.wf(),
    {
        self.phase = Phase::Over;
        Action::Fail(e)
    }

    fn accept_address(&mut self, address: String) -> (r: Action)
        requires
            old(self)@.wf(),
            old(self)@.phase is GrpcAddress || old(self)@.phase is HttpAddress
                || old(self)@.phase is NodeAddress,
        ensures
            (final(self)@, r@) == old(self)@.on_address(address@),
            final(self)@.wf(),
    {
        match self.phase {
            Phase::GrpcAddress => {
                self.grpc_addr = address;
                self.phase = Phase::HttpAddress;
                Action::AwaitAddress { label: "server".to_owned(), key: "http" }
            },
            Phase::HttpAddress => {
                self.http_addr = address.clone();
                self.phase = Phase::Health;
                Action::AwaitHealth { addr: address }
            },
            Phase::NodeAddress(i) => {
                let url: String = "http://".to_owned().concat(address.as_str());
                proof {
                    lemma_pushed(self.node_urls@, url);
                }
                self.node_urls.push(url);
                self.phase = Phase::Waiting;
                assert(i < self.plan.participants.len());
                self.start_node(i + 1)
            },
            _ => Action::AwaitClients,
        }
    }

    fn no_answer(&mut self, exited: Option<String>, late: bool, log: String, millis: u64) -> (r:
        Action)
        requires
            old(self)@.wf(),
        ensures
            (final(self)@, r@) == old(self)@.on_no_answer(exited, late, log@, millis as nat),
            final(self)@.wf(),
    {
        match exited {
            Some(status) => {
                let label: String = self.label();
                self.fail(ProcessError::DiedDuringStartup { label, status, log })
            },
            None => if late {
                let label: String = self.label();
                let timeout: Period = self.plan.startup_timeout;
                self.fail(ProcessError::StartupTimeout { label, timeout, log })
            } else {
                Action::Again { millis }
            },
        }
    }

    fn look_at_clients(&mut self, polls: Vec<ClientPoll>, late: bool) -> (r: Action)
        requires
            old(self)@.wf(),
            old(self)@.phase is Waiting,
            polls@.len() == old(self)@.plan.participants.len(),
        ensures
            (final(self)@, r@) == old(self)@.on_clients(polls@, late),
            final(self)@.wf(),
    {
        let n: usize = self.plan.participants.len();
        let ghost before = self@;
        let mut i: usize = 0;
        while i < n
            invariant
                i <= n,
                *self == *old(self),
                before == self@,
                before.wf(),
                n == self.plan.participants.len(),
                n == polls.len(),
                forall|j: int| 0 <= j < i ==> !before.fails(polls@, j),
            ensures
                *self == *old(self),
                i <= n,
                i < n ==> before.fails(polls@, i as int),
                forall|j: int| 0 <= j < i ==> !before.fails(polls@, j),
            decreases n - i,
        {
            if self.exits[i].is_none() {
                if let ClientPoll::Exited { success, .. } = &polls[i] {
                    if !*success {
                        assert(before.fails(polls@, i as int));
                        break;
                    }
                }
            }
            i = i + 1;
        }
        if i < n {
            proof {
                lemma_first_failing(before, polls@, 0, i as int);
            }
            let client_id: String = self.plan.participants[i].client_id.clone();
            if let ClientPoll::Exited { status, log, .. } = &polls[i] {
                let status: String = status.clone();
                let log: String = log.clone();
                return self.fail(ProcessError::ClientFailed { index: i, client_id, status, log });
            }
        }
        let mut running: Vec<String> = Vec::new();
        let mut outcomes: Vec<ProcessOutcome> = Vec::new();
        let ghost next = Run { exits: before.exits_with(polls@), ..before };
        let mut k: usize = 0;
        while k < n
            invariant
                k <= n,
                self.plan == old(self).plan,
                self@ == (Run { exits: self.exits@, ..before }),
                before == old(self)@,
                before.wf(),
                n == self.plan.participants.len(),
                n == polls.len(),
                self.exits.len() == n,
                next == (Run { exits: before.exits_with(polls@), ..before }),
                forall|j: int| 0 <= j < k ==> #[trigger] self.exits@[j] == next.exits[j],
                forall|j: int| k <= j < n ==> #[trigger] self.exits@[j] == before.exits[j],
                texts(running@) == next.running(k as int),
                running.len() == 0 ==> outcomes.len() == k && forall|j: int|
                    0 <= j < k ==> (#[trigger] outcomes@[j])@ == next.outcomes()[j],
            decreases n - k,
        {
            if self.exits[k].is_none() {
                if let ClientPoll::Exited { code, .. } = &polls[k] {
                    self.exits.set(k, Some(*code));
                }
            }
            let client_id: String = self.plan.participants[k].client_id.clone();
            match self.exits[k] {
                Some(exit_code) => {
                    outcomes.push(ProcessOutcome { index: k, client_id, exit_code });
                },
                None => {
                    proof {
                        lemma_pushed(running@, client_id);
                    }
                    running.push(client_id);
                },
            }
            k = k + 1;
        }
        proof {
            assert(self@.exits =~= next.exits);
            assert(texts(running@).len() == running.len());
            assert(self@ == next);
        }
        if running.len() == 0 {
            self.phase = Phase::Over;
            let summary: ProcessSummary = ProcessSummary {
                clients: outcomes,
                server_grpc_addr: self.grpc_addr.clone(),
                server_http_addr: self.http_addr.clone(),
                recipe: copy_texts(&self.recipe),
            };
            proof {
                assert(Seq::new(
                    summary.clients@.len(),
                    |i: int| summary.clients@[i]@,
                ) =~= next.outcomes());
            }
            Action::Finish(summary)
        } else if late {
            let timeout: Period = self.plan.run_timeout;
            self.fail(ProcessError::Stalled { timeout, total: n, unfinished: running })
        } else {
            Action::Again { millis: CLIENT_POLL_MILLIS }
        }
    }

    /// Takes what came of the last action and says what to do next.
    pub fn step(&mut self, e: Event) -> (r: Action)
        requires
            old(self)@.wf(),
            old(self)@.expects(e),
        ensures
            (final(self)@, r@) == old(self)@.next(e),
            final(self)@.wf(),
    {
        match e {
            Event::Started => match self.phase {
                Phase::ServerStart => {
                    self.phase = Phase::GrpcAddress;
                    Action::AwaitAddress { label: "server".to_owned(), key: "grpc" }
                },
                Phase::NodeStart(i) => {
                    self.phase = Phase::NodeAddress(i);
                    Action::AwaitAddress { label: numbered("node-", i), key: "local" }
                },
                Phase::ClientStart(i) => {
                    assert(i < self.plan.participants.len());
                    self.start_client(i + 1)
                },
                _ => Action::AwaitClients,
            },
            Event::NotStarted(StartFailure::Log { path, source }) => {
                self.fail(ProcessError::Log { path, source })
            },
            Event::NotStarted(StartFailure::Spawn { source }) => {
                let label: String = self.label();
                let program: String = self.program();
                self.fail(ProcessError::Spawn { label, program, source })
            },
            Event::Address(p) => match p.address {
                Some(address) => self.accept_address(address),
                None => match p.contents {
                    Some(contents) if p.late && contents.as_str().unicode_len() > 0 => {
                        let label: String = self.label();
                        let key: &'static str = self.key();
                        self.fail(ProcessError::UnreadableAddrFile { label, key, contents })
                    },
                    _ => self.no_answer(p.exited, p.late, p.log, ADDRESS_POLL_MILLIS),
                },
            },
            Event::Health(p) => if p.answered {
                self.start_node(0)
            } else {
                self.no_answer(p.exited, p.late, p.log, HEALTH_POLL_MILLIS)
            },
            Event::Clients(polls, late) => self.look_at_clients(polls, late),
        }
    }
}

proof fn lemma_running(run: Run, k: int)
    requires
        0 <= k <= run.exits.len(),
        run.exits.len() == run.plan.participants.len(),
    ensures
        forall|i: int|
            0 <= i < k && #[trigger] run.exits[i] is None ==> run.running(k).contains(
                run.plan.participants[i].client_id,
            ),
        forall|id: Seq<char>| #[trigger]
            run.running(k).contains(id) ==> exists|i: int|
                0 <= i < k && #[trigger] run.exits[i] is None && run.plan.participants[i].client_id
                    == id,
    decreases k,
{
    if k > 0 {
        lemma_running(run, k - 1);
        let shorter = run.running(k - 1);
        let longer = run.running(k);
        if run.exits[k - 1] is None {
            let added = run.plan.participants[k - 1].client_id;
            assert(longer[shorter.len() as int] == added);
            assert forall|i: int|
                0 <= i < k && #[trigger] run.exits[i] is None implies longer.contains(
                run.plan.participants[i].client_id,
            ) by {
                if i < k - 1 {
                    let id = run.plan.participants[i].client_id;
                    let at = choose|at: int| 0 <= at < shorter.len() && shorter[at] == id;
                    assert(longer[at] == id);
                }
            }
            assert forall|id: Seq<char>| #[trigger] longer.contains(id) implies exists|i: int|
                0 <= i < k && #[trigger] run.exits[i] is None && run.plan.participants[i].client_id
                    == id by {
                let at = choose|at: int| 0 <= at < longer.len() && longer[at] == id;
                if at < shorter.len() {
                    assert(shorter[at] == id);
                    assert(shorter.contains(id));
                } else {
                    assert(run.exits[k - 1] is None);
                }
            }
        } else {
            assert forall|id: Seq<char>| #[trigger] longer.contains(id) implies exists|i: int|
                0 <= i < k && #[trigger] run.exits[i] is None && run.plan.participants[i].client_id
                    == id by {
                assert(shorter.contains(id));
            }
        }
    }
}

/// A run finishes only where every client exited successfully, and its
/// summary then has one entry for each, in order.
pub proof fn a_finished_run_has_every_client(run: Run, polls: Seq<ClientPoll>, late: bool)
    requires
        run.wf(),
        polls.len() == run.plan.participants.len(),
        run.on_clients(polls, late).1 is Finish,
    ensures
        forall|i: int|
            0 <= i < polls.len() ==> run.exits[i] is Some || (polls[i] is Exited && (
            #[trigger] polls[i])->success),
        run.on_clients(polls, late).1->clients.len() == polls.len(),
        forall|i: int|
            0 <= i < polls.len() ==> (#[trigger] run.on_clients(polls, late).1->clients[i]).index
                == i && run.on_clients(polls, late).1->clients[i].client_id
                == run.plan.participants[i].client_id,
{
    let n = run.plan.participants.len() as int;
    let next = Run { exits: run.exits_with(polls), ..run };
    lemma_running(next, n);
    assert forall|i: int| 0 <= i < polls.len() implies run.exits[i] is Some || (polls[i] is Exited
        && (#[trigger] polls[i])->success) by {
        assert(!run.fails(polls, i));
        if next.exits[i] is None {
            assert(next.running(n).contains(next.plan.participants[i].client_id));
        }
    }
}

/// A run that ran out of time names every client still running, and no other.
pub proof fn a_stalled_run_names_who_was_running(run: Run, polls: Seq<ClientPoll>)
    requires
        run.wf(),
        polls.len() == run.plan.participants.len(),
        run.on_clients(polls, true).1 is Fail,
        run.on_clients(polls, true).1->Fail_0 is Stalled,
    ensures
        forall|i: int|
            0 <= i < polls.len() && run.exits[i] is None && #[trigger] polls[i] is Running
                ==> run.on_clients(polls, true).1->Fail_0->unfinished.contains(
                run.plan.participants[i].client_id,
            ),
        forall|id: Seq<char>| #[trigger]
            run.on_clients(polls, true).1->Fail_0->unfinished.contains(id) ==> exists|i: int|
                0 <= i < polls.len() && run.exits[i] is None && #[trigger] polls[i] is Running
                    && run.plan.participants[i].client_id == id,
{
    let n = run.plan.participants.len() as int;
    let next = Run { exits: run.exits_with(polls), ..run };
    lemma_running(next, n);
    assert forall|i: int|
        0 <= i < polls.len() && run.exits[i] is None && #[trigger] polls[i] is Running implies next.running(
        n,
    ).contains(run.plan.participants[i].client_id) by {
        assert(next.exits[i] is None);
    }
    assert forall|id: Seq<char>| #[trigger] next.running(n).contains(id) implies exists|i: int|
        0 <= i < polls.len() && run.exits[i] is None && #[trigger] polls[i] is Running
            && run.plan.participants[i].client_id == id by {
        let i = choose|i: int|
            0 <= i < n && #[trigger] next.exits[i] is None && next.plan.participants[i].client_id
                == id;
        assert(polls[i] is Running);
    }
}

/// The recipe holds every command that was started, in the order in which
/// they were, and nothing else.
pub proof fn the_recipe_is_what_was_started(run: Run, e: Event)
    requires
        run.wf(),
        run.expects(e),
    ensures
        run.next(e).0.recipe == match run.next(e).1 {
            Move::Start { label, command, addr_file } => run.recipe.push(command.typed()),
            _ => run.recipe,
        },
{
}

/// A participant's node and its client present the same identity.
pub proof fn node_and_client_share_an_identity(
    plan: Plan,
    i: int,
    addr_file: Seq<char>,
    grpc: Seq<char>,
    url: Seq<char>,
)
    requires
        0 <= i < plan.participants.len(),
    ensures
        ({
            let id = plan.participants[i].client_id;
            let node = plan.node_command(i, addr_file, grpc).args.skip(
                plan.participants[i].node.args.len() as int,
            );
            let client = plan.client_command(i, url).args.skip(
                plan.participants[i].client.args.len() as int,
            );
            &&& node[4] == "--client-id"@ && node[5] == id
            &&& client[2] == "--client-id"@ && client[3] == id
        }),
{
}

} // verus!
