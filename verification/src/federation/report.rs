//! Why a federation could not start or did not finish, and what its clients
//! did.
use vstd::prelude::*;
use crate::federation::period::Period;
use crate::text::{decimal, decimal_text, join, joined, starts_with, texts};

verus! {

/// How far one client got, for a run that did not finish.
#[derive(Debug)]
pub struct ClientProgress {
    /// Which client.
    pub index: usize,
    /// Its identity.
    pub client_id: String,
    /// Rounds it began and reported an end for, whether or not the server
    /// took what it submitted.
    pub rounds_attempted: usize,
    /// What it was asked for.
    pub rounds_requested: usize,
}

/// What one client did.
#[derive(Debug)]
pub struct ClientOutcome {
    /// Which client.
    pub index: usize,
    /// Its identity.
    pub client_id: String,
    /// Submissions its node took.
    pub rounds_completed: usize,
}

/// What a [`ClientProgress`] holds.
pub struct Progress {
    pub index: nat,
    pub client_id: Seq<char>,
    pub attempted: nat,
    pub requested: nat,
}

/// What a [`ClientOutcome`] holds.
pub struct Completed {
    pub index: nat,
    pub client_id: Seq<char>,
    pub rounds: nat,
}

impl View for ClientProgress {
    type V = Progress;

    open spec fn view(&self) -> Progress {
        Progress {
            index: self.index as nat,
            client_id: self.client_id@,
            attempted: self.rounds_attempted as nat,
            requested: self.rounds_requested as nat,
        }
    }
}

impl View for ClientOutcome {
    type V = Completed;

    open spec fn view(&self) -> Completed {
        Completed {
            index: self.index as nat,
            client_id: self.client_id@,
            rounds: self.rounds_completed as nat,
        }
    }
}

impl Progress {
    /// How it reads.
    pub open spec fn text(self) -> Seq<char> {
        self.client_id + " attempted "@ + decimal(self.attempted) + "/"@ + decimal(self.requested)
            + " round(s)"@
    }
}

impl ClientProgress {
    /// How it reads.
    pub fn text(&self) -> (r: String)
        ensures
            r@ == self@.text(),
    {
        self.client_id.clone().concat(" attempted ").concat(
            decimal_text(self.rounds_attempted as u64).as_str(),
        ).concat("/").concat(decimal_text(self.rounds_requested as u64).as_str()).concat(
            " round(s)",
        )
    }
}

/// What each of a list of clients got to.
pub open spec fn progress(list: Seq<ClientProgress>) -> Seq<Progress> {
    Seq::new(list.len(), |i: int| list[i]@)
}

/// How each of a list of clients reads.
pub open spec fn progress_texts(list: Seq<Progress>) -> Seq<Seq<char>> {
    Seq::new(list.len(), |i: int| list[i].text())
}

/// Why a federation could not start, or did not finish.
#[derive(Debug)]
pub enum FederationError {
    /// A listener could not be bound.
    Bind { what: String, source: String },
    /// A bound listener would not report its address.
    ListenerAddr { what: String, source: String },
    /// The server refused to start, or stopped with an error.
    Server { source: String },
    /// The server never answered that it is well, and did not fail either.
    ServerStartupTimeout { addr: String, timeout: Period },
    /// A node refused to start, or stopped with an error.
    Node { index: usize, client_id: String, source: String },
    /// A client returned an error.
    Client { index: usize, client_id: String, source: String },
    /// The run hit its deadline with clients still going.
    Stalled { timeout: Period, total: usize, unfinished: Vec<ClientProgress> },
    /// A task panicked.
    Panic { what: String, source: String },
}

/// What a [`FederationError`] holds.
pub enum Fault {
    Bind { what: Seq<char>, source: Seq<char> },
    ListenerAddr { what: Seq<char>, source: Seq<char> },
    Server { source: Seq<char> },
    ServerStartupTimeout { addr: Seq<char>, timeout: Period },
    Node { index: nat, client_id: Seq<char>, source: Seq<char> },
    Client { index: nat, client_id: Seq<char>, source: Seq<char> },
    Stalled { timeout: Period, total: nat, unfinished: Seq<Progress> },
    Panic { what: Seq<char>, source: Seq<char> },
}

impl View for FederationError {
    type V = Fault;

    open spec fn view(&self) -> Fault {
        match *self {
            FederationError::Bind { what, source } => Fault::Bind {
                what: what@,
                source: source@,
            },
            FederationError::ListenerAddr { what, source } => Fault::ListenerAddr {
                what: what@,
                source: source@,
            },
            FederationError::Server { source } => Fault::Server { source: source@ },
            FederationError::ServerStartupTimeout { addr, timeout } => Fault::ServerStartupTimeout {
                addr: addr@,
                timeout,
            },
            FederationError::Node { index, client_id, source } => Fault::Node {
                index: index as nat,
                client_id: client_id@,
                source: source@,
            },
            FederationError::Client { index, client_id, source } => Fault::Client {
                index: index as nat,
                client_id: client_id@,
                source: source@,
            },
            FederationError::Stalled { timeout, total, unfinished } => Fault::Stalled {
                timeout,
                total: total as nat,
                unfinished: progress(unfinished@),
            },
            FederationError::Panic { what, source } => Fault::Panic {
                what: what@,
                source: source@,
            },
        }
    }
}

impl Fault {
    /// Whether its spans of time are.
    pub open spec fn wf(self) -> bool {
        match self {
            Fault::ServerStartupTimeout { timeout, .. } => timeout.wf(),
            Fault::Stalled { timeout, .. } => timeout.wf(),
            _ => true,
        }
    }

    /// How the fault reads.
    pub open spec fn text(self) -> Seq<char> {
        match self {
            Fault::Bind { what, source } => "cannot bind a loopback listener for the "@ + what
                + ": "@ + source,
            Fault::ListenerAddr { what, source } => "the "@ + what
                + " listener would not report its own address: "@ + source,
            Fault::Server { source } => "the server failed: "@ + source,
            Fault::ServerStartupTimeout { addr, timeout } => "the server did not answer /health on "@
                + addr + " within "@ + timeout.shown()
                + ", and did not exit with an error either — it is bound but not serving"@,
            Fault::Node { index, client_id, source } => "node "@ + decimal(index) + " ("@
                + client_id + ") failed: "@ + source,
            Fault::Client { index, client_id, source } => "client "@ + decimal(index) + " ("@
                + client_id + ") failed: "@ + source,
            Fault::Stalled { timeout, total, unfinished } =>
                "the federation did not finish within "@ + timeout.shown() + ": "@ + decimal(
                unfinished.len(),
            ) + " of "@ + decimal(total) + " client(s) were still running — "@ + joined(
                progress_texts(unfinished),
                "; "@,
            ),
            Fault::Panic { what, source } => "the "@ + what + " task panicked: "@ + source,
        }
    }
}

fn progress_lines(list: &Vec<ClientProgress>) -> (r: Vec<String>)
    ensures
        texts(r@) == progress_texts(progress(list@)),
{
    let mut out: Vec<String> = Vec::new();
    let mut i: usize = 0;
    while i < list.len()
        invariant
            i <= list.len(),
            out.len() == i,
            forall|k: int| 0 <= k < i ==> (#[trigger] out@[k])@ == list@[k]@.text(),
        decreases list.len() - i,
    {
        out.push(list[i].text());
        i = i + 1;
    }
    proof {
        assert(texts(out@) =~= progress_texts(progress(list@)));
    }
    out
}

fn of_one(kind: &str, index: usize, client_id: &str, source: &str) -> (r: String)
    ensures
        r@ == kind@ + decimal(index as nat) + " ("@ + client_id@ + ") failed: "@ + source@,
{
    kind.to_owned().concat(decimal_text(index as u64).as_str()).concat(" (").concat(
        client_id,
    ).concat(") failed: ").concat(source)
}

impl FederationError {
    /// How the error reads.
    pub fn message(&self) -> (r: String)
        requires
            self@.wf(),
        ensures
            r@ == self@.text(),
    {
        match self {
            FederationError::Bind { what, source } =>
                "cannot bind a loopback listener for the ".to_owned().concat(
                what.as_str(),
            ).concat(": ").concat(source.as_str()),
            FederationError::ListenerAddr { what, source } => "the ".to_owned().concat(
                what.as_str(),
            ).concat(" listener would not report its own address: ").concat(source.as_str()),
            FederationError::Server { source } => "the server failed: ".to_owned().concat(
                source.as_str(),
            ),
            FederationError::ServerStartupTimeout { addr, timeout } =>
                "the server did not answer /health on ".to_owned().concat(addr.as_str()).concat(
                " within ",
            ).concat(timeout.text().as_str()).concat(
                ", and did not exit with an error either — it is bound but not serving",
            ),
            FederationError::Node { index, client_id, source } => of_one(
                "node ",
                *index,
                client_id.as_str(),
                source.as_str(),
            ),
            FederationError::Client { index, client_id, source } => of_one(
                "client ",
                *index,
                client_id.as_str(),
                source.as_str(),
            ),
            FederationError::Stalled { timeout, total, unfinished } =>
                "the federation did not finish within ".to_owned().concat(
                timeout.text().as_str(),
            ).concat(": ").concat(decimal_text(unfinished.len() as u64).as_str()).concat(
                " of ",
            ).concat(decimal_text(*total as u64).as_str()).concat(
                " client(s) were still running — ",
            ).concat(join(&progress_lines(unfinished), "; ").as_str()),
            FederationError::Panic { what, source } => "the ".to_owned().concat(
                what.as_str(),
            ).concat(" task panicked: ").concat(source.as_str()),
        }
    }
}

/// The request that asks a server whether it is well.
pub fn health_request(addr: &str) -> (r: String)
    ensures
        r@ == "GET /health HTTP/1.1\r\nHost: "@ + addr@ + "\r\nConnection: close\r\n\r\n"@,
{
    "GET /health HTTP/1.1\r\nHost: ".to_owned().concat(addr).concat(
        "\r\nConnection: close\r\n\r\n",
    )
}

/// Whether the answer says that it is.
pub fn is_healthy(response: &str) -> (r: bool)
    ensures
        r == "HTTP/1.1 200"@.is_prefix_of(response@),
{
    starts_with(response, "HTTP/1.1 200")
}

} // verus!
