//! A federation with every participant in a process of its own: what is
//! started, what comes of it, and how failures read.
use vstd::prelude::*;
use crate::federation::lines::{indent_last_lines, indented, last_lines};
use crate::federation::period::Period;
use crate::federation::spawn::Spawn;
use crate::text::{decimal, decimal_text, join, joined, quote, quoted, texts};

verus! {

/// How many lines of a log a failure quotes.
pub const QUOTED_LINES: usize = 25;

/// One participant: a node, and the client that attaches to it.
#[derive(Debug)]
pub struct ProcessParticipant {
    /// The identity both halves present.
    pub client_id: String,
    /// The node.
    pub node: Spawn,
    /// The client.
    pub client: Spawn,
}

/// Everything needed to run one federation as processes.
#[derive(Debug)]
pub struct ProcessPlan {
    /// The server.
    pub server: Spawn,
    /// Every participant, in order.
    pub participants: Vec<ProcessParticipant>,
    /// Rounds each client is asked for.
    pub rounds: usize,
    /// How long any one participant may take to report its address.
    pub startup_timeout: Period,
    /// How long the clients have, all together.
    pub run_timeout: Period,
}

/// What one client process did.
#[derive(Debug)]
pub struct ProcessOutcome {
    /// Which participant.
    pub index: usize,
    /// Its identity.
    pub client_id: String,
    /// Its exit code; none where a signal ended it.
    pub exit_code: Option<i32>,
}

/// What a completed run did.
#[derive(Debug)]
pub struct ProcessSummary {
    /// One entry per client, in index order.
    pub clients: Vec<ProcessOutcome>,
    /// The server's transport address, as the server reported it.
    pub server_grpc_addr: String,
    /// The server's admin address.
    pub server_http_addr: String,
    /// Every command that was run, in order, as an operator types it.
    pub recipe: Vec<String>,
}

/// Why a federation of processes could not start, or did not finish.
#[derive(Debug)]
pub enum ProcessError {
    /// A process could not be started at all.
    Spawn { label: String, program: String, source: String },
    /// A process exited before it reported an address.
    DiedDuringStartup { label: String, status: String, log: String },
    /// A process neither reported an address nor exited.
    StartupTimeout { label: String, timeout: Period, log: String },
    /// A process reported something that is not an address.
    UnreadableAddrFile { label: String, key: &'static str, contents: String },
    /// A client exited with a failure.
    ClientFailed { index: usize, client_id: String, status: String, log: String },
    /// The clients did not all finish in time.
    Stalled { timeout: Period, total: usize, unfinished: Vec<String> },
    /// A log could not be created.
    Log { path: String, source: String },
}

/// What a [`ProcessError`] holds.
pub enum Failure {
    Spawn { label: Seq<char>, program: Seq<char>, source: Seq<char> },
    DiedDuringStartup { label: Seq<char>, status: Seq<char>, log: Seq<char> },
    StartupTimeout { label: Seq<char>, timeout: Period, log: Seq<char> },
    UnreadableAddrFile { label: Seq<char>, key: Seq<char>, contents: Seq<char> },
    ClientFailed { index: nat, client_id: Seq<char>, status: Seq<char>, log: Seq<char> },
    Stalled { timeout: Period, total: nat, unfinished: Seq<Seq<char>> },
    Log { path: Seq<char>, source: Seq<char> },
}

impl View for ProcessError {
    type V = Failure;

    open spec fn view(&self) -> Failure {
        match *self {
            ProcessError::Spawn { label, program, source } => Failure::Spawn {
                label: label@,
                program: program@,
                source: source@,
            },
            ProcessError::DiedDuringStartup { label, status, log } => Failure::DiedDuringStartup {
                label: label@,
                status: status@,
                log: log@,
            },
            ProcessError::StartupTimeout { label, timeout, log } => Failure::StartupTimeout {
                label: label@,
                timeout,
                log: log@,
            },
            ProcessError::UnreadableAddrFile { label, key, contents } =>
                Failure::UnreadableAddrFile { label: label@, key: key@, contents: contents@ },
            ProcessError::ClientFailed { index, client_id, status, log } => Failure::ClientFailed {
                index: index as nat,
                client_id: client_id@,
                status: status@,
                log: log@,
            },
            ProcessError::Stalled { timeout, total, unfinished } => Failure::Stalled {
                timeout,
                total: total as nat,
                unfinished: texts(unfinished@),
            },
            ProcessError::Log { path, source } => Failure::Log { path: path@, source: source@ },
        }
    }
}

impl Failure {
    /// Whether its spans of time are.
    pub open spec fn wf(self) -> bool {
        match self {
            Failure::StartupTimeout { timeout, .. } => timeout.wf(),
            Failure::Stalled { timeout, .. } => timeout.wf(),
            _ => true,
        }
    }

    /// How the failure reads.
    pub open spec fn text(self) -> Seq<char> {
        match self {
            Failure::Spawn { label, program, source } => "could not start "@ + label + " ("@
                + program + "): "@ + source,
            Failure::DiedDuringStartup { label, status, log } => label
                + " exited during startup with "@ + status + "\n"@ + log,
            Failure::StartupTimeout { label, timeout, log } => label
                + " did not report an address within "@ + timeout.shown() + "\n"@ + log,
            Failure::UnreadableAddrFile { label, key, contents } => label + " wrote "@ + quoted(
                contents,
            ) + " to its address file, which has no "@ + key + "= line"@,
            Failure::ClientFailed { index, client_id, status, log } => "client "@ + decimal(index)
                + " ("@ + client_id + ") failed with "@ + status + "\n"@ + log,
            Failure::Stalled { timeout, total, unfinished } =>
                "the federation did not finish within "@ + timeout.shown() + ": "@ + decimal(
                unfinished.len(),
            ) + " of "@ + decimal(total) + " client(s) were still running — "@ + joined(
                unfinished,
                ", "@,
            ),
            Failure::Log { path, source } => "could not open "@ + path + ": "@ + source,
        }
    }
}

impl ProcessError {
    /// How the failure reads.
    pub fn message(&self) -> (r: String)
        requires
            self@.wf(),
        ensures
            r@ == self@.text(),
    {
        match self {
            ProcessError::Spawn { label, program, source } => "could not start ".to_owned().concat(
                label.as_str(),
            ).concat(" (").concat(program.as_str()).concat("): ").concat(source.as_str()),
            ProcessError::DiedDuringStartup { label, status, log } => label.clone().concat(
                " exited during startup with ",
            ).concat(status.as_str()).concat("\n").concat(log.as_str()),
            ProcessError::StartupTimeout { label, timeout, log } => label.clone().concat(
                " did not report an address within ",
            ).concat(timeout.text().as_str()).concat("\n").concat(log.as_str()),
            ProcessError::UnreadableAddrFile { label, key, contents } => label.clone().concat(
                " wrote ",
            ).concat(quote(contents.as_str()).as_str()).concat(
                " to its address file, which has no ",
            ).concat(key).concat("= line"),
            ProcessError::ClientFailed { index, client_id, status, log } => "client ".to_owned().concat(
                decimal_text(*index as u64).as_str(),
            ).concat(" (").concat(client_id.as_str()).concat(") failed with ").concat(
                status.as_str(),
            ).concat("\n").concat(log.as_str()),
            ProcessError::Stalled { timeout, total, unfinished } =>
                "the federation did not finish within ".to_owned().concat(
                timeout.text().as_str(),
            ).concat(": ").concat(decimal_text(unfinished.len() as u64).as_str()).concat(
                " of ",
            ).concat(decimal_text(*total as u64).as_str()).concat(
                " client(s) were still running — ",
            ).concat(join(unfinished, ", ").as_str()),
            ProcessError::Log { path, source } => "could not open ".to_owned().concat(
                path.as_str(),
            ).concat(": ").concat(source.as_str()),
        }
    }
}

/// What reading a log gave.
#[derive(Debug)]
pub enum LogText {
    /// It could not be opened.
    Missing,
    /// It is not text.
    NotText,
    /// Its text.
    Text(String),
}

/// The last `count` lines of the log at `path`, for putting the reason of a
/// failure inside the failure.
pub open spec fn quoted_log(path: Seq<char>, log: LogText, count: nat) -> Seq<char> {
    match log {
        LogText::Missing => "  (no log at "@ + path + ")"@,
        LogText::NotText => "  (log at "@ + path + " is not text)"@,
        LogText::Text(text) => if last_lines(text@, count).len() == 0 {
            "  ("@ + path + " is empty)"@
        } else {
            "  --- "@ + path + " ---\n"@ + indented(last_lines(text@, count))
        },
    }
}

/// Quotes the last `count` lines of the log at `path`.
pub fn tail(path: &str, log: &LogText, count: usize) -> (r: String)
    ensures
        r@ == quoted_log(path@, *log, count as nat),
{
    match log {
        LogText::Missing => "  (no log at ".to_owned().concat(path).concat(")"),
        LogText::NotText => "  (log at ".to_owned().concat(path).concat(" is not text)"),
        LogText::Text(text) => match indent_last_lines(text.as_str(), count) {
            None => "  (".to_owned().concat(path).concat(" is empty)"),
            Some(kept) => "  --- ".to_owned().concat(path).concat(" ---\n").concat(kept.as_str()),
        },
    }
}

} // verus!
