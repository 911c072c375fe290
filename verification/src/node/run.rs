//! The stages of a node's life, and why one could not be passed.
use vstd::prelude::*;
use crate::node::settings::NodeConfig;
use crate::node::startup_guard::{ClientAppKind, RuntimeMode, StartupGuardError, STUB_REFUSED_TEXT};
use crate::text::{quote, quoted};

verus! {

/// Why a node could not start, or could not finish cleanly.
#[derive(Debug)]
pub enum RunError {
    /// The placeholder client is not permitted in this configuration.
    StartupGuard(StartupGuardError),
    /// A variable is set but malformed.
    InvalidVar { var: String, value: String, message: String },
    /// The server could not be reached.
    Connect(String),
    /// The server refused this node's registration.
    Register(String),
    /// The local listener could not take its address.
    Bind { addr: String, source: String },
    /// The local listener would not say what address it is bound to.
    ListenerAddr { source: String },
    /// The local server stopped with an error.
    LocalServer(String),
}

impl RunError {
    /// How the error reads.
    pub open spec fn text(self) -> Seq<char> {
        match self {
            RunError::StartupGuard(_) => STUB_REFUSED_TEXT@,
            RunError::InvalidVar { var, value, message } => var@ + "="@ + quoted(value@)
                + " is not valid: "@ + message@,
            RunError::Connect(e) => "failed to connect to conflux-server: "@ + e@,
            RunError::Register(e) => "failed to register with conflux-server: "@ + e@,
            RunError::Bind { addr, source } => "cannot bind the local listener on "@ + addr@
                + ": "@ + source@,
            RunError::ListenerAddr { source } =>
                "the local listener would not report its own address: "@ + source@,
            RunError::LocalServer(e) => "local grpc server failed: "@ + e@,
        }
    }

    /// How the error reads.
    pub fn message(&self) -> (r: String)
        ensures
            r@ == self.text(),
    {
        match self {
            RunError::StartupGuard(e) => e.message().to_owned(),
            RunError::InvalidVar { var, value, message } => var.clone().concat("=").concat(
                quote(value.as_str()).as_str(),
            ).concat(" is not valid: ").concat(message.as_str()),
            RunError::Connect(e) => "failed to connect to conflux-server: ".to_owned().concat(
                e.as_str(),
            ),
            RunError::Register(e) => "failed to register with conflux-server: ".to_owned().concat(
                e.as_str(),
            ),
            RunError::Bind { addr, source } => "cannot bind the local listener on ".to_owned().concat(
                addr.as_str(),
            ).concat(": ").concat(source.as_str()),
            RunError::ListenerAddr { source } =>
                "the local listener would not report its own address: ".to_owned().concat(
                source.as_str(),
            ),
            RunError::LocalServer(e) => "local grpc server failed: ".to_owned().concat(e.as_str()),
        }
    }
}

/// What a node is busy with.
#[derive(Clone, Copy, Debug, PartialEq, Eq, Structural)]
pub enum Stage {
    /// Taking its local address. A node that cannot get its port fails
    /// without first announcing itself to a server.
    Binding,
    /// Reaching the server.
    Connecting,
    /// Registering with it.
    Registering,
    /// Asking its listener for the address it is bound to.
    Listening,
    /// Serving its client.
    Serving,
    /// Nothing more.
    Stopped,
}

/// Whether a configuration asks for production on the placeholder client
/// without the override.
pub open spec fn is_refused(config: NodeConfig) -> bool {
    config.mode == RuntimeMode::Production && !config.allow_stub_client && config.client_app_kind
        == ClientAppKind::Stub
}

impl NodeConfig {
    /// The stage of a node whose listener is bound: none where the
    /// configuration is refused, wherever it came from.
    pub fn first_stage(&self) -> (r: Result<Stage, RunError>)
        ensures
            r is Err <==> is_refused(*self),
            r is Err ==> r->Err_0 == RunError::StartupGuard(
                StartupGuardError::ProductionRefusesStubClient,
            ),
            r is Ok ==> r->Ok_0 == Stage::Connecting,
    {
        match self.may_start() {
            Err(e) => Err(RunError::StartupGuard(e)),
            Ok(()) => Ok(Stage::Connecting),
        }
    }

    /// What follows a stage. `outcome` holds what went wrong in it, where
    /// something did.
    pub fn next_stage(&self, stage: Stage, outcome: Result<(), String>) -> (r: Result<
        Stage,
        RunError,
    >)
        ensures
            r == match (stage, outcome) {
                (Stage::Binding, Ok(_)) => if is_refused(*self) {
                    Err(RunError::StartupGuard(StartupGuardError::ProductionRefusesStubClient))
                } else {
                    Ok(Stage::Connecting)
                },
                (Stage::Connecting, Ok(_)) => Ok(Stage::Registering),
                (Stage::Registering, Ok(_)) => Ok(Stage::Listening),
                (Stage::Listening, Ok(_)) => Ok(Stage::Serving),
                (Stage::Serving, Ok(_)) => Ok(Stage::Stopped),
                (Stage::Binding, Err(e)) => Err(
                    RunError::Bind { addr: self.local_addr, source: e },
                ),
                (Stage::Connecting, Err(e)) => Err(RunError::Connect(e)),
                (Stage::Registering, Err(e)) => Err(RunError::Register(e)),
                (Stage::Listening, Err(e)) => Err(RunError::ListenerAddr { source: e }),
                (Stage::Serving, Err(e)) => Err(RunError::LocalServer(e)),
                (Stage::Stopped, _) => Ok(Stage::Stopped),
            },
    {
        match (stage, outcome) {
            (Stage::Binding, Ok(())) => self.first_stage(),
            (Stage::Connecting, Ok(())) => Ok(Stage::Registering),
            (Stage::Registering, Ok(())) => Ok(Stage::Listening),
            (Stage::Listening, Ok(())) => Ok(Stage::Serving),
            (Stage::Serving, Ok(())) => Ok(Stage::Stopped),
            (Stage::Binding, Err(e)) => Err(
                RunError::Bind { addr: self.local_addr.clone(), source: e },
            ),
            (Stage::Connecting, Err(e)) => Err(RunError::Connect(e)),
            (Stage::Registering, Err(e)) => Err(RunError::Register(e)),
            (Stage::Listening, Err(e)) => Err(RunError::ListenerAddr { source: e }),
            (Stage::Serving, Err(e)) => Err(RunError::LocalServer(e)),
            (Stage::Stopped, _) => Ok(Stage::Stopped),
        }
    }
}

} // verus!
