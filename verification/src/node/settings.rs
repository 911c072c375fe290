//! A node's configuration, resolved from the values of its environment.
use vstd::prelude::*;
use crate::float::binary32::Binary32;
use crate::node::bridge::ConnectionMode;
use crate::node::startup_guard::{validate_client_app_startup, ClientAppKind, RuntimeMode, StartupGuardError};
use crate::privacy::mechanism::GaussianClippingPrivacy;
use crate::text::same_text;

verus! {

/// The credential where none is configured.
pub const PLACEHOLDER_AUTH_TOKEN: &'static str = "node-auth-token";

/// The server where none is configured.
pub const DEFAULT_SERVER_ADDR: &'static str = "http://127.0.0.1:50051";

/// The identity where none is configured.
pub const DEFAULT_CLIENT_ID: &'static str = "node-1";

/// The local address where none is configured.
pub const DEFAULT_LOCAL_ADDR: &'static str = "127.0.0.1:47100";

/// What is said of a half-set TLS configuration.
pub const INVALID_TLS_TEXT: &'static str = "invalid TLS config. Set either nothing (plaintext); CONFLUX_TLS_SERVER_CA_PATH + CONFLUX_TLS_DOMAIN (server-authenticated TLS); or all four, adding CONFLUX_TLS_CLIENT_CERT_PATH + CONFLUX_TLS_CLIENT_KEY_PATH (mTLS)";

/// The values of the environment a node reads; none where a variable is not
/// set.
#[derive(Debug)]
pub struct NodeEnvironment {
    pub mode: Option<String>,
    pub allow_stub_client: Option<String>,
    pub client_app_kind: Option<String>,
    pub connection_mode: Option<String>,
    pub client_side_privacy_transform: Option<String>,
    pub clip_norm: Option<Binary32>,
    pub noise_multiplier: Option<Binary32>,
    pub server_addr: Option<String>,
    pub client_id: Option<String>,
    pub local_addr: Option<String>,
    pub seed_value: Option<u64>,
    pub auth_token: Option<String>,
    pub tls: TlsPaths,
}

/// The values that decide how the upstream hop is secured.
#[derive(Debug)]
pub struct TlsPaths {
    pub client_cert: Option<String>,
    pub client_key: Option<String>,
    pub server_ca: Option<String>,
    pub domain: Option<String>,
}

/// How the upstream hop is secured.
#[derive(Debug)]
pub enum ClientTls {
    /// Not at all.
    Plaintext,
    /// The server is verified; the node shows no certificate.
    ServerAuth { server_ca: String, domain: String },
    /// Both sides show a certificate.
    Mutual { client_cert: String, client_key: String, server_ca: String, domain: String },
}

impl ClientTls {
    /// A short word for logs.
    pub fn label(&self) -> (r: &'static str)
        ensures
            r@ == match *self {
                ClientTls::Plaintext => "off"@,
                ClientTls::ServerAuth { .. } => "server-auth"@,
                ClientTls::Mutual { .. } => "mutual"@,
            },
    {
        match self {
            ClientTls::Plaintext => "off",
            ClientTls::ServerAuth { .. } => "server-auth",
            ClientTls::Mutual { .. } => "mutual",
        }
    }

    /// Another such value.
    pub fn duplicate(&self) -> (r: ClientTls)
        ensures
            r == *self,
    {
        match self {
            ClientTls::Plaintext => ClientTls::Plaintext,
            ClientTls::ServerAuth { server_ca, domain } => ClientTls::ServerAuth {
                server_ca: server_ca.clone(),
                domain: domain.clone(),
            },
            ClientTls::Mutual { client_cert, client_key, server_ca, domain } => ClientTls::Mutual {
                client_cert: client_cert.clone(),
                client_key: client_key.clone(),
                server_ca: server_ca.clone(),
                domain: domain.clone(),
            },
        }
    }
}

/// Whether exactly nothing, the two values of the server side, or all four
/// are set.
pub open spec fn tls_complete(p: TlsPaths) -> bool {
    &&& (p.server_ca is Some) == (p.domain is Some)
    &&& (p.client_cert is Some) == (p.client_key is Some)
    &&& p.client_cert is Some ==> p.server_ca is Some
}

impl TlsPaths {
    /// Whether the configuration is not merely half set.
    pub fn is_complete(&self) -> (r: bool)
        ensures
            r == tls_complete(*self),
    {
        self.server_ca.is_some() == self.domain.is_some() && self.client_cert.is_some()
            == self.client_key.is_some() && (self.client_cert.is_none()
            || self.server_ca.is_some())
    }
}

/// How a complete configuration secures the upstream hop.
pub open spec fn secures(paths: TlsPaths, tls: ClientTls) -> bool {
    match tls {
        ClientTls::Plaintext => paths.client_cert is None && paths.client_key is None
            && paths.server_ca is None && paths.domain is None,
        ClientTls::ServerAuth { server_ca, domain } => paths.client_cert is None
            && paths.client_key is None && paths.server_ca == Some(server_ca) && paths.domain
            == Some(domain),
        ClientTls::Mutual { client_cert, client_key, server_ca, domain } => paths.client_cert
            == Some(client_cert) && paths.client_key == Some(client_key) && paths.server_ca
            == Some(server_ca) && paths.domain == Some(domain),
    }
}

/// Decides how the upstream hop is secured. A configuration that is only half
/// set is shut out, so that it is never taken for plaintext.
pub fn resolve_client_tls(paths: TlsPaths) -> (r: ClientTls)
    requires
        tls_complete(paths),
    ensures
        secures(paths, r),
{
    match (paths.client_cert, paths.client_key, paths.server_ca, paths.domain) {
        (None, None, None, None) => ClientTls::Plaintext,
        (None, None, Some(server_ca), Some(domain)) => ClientTls::ServerAuth { server_ca, domain },
        (Some(client_cert), Some(client_key), Some(server_ca), Some(domain)) => {
            ClientTls::Mutual { client_cert, client_key, server_ca, domain }
        },
        _ => vstd::pervasive::unreached(),
    }
}

/// Everything a node needs.
#[derive(Debug)]
pub struct NodeConfig {
    /// How strict the deployment is.
    pub mode: RuntimeMode,
    /// Whether the placeholder client is permitted.
    pub allow_stub_client: bool,
    /// Which kind of client will connect.
    pub client_app_kind: ClientAppKind,
    /// The server to register with.
    pub server_addr: String,
    /// The node's identity.
    pub client_id: String,
    /// Where the local hop listens.
    pub local_addr: String,
    /// How the node learns of its tasks.
    pub connection_mode: ConnectionMode,
    /// The transform of updates that leave the node.
    pub local_privacy: Option<GaussianClippingPrivacy>,
    /// The seed of its noise.
    pub privacy_seed: Option<u64>,
    /// The credential shown at registration.
    pub auth_token: String,
    /// How the upstream hop is secured.
    pub client_tls: ClientTls,
}

/// Whether a value is set to `text`.
pub open spec fn is_set_to(value: Option<String>, text: Seq<char>) -> bool {
    value is Some && value->0@ == text
}

fn reads(value: &Option<String>, text: &str) -> (r: bool)
    ensures
        r == is_set_to(*value, text@),
{
    match value {
        Some(v) => same_text(v.as_str(), text),
        None => false,
    }
}

/// The value, or `otherwise` where it is not set.
pub open spec fn text_or(value: Option<String>, otherwise: Seq<char>) -> Seq<char> {
    match value {
        Some(v) => v@,
        None => otherwise,
    }
}

fn take_or(value: Option<String>, otherwise: &str) -> (r: String)
    ensures
        r@ == text_or(value, otherwise@),
{
    match value {
        Some(v) => v,
        None => otherwise.to_owned(),
    }
}

fn number_or_one(value: Option<Binary32>) -> (r: Binary32)
    ensures
        r == match value {
            Some(x) => x,
            None => Binary32::unit(),
        },
{
    match value {
        Some(x) => x,
        None => Binary32::one(),
    }
}

impl NodeEnvironment {
    /// The mode: research unless production is named.
    pub open spec fn resolved_mode(self) -> RuntimeMode {
        if is_set_to(self.mode, "production"@) {
            RuntimeMode::Production
        } else {
            RuntimeMode::Research
        }
    }

    /// Whether updates are transformed before they leave the node.
    pub fn wants_privacy(&self) -> (r: bool)
        ensures
            r == is_set_to(self.client_side_privacy_transform, "true"@),
    {
        reads(&self.client_side_privacy_transform, "true")
    }
}

impl NodeConfig {
    /// Resolves a configuration from the environment; `None` where its TLS
    /// part is only half set.
    pub fn from_env(env: NodeEnvironment) -> (r: Option<NodeConfig>)
        ensures
            r is Some <==> tls_complete(env.tls),
            r is Some ==> {
                let c = r->0;
                &&& c.mode == env.resolved_mode()
                &&& c.allow_stub_client == if is_set_to(env.allow_stub_client, "true"@) {
                    true
                } else if is_set_to(env.allow_stub_client, "false"@) {
                    false
                } else {
                    c.mode == RuntimeMode::Research
                }
                &&& c.client_app_kind == if is_set_to(env.client_app_kind, "real"@) {
                    ClientAppKind::Real
                } else {
                    ClientAppKind::Stub
                }
                &&& c.connection_mode == if is_set_to(env.connection_mode, "push"@) {
                    ConnectionMode::Push
                } else {
                    ConnectionMode::Pull
                }
                &&& c.local_privacy == if is_set_to(
                    env.client_side_privacy_transform,
                    "true"@,
                ) {
                    Some(
                        GaussianClippingPrivacy {
                            clip_norm: match env.clip_norm {
                                Some(x) => x,
                                None => Binary32::unit(),
                            },
                            noise_multiplier: match env.noise_multiplier {
                                Some(x) => x,
                                None => Binary32::unit(),
                            },
                        },
                    )
                } else {
                    None
                }
                &&& c.server_addr@ == text_or(env.server_addr, DEFAULT_SERVER_ADDR@)
                &&& c.client_id@ == text_or(env.client_id, DEFAULT_CLIENT_ID@)
                &&& c.local_addr@ == text_or(env.local_addr, DEFAULT_LOCAL_ADDR@)
                &&& c.privacy_seed == env.seed_value
                &&& c.auth_token@ == text_or(env.auth_token, PLACEHOLDER_AUTH_TOKEN@)
                &&& secures(env.tls, c.client_tls)
            },
    {
        if !env.tls.is_complete() {
            return None;
        }
        let mode: RuntimeMode = if reads(&env.mode, "production") {
            RuntimeMode::Production
        } else {
            RuntimeMode::Research
        };
        let allow_stub_client: bool = if reads(&env.allow_stub_client, "true") {
            true
        } else if reads(&env.allow_stub_client, "false") {
            false
        } else {
            mode == RuntimeMode::Research
        };
        let client_app_kind: ClientAppKind = if reads(&env.client_app_kind, "real") {
            ClientAppKind::Real
        } else {
            ClientAppKind::Stub
        };
        let connection_mode: ConnectionMode = if reads(&env.connection_mode, "push") {
            ConnectionMode::Push
        } else {
            ConnectionMode::Pull
        };
        let local_privacy: Option<GaussianClippingPrivacy> = if env.wants_privacy() {
            Some(
                GaussianClippingPrivacy {
                    clip_norm: number_or_one(env.clip_norm),
                    noise_multiplier: number_or_one(env.noise_multiplier),
                },
            )
        } else {
            None
        };
        Some(
            NodeConfig {
                mode,
                allow_stub_client,
                client_app_kind,
                server_addr: take_or(env.server_addr, DEFAULT_SERVER_ADDR),
                client_id: take_or(env.client_id, DEFAULT_CLIENT_ID),
                local_addr: take_or(env.local_addr, DEFAULT_LOCAL_ADDR),
                connection_mode,
                local_privacy,
                privacy_seed: env.seed_value,
                auth_token: take_or(env.auth_token, PLACEHOLDER_AUTH_TOKEN),
                client_tls: resolve_client_tls(env.tls),
            },
        )
    }

    /// Whether the configuration may run. The guard stands here and not in
    /// the reading of the environment, so that a configuration built in code
    /// clears the same bar.
    pub fn may_start(&self) -> (r: Result<(), StartupGuardError>)
        ensures
            r is Err <==> self.mode == RuntimeMode::Production && !self.allow_stub_client
                && self.client_app_kind == ClientAppKind::Stub,
            r is Err ==> r->Err_0 == StartupGuardError::ProductionRefusesStubClient,
    {
        validate_client_app_startup(self.mode, self.allow_stub_client, self.client_app_kind)
    }

    /// Whether a real credential is configured.
    pub fn has_custom_auth_token(&self) -> (r: bool)
        ensures
            r == (self.auth_token@ != PLACEHOLDER_AUTH_TOKEN@),
    {
        !same_text(self.auth_token.as_str(), PLACEHOLDER_AUTH_TOKEN)
    }
}

} // verus!
