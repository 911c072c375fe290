//! Checking the tokens that registrations carry.
//!
//! Verification only, and asymmetric only: a key verifies the one algorithm
//! it was loaded for, whatever a token claims about itself.
use vstd::prelude::*;
use jsonwebtoken::errors::ErrorKind;
use jsonwebtoken::{decode, Algorithm, Validation};
use serde_json::value::RawValue;
use std::collections::HashMap;
use crate::text::same_text;

verus! {

/// `jsonwebtoken::DecodingKey`, carried through unopened.
#[verifier::external_type_specification]
#[verifier::external_body]
pub struct ExDecodingKey(jsonwebtoken::DecodingKey);

/// The registered claims that are read.
#[derive(Debug, Clone)]
pub struct Claims {
    /// Whom the token authenticates.
    pub sub: String,
    /// When it expires, in seconds since the epoch.
    pub exp: u64,
    /// When it was issued, where it says so.
    pub iat: Option<u64>,
}

/// What claims say, as mathematical values.
pub struct ClaimsView {
    pub sub: Seq<char>,
    pub exp: u64,
    pub iat: Option<u64>,
}

impl View for Claims {
    type V = ClaimsView;

    open spec fn view(&self) -> ClaimsView {
        ClaimsView { sub: self.sub@, exp: self.exp, iat: self.iat }
    }
}

/// The algorithms a key can verify.
#[derive(Debug, Clone, Copy, PartialEq, Eq, Structural)]
pub enum KeyAlgorithm {
    Rs256,
    Es256,
}

impl KeyAlgorithm {
    /// The registered name.
    pub open spec fn label(self) -> Seq<char> {
        match self {
            KeyAlgorithm::Rs256 => "RS256"@,
            KeyAlgorithm::Es256 => "ES256"@,
        }
    }

    /// The registered name.
    pub fn name(self) -> (r: &'static str)
        ensures
            r@ == self.label(),
    {
        match self {
            KeyAlgorithm::Rs256 => "RS256",
            KeyAlgorithm::Es256 => "ES256",
        }
    }
}

/// Why a key or a token is refused.
#[derive(Debug)]
pub enum JwtAuthError {
    /// The key is neither of the kinds that can be used.
    UnusableKey { message: String },
    /// The token has expired.
    Expired,
    /// The signature does not verify.
    BadSignature,
    /// The token is signed with another algorithm than the key verifies.
    WrongAlgorithm { expected: String, presented: String },
    /// The token is malformed or lacks a required claim.
    Malformed { message: String },
    /// The token is genuine and authenticates somebody else.
    SubjectMismatch { token_sub: String, client_id: String },
    /// Production with token authentication was started without a key.
    ProductionRequiresJwtKey,
}

/// What a token error says, as mathematical values.
pub enum JwtRefusal {
    UnusableKey { message: Seq<char> },
    Expired,
    BadSignature,
    WrongAlgorithm { expected: Seq<char>, presented: Seq<char> },
    Malformed { message: Seq<char> },
    SubjectMismatch { token_sub: Seq<char>, client_id: Seq<char> },
    ProductionRequiresJwtKey,
}

impl View for JwtAuthError {
    type V = JwtRefusal;

    open spec fn view(&self) -> JwtRefusal {
        match *self {
            JwtAuthError::UnusableKey { message } => JwtRefusal::UnusableKey { message: message@ },
            JwtAuthError::Expired => JwtRefusal::Expired,
            JwtAuthError::BadSignature => JwtRefusal::BadSignature,
            JwtAuthError::WrongAlgorithm { expected, presented } => JwtRefusal::WrongAlgorithm {
                expected: expected@,
                presented: presented@,
            },
            JwtAuthError::Malformed { message } => JwtRefusal::Malformed { message: message@ },
            JwtAuthError::SubjectMismatch { token_sub, client_id } => JwtRefusal::SubjectMismatch {
                token_sub: token_sub@,
                client_id: client_id@,
            },
            JwtAuthError::ProductionRequiresJwtKey => JwtRefusal::ProductionRequiresJwtKey,
        }
    }
}

impl JwtRefusal {
    /// The error in words.
    pub open spec fn text(self) -> Seq<char> {
        match self {
            JwtRefusal::UnusableKey { message } =>
                "JWT public key is neither an RSA nor an ECDSA key in PEM form (expected a PEM-encoded public key for RS256 or ES256): "@
                + message,
            JwtRefusal::Expired => "JWT is expired"@,
            JwtRefusal::BadSignature =>
                "JWT signature is not valid for the configured public key"@,
            JwtRefusal::WrongAlgorithm { expected, presented } => "JWT is signed with "@ + presented
                + ", but this deployment's key verifies "@ + expected
                + " — refusing to verify a token that chose its own algorithm"@,
            JwtRefusal::Malformed { message } =>
                "JWT is malformed or missing a required claim: "@ + message,
            JwtRefusal::SubjectMismatch { token_sub, client_id } =>
                "JWT is valid but issued for client "@ + token_sub + ", not "@ + client_id,
            JwtRefusal::ProductionRequiresJwtKey =>
                "mode = production with auth = jwt requires a JWT public key (set CONFLUX_JWT_PUBLIC_KEY_PATH) — refusing to start a production deployment that would accept any auth_token without verifying it"@,
        }
    }
}

impl JwtAuthError {
    /// The error in words.
    pub fn message(&self) -> (r: String)
        ensures
            r@ == self@.text(),
    {
        match self {
            JwtAuthError::UnusableKey { message } =>
                "JWT public key is neither an RSA nor an ECDSA key in PEM form (expected a PEM-encoded public key for RS256 or ES256): ".to_owned().concat(
                message.as_str(),
            ),
            JwtAuthError::Expired => "JWT is expired".to_owned(),
            JwtAuthError::BadSignature =>
                "JWT signature is not valid for the configured public key".to_owned(),
            JwtAuthError::WrongAlgorithm { expected, presented } => "JWT is signed with ".to_owned().concat(
                presented.as_str(),
            ).concat(", but this deployment's key verifies ").concat(expected.as_str()).concat(
                " — refusing to verify a token that chose its own algorithm",
            ),
            JwtAuthError::Malformed { message } =>
                "JWT is malformed or missing a required claim: ".to_owned().concat(
                message.as_str(),
            ),
            JwtAuthError::SubjectMismatch { token_sub, client_id } =>
                "JWT is valid but issued for client ".to_owned().concat(token_sub.as_str()).concat(
                ", not ",
            ).concat(client_id.as_str()),
            JwtAuthError::ProductionRequiresJwtKey =>
                "mode = production with auth = jwt requires a JWT public key (set CONFLUX_JWT_PUBLIC_KEY_PATH) — refusing to start a production deployment that would accept any auth_token without verifying it".to_owned(),
        }
    }
}

/// The RSA key a PEM document holds; none where it holds no such key.
pub uninterp spec fn rsa_pem_key(pem: Seq<u8>) -> Option<jsonwebtoken::DecodingKey>;

/// The ECDSA public key a PEM document holds, or what is said where it holds
/// no such key.
pub uninterp spec fn ec_pem_key(pem: Seq<u8>) -> Result<jsonwebtoken::DecodingKey, Seq<char>>;

/// The algorithm a token's header names; none where the header cannot be read.
pub uninterp spec fn header_algorithm(token: Seq<char>) -> Option<Seq<char>>;

/// `jsonwebtoken::DecodingKey::from_rsa_pem`. Believed of it: whether it
/// succeeds, and with which key, is a function of the document alone.
#[verifier::external_body]
fn read_rsa_pem(pem: &[u8]) -> (r: Option<jsonwebtoken::DecodingKey>)
    ensures
        r == rsa_pem_key(pem@),
{
    jsonwebtoken::DecodingKey::from_rsa_pem(pem).ok()
}

/// `jsonwebtoken::DecodingKey::from_ec_pem`, its error as text. Believed of
/// it: whether it succeeds, with which key or which words, is a function of
/// the document alone.
#[verifier::external_body]
fn read_ec_pem(pem: &[u8]) -> (r: Result<jsonwebtoken::DecodingKey, String>)
    ensures
        match r {
            Ok(k) => ec_pem_key(pem@) == Ok::<jsonwebtoken::DecodingKey, Seq<char>>(k),
            Err(m) => ec_pem_key(pem@) == Err::<jsonwebtoken::DecodingKey, Seq<char>>(m@),
        },
{
    jsonwebtoken::DecodingKey::from_ec_pem(pem).map_err(|e| e.to_string())
}

/// `jsonwebtoken::decode_header`, the name of the algorithm it gives.
/// Believed of it: that is a function of the token alone.
#[verifier::external_body]
fn read_header_algorithm(token: &str) -> (r: Option<String>)
    ensures
        match r {
            Some(a) => header_algorithm(token@) == Some(a@),
            None => header_algorithm(token@) is None,
        },
{
    jsonwebtoken::decode_header(token).ok().map(|h| format!("{:?}", h.alg))
}

/// A public key and the one algorithm it may verify.
pub struct JwtKeyMaterial {
    pub decoding_key: jsonwebtoken::DecodingKey,
    pub bound: KeyAlgorithm,
}

impl JwtKeyMaterial {
    /// Loads a public key. Its own kind decides the algorithm: an RSA key
    /// verifies RS256, an ECDSA key ES256. RSA is tried first.
    pub fn from_public_key_pem(pem: &[u8]) -> (r: Result<JwtKeyMaterial, JwtAuthError>)
        ensures
            match r {
                Ok(k) => if rsa_pem_key(pem@) is Some {
                    k.decoding_key == rsa_pem_key(pem@)->0 && k.bound == KeyAlgorithm::Rs256
                } else {
                    ec_pem_key(pem@) is Ok && k.decoding_key == ec_pem_key(pem@)->Ok_0 && k.bound
                        == KeyAlgorithm::Es256
                },
                Err(e) => rsa_pem_key(pem@) is None && ec_pem_key(pem@) is Err && e@ == (
                JwtRefusal::UnusableKey { message: ec_pem_key(pem@)->Err_0 }),
            },
    {
        match read_rsa_pem(pem) {
            Some(decoding_key) => Ok(
                JwtKeyMaterial { decoding_key, bound: KeyAlgorithm::Rs256 },
            ),
            None => key_from_attempts(read_ec_pem(pem)),
        }
    }

    /// The name of the algorithm the key verifies.
    pub fn algorithm(&self) -> (r: &'static str)
        ensures
            r@ == self.bound.label(),
    {
        self.bound.name()
    }
}

/// What is made of the ECDSA attempt where the RSA one failed.
pub fn key_from_attempts(ec: Result<jsonwebtoken::DecodingKey, String>) -> (r: Result<
    JwtKeyMaterial,
    JwtAuthError,
>)
    ensures
        match (ec, r) {
            (Ok(key), Ok(k)) => k.decoding_key == key && k.bound == KeyAlgorithm::Es256,
            (Err(m), Err(e)) => e@ == (JwtRefusal::UnusableKey { message: m@ }),
            _ => false,
        },
{
    match ec {
        Ok(decoding_key) => Ok(JwtKeyMaterial { decoding_key, bound: KeyAlgorithm::Es256 }),
        Err(message) => Err(JwtAuthError::UnusableKey { message }),
    }
}

/// What a token is held to besides its signature.
#[derive(Debug)]
pub struct TokenRules {
    /// The one algorithm it may be signed with.
    pub algorithm: KeyAlgorithm,
    /// The claims it must have.
    pub required_claims: Vec<&'static str>,
    /// Whether its expiry must not have passed.
    pub validate_exp: bool,
    /// Whether it must name an audience.
    pub validate_aud: bool,
}

impl JwtKeyMaterial {
    /// What a token is held to under this key: its expiry and its subject
    /// must be there, and the expiry must not have passed. No audience is
    /// asked for.
    pub fn rules(&self) -> (r: TokenRules)
        ensures
            r.algorithm == self.bound,
            r.required_claims.len() == 2,
            r.required_claims[0]@ == "exp"@,
            r.required_claims[1]@ == "sub"@,
            r.validate_exp,
            !r.validate_aud,
    {
        TokenRules {
            algorithm: self.bound,
            required_claims: vec!["exp", "sub"],
            validate_exp: true,
            validate_aud: false,
        }
    }

    /// What is asked of a token before its claims are looked at: that it is
    /// signed by this key.
    fn signature_rules(&self) -> (r: TokenRules)
        ensures
            r.algorithm == self.bound,
            r.required_claims.len() == 0,
            !r.validate_exp,
            !r.validate_aud,
    {
        TokenRules {
            algorithm: self.bound,
            required_claims: Vec::new(),
            validate_exp: false,
            validate_aud: false,
        }
    }
}

/// The claims of a token as they stand in it, each as JSON text where it is
/// there.
#[derive(Debug, Clone)]
pub struct RawClaims {
    /// The subject.
    pub sub: Option<String>,
    /// The expiry.
    pub exp: Option<String>,
    /// When it was issued.
    pub iat: Option<String>,
}

/// What [`RawClaims`] hold.
pub struct RawClaimsView {
    pub sub: Option<Seq<char>>,
    pub exp: Option<Seq<char>>,
    pub iat: Option<Seq<char>>,
}

/// What an optional text holds.
pub open spec fn optional(text: Option<String>) -> Option<Seq<char>> {
    match text {
        Some(t) => Some(t@),
        None => None,
    }
}

impl View for RawClaims {
    type V = RawClaimsView;

    open spec fn view(&self) -> RawClaimsView {
        RawClaimsView {
            sub: optional(self.sub),
            exp: optional(self.exp),
            iat: optional(self.iat),
        }
    }
}

/// The text that a JSON text stands for, or what is said where it stands for
/// none.
pub uninterp spec fn json_text(json: Seq<char>) -> Result<Seq<char>, Seq<char>>;

/// The whole number from zero up that a JSON text stands for, or what is said
/// where it stands for none.
pub uninterp spec fn json_number(json: Seq<char>) -> Result<u64, Seq<char>>;

/// `serde_json::from_str` into a text, its error as text. Believed of it: what
/// it gives is a function of the JSON text alone.
#[verifier::external_body]
fn read_json_text(json: &str) -> (r: Result<String, String>)
    ensures
        match r {
            Ok(t) => json_text(json@) == Ok::<Seq<char>, Seq<char>>(t@),
            Err(m) => json_text(json@) == Err::<Seq<char>, Seq<char>>(m@),
        },
{
    serde_json::from_str::<String>(json).map_err(|e| e.to_string())
}

/// `serde_json::from_str` into a whole number, its error as text. Believed of
/// it: what it gives is a function of the JSON text alone.
#[verifier::external_body]
fn read_json_number(json: &str) -> (r: Result<u64, String>)
    ensures
        match r {
            Ok(n) => json_number(json@) == Ok::<u64, Seq<char>>(n),
            Err(m) => json_number(json@) == Err::<u64, Seq<char>>(m@),
        },
{
    serde_json::from_str::<u64>(json).map_err(|e| e.to_string())
}

/// How decoding a token ended.
#[derive(Debug)]
pub enum TokenCheck {
    /// The token meets what it is held to.
    Verified(RawClaims),
    /// The expiry lies in the past.
    ExpiredSignature,
    /// The signature does not verify.
    InvalidSignature,
    /// The token names another algorithm.
    InvalidAlgorithm,
    /// Anything else, in words.
    Other(String),
}

/// What is wrong with a token, as mathematical values.
pub enum TokenFault {
    Expired,
    InvalidSignature,
    InvalidAlgorithm,
    Other(Seq<char>),
}

/// What a check of a token holds.
pub open spec fn check_outcome(check: TokenCheck) -> Result<RawClaimsView, TokenFault> {
    match check {
        TokenCheck::Verified(c) => Ok(c@),
        TokenCheck::ExpiredSignature => Err(TokenFault::Expired),
        TokenCheck::InvalidSignature => Err(TokenFault::InvalidSignature),
        TokenCheck::InvalidAlgorithm => Err(TokenFault::InvalidAlgorithm),
        TokenCheck::Other(m) => Err(TokenFault::Other(m@)),
    }
}

/// What a token signed with `algorithm` holds that verifies under `key`, or
/// why it does not.
pub uninterp spec fn opened_token(
    key: jsonwebtoken::DecodingKey,
    algorithm: KeyAlgorithm,
    token: Seq<char>,
) -> Result<RawClaimsView, TokenFault>;

/// `jsonwebtoken::decode`, with each claim left as JSON text; of a claim that
/// stands there twice, the last. Believed of it: algorithm, signature and structure are looked at first, and what comes of
/// that is a function of the key, the algorithm and the token alone; only a
/// token that passes is held to the rules, where no audience is asked for it
/// can then fail by its expiry or by a claim that is missing or ill-formed,
/// and where nothing is asked for it passes. A token with a subject and an
/// expiry, of which no other claim is required, can fail by its expiry alone.
/// A token that passes names the algorithm of the rules in its header. Whether
/// an expiry has passed depends on the clock, so nothing is said of that.
#[verifier::external_body]
fn decode_token(key: &jsonwebtoken::DecodingKey, rules: &TokenRules, token: &str) -> (r: TokenCheck)
    ensures
        opened_token(*key, rules.algorithm, token@) is Err ==> check_outcome(r) == opened_token(
            *key,
            rules.algorithm,
            token@,
        ),
        opened_token(*key, rules.algorithm, token@) is Ok && !rules.validate_aud ==> (check_outcome(
            r,
        ) == opened_token(*key, rules.algorithm, token@) || r is ExpiredSignature || r is Other),
        opened_token(*key, rules.algorithm, token@) is Ok && !rules.validate_aud && opened_token(
            *key,
            rules.algorithm,
            token@,
        )->Ok_0.sub is Some && json_text(
            opened_token(*key, rules.algorithm, token@)->Ok_0.sub->0,
        ) is Ok && opened_token(*key, rules.algorithm, token@)->Ok_0.exp is Some && json_number(
            opened_token(*key, rules.algorithm, token@)->Ok_0.exp->0,
        ) is Ok && (forall|i: int|
            0 <= i < rules.required_claims@.len() ==> (#[trigger] rules.required_claims@[i])@
                == "exp"@ || rules.required_claims@[i]@ == "sub"@) ==> (check_outcome(r)
            == opened_token(*key, rules.algorithm, token@) || r is ExpiredSignature),
        opened_token(*key, rules.algorithm, token@) is Ok && !rules.validate_aud
            && !rules.validate_exp && rules.required_claims@.len() == 0 ==> check_outcome(r)
            == opened_token(*key, rules.algorithm, token@),
        r is ExpiredSignature ==> rules.validate_exp,
        r is Verified ==> header_algorithm(token@) == Some(rules.algorithm.label()),
{
    let mut validation = Validation::new(match rules.algorithm {
        KeyAlgorithm::Rs256 => Algorithm::RS256,
        KeyAlgorithm::Es256 => Algorithm::ES256 });
    validation.set_required_spec_claims(&rules.required_claims);
    validation.validate_exp = rules.validate_exp;
    validation.validate_aud = rules.validate_aud;
    match decode::<HashMap<String, Box<RawValue>>>(token, key, &validation).map(|d| d.claims) {
        Ok(c) => TokenCheck::Verified(RawClaims { sub: c.get("sub").map(ToString::to_string), exp: c.get("exp").map(ToString::to_string), iat: c.get("iat").map(ToString::to_string) }),
        Err(e) => match e.kind() {
            ErrorKind::ExpiredSignature => TokenCheck::ExpiredSignature,
            ErrorKind::InvalidSignature => TokenCheck::InvalidSignature,
            ErrorKind::InvalidAlgorithm => TokenCheck::InvalidAlgorithm,
            _ => TokenCheck::Other(e.to_string()),
        },
    }
}

/// Stands for the algorithm of a token whose header cannot be read.
pub const UNREADABLE_ALGORITHM: &'static str = "an unreadable algorithm";

/// What is said of a claim that is not there.
pub open spec fn missing(name: Seq<char>) -> Seq<char> {
    "JSON error: missing field `"@ + name + "`"@
}

/// What is said of a claim that cannot be read.
pub open spec fn unreadable(words: Seq<char>) -> Seq<char> {
    "JSON error: "@ + words
}

/// The claims made of what reading each of them gave, or what is said where
/// one is missing or cannot be read.
pub open spec fn formed_of(
    sub: Option<Result<Seq<char>, Seq<char>>>,
    exp: Option<Result<u64, Seq<char>>>,
    iat: Option<Result<u64, Seq<char>>>,
) -> Result<ClaimsView, Seq<char>> {
    match (sub, exp, iat) {
        (None, _, _) => Err(missing("sub"@)),
        (Some(Err(m)), _, _) => Err(unreadable(m)),
        (_, None, _) => Err(missing("exp"@)),
        (_, Some(Err(m)), _) => Err(unreadable(m)),
        (_, _, Some(Err(m))) => Err(unreadable(m)),
        (Some(Ok(sub)), Some(Ok(exp)), None) => Ok(ClaimsView { sub, exp, iat: None }),
        (Some(Ok(sub)), Some(Ok(exp)), Some(Ok(iat))) => Ok(
            ClaimsView { sub, exp, iat: Some(iat) },
        ),
    }
}

/// The claims, where they are of the form they must have. A `null` in place
/// of when the token was issued says nothing.
pub open spec fn formed(raw: RawClaimsView) -> Result<ClaimsView, Seq<char>> {
    formed_of(
        match raw.sub {
            Some(t) => Some(json_text(t)),
            None => None,
        },
        match raw.exp {
            Some(t) => Some(json_number(t)),
            None => None,
        },
        match raw.iat {
            Some(t) => if t == "null"@ {
                None
            } else {
                Some(json_number(t))
            },
            None => None,
        },
    )
}

/// What reading a text gave, as mathematical values.
pub open spec fn text_read(r: Option<Result<String, String>>) -> Option<
    Result<Seq<char>, Seq<char>>,
> {
    match r {
        Some(Ok(t)) => Some(Ok(t@)),
        Some(Err(m)) => Some(Err(m@)),
        None => None,
    }
}

/// What reading a number gave, as mathematical values.
pub open spec fn number_read(r: Option<Result<u64, String>>) -> Option<Result<u64, Seq<char>>> {
    match r {
        Some(Ok(n)) => Some(Ok(n)),
        Some(Err(m)) => Some(Err(m@)),
        None => None,
    }
}

/// What forming claims gave, as mathematical values.
pub open spec fn form_outcome(r: Result<Claims, String>) -> Result<ClaimsView, Seq<char>> {
    match r {
        Ok(c) => Ok(c@),
        Err(m) => Err(m@),
    }
}

/// Makes claims of what reading each of them gave.
pub fn form_claims(
    sub: Option<Result<String, String>>,
    exp: Option<Result<u64, String>>,
    iat: Option<Result<u64, String>>,
) -> (r: Result<Claims, String>)
    ensures
        form_outcome(r) == formed_of(text_read(sub), number_read(exp), number_read(iat)),
{
    match (sub, exp, iat) {
        (None, _, _) => Err("JSON error: missing field `".to_owned().concat("sub").concat("`")),
        (Some(Err(m)), _, _) => Err("JSON error: ".to_owned().concat(m.as_str())),
        (_, None, _) => Err("JSON error: missing field `".to_owned().concat("exp").concat("`")),
        (_, Some(Err(m)), _) => Err("JSON error: ".to_owned().concat(m.as_str())),
        (_, _, Some(Err(m))) => Err("JSON error: ".to_owned().concat(m.as_str())),
        (Some(Ok(sub)), Some(Ok(exp)), None) => Ok(Claims { sub, exp, iat: None }),
        (Some(Ok(sub)), Some(Ok(exp)), Some(Ok(iat))) => Ok(Claims { sub, exp, iat: Some(iat) }),
    }
}

/// Reads claims.
pub fn read_claims(raw: &RawClaims) -> (r: Result<Claims, String>)
    ensures
        form_outcome(r) == formed(raw@),
{
    let sub: Option<Result<String, String>> = match &raw.sub {
        Some(t) => Some(read_json_text(t.as_str())),
        None => None,
    };
    let exp: Option<Result<u64, String>> = match &raw.exp {
        Some(t) => Some(read_json_number(t.as_str())),
        None => None,
    };
    let iat: Option<Result<u64, String>> = match &raw.iat {
        Some(t) => if same_text(t.as_str(), "null") {
            None
        } else {
            Some(read_json_number(t.as_str()))
        },
        None => None,
    };
    form_claims(sub, exp, iat)
}

/// The refusal of a token for what is wrong with it.
pub open spec fn refusal(bound: KeyAlgorithm, token: Seq<char>, fault: TokenFault) -> JwtRefusal {
    match fault {
        TokenFault::Expired => JwtRefusal::Expired,
        TokenFault::InvalidSignature => JwtRefusal::BadSignature,
        TokenFault::InvalidAlgorithm => JwtRefusal::WrongAlgorithm {
            expected: bound.label(),
            presented: match header_algorithm(token) {
                Some(a) => a,
                None => UNREADABLE_ALGORITHM@,
            },
        },
        TokenFault::Other(m) => JwtRefusal::Malformed { message: m },
    }
}

/// What a token comes to: what opening it gave, then what reading its claims
/// gave, then what holding it to the rules gave.
pub open spec fn token_outcome(
    bound: KeyAlgorithm,
    token: Seq<char>,
    opened: Result<RawClaimsView, TokenFault>,
    read: Result<ClaimsView, Seq<char>>,
    held: Result<RawClaimsView, TokenFault>,
) -> Result<ClaimsView, JwtRefusal> {
    match (opened, read, held) {
        (Err(fault), _, _) => Err(refusal(bound, token, fault)),
        (Ok(_), Err(message), _) => Err(JwtRefusal::Malformed { message }),
        (Ok(_), Ok(_), Err(fault)) => Err(refusal(bound, token, fault)),
        (Ok(_), Ok(claims), Ok(_)) => Ok(claims),
    }
}

/// What a token check returned, as mathematical values.
pub open spec fn claims_outcome(r: Result<Claims, JwtAuthError>) -> Result<ClaimsView, JwtRefusal> {
    match r {
        Ok(c) => Ok(c@),
        Err(e) => Err(e@),
    }
}

/// Turns what is wrong with a token into its refusal; `None` where nothing
/// is.
fn refuse(key: &JwtKeyMaterial, token: &str, check: TokenCheck) -> (r: Result<
    RawClaims,
    JwtAuthError,
>)
    ensures
        match r {
            Ok(c) => check_outcome(check) == Ok::<RawClaimsView, TokenFault>(c@),
            Err(e) => check_outcome(check) is Err && e@ == refusal(
                key.bound,
                token@,
                check_outcome(check)->Err_0,
            ),
        },
{
    match check {
        TokenCheck::Verified(c) => Ok(c),
        TokenCheck::ExpiredSignature => Err(JwtAuthError::Expired),
        TokenCheck::InvalidSignature => Err(JwtAuthError::BadSignature),
        TokenCheck::InvalidAlgorithm => Err(
            wrong_algorithm(key, read_header_algorithm(token)),
        ),
        TokenCheck::Other(message) => Err(JwtAuthError::Malformed { message }),
    }
}

/// Decides on a token from what opening it, reading its claims and holding it
/// to the rules gave.
pub fn judge_token(
    key: &JwtKeyMaterial,
    token: &str,
    opened: TokenCheck,
    read: Result<Claims, String>,
    held: TokenCheck,
) -> (r: Result<Claims, JwtAuthError>)
    ensures
        claims_outcome(r) == token_outcome(
            key.bound,
            token@,
            check_outcome(opened),
            form_outcome(read),
            check_outcome(held),
        ),
{
    match refuse(key, token, opened) {
        Err(e) => Err(e),
        Ok(_) => match read {
            Err(message) => Err(JwtAuthError::Malformed { message }),
            Ok(claims) => match refuse(key, token, held) {
                Err(e) => Err(e),
                Ok(_) => Ok(claims),
            },
        },
    }
}

/// Whether `r` is a possible answer to a token of which `wanted` is asked: a
/// token that does not open under the key, or whose claims are ill-formed, is
/// refused for that; any other is refused as expired, or answered as its
/// claims ask.
pub open spec fn answers(
    key: jsonwebtoken::DecodingKey,
    bound: KeyAlgorithm,
    token: Seq<char>,
    wanted: spec_fn(ClaimsView) -> Result<ClaimsView, JwtRefusal>,
    r: Result<ClaimsView, JwtRefusal>,
) -> bool {
    match opened_token(key, bound, token) {
        Err(fault) => r == Err::<ClaimsView, JwtRefusal>(refusal(bound, token, fault)),
        Ok(raw) => match formed(raw) {
            Err(message) => r == Err::<ClaimsView, JwtRefusal>(JwtRefusal::Malformed { message }),
            Ok(claims) => {
                ||| r == wanted(claims)
                ||| r == Err::<ClaimsView, JwtRefusal>(JwtRefusal::Expired)
            },
        },
    }
}

/// Any claims do.
pub open spec fn anyone() -> spec_fn(ClaimsView) -> Result<ClaimsView, JwtRefusal> {
    |c: ClaimsView| Ok(c)
}

/// The claims must be those of `client_id`.
pub open spec fn issued_for(client_id: Seq<char>) -> spec_fn(ClaimsView) -> Result<
    ClaimsView,
    JwtRefusal,
> {
    |c: ClaimsView|
        if c.sub == client_id {
            Ok(c)
        } else {
            Err(JwtRefusal::SubjectMismatch { token_sub: c.sub, client_id })
        }
}

/// Verifies a token's signature, structure and expiry. Whom the token is for
/// is not asked here.
pub fn verify_token(key: &JwtKeyMaterial, token: &str) -> (r: Result<Claims, JwtAuthError>)
    ensures
        answers(key.decoding_key, key.bound, token@, anyone(), claims_outcome(r)),
        r is Ok ==> header_algorithm(token@) == Some(key.bound.label()),
{
    let opened: TokenCheck = decode_token(&key.decoding_key, &key.signature_rules(), token);
    let read: Result<Claims, String> = match &opened {
        TokenCheck::Verified(raw) => read_claims(raw),
        _ => Err(String::new()),
    };
    let held: TokenCheck = decode_token(&key.decoding_key, &key.rules(), token);
    judge_token(key, token, opened, read, held)
}

/// The refusal of a token that presents another algorithm.
pub fn wrong_algorithm(key: &JwtKeyMaterial, presented: Option<String>) -> (r: JwtAuthError)
    ensures
        r@ == (JwtRefusal::WrongAlgorithm {
            expected: key.bound.label(),
            presented: match presented {
                Some(a) => a@,
                None => UNREADABLE_ALGORITHM@,
            },
        }),
{
    JwtAuthError::WrongAlgorithm {
        expected: key.algorithm().to_owned(),
        presented: match presented {
            Some(a) => a,
            None => UNREADABLE_ALGORITHM.to_owned(),
        },
    }
}

/// Claims, if they are the client's own.
pub fn claims_for_client(claims: Claims, client_id: &str) -> (r: Result<Claims, JwtAuthError>)
    ensures
        match r {
            Ok(c) => claims.sub@ == client_id@ && c == claims,
            Err(e) => claims.sub@ != client_id@ && e@ == (JwtRefusal::SubjectMismatch {
                token_sub: claims.sub@,
                client_id: client_id@,
            }),
        },
{
    let wanted: String = client_id.to_owned();
    if claims.sub == wanted {
        Ok(claims)
    } else {
        Err(JwtAuthError::SubjectMismatch { token_sub: claims.sub, client_id: wanted })
    }
}

/// `verify_token`, and that the token was issued for the client that presents
/// it.
pub fn verify_token_for_client(key: &JwtKeyMaterial, token: &str, client_id: &str) -> (r: Result<
    Claims,
    JwtAuthError,
>)
    ensures
        answers(key.decoding_key, key.bound, token@, issued_for(client_id@), claims_outcome(r)),
        r is Ok ==> header_algorithm(token@) == Some(key.bound.label()) && r->Ok_0.sub@
            == client_id@,
{
    match verify_token(key, token) {
        Ok(claims) => claims_for_client(claims, client_id),
        Err(e) => Err(e),
    }
}

} // verus!
