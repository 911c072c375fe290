use conflux::net::jwt::{
    claims_for_client, form_claims, judge_token, read_claims, verify_token,
    verify_token_for_client, Claims, JwtAuthError, JwtKeyMaterial, RawClaims, TokenCheck,
};
use jsonwebtoken::{encode, Algorithm, EncodingKey, Header};
use rcgen::KeyPair;
use serde_json::value::RawValue;
use serde_json::Value;

struct TestKeys {
    public_pem: String,
    encoding: EncodingKey,
}

fn test_keys() -> TestKeys {
    let key_pair = KeyPair::generate().unwrap();
    TestKeys {
        public_pem: key_pair.public_key_pem(),
        encoding: EncodingKey::from_ec_pem(key_pair.serialize_pem().as_bytes()).unwrap(),
    }
}

fn now() -> u64 {
    std::time::SystemTime::now()
        .duration_since(std::time::UNIX_EPOCH)
        .unwrap()
        .as_secs()
}

fn object(members: &[(&str, Value)]) -> Value {
    let mut out = Value::Object(serde_json::value::Map::new());
    for (name, value) in members {
        out[*name] = value.clone();
    }
    out
}

fn sign_claims(keys: &TestKeys, claims: &[(&str, Value)]) -> String {
    encode(&Header::new(Algorithm::ES256), &object(claims), &keys.encoding).unwrap()
}

fn sign(keys: &TestKeys, sub: &str, exp: u64) -> String {
    sign_claims(
        keys,
        &[
            ("sub", Value::from(sub)),
            ("exp", Value::from(exp)),
            ("iat", Value::from(now())),
        ],
    )
}

#[test]
fn a_validly_signed_unexpired_token_verifies() {
    let keys = test_keys();
    let material = JwtKeyMaterial::from_public_key_pem(keys.public_pem.as_bytes()).unwrap();
    assert_eq!(material.algorithm(), "ES256");

    let claims =
        verify_token_for_client(&material, &sign(&keys, "node-1", now() + 3600), "node-1").unwrap();

    assert_eq!(claims.sub, "node-1");
    assert!(claims.iat.is_some());
}

#[test]
fn a_token_signed_by_a_different_key_is_rejected() {
    let issuer = test_keys();
    let impostor = test_keys();
    let material = JwtKeyMaterial::from_public_key_pem(issuer.public_pem.as_bytes()).unwrap();

    let err = verify_token(&material, &sign(&impostor, "node-1", now() + 3600))
        .expect_err("a token from an unknown issuer must not verify");

    assert!(matches!(err, JwtAuthError::BadSignature), "{err:?}");
}

#[test]
fn an_expired_token_is_rejected_and_says_so_specifically() {
    let keys = test_keys();
    let material = JwtKeyMaterial::from_public_key_pem(keys.public_pem.as_bytes()).unwrap();

    let err = verify_token(&material, &sign(&keys, "node-1", now() - 7200))
        .expect_err("an expired token must not verify");

    assert!(matches!(err, JwtAuthError::Expired), "{err:?}");
    assert_eq!(err.message(), "JWT is expired");
}

#[test]
fn a_valid_token_for_another_client_cannot_register_this_one() {
    let keys = test_keys();
    let material = JwtKeyMaterial::from_public_key_pem(keys.public_pem.as_bytes()).unwrap();
    let token = sign(&keys, "node-1", now() + 3600);

    verify_token(&material, &token).expect("the token itself is valid");
    let err = verify_token_for_client(&material, &token, "node-2")
        .expect_err("node-1's token must not authenticate node-2");

    match err {
        JwtAuthError::SubjectMismatch {
            token_sub,
            client_id,
        } => {
            assert_eq!(token_sub, "node-1");
            assert_eq!(client_id, "node-2");
        }
        other => panic!("expected a subject mismatch, got {other:?}"),
    }
}

#[test]
fn a_tampered_signature_is_rejected() {
    let keys = test_keys();
    let material = JwtKeyMaterial::from_public_key_pem(keys.public_pem.as_bytes()).unwrap();
    let token = sign(&keys, "node-1", now() + 3600);

    let (body, signature) = token.rsplit_once('.').unwrap();
    let mut bytes: Vec<char> = signature.chars().collect();
    bytes[0] = if bytes[0] == 'A' { 'B' } else { 'A' };
    let tampered = format!("{body}.{}", bytes.into_iter().collect::<String>());

    let err = verify_token(&material, &tampered).expect_err("a tampered token must not verify");
    assert!(
        matches!(
            err,
            JwtAuthError::BadSignature | JwtAuthError::Malformed { .. }
        ),
        "{err:?}"
    );
}

#[test]
fn a_token_with_no_expiry_is_rejected_rather_than_treated_as_never_expiring() {
    let keys = test_keys();
    let material = JwtKeyMaterial::from_public_key_pem(keys.public_pem.as_bytes()).unwrap();
    let token = sign_claims(&keys, &[("sub", Value::from("node-1"))]);

    let err = verify_token(&material, &token).expect_err("a token without exp must not be accepted");
    assert!(matches!(err, JwtAuthError::Malformed { .. }), "{err:?}");
}

#[test]
fn a_pem_that_is_not_a_usable_public_key_is_refused_at_load_time() {
    let err = JwtKeyMaterial::from_public_key_pem(
        b"-----BEGIN PUBLIC KEY-----\nnope\n-----END PUBLIC KEY-----",
    )
    .err()
    .expect("garbage is not a key");
    assert!(matches!(err, JwtAuthError::UnusableKey { .. }), "{err:?}");
}

#[test]
fn claims_of_another_form_are_malformed() {
    let keys = test_keys();
    let material = JwtKeyMaterial::from_public_key_pem(keys.public_pem.as_bytes()).unwrap();
    let later = Value::from(now() + 3600);

    for claims in [
        vec![("exp", later.clone())],
        vec![("sub", Value::from(5)), ("exp", later.clone())],
        vec![("sub", Value::from("node-1")), ("exp", Value::from("soon"))],
        vec![
            ("sub", Value::from("node-1")),
            ("exp", later.clone()),
            ("iat", Value::from("yesterday")),
        ],
    ] {
        let err = verify_token(&material, &sign_claims(&keys, &claims)).unwrap_err();
        assert!(matches!(err, JwtAuthError::Malformed { .. }), "{err:?}");
    }

    let bare = sign_claims(
        &keys,
        &[
            ("sub", Value::from("node-1")),
            ("exp", later),
            ("iat", Value::Null),
        ],
    );
    assert_eq!(verify_token(&material, &bare).unwrap().iat, None);
}

#[test]
fn a_token_cannot_choose_its_own_algorithm() {
    let keys = test_keys();
    let material = JwtKeyMaterial::from_public_key_pem(keys.public_pem.as_bytes()).unwrap();
    let claims = object(&[
        ("sub", Value::from("node-1")),
        ("exp", Value::from(now() + 3600)),
    ]);
    let token = encode(
        &Header::new(Algorithm::HS256),
        &claims,
        &EncodingKey::from_secret(keys.public_pem.as_bytes()),
    )
    .unwrap();

    match verify_token(&material, &token).unwrap_err() {
        JwtAuthError::WrongAlgorithm {
            expected,
            presented,
        } => {
            assert_eq!(expected, "ES256");
            assert_eq!(presented, "HS256");
        }
        other => panic!("expected WrongAlgorithm, got {other:?}"),
    }
}

#[test]
fn an_unreadable_token_is_malformed() {
    let keys = test_keys();
    let material = JwtKeyMaterial::from_public_key_pem(keys.public_pem.as_bytes()).unwrap();
    let err = verify_token(&material, "not a token").unwrap_err();
    assert!(matches!(err, JwtAuthError::Malformed { .. }), "{err:?}");
}

#[test]
fn every_end_of_a_check_is_answered() {
    let keys = test_keys();
    let material = JwtKeyMaterial::from_public_key_pem(keys.public_pem.as_bytes()).unwrap();
    let raw = RawClaims {
        sub: Some("\"node-1\"".to_string()),
        exp: Some("7".to_string()),
        iat: None,
    };
    let good = || TokenCheck::Verified(raw.clone());
    let read = || read_claims(&raw);
    let judge = |opened, read, held| judge_token(&material, "t", opened, read, held);

    let claims = judge(good(), read(), good()).unwrap();
    assert_eq!((claims.sub.as_str(), claims.exp, claims.iat), ("node-1", 7, None));
    assert!(matches!(
        judge(good(), read(), TokenCheck::ExpiredSignature),
        Err(JwtAuthError::Expired)
    ));
    assert!(matches!(
        judge(TokenCheck::InvalidSignature, read(), good()),
        Err(JwtAuthError::BadSignature)
    ));
    match judge(TokenCheck::InvalidAlgorithm, read(), good()) {
        Err(JwtAuthError::WrongAlgorithm { presented, .. }) => {
            assert_eq!(presented, "an unreadable algorithm");
        }
        other => panic!("expected WrongAlgorithm, got {other:?}"),
    }
    match judge(good(), read(), TokenCheck::Other("no".to_string())) {
        Err(JwtAuthError::Malformed { message }) => assert_eq!(message, "no"),
        other => panic!("expected Malformed, got {other:?}"),
    }
    match judge(good(), Err("bad".to_string()), good()) {
        Err(JwtAuthError::Malformed { message }) => assert_eq!(message, "bad"),
        other => panic!("expected Malformed, got {other:?}"),
    }
}

#[test]
fn claims_are_made_of_their_parts() {
    let text = |s: &str| Some(Ok(s.to_string()));
    let bad = || Err("w".to_string());
    let claims = form_claims(text("a"), Some(Ok(1)), Some(Ok(2))).unwrap();
    assert_eq!((claims.sub.as_str(), claims.exp, claims.iat), ("a", 1, Some(2)));
    assert_eq!(form_claims(text("a"), Some(Ok(1)), None).unwrap().iat, None);
    let said = |r: Result<Claims, String>| r.unwrap_err();
    assert_eq!(said(form_claims(None, None, None)), "JSON error: missing field `sub`");
    assert_eq!(said(form_claims(text("a"), None, None)), "JSON error: missing field `exp`");
    assert_eq!(said(form_claims(Some(bad()), None, None)), "JSON error: w");
    assert_eq!(said(form_claims(text("a"), Some(Err("w".to_string())), None)), "JSON error: w");
    assert_eq!(
        said(form_claims(text("a"), Some(Ok(1)), Some(Err("w".to_string())))),
        "JSON error: w"
    );
}

#[test]
fn claims_that_nobody_reads_do_not_matter() {
    let keys = test_keys();
    let material = JwtKeyMaterial::from_public_key_pem(keys.public_pem.as_bytes()).unwrap();
    let deep = format!("{}{}", "[".repeat(500), "]".repeat(500));
    for (extra, iat) in [
        (deep.as_str(), "null"),
        ("1e999", "5"),
        ("{\"sub\":7}", "5"),
    ] {
        let text = format!(
            "{{\"sub\":\"node\\u002d1\",\"exp\":{},\"iat\":{iat},\"extra\":{extra}}}",
            now() + 3600
        );
        let claims = RawValue::from_string(text).unwrap();
        let token = encode(&Header::new(Algorithm::ES256), &claims, &keys.encoding).unwrap();
        let claims = verify_token_for_client(&material, &token, "node-1").unwrap();
        assert_eq!(claims.iat, if iat == "null" { None } else { Some(5) });
    }
}

#[test]
fn an_ill_formed_claim_is_named_in_the_decoders_words() {
    let keys = test_keys();
    let material = JwtKeyMaterial::from_public_key_pem(keys.public_pem.as_bytes()).unwrap();
    let exp = Value::from(now() + 3600);
    let token = sign_claims(&keys, &[("sub", Value::from(7)), ("exp", exp.clone())]);
    match verify_token(&material, &token) {
        Err(JwtAuthError::Malformed { message }) => assert!(
            message.starts_with("JSON error: invalid type: integer `7`, expected a string"),
            "{message}"
        ),
        other => panic!("expected Malformed, got {other:?}"),
    }
    let token = sign_claims(
        &keys,
        &[("sub", Value::from("a")), ("exp", exp), ("iat", Value::from("x"))],
    );
    match verify_token(&material, &token) {
        Err(JwtAuthError::Malformed { message }) => assert!(
            message.starts_with("JSON error: invalid type: string \"x\", expected u64"),
            "{message}"
        ),
        other => panic!("expected Malformed, got {other:?}"),
    }
}

#[test]
fn claims_are_given_to_their_own_subject_alone() {
    let claims = Claims {
        sub: "node-1".to_string(),
        exp: 7,
        iat: Some(3),
    };
    assert!(claims_for_client(claims.clone(), "node-1").is_ok());
    let err = claims_for_client(claims, "node-2").unwrap_err();
    assert_eq!(
        err.message(),
        "JWT is valid but issued for client node-1, not node-2"
    );
}
