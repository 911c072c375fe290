use conflux::net::dispatcher::{DispatchError, StatusCode};
use conflux::net::peer_identity::{certificate_fingerprint, hex_text, peer_cert_fingerprint};
use conflux::net::sidecar::answer_for_round;

#[test]
fn round_closed_maps_to_failed_precondition_not_internal() {
    assert_eq!(
        DispatchError::RoundClosed.to_status().code,
        StatusCode::FailedPrecondition
    );
}

#[test]
fn unknown_client_maps_to_not_found_status() {
    let status = DispatchError::UnknownClient("ghost".to_string()).to_status();
    assert_eq!(status.code, StatusCode::NotFound);
    assert!(status.message.contains("ghost"));
}

#[test]
fn every_refusal_has_its_own_code() {
    let code = |e: DispatchError| e.to_status().code;
    assert_eq!(
        code(DispatchError::NotAllowed("a".to_string())),
        StatusCode::PermissionDenied
    );
    assert_eq!(
        code(DispatchError::Unauthenticated("a".to_string())),
        StatusCode::Unauthenticated
    );
    assert_eq!(
        code(DispatchError::UpdateTooLarge {
            client_id: "a".to_string(),
            limit_bytes: 1,
            received_bytes: 2,
        }),
        StatusCode::ResourceExhausted
    );
    assert_eq!(
        code(DispatchError::Other("a".to_string())),
        StatusCode::Internal
    );
}

#[test]
fn a_fingerprint_is_the_sha_256_of_the_leaf_in_hexadecimal() {
    assert_eq!(
        certificate_fingerprint(b"abc"),
        "ba7816bf8f01cfea414140de5dae2223b00361a396177a9cb410ff61f20015ad"
    );
    assert_eq!(
        certificate_fingerprint(b""),
        "e3b0c44298fc1c149afbf4c8996fb92427ae41e4649b934ca495991b7852b855"
    );
    let chain = vec![b"abc".to_vec(), b"issuer".to_vec()];
    assert_eq!(
        peer_cert_fingerprint(Some(&chain)),
        Some(certificate_fingerprint(b"abc"))
    );
    assert_eq!(peer_cert_fingerprint(Some(&Vec::new())), None);
    assert_eq!(peer_cert_fingerprint(None), None);
    assert_eq!(hex_text(&[0x00, 0x0f, 0xa9, 0xff]), "000fa9ff");
}

#[test]
fn an_answer_for_another_round_is_refused() {
    assert_eq!(answer_for_round(3, 3, "weights").unwrap(), "weights");
    let err = answer_for_round(3, 2, "weights").unwrap_err();
    assert!(err
        .message()
        .starts_with("trusted-reference sidecar answered for round 2, but round 3 was asked"));
}
