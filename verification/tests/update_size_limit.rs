use std::sync::Arc;

use conflux::net::dispatcher::{DispatchError, StatusCode};
use conflux::net::message::DeltaChunk;
use conflux::net::service::{FlTransportService, DEFAULT_MAX_UPDATE_BYTES};

fn chunk(index: u32, total: u32, bytes: usize) -> DeltaChunk {
    DeltaChunk {
        client_id: "greedy-client".to_string(),
        round: 1,
        chunk_index: index,
        total_chunks: total,
        data: vec![0u8; bytes],
        num_samples: 10,
        control_variate: None,
    }
}

fn service(max_update_bytes: u64) -> FlTransportService<()> {
    FlTransportService::new(Arc::new(())).with_max_update_bytes(max_update_bytes)
}

#[test]
fn the_default_bound_is_finite_and_not_zero() {
    assert_eq!(DEFAULT_MAX_UPDATE_BYTES, 256 * 1024 * 1024);
    assert_eq!(
        FlTransportService::new(Arc::new(())).max_update_bytes,
        DEFAULT_MAX_UPDATE_BYTES
    );
}

#[test]
fn a_stream_past_the_limit_is_refused_and_never_reaches_the_dispatcher() {
    let mut intake = service(1024).open_intake();
    let mut refused = None;
    for i in 0..40 {
        if let Err(e) = intake.accept(chunk(i, 40, 256)) {
            refused = Some((i, e));
            break;
        }
    }

    let (at, err) = refused.expect("oversized stream was accepted");
    assert_eq!(at, 4);
    let status = err.to_status();
    assert_eq!(status.code, StatusCode::ResourceExhausted);
    assert!(status.message.contains("greedy-client"));
    assert!(status.message.contains("1024"));
    assert!(matches!(
        err,
        DispatchError::UpdateTooLarge {
            limit_bytes: 1024,
            received_bytes: 1280,
            ..
        }
    ));
}

#[test]
fn a_stream_within_the_limit_is_delivered_intact() {
    let chunks: Vec<DeltaChunk> = (0..3).map(|i| chunk(i, 3, 100)).collect();
    let delivered = service(1024).collect(chunks).unwrap();

    assert_eq!(delivered.len(), 3);
    for (i, piece) in delivered.iter().enumerate() {
        assert_eq!(piece.chunk_index as usize, i);
        assert_eq!(piece.data.len(), 100);
    }
}

#[test]
fn the_limit_is_inclusive_at_exactly_the_bound() {
    let exact = service(512).collect(vec![chunk(0, 1, 512)]);
    assert!(exact.is_ok());

    let one_over = service(512).collect(vec![chunk(0, 1, 513)]);
    assert!(one_over.is_err());
}

#[test]
fn the_limit_counts_control_variate_bytes_not_just_data() {
    let flood: Vec<DeltaChunk> = (0..40)
        .map(|i| DeltaChunk {
            data: vec![0u8; 16],
            control_variate: Some(vec![0u8; 256]),
            ..chunk(i, 40, 0)
        })
        .collect();

    let err = service(1024).collect(flood).unwrap_err();

    assert_eq!(err.to_status().code, StatusCode::ResourceExhausted);
}

#[test]
fn a_scaffold_sized_submission_within_the_limit_is_accepted() {
    let submission: Vec<DeltaChunk> = (0..8)
        .map(|i| DeltaChunk {
            data: vec![0u8; 128],
            control_variate: Some(vec![0u8; 128]),
            ..chunk(i, 8, 0)
        })
        .collect();

    assert_eq!(service(4096).collect(submission).unwrap().len(), 8);
}
