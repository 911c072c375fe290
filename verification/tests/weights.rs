use conflux::delta::ClientDelta;
use conflux::error::AggregatorError;
use conflux::float::binary32::Binary32;
use conflux::float::binary64::Binary64;
use conflux::weights::{
    accumulate_scaled_difference, accumulate_weighted, decode_and_validate, decode_weights,
    encode_weights, MAX_PLAUSIBLE_SAMPLE_COUNT,
};

fn singles(values: &[f32]) -> Vec<Binary32> {
    values.iter().map(|x| Binary32::from_bits(x.to_bits())).collect()
}

fn sample(len: usize, offset: f32) -> Vec<f32> {
    (0..len)
        .map(|i| (i as f32 * 0.37 + offset) * if i % 3 == 0 { -1.234e3 } else { 5.678e-4 })
        .collect()
}

fn scalar_accumulate_weighted(acc: &mut [f32], src: &[f32], weight: f32) {
    for (a, s) in acc.iter_mut().zip(src) {
        *a += weight * s;
    }
}

fn scalar_accumulate_scaled_difference(
    acc: &mut [f64],
    src: &[f32],
    reference: &[f32],
    scale: f64,
) {
    for (a, (s, r)) in acc.iter_mut().zip(src.iter().zip(reference)) {
        *a += (*s as f64 - *r as f64) * scale;
    }
}

#[test]
fn accumulate_weighted_is_bit_identical_to_the_loop_it_replaced() {
    for len in [0, 1, 2, 7, 8, 9, 15, 16, 17, 31, 100, 1000, 1023] {
        for weight in [0.0, 1.0, -1.0, 0.25, 1e-7, 3.7e5] {
            let weight: f32 = weight;
            let src = sample(len, 1.0);
            let start = sample(len, -2.0);

            let mut helper = singles(&start);
            accumulate_weighted(&mut helper, &singles(&src), Binary32::from_bits(weight.to_bits()));

            let mut reference_out = start;
            scalar_accumulate_weighted(&mut reference_out, &src, weight);

            let helper_bits: Vec<u32> = helper.iter().map(|f| f.to_bits()).collect();
            let reference_bits: Vec<u32> = reference_out.iter().map(|f| f.to_bits()).collect();
            assert_eq!(
                helper_bits, reference_bits,
                "len={len} weight={weight}: the helper and the plain loop disagree"
            );
        }
    }
}

#[test]
fn accumulate_scaled_difference_is_bit_identical_to_the_loop_it_replaced() {
    for len in [0, 1, 7, 8, 9, 17, 100, 1000] {
        for scale in [0.0, 1.0, 0.125, -3.5] {
            let scale: f64 = scale;
            let src = sample(len, 1.0);
            let reference = sample(len, 0.5);
            let start: Vec<f64> = sample(len, -2.0).iter().map(|x| *x as f64).collect();

            let mut helper: Vec<Binary64> =
                start.iter().map(|x| Binary64::from_bits(x.to_bits())).collect();
            accumulate_scaled_difference(
                &mut helper,
                &singles(&src),
                &singles(&reference),
                Binary64::from_bits(scale.to_bits()),
            );

            let mut reference_out = start;
            scalar_accumulate_scaled_difference(&mut reference_out, &src, &reference, scale);

            let helper_bits: Vec<u64> = helper.iter().map(|f| f.to_bits()).collect();
            let reference_bits: Vec<u64> = reference_out.iter().map(|f| f.to_bits()).collect();
            assert_eq!(helper_bits, reference_bits, "len={len} scale={scale}");
        }
    }
}

#[test]
fn accumulate_weighted_handles_a_zero_length_input() {
    let mut acc: Vec<Binary32> = Vec::new();
    accumulate_weighted(&mut acc, &Vec::new(), Binary32::one());
    assert!(acc.is_empty());
}

#[test]
fn decoding_gives_back_what_was_encoded() {
    let values = singles(&[0.0, -0.0, 1.5, f32::MAX, f32::NAN, f32::NEG_INFINITY, 1e-45]);
    let bytes = encode_weights(&values);
    assert_eq!(bytes.len(), 28);
    assert_eq!(&bytes[8..12], &1.5f32.to_le_bytes());
    assert_eq!(decode_weights("a", &bytes).unwrap(), values);
}

#[test]
fn a_buffer_that_is_no_whole_number_of_weights_is_refused() {
    let err = decode_weights("short", &[0, 0, 0, 0, 1]).unwrap_err();
    assert_eq!(
        err.message(),
        "update short has malformed weights: 5 bytes is not a multiple of 4"
    );
}

fn update(client_id: &str, weights: &[f32], num_samples: u64) -> ClientDelta {
    ClientDelta {
        client_id: client_id.to_string(),
        round: 1,
        weights: encode_weights(&singles(weights)),
        num_samples,
        local_loss: None,
    }
}

#[test]
fn each_defect_of_a_batch_is_named() {
    let text = |batch: &[ClientDelta]| decode_and_validate(batch).unwrap_err().message();

    assert_eq!(
        text(&[update("a", &[1.0, 2.0], 1), update("b", &[1.0], 1)]),
        "update b has 1 weights, expected 2 (every update in a batch must have the same weight-vector length)"
    );
    assert_eq!(
        text(&[update("a", &[1.0, f32::NAN], 1)]),
        "update a contains a non-finite weight (NaN or infinity) at index 1"
    );
    assert!(text(&[update("a", &[1.0], MAX_PLAUSIBLE_SAMPLE_COUNT + 1)])
        .starts_with("update a reports "));
    assert!(matches!(
        decode_and_validate(&[update("a", &[1.0], MAX_PLAUSIBLE_SAMPLE_COUNT + 1)]),
        Err(AggregatorError::ImplausibleSampleCount { .. })
    ));
    assert!(decode_and_validate(&[update("a", &[1.0], MAX_PLAUSIBLE_SAMPLE_COUNT)]).is_ok());
}
