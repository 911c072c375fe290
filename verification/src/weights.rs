//! Decoding a batch of updates, and the accumulation every combine step
//! reduces to.
use vstd::prelude::*;
use crate::delta::{batch_of, picked, ClientDelta, Delta};
use crate::error::{AggregatorError, Rejection};
use crate::float::binary32::Binary32;
use crate::float::binary64::Binary64;

verus! {

/// The largest sample count a client may report: two to the fortieth.
pub const MAX_PLAUSIBLE_SAMPLE_COUNT: u64 = 1_099_511_627_776;

/// The `i`-th little-endian word of `bytes`.
pub open spec fn word_at(bytes: Seq<u8>, i: int) -> u32 {
    (bytes[4 * i] + 0x100 * bytes[4 * i + 1] + 0x1_0000 * bytes[4 * i + 2] + 0x100_0000 * bytes[4
        * i + 3]) as u32
}

/// The numbers a weight buffer holds; a rest shorter than a word is no number.
pub open spec fn decoded(bytes: Seq<u8>) -> Seq<Binary32> {
    Seq::new(bytes.len() / 4, |i: int| Binary32 { bits: word_at(bytes, i) })
}

/// Byte `k` of `word`, the lowest first.
pub open spec fn byte_of(word: u32, k: int) -> u8 {
    if k == 0 {
        (word % 0x100) as u8
    } else if k == 1 {
        (word / 0x100 % 0x100) as u8
    } else if k == 2 {
        (word / 0x1_0000 % 0x100) as u8
    } else {
        (word / 0x100_0000) as u8
    }
}

/// The buffer that holds `weights`.
pub open spec fn encoded(weights: Seq<Binary32>) -> Seq<u8> {
    Seq::new(4 * weights.len(), |i: int| byte_of(weights[i / 4].bits, i % 4))
}

/// A word is its four bytes.
pub proof fn lemma_bytes_make_the_word(word: u32)
    ensures
        byte_of(word, 0) + 0x100 * byte_of(word, 1) + 0x1_0000 * byte_of(word, 2) + 0x100_0000
            * byte_of(word, 3) == word,
{
}

/// Decoding what was encoded gives the weights back.
pub proof fn decoding_undoes_encoding(weights: Seq<Binary32>)
    ensures
        decoded(encoded(weights)) == weights,
{
    let bytes = encoded(weights);
    assert forall|i: int| 0 <= i < weights.len() implies decoded(bytes)[i] == weights[i] by {
        let w = weights[i].bits;
        lemma_bytes_make_the_word(w);
        assert(bytes[4 * i] == byte_of(w, 0));
        assert(bytes[4 * i + 1] == byte_of(w, 1));
        assert(bytes[4 * i + 2] == byte_of(w, 2));
        assert(bytes[4 * i + 3] == byte_of(w, 3));
    }
    assert(decoded(bytes) =~= weights);
}

/// Encoding what was decoded gives the buffer back.
pub proof fn encoding_undoes_decoding(bytes: Seq<u8>)
    requires
        bytes.len() % 4 == 0,
    ensures
        encoded(decoded(bytes)) == bytes,
{
    let weights = decoded(bytes);
    assert(encoded(weights).len() == bytes.len());
    assert forall|i: int| 0 <= i < bytes.len() implies encoded(weights)[i] == bytes[i] by {
        let q = i / 4;
        let (b0, b1, b2, b3) = (bytes[4 * q], bytes[4 * q + 1], bytes[4 * q + 2], bytes[4 * q + 3]);
        let w = word_at(bytes, q);
        assert(w == b0 + 0x100 * b1 + 0x1_0000 * b2 + 0x100_0000 * b3);
        assert(weights[q].bits == w);
        assert(w % 0x100 == b0);
        assert(w / 0x100 == b1 + 0x100 * b2 + 0x1_0000 * b3);
        assert(w / 0x1_0000 == b2 + 0x100 * b3);
        assert(w / 0x100_0000 == b3);
        assert(i == 4 * q + i % 4);
    }
    assert(encoded(weights) =~= bytes);
}

/// Reads a weight buffer; `None` where it is not a whole number of words.
pub fn decode_buffer(bytes: &[u8]) -> (r: Option<Vec<Binary32>>)
    ensures
        r is Some <==> bytes.len() % 4 == 0,
        r is Some ==> r->0@ == decoded(bytes@),
{
    if bytes.len() % 4 != 0 {
        return None;
    }
    let count: usize = bytes.len() / 4;
    let mut out: Vec<Binary32> = Vec::with_capacity(count);
    let mut i: usize = 0;
    while i < count
        invariant
            count == bytes.len() / 4,
            bytes.len() % 4 == 0,
            i <= count,
            out@ == decoded(bytes@).take(i as int),
        decreases count - i,
    {
        let b0: u32 = bytes[4 * i] as u32;
        let b1: u32 = bytes[4 * i + 1] as u32;
        let b2: u32 = bytes[4 * i + 2] as u32;
        let b3: u32 = bytes[4 * i + 3] as u32;
        out.push(Binary32 { bits: b0 + 0x100 * b1 + 0x1_0000 * b2 + 0x100_0000 * b3 });
        proof {
            assert(out@ =~= decoded(bytes@).take(i + 1));
        }
        i = i + 1;
    }
    proof {
        assert(decoded(bytes@).take(i as int) =~= decoded(bytes@));
    }
    Some(out)
}

/// Writes weights into a buffer.
pub fn encode_weights(weights: &[Binary32]) -> (r: Vec<u8>)
    requires
        4 * weights.len() <= usize::MAX,
    ensures
        r@ == encoded(weights@),
{
    let mut out: Vec<u8> = Vec::new();
    let mut i: usize = 0;
    while i < weights.len()
        invariant
            i <= weights.len(),
            4 * weights.len() <= usize::MAX,
            out@ == encoded(weights@).take(4 * i),
        decreases weights.len() - i,
    {
        let w: u32 = weights[i].bits;
        out.push((w % 0x100) as u8);
        out.push((w / 0x100 % 0x100) as u8);
        out.push((w / 0x1_0000 % 0x100) as u8);
        out.push((w / 0x100_0000) as u8);
        proof {
            let all = encoded(weights@);
            assert(all[4 * i] == byte_of(w, 0));
            assert(all[4 * i + 1] == byte_of(w, 1));
            assert(all[4 * i + 2] == byte_of(w, 2));
            assert(all[4 * i + 3] == byte_of(w, 3));
            assert(out@ =~= all.take(4 * (i + 1)));
        }
        i = i + 1;
    }
    proof {
        assert(encoded(weights@).take(4 * i) =~= encoded(weights@));
    }
    out
}

/// Reads one client's weight buffer.
pub fn decode_weights(client_id: &str, bytes: &[u8]) -> (r: Result<Vec<Binary32>, AggregatorError>)
    ensures
        match r {
            Ok(w) => bytes.len() % 4 == 0 && w@ == decoded(bytes@),
            Err(e) => bytes.len() % 4 != 0 && e@ == (Rejection::MalformedWeights {
                client_id: client_id@,
                len: bytes.len() as nat,
            }),
        },
{
    match decode_buffer(bytes) {
        Some(w) => Ok(w),
        None => Err(
            AggregatorError::MalformedWeights {
                client_id: client_id.to_owned(),
                len: bytes.len(),
            },
        ),
    }
}

/// The first index from `from` on, below `n`, at which `p` holds; `n` where
/// there is none.
pub open spec fn first_from(from: nat, n: nat, p: spec_fn(int) -> bool) -> nat
    decreases n - from,
{
    if from >= n {
        n
    } else if p(from as int) {
        from
    } else {
        first_from(from + 1, n, p)
    }
}

/// The first index below `n` at which `p` holds; `n` where there is none.
pub open spec fn first_where(n: nat, p: spec_fn(int) -> bool) -> nat {
    first_from(0, n, p)
}

pub proof fn lemma_first_from(from: nat, n: nat, p: spec_fn(int) -> bool, k: nat)
    requires
        from <= k <= n,
        forall|i: int| from <= i < k ==> !(#[trigger] p(i)),
        k < n ==> p(k as int),
    ensures
        first_from(from, n, p) == k,
    decreases k - from,
{
    if from < k {
        assert(!p(from as int));
        lemma_first_from(from + 1, n, p, k);
    }
}

/// `first_where` is the least index with the property.
pub proof fn lemma_first_where(n: nat, p: spec_fn(int) -> bool, k: nat)
    requires
        k <= n,
        forall|i: int| 0 <= i < k ==> !(#[trigger] p(i)),
        k < n ==> p(k as int),
    ensures
        first_where(n, p) == k,
{
    lemma_first_from(0, n, p, k);
}

pub open spec fn is_malformed(batch: Seq<Delta>) -> spec_fn(int) -> bool {
    |i: int| batch[i].weights.len() % 4 != 0
}

pub open spec fn is_mismatched(batch: Seq<Delta>) -> spec_fn(int) -> bool {
    |i: int| batch[i].weights.len() / 4 != batch[0].weights.len() / 4
}

pub open spec fn is_not_finite(weights: Seq<Binary32>) -> spec_fn(int) -> bool {
    |j: int| !weights[j].finite()
}

/// The first coordinate that is not a finite number.
pub open spec fn first_not_finite(weights: Seq<Binary32>) -> nat {
    first_where(weights.len(), is_not_finite(weights))
}

pub open spec fn is_unfit(batch: Seq<Delta>) -> spec_fn(int) -> bool {
    |i: int|
        first_not_finite(decoded(batch[i].weights)) < decoded(batch[i].weights).len()
            || batch[i].num_samples > MAX_PLAUSIBLE_SAMPLE_COUNT
}

/// What a batch decodes to, or why it is refused: a buffer of odd length
/// first, a vector of another length next, and then, client by client, a
/// number that is not finite before a sample count that cannot be.
pub open spec fn validated(batch: Seq<Delta>) -> Result<Seq<Seq<Binary32>>, Rejection> {
    let n = batch.len();
    let malformed = first_where(n, is_malformed(batch));
    let mismatched = first_where(n, is_mismatched(batch));
    let unfit = first_where(n, is_unfit(batch));
    if malformed < n {
        let d = batch[malformed as int];
        Err(Rejection::MalformedWeights { client_id: d.client_id, len: d.weights.len() })
    } else if mismatched < n {
        let d = batch[mismatched as int];
        Err(
            Rejection::MismatchedLength {
                client_id: d.client_id,
                expected: batch[0].weights.len() / 4,
                got: d.weights.len() / 4,
            },
        )
    } else if unfit < n {
        let d = batch[unfit as int];
        let index = first_not_finite(decoded(d.weights));
        if index < decoded(d.weights).len() {
            Err(Rejection::NonFiniteWeights { client_id: d.client_id, index })
        } else {
            Err(
                Rejection::ImplausibleSampleCount {
                    client_id: d.client_id,
                    got: d.num_samples as nat,
                    max: MAX_PLAUSIBLE_SAMPLE_COUNT as nat,
                },
            )
        }
    } else {
        Ok(Seq::new(n, |i: int| decoded(batch[i].weights)))
    }
}

/// The contents of a list of vectors.
pub open spec fn rows(v: Seq<Vec<Binary32>>) -> Seq<Seq<Binary32>> {
    Seq::new(v.len(), |i: int| v[i]@)
}

/// Whether every row is `dim` long.
pub open spec fn is_matrix(m: Seq<Seq<Binary32>>, dim: nat) -> bool {
    forall|i: int| 0 <= i < m.len() ==> (#[trigger] m[i]).len() == dim
}

pub open spec fn all_finite(w: Seq<Binary32>) -> bool {
    forall|j: int| 0 <= j < w.len() ==> (#[trigger] w[j]).finite()
}

/// An accepted batch is rectangular, finite, and plausible in every count.
pub proof fn accepted_batches_are_fit(batch: Seq<Delta>)
    requires
        validated(batch) is Ok,
    ensures
        validated(batch)->Ok_0.len() == batch.len(),
        batch.len() > 0 ==> is_matrix(validated(batch)->Ok_0, batch[0].weights.len() / 4),
        batch.len() > 0 ==> validated(batch)->Ok_0[0].len() == batch[0].weights.len() / 4,
        forall|i: int| 0 <= i < batch.len() ==> all_finite(#[trigger] validated(batch)->Ok_0[i]),
        forall|i: int|
            0 <= i < batch.len() ==> (#[trigger] batch[i]).num_samples
                <= MAX_PLAUSIBLE_SAMPLE_COUNT,
{
    let n = batch.len();
    lemma_nothing_before(0, n, is_mismatched(batch));
    lemma_nothing_before(0, n, is_unfit(batch));
    let out = validated(batch)->Ok_0;
    assert forall|i: int| 0 <= i < n implies (#[trigger] batch[i]).num_samples
        <= MAX_PLAUSIBLE_SAMPLE_COUNT by {
        assert(!is_unfit(batch)(i));
    }
    assert forall|i: int| 0 <= i < n implies all_finite(#[trigger] out[i]) && out[i].len()
        == batch[0].weights.len() / 4 by {
        assert(!is_unfit(batch)(i));
        assert(!is_mismatched(batch)(i));
        lemma_nothing_before(0, out[i].len(), is_not_finite(out[i]));
        assert forall|j: int| 0 <= j < out[i].len() implies (#[trigger] out[i][j]).finite() by {
            assert(!is_not_finite(out[i])(j));
        }
    }
}

proof fn lemma_nothing_before(from: nat, n: nat, p: spec_fn(int) -> bool)
    ensures
        first_from(from, n, p) <= n || from > n,
        first_from(from, n, p) >= n ==> forall|i: int| from <= i < n ==> !(#[trigger] p(i)),
    decreases n - from,
{
    if from < n && !p(from as int) {
        lemma_nothing_before(from + 1, n, p);
        assert forall|i: int| from <= i < n && first_from(from, n, p) >= n implies !(#[trigger] p(i)) by {
            if i > from {
            }
        }
    }
}

/// Some updates of a fit batch make a fit batch.
pub proof fn lemma_picked_is_fit(batch: Seq<Delta>, indices: Seq<usize>)
    requires
        validated(batch) is Ok,
        forall|k: int| 0 <= k < indices.len() ==> #[trigger] indices[k] < batch.len(),
    ensures
        validated(picked(batch, indices)) is Ok,
        validated(picked(batch, indices))->Ok_0 == Seq::new(
            indices.len(),
            |k: int| validated(batch)->Ok_0[indices[k] as int],
        ),
{
    let n = batch.len();
    let part = picked(batch, indices);
    lemma_nothing_before(0, n, is_malformed(batch));
    lemma_nothing_before(0, n, is_mismatched(batch));
    lemma_nothing_before(0, n, is_unfit(batch));
    assert forall|k: int| 0 <= k < part.len() implies !(#[trigger] is_malformed(part)(k)) by {
        assert(indices[k] < n);
        assert(!is_malformed(batch)(indices[k] as int));
    }
    assert forall|k: int| 0 <= k < part.len() implies !(#[trigger] is_mismatched(part)(k)) by {
        assert(indices[k] < n);
        assert(indices[0] < n);
        assert(!is_mismatched(batch)(indices[k] as int));
        assert(!is_mismatched(batch)(indices[0] as int));
    }
    assert forall|k: int| 0 <= k < part.len() implies !(#[trigger] is_unfit(part)(k)) by {
        assert(indices[k] < n);
        assert(!is_unfit(batch)(indices[k] as int));
    }
    lemma_first_where(part.len(), is_malformed(part), part.len());
    lemma_first_where(part.len(), is_mismatched(part), part.len());
    lemma_first_where(part.len(), is_unfit(part), part.len());
    assert(validated(part)->Ok_0 =~= Seq::new(
        indices.len(),
        |k: int| validated(batch)->Ok_0[indices[k] as int],
    ));
}

/// Finds the first coordinate that is not a finite number.
pub fn find_not_finite(weights: &Vec<Binary32>) -> (r: usize)
    ensures
        r as nat == first_not_finite(weights@),
        r <= weights.len(),
{
    let mut j: usize = 0;
    while j < weights.len()
        invariant
            j <= weights.len(),
            forall|k: int| 0 <= k < j ==> (#[trigger] weights[k]).finite(),
        decreases weights.len() - j,
    {
        if !weights[j].is_finite() {
            proof {
                lemma_first_where(weights@.len(), is_not_finite(weights@), j as nat);
            }
            return j;
        }
        j = j + 1;
    }
    proof {
        lemma_first_where(weights@.len(), is_not_finite(weights@), j as nat);
    }
    j
}

/// Decodes every update of a batch and checks that it is fit to aggregate:
/// all of one length, all finite, and with a possible sample count.
pub fn decode_and_validate(updates: &[ClientDelta]) -> (r: Result<
    Vec<Vec<Binary32>>,
    AggregatorError,
>)
    ensures
        match (r, validated(batch_of(updates@))) {
            (Ok(v), Ok(s)) => rows(v@) == s,
            (Err(e), Err(s)) => e@ == s,
            _ => false,
        },
{
    let ghost batch = batch_of(updates@);
    let ghost n = batch.len();
    let mut out: Vec<Vec<Binary32>> = Vec::with_capacity(updates.len());
    let mut i: usize = 0;
    while i < updates.len()
        invariant
            batch == batch_of(updates@),
            n == batch.len(),
            i <= updates.len(),
            out.len() == i,
            forall|k: int| 0 <= k < i ==> (#[trigger] out[k])@ == decoded(batch[k].weights),
            forall|k: int| 0 <= k < i ==> !(#[trigger] is_malformed(batch)(k)),
        decreases updates.len() - i,
    {
        proof {
            assert(batch[i as int] == updates[i as int]@);
        }
        match decode_weights(updates[i].client_id.as_str(), updates[i].weights.as_slice()) {
            Ok(w) => {
                out.push(w);
                proof {
                    assert(!is_malformed(batch)(i as int));
                }
            },
            Err(e) => {
                proof {
                    assert(is_malformed(batch)(i as int));
                    lemma_first_where(n, is_malformed(batch), i as nat);
                }
                return Err(e);
            },
        }
        i = i + 1;
    }
    proof {
        lemma_first_where(n, is_malformed(batch), n);
    }
    let mut k: usize = 0;
    while k < updates.len()
        invariant
            batch == batch_of(updates@),
            n == batch.len(),
            k <= updates.len(),
            out.len() == updates.len(),
            forall|j: int| 0 <= j < n ==> (#[trigger] out[j])@ == decoded(batch[j].weights),
            first_where(n, is_malformed(batch)) == n,
            forall|j: int| 0 <= j < k ==> !(#[trigger] is_mismatched(batch)(j)),
        decreases updates.len() - k,
    {
        proof {
            assert(batch[k as int] == updates[k as int]@);
        }
        if out[k].len() != out[0].len() {
            proof {
                assert(is_mismatched(batch)(k as int));
                lemma_first_where(n, is_mismatched(batch), k as nat);
            }
            return Err(
                AggregatorError::MismatchedLength {
                    client_id: updates[k].client_id.clone(),
                    expected: out[0].len(),
                    got: out[k].len(),
                },
            );
        }
        proof {
            assert(!is_mismatched(batch)(k as int));
        }
        k = k + 1;
    }
    proof {
        lemma_first_where(n, is_mismatched(batch), n);
    }
    let mut m: usize = 0;
    while m < updates.len()
        invariant
            batch == batch_of(updates@),
            n == batch.len(),
            m <= updates.len(),
            out.len() == updates.len(),
            forall|j: int| 0 <= j < n ==> (#[trigger] out[j])@ == decoded(batch[j].weights),
            first_where(n, is_malformed(batch)) == n,
            first_where(n, is_mismatched(batch)) == n,
            forall|j: int| 0 <= j < m ==> !(#[trigger] is_unfit(batch)(j)),
        decreases updates.len() - m,
    {
        proof {
            assert(batch[m as int] == updates[m as int]@);
        }
        let index: usize = find_not_finite(&out[m]);
        if index < out[m].len() {
            proof {
                assert(is_unfit(batch)(m as int));
                lemma_first_where(n, is_unfit(batch), m as nat);
            }
            return Err(
                AggregatorError::NonFiniteWeights {
                    client_id: updates[m].client_id.clone(),
                    index,
                },
            );
        }
        if updates[m].num_samples > MAX_PLAUSIBLE_SAMPLE_COUNT {
            proof {
                assert(is_unfit(batch)(m as int));
                lemma_first_where(n, is_unfit(batch), m as nat);
            }
            return Err(
                AggregatorError::ImplausibleSampleCount {
                    client_id: updates[m].client_id.clone(),
                    got: updates[m].num_samples,
                    max: MAX_PLAUSIBLE_SAMPLE_COUNT,
                },
            );
        }
        proof {
            assert(!is_unfit(batch)(m as int));
        }
        m = m + 1;
    }
    proof {
        lemma_first_where(n, is_unfit(batch), n);
        assert(rows(out@) =~= validated(batch)->Ok_0);
    }
    Ok(out)
}

/// `acc[i] + src[i] * weight`, coordinate by coordinate.
pub open spec fn plus_weighted(acc: Seq<Binary32>, src: Seq<Binary32>, weight: Binary32) -> Seq<
    Binary32,
> {
    Seq::new(acc.len(), |i: int| acc[i].plus(src[i].times(weight)))
}

/// Adds `src`, times `weight`, to `acc`.
pub fn accumulate_weighted(acc: &mut Vec<Binary32>, src: &Vec<Binary32>, weight: Binary32)
    requires
        old(acc).len() == src.len(),
    ensures
        final(acc)@ == plus_weighted(old(acc)@, src@, weight),
{
    let ghost start = acc@;
    let mut i: usize = 0;
    while i < src.len()
        invariant
            i <= src.len(),
            acc.len() == src.len(),
            start.len() == src.len(),
            forall|k: int| 0 <= k < i ==> #[trigger] acc[k] == start[k].plus(src[k].times(weight)),
            forall|k: int| i <= k < src.len() ==> #[trigger] acc[k] == start[k],
        decreases src.len() - i,
    {
        let v: Binary32 = acc[i].add(src[i].mul(weight));
        acc.set(i, v);
        i = i + 1;
    }
    proof {
        assert(acc@ =~= plus_weighted(start, src@, weight));
    }
}

/// `acc[i] + (src[i] - reference[i]) * scale` in double precision.
pub open spec fn plus_scaled_difference(
    acc: Seq<Binary64>,
    src: Seq<Binary32>,
    reference: Seq<Binary32>,
    scale: Binary64,
) -> Seq<Binary64> {
    Seq::new(
        acc.len(),
        |i: int|
            acc[i].plus(src[i].as_binary64().minus(reference[i].as_binary64()).times(scale)),
    )
}

/// Adds the difference of `src` and `reference`, times `scale`, to `acc`.
///
/// Two finite single-precision numbers can be further apart than any such
/// number; their difference in double precision is always finite.
pub fn accumulate_scaled_difference(
    acc: &mut Vec<Binary64>,
    src: &Vec<Binary32>,
    reference: &Vec<Binary32>,
    scale: Binary64,
)
    requires
        old(acc).len() == src.len(),
        old(acc).len() == reference.len(),
    ensures
        final(acc)@ == plus_scaled_difference(old(acc)@, src@, reference@, scale),
{
    let ghost start = acc@;
    let ghost goal = plus_scaled_difference(start, src@, reference@, scale);
    let mut i: usize = 0;
    while i < src.len()
        invariant
            i <= src.len(),
            acc.len() == src.len(),
            reference.len() == src.len(),
            start.len() == src.len(),
            goal == plus_scaled_difference(start, src@, reference@, scale),
            forall|k: int| 0 <= k < i ==> #[trigger] acc[k] == goal[k],
            forall|k: int| i <= k < src.len() ==> #[trigger] acc[k] == start[k],
        decreases src.len() - i,
    {
        let d: Binary64 = src[i].to_binary64().sub(reference[i].to_binary64());
        let v: Binary64 = acc[i].add(d.mul(scale));
        acc.set(i, v);
        i = i + 1;
    }
    proof {
        assert(acc@ =~= goal);
    }
}

} // verus!
