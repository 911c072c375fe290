//! FLTrust: each update scored against the server's own.
use vstd::prelude::*;
use crate::aggregator::Aggregator;
use crate::delta::{batch_of, ClientDelta, Delta};
use crate::error::{AggregatorError, Rejection};
use crate::float::binary32::Binary32;
use crate::float::binary64::Binary64;
use crate::linear::{add_quotients, copy32, differences32, dot64, filled64, held_all, hold_all, inner_product64, plus_quotients, subtract32, zeros64};
use crate::weights::{accepted_batches_are_fit, decode_and_validate, is_matrix, rows, validated};

verus! {

/// The server's own view of a round.
#[derive(Debug, Clone)]
pub struct TrustedReference {
    /// The global model the round started from.
    pub global_weights: Vec<Binary32>,
    /// What training from it on trusted data gave.
    pub reference_weights: Vec<Binary32>,
}

/// What a trusted reference holds, as mathematical values.
pub struct Reference {
    pub global: Seq<Binary32>,
    pub trained: Seq<Binary32>,
}

impl View for TrustedReference {
    type V = Reference;

    open spec fn view(&self) -> Reference {
        Reference { global: self.global_weights@, trained: self.reference_weights@ }
    }
}

/// Whether `x` is a zero of either sign.
pub open spec fn is_zero64(x: Binary64) -> bool {
    x.at_most(Binary64::nothing()) && Binary64::nothing().at_most(x)
}

/// The Euclidean norm in double precision.
pub open spec fn norm64(a: Seq<Binary32>) -> Binary64 {
    dot64(a, a).root()
}

/// The cosine of the angle between two vectors; zero where one is zero.
pub open spec fn cosine64(a: Seq<Binary32>, b: Seq<Binary32>) -> Binary64 {
    if is_zero64(norm64(a)) || is_zero64(norm64(b)) {
        Binary64::nothing()
    } else {
        dot64(a, b).over(norm64(a).times(norm64(b)))
    }
}

/// The Euclidean norm in double precision.
pub fn l2_norm64(a: &[Binary32]) -> (r: Binary64)
    ensures
        r == norm64(a@),
{
    inner_product64(a, a).sqrt()
}

/// The cosine of the angle between two vectors.
pub fn cosine_similarity64(a: &[Binary32], b: &[Binary32]) -> (r: Binary64)
    requires
        a.len() == b.len(),
    ensures
        r == cosine64(a@, b@),
{
    let na: Binary64 = l2_norm64(a);
    let nb: Binary64 = l2_norm64(b);
    if na.eq_value(Binary64::zero()) || nb.eq_value(Binary64::zero()) {
        return Binary64::zero();
    }
    inner_product64(a, b).div(na.mul(nb))
}

/// `acc[i] + by * g[i]` in double precision.
pub open spec fn plus_rescaled(acc: Seq<Binary64>, by: Binary64, g: Seq<Binary32>) -> Seq<Binary64> {
    Seq::new(acc.len(), |i: int| acc[i].plus(by.times(g[i].as_binary64())))
}

fn add_rescaled(acc: &Vec<Binary64>, by: Binary64, g: &Vec<Binary32>) -> (r: Vec<Binary64>)
    requires
        acc.len() == g.len(),
    ensures
        r@ == plus_rescaled(acc@, by, g@),
{
    let mut out: Vec<Binary64> = Vec::with_capacity(acc.len());
    let mut i: usize = 0;
    while i < acc.len()
        invariant
            i <= acc.len(),
            acc.len() == g.len(),
            out@ == plus_rescaled(acc@, by, g@).take(i as int),
        decreases acc.len() - i,
    {
        out.push(acc[i].add(by.mul(g[i].to_binary64())));
        proof {
            assert(out@ =~= plus_rescaled(acc@, by, g@).take(i + 1));
        }
        i = i + 1;
    }
    proof {
        assert(plus_rescaled(acc@, by, g@).take(i as int) =~= plus_rescaled(acc@, by, g@));
    }
    out
}

/// The trust an update earns: the cosine with the server's update, nothing
/// where that is negative.
pub open spec fn trust_score(g: Seq<Binary32>, server: Seq<Binary32>) -> Binary64 {
    cosine64(g, server).larger(Binary64::nothing())
}

/// The trust and the trusted updates of the first `k` rows, added up. Each
/// update is rescaled to the length of the server's.
pub open spec fn trusted_sum(
    m: Seq<Seq<Binary32>>,
    global: Seq<Binary32>,
    server: Seq<Binary32>,
    k: nat,
) -> (Binary64, Seq<Binary64>)
    decreases k,
{
    if k == 0 {
        (Binary64::nothing(), zeros64(global.len()))
    } else {
        let (total, acc) = trusted_sum(m, global, server, (k - 1) as nat);
        let g = differences32(m[k - 1], global);
        let trust = trust_score(g, server);
        if trust.at_most(Binary64::nothing()) || is_zero64(norm64(g)) {
            (total, acc)
        } else {
            let scale = norm64(server).over(norm64(g));
            (total.plus(trust), plus_rescaled(acc, trust.times(scale), g))
        }
    }
}

proof fn lemma_trusted_sum_len(
    m: Seq<Seq<Binary32>>,
    global: Seq<Binary32>,
    server: Seq<Binary32>,
    k: nat,
)
    ensures
        trusted_sum(m, global, server, k).1.len() == global.len(),
    decreases k,
{
    if k > 0 {
        lemma_trusted_sum_len(m, global, server, (k - 1) as nat);
    }
}

/// The trust-weighted mean of a batch, or the global model unchanged where
/// nobody is trusted.
pub open spec fn trusted_round(r: Reference, m: Seq<Seq<Binary32>>) -> Seq<Binary32> {
    let server = differences32(r.trained, r.global);
    let (total, acc) = trusted_sum(m, r.global, server, m.len());
    if total.at_most(Binary64::nothing()) {
        r.global
    } else {
        held_all(plus_quotients(r.global, acc, total))
    }
}

/// FLTrust: refuses to run until it is given a reference.
pub struct FlTrustAggregator {
    pub injected: Option<TrustedReference>,
}

impl Default for FlTrustAggregator {
    fn default() -> (r: Self)
        ensures
            r.injected is None,
    {
        FlTrustAggregator::new()
    }
}

impl FlTrustAggregator {
    /// An aggregator without a reference.
    pub fn new() -> (r: FlTrustAggregator)
        ensures
            r.injected is None,
    {
        FlTrustAggregator { injected: None }
    }

    /// Supplies the round's reference.
    pub fn set_reference(&mut self, reference: TrustedReference)
        ensures
            final(self).injected == Some(reference),
    {
        self.injected = Some(reference);
    }

    /// The reference, if one was supplied.
    pub fn reference(&self) -> (r: Option<TrustedReference>)
        ensures
            match (r, self.injected) {
                (Some(a), Some(b)) => a@ == b@,
                (None, None) => true,
                _ => false,
            },
    {
        match &self.injected {
            Some(x) => Some(
                TrustedReference {
                    global_weights: copy32(x.global_weights.as_slice()),
                    reference_weights: copy32(x.reference_weights.as_slice()),
                },
            ),
            None => None,
        }
    }
}

/// The result of a batch under an optional reference.
#[verifier::opaque]
pub open spec fn fltrust_outcome(injected: Option<Reference>, batch: Seq<Delta>) -> Result<
    Seq<Binary32>,
    Rejection,
> {
    if batch.len() == 0 {
        Err(Rejection::EmptyBatch)
    } else {
        match validated(batch) {
            Err(e) => Err(e),
            Ok(m) => match injected {
                None => Err(Rejection::MissingTrustedReference),
                Some(r) => if r.global.len() != m[0].len() || r.trained.len() != m[0].len() {
                    Err(
                        Rejection::TrustedReferenceDimension {
                            expected: m[0].len(),
                            global: r.global.len(),
                            reference: r.trained.len(),
                        },
                    )
                } else {
                    Ok(trusted_round(r, m))
                },
            },
        }
    }
}

fn trusted_mean(m: &Vec<Vec<Binary32>>, reference: &TrustedReference) -> (r: Vec<Binary32>)
    requires
        is_matrix(rows(m@), reference@.global.len()),
        reference@.trained.len() == reference@.global.len(),
    ensures
        r@ == trusted_round(reference@, rows(m@)),
{
    let ghost mm = rows(m@);
    let dim: usize = reference.global_weights.len();
    let global: &Vec<Binary32> = &reference.global_weights;
    let server: Vec<Binary32> = subtract32(
        reference.reference_weights.as_slice(),
        global.as_slice(),
    );
    let server_norm: Binary64 = l2_norm64(server.as_slice());
    let mut total: Binary64 = Binary64::zero();
    let mut acc: Vec<Binary64> = filled64(dim, Binary64::zero());
    proof {
        assert(acc@ =~= zeros64(dim as nat));
    }
    let mut k: usize = 0;
    while k < m.len()
        invariant
            k <= m.len(),
            mm == rows(m@),
            global@ == reference@.global,
            global.len() == dim,
            server.len() == dim,
            acc.len() == dim,
            is_matrix(mm, dim as nat),
            server_norm == norm64(server@),
            (total, acc@) == trusted_sum(mm, global@, server@, k as nat),
        decreases m.len() - k,
    {
        proof {
            assert(mm[k as int] == m[k as int]@);
            assert(mm[k as int].len() == dim);
        }
        let g: Vec<Binary32> = subtract32(m[k].as_slice(), global.as_slice());
        let trust: Binary64 = cosine_similarity64(g.as_slice(), server.as_slice()).max(
            Binary64::zero(),
        );
        let norm: Binary64 = l2_norm64(g.as_slice());
        if !(trust.le(Binary64::zero()) || norm.eq_value(Binary64::zero())) {
            let scale: Binary64 = server_norm.div(norm);
            total = total.add(trust);
            acc = add_rescaled(&acc, trust.mul(scale), &g);
        }
        k = k + 1;
    }
    if total.le(Binary64::zero()) {
        copy32(global.as_slice())
    } else {
        let mut next: Vec<Binary32> = add_quotients(global.as_slice(), acc.as_slice(), total);
        hold_all(&mut next);
        next
    }
}

impl Aggregator for FlTrustAggregator {
    type State = Option<Reference>;

    open spec fn state(&self) -> Option<Reference> {
        match self.injected {
            None => None,
            Some(r) => Some(r@),
        }
    }

    open spec fn ready(s: Option<Reference>) -> bool {
        true
    }

    open spec fn step(s: Option<Reference>, batch: Seq<Delta>) -> (
        Result<Seq<Binary32>, Rejection>,
        Option<Reference>,
    ) {
        (fltrust_outcome(s, batch), s)
    }

    proof fn keeps_dimension(s: Option<Reference>, batch: Seq<Delta>) {
        reveal(fltrust_outcome);
        accepted_batches_are_fit(batch);
    }

    /// It does.
    fn requires_trusted_reference(&self) -> (r: bool)
        ensures
            r,
    {
        true
    }

    fn set_trusted_reference(&mut self, reference: TrustedReference)
        ensures
            final(self).injected == Some(reference),
    {
        self.set_reference(reference);
    }

    fn aggregate(&mut self, updates: &[ClientDelta]) -> (r: Result<Vec<Binary32>, AggregatorError>) {
        proof {
            reveal(fltrust_outcome);
        }
        if updates.len() == 0 {
            return Err(AggregatorError::EmptyBatch);
        }
        let m: Vec<Vec<Binary32>> = match decode_and_validate(updates) {
            Ok(m) => m,
            Err(e) => {
                return Err(e);
            },
        };
        proof {
            accepted_batches_are_fit(batch_of(updates@));
            assert(rows(m@)[0] == m[0]@);
        }
        let dim: usize = m[0].len();
        match &self.injected {
            None => Err(AggregatorError::MissingTrustedReference),
            Some(reference) => if reference.global_weights.len() != dim
                || reference.reference_weights.len() != dim {
                Err(
                    AggregatorError::TrustedReferenceDimension {
                        expected: dim,
                        global: reference.global_weights.len(),
                        reference: reference.reference_weights.len(),
                    },
                )
            } else {
                Ok(trusted_mean(&m, reference))
            },
        }
    }
}

} // verus!
