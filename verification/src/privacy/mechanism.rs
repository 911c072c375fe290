//! Clipping an update and adding noise to it.
use vstd::prelude::*;
use crate::float::binary32::Binary32;
use crate::float::binary64::Binary64;
use crate::linear::{dot32, inner_product};
use crate::text::same_text;

verus! {

/// Transforms one client's update before it is used further.
///
/// The noise is drawn by the caller: from a normal distribution of mean zero
/// and the standard deviation that `noise_scale` gives, one sample for each
/// weight.
pub trait PrivacyMechanism: Sized {
    /// The standard deviation of the noise; none where there is no noise.
    spec fn scale(&self) -> Option<Binary64>;

    /// The update after the transform.
    spec fn transformed(&self, weights: Seq<Binary32>, noise: Seq<Binary64>) -> Seq<Binary32>;

    /// The standard deviation of the noise; none where there is no noise.
    fn noise_scale(&self) -> (r: Option<Binary64>)
        ensures
            r == self.scale(),
    ;

    /// Applies the mechanism in place.
    fn transform(&self, weights: &mut Vec<Binary32>, noise: &[Binary64])
        requires
            self.scale() is Some ==> noise.len() == old(weights).len(),
        ensures
            final(weights)@ == self.transformed(old(weights)@, noise@),
    ;
}

/// The Euclidean norm in single precision.
pub open spec fn norm32(w: Seq<Binary32>) -> Binary32 {
    dot32(w, w).root()
}

/// The Euclidean norm in single precision.
pub fn l2_norm(w: &[Binary32]) -> (r: Binary32)
    ensures
        r == norm32(w@),
{
    inner_product(w, w).sqrt()
}

/// Every weight times `by`.
pub open spec fn scaled_by(w: Seq<Binary32>, by: Binary32) -> Seq<Binary32> {
    Seq::new(w.len(), |i: int| w[i].times(by))
}

/// Clips an update's norm, then adds Gaussian noise.
#[derive(Debug, Clone, Copy, PartialEq, Eq, Structural)]
pub struct GaussianClippingPrivacy {
    /// The norm each update is clipped to.
    pub clip_norm: Binary32,
    /// The standard deviation of the noise, as a multiple of `clip_norm`.
    pub noise_multiplier: Binary32,
}

impl Default for GaussianClippingPrivacy {
    fn default() -> (r: Self)
        ensures
            r.clip_norm == Binary32::unit(),
            r.noise_multiplier == Binary32::unit(),
    {
        GaussianClippingPrivacy { clip_norm: Binary32::one(), noise_multiplier: Binary32::one() }
    }
}

impl GaussianClippingPrivacy {
    /// The update scaled down to the clip norm where it exceeds it.
    pub open spec fn clipped(self, w: Seq<Binary32>) -> Seq<Binary32> {
        let norm = norm32(w);
        if self.clip_norm.below(norm) && Binary32::nothing().below(norm) {
            scaled_by(w, self.clip_norm.over(norm))
        } else {
            w
        }
    }

    /// The standard deviation of the noise; none where the product of both
    /// parameters is not a positive number.
    pub open spec fn deviation(self) -> Option<Binary64> {
        let d = self.noise_multiplier.times(self.clip_norm).as_binary64();
        if d.at_most(Binary64::nothing()) || d.nan() {
            None
        } else {
            Some(d)
        }
    }

    /// The update with a sample added to each weight, where there is noise.
    pub open spec fn noised(self, w: Seq<Binary32>, noise: Seq<Binary64>) -> Seq<Binary32> {
        if self.deviation() is None {
            w
        } else {
            Seq::new(w.len(), |i: int| w[i].plus(noise[i].as_binary32()))
        }
    }

    /// Scales `weights` down so that their norm is at most the clip norm.
    pub fn clip(&self, weights: &mut Vec<Binary32>)
        ensures
            final(weights)@ == self.clipped(old(weights)@),
    {
        let norm: Binary32 = l2_norm(weights.as_slice());
        if self.clip_norm.lt(norm) && Binary32::zero().lt(norm) {
            let by: Binary32 = self.clip_norm.div(norm);
            let ghost start = weights@;
            let mut i: usize = 0;
            while i < weights.len()
                invariant
                    i <= weights.len(),
                    weights.len() == start.len(),
                    forall|k: int| 0 <= k < i ==> #[trigger] weights[k] == start[k].times(by),
                    forall|k: int| i <= k < start.len() ==> #[trigger] weights[k] == start[k],
                decreases weights.len() - i,
            {
                let v: Binary32 = weights[i].mul(by);
                weights.set(i, v);
                i = i + 1;
            }
            proof {
                assert(weights@ =~= scaled_by(start, by));
            }
        }
    }

    /// The standard deviation of the noise.
    pub fn standard_deviation(&self) -> (r: Option<Binary64>)
        ensures
            r == self.deviation(),
    {
        let d: Binary64 = self.noise_multiplier.mul(self.clip_norm).to_binary64();
        if d.le(Binary64::zero()) || d.is_nan() {
            None
        } else {
            Some(d)
        }
    }

    /// Adds a sample to each weight, where there is noise.
    pub fn add_noise(&self, weights: &mut Vec<Binary32>, noise: &[Binary64])
        requires
            self.deviation() is Some ==> noise.len() == old(weights).len(),
        ensures
            final(weights)@ == self.noised(old(weights)@, noise@),
    {
        if self.standard_deviation().is_none() {
            return;
        }
        let ghost start = weights@;
        let mut i: usize = 0;
        while i < weights.len()
            invariant
                i <= weights.len(),
                weights.len() == start.len(),
                noise.len() == start.len(),
                forall|k: int|
                    0 <= k < i ==> #[trigger] weights[k] == start[k].plus(noise[k].as_binary32()),
                forall|k: int| i <= k < start.len() ==> #[trigger] weights[k] == start[k],
            decreases weights.len() - i,
        {
            let v: Binary32 = weights[i].add(noise[i].to_binary32());
            weights.set(i, v);
            i = i + 1;
        }
        proof {
            assert(weights@ =~= self.noised(start, noise@));
        }
    }
}

impl PrivacyMechanism for GaussianClippingPrivacy {
    open spec fn scale(&self) -> Option<Binary64> {
        self.deviation()
    }

    open spec fn transformed(&self, weights: Seq<Binary32>, noise: Seq<Binary64>) -> Seq<Binary32> {
        self.noised(self.clipped(weights), noise)
    }

    fn noise_scale(&self) -> (r: Option<Binary64>) {
        self.standard_deviation()
    }

    fn transform(&self, weights: &mut Vec<Binary32>, noise: &[Binary64]) {
        self.clip(weights);
        self.add_noise(weights, noise);
    }
}

/// Why a name could not be turned into a mechanism.
#[derive(Debug)]
pub enum PrivacyMechanismBuildError {
    /// The name is not registered.
    Unknown(String),
}

/// The registered names, separated by commas: there is one.
pub open spec fn known_mechanism_text() -> Seq<char> {
    "gaussian_clipping"@
}

/// The registered names, separated by commas.
pub fn known_mechanisms() -> (r: String)
    ensures
        r@ == known_mechanism_text(),
{
    "gaussian_clipping".to_owned()
}

impl PrivacyMechanismBuildError {
    /// The message for an operator.
    pub fn message(&self) -> (r: String)
        ensures
            r@ == "unknown privacy mechanism \""@ + self->Unknown_0@
                + "\" — not a registered conflux-privacy strategy (known: "@
                + known_mechanism_text() + ")"@,
    {
        match self {
            PrivacyMechanismBuildError::Unknown(n) => "unknown privacy mechanism \"".to_owned().concat(
                n.as_str(),
            ).concat("\" — not a registered conflux-privacy strategy (known: ").concat(
                known_mechanisms().as_str(),
            ).concat(")"),
        }
    }
}

/// Builds the mechanism a name stands for.
pub fn build_privacy_mechanism(name: &str, clip_norm: Binary32, noise_multiplier: Binary32) -> (r:
    Result<GaussianClippingPrivacy, PrivacyMechanismBuildError>)
    ensures
        match r {
            Ok(m) => name@ == "gaussian_clipping"@ && m == (GaussianClippingPrivacy {
                clip_norm,
                noise_multiplier,
            }),
            Err(PrivacyMechanismBuildError::Unknown(n)) => name@ != "gaussian_clipping"@ && n@
                == name@,
        },
{
    if same_text(name, "gaussian_clipping") {
        Ok(GaussianClippingPrivacy { clip_norm, noise_multiplier })
    } else {
        Err(PrivacyMechanismBuildError::Unknown(name.to_owned()))
    }
}

} // verus!
