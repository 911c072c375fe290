//! Three clients that can be run without writing one.
//!
//! Two of them are arranged so that no single client can solve the problem
//! alone: each client's data holds one feature nearly constant, and a
//! coefficient that never varies cannot be learnt.
use vstd::prelude::*;
use crate::elementary::{apply, apply64, image, image64, is_function, is_function64};
use crate::float::binary32::Binary32;
use crate::float::binary64::Binary64;
use crate::linear::{copy32, filled32, sum32, total32};
use crate::text::same_text;

verus! {

/// How many samples each client holds.
pub const SAMPLES: usize = 120;

/// How many steps a client takes on them in one round.
pub const LOCAL_STEPS: usize = 60;

/// How many features a sample has.
pub const FEATURES: usize = 3;

/// How many samples a model is scored on.
pub const HELD_OUT: usize = 400;

const MULTIPLIER: u64 = 6_364_136_223_846_793_005;

const INCREMENT: u64 = 1_442_695_040_888_963_407;

/// A small deterministic generator, so that two runs produce the same numbers.
#[derive(Debug)]
pub struct Lcg {
    /// The state.
    pub state: u64,
}

/// The state a seed starts at.
pub open spec fn seeded(seed: u64) -> u64 {
    ((seed * 6_364_136_223_846_793_005 + 1) % 0x1_0000_0000_0000_0000) as u64
}

/// The state that follows `s`.
pub open spec fn advanced(s: u64) -> u64 {
    ((s * 6_364_136_223_846_793_005 + 1_442_695_040_888_963_407) % 0x1_0000_0000_0000_0000) as u64
}

/// The state `n` draws after `s`.
pub open spec fn after(s: u64, n: nat) -> u64
    decreases n,
{
    if n == 0 {
        s
    } else {
        advanced(after(s, (n - 1) as nat))
    }
}

/// The largest number below one.
pub open spec fn below_one() -> Binary32 {
    Binary32 { bits: 0x3f7f_ffff }
}

/// The upper 31 bits of the state `s` as a fraction of 2^30, less one. The
/// highest of them round up to one.
pub open spec fn fraction(s: u64) -> Binary32 {
    Binary32::whole((s >> 33) as nat).over(Binary32 { bits: 0x4e80_0000 }).minus(Binary32::unit())
}

/// The number drawn on reaching the state `s`, from minus one up to but not
/// including one.
pub open spec fn drawn(s: u64) -> Binary32 {
    if fraction(s).below(Binary32::unit()) {
        fraction(s)
    } else {
        below_one()
    }
}

/// A draw is at least minus one and below one.
pub proof fn draws_are_below_one(s: u64)
    ensures
        drawn(s).finite(),
        Binary32::unit().negated().rank() <= drawn(s).rank() < Binary32::unit().rank(),
{
    assert((s >> 33) < 0x8000_0000) by (bit_vector);
    Binary32::fractions_up_to_two((s >> 33) as nat);
    fraction(s).finite_is_a_number();
    Binary32::unit().unsigned_patterns();
    below_one().unsigned_patterns();
}

/// The number of draw `k`, counted from zero, after the state `s`.
pub open spec fn draw(s: u64, k: nat) -> Binary32 {
    drawn(after(s, k + 1))
}

/// A product and a summand, each wrapped, are the whole wrapped once.
proof fn lemma_wrapped_once(p: int, b: u64, w: u64)
    requires
        w == p % 0x1_0000_0000_0000_0000,
    ensures
        w.wrapping_add(b) == (p + b) % 0x1_0000_0000_0000_0000,
{
    vstd::arithmetic::div_mod::lemma_add_mod_noop(p, b as int, 0x1_0000_0000_0000_0000);
    vstd::arithmetic::div_mod::lemma_small_mod(b as nat, 0x1_0000_0000_0000_0000);
}

impl Lcg {
    /// A generator for a seed.
    pub fn new(seed: u64) -> (r: Lcg)
        ensures
            r.state == seeded(seed),
    {
        let scaled: u64 = seed.wrapping_mul(MULTIPLIER);
        proof {
            lemma_wrapped_once(seed * MULTIPLIER, 1, scaled);
        }
        Lcg { state: scaled.wrapping_add(1) }
    }

    /// The next number, uniform from minus one up to but not including one.
    pub fn next(&mut self) -> (r: Binary32)
        ensures
            final(self).state == advanced(old(self).state),
            r == drawn(final(self).state),
            r.finite(),
            Binary32::unit().negated().rank() <= r.rank() < Binary32::unit().rank(),
    {
        let scaled: u64 = self.state.wrapping_mul(MULTIPLIER);
        proof {
            lemma_wrapped_once(self.state * MULTIPLIER, INCREMENT, scaled);
        }
        self.state = scaled.wrapping_add(INCREMENT);
        proof {
            draws_are_below_one(self.state);
        }
        let x: Binary32 = Binary32::from_u64(self.state >> 33).div(
            Binary32 { bits: 0x4e80_0000 },
        ).sub(Binary32::one());
        if x.lt(Binary32::one()) {
            x
        } else {
            Binary32 { bits: 0x3f7f_ffff }
        }
    }
}

/// The features of one sample.
#[derive(Clone, Copy, Debug)]
pub struct Point {
    pub x0: Binary32,
    pub x1: Binary32,
    pub x2: Binary32,
}

/// The sample drawn from the state `s` with feature `frozen` held near one.
///
/// Near, not at: a column of equal values is a degenerate case that could be
/// treated apart. The signal is there and is too small to learn from.
pub open spec fn sample(frozen: nat, s: u64) -> Point {
    let two = Binary32 { bits: 0x4000_0000 };
    let held = Binary32::unit().plus(draw(s, 3).times(Binary32 { bits: 0x3ca3_d70a }));
    Point {
        x0: if frozen == 0 { held } else { draw(s, 0).times(two) },
        x1: if frozen == 1 { held } else { draw(s, 1).times(two) },
        x2: if frozen == 2 { held } else { draw(s, 2).times(two) },
    }
}

/// One client's samples.
pub open spec fn samples(frozen: nat, seed: u64) -> Seq<Point> {
    Seq::new(SAMPLES as nat, |i: int| sample(frozen, after(seeded(seed), (4 * i) as nat)))
}

proof fn lemma_after(s: u64, n: nat, k: nat)
    ensures
        after(after(s, n), k) == after(s, n + k),
    decreases k,
{
    if k > 0 {
        lemma_after(s, n, (k - 1) as nat);
    }
}

fn features(frozen: usize, seed: u64) -> (r: Vec<Point>)
    requires
        frozen < FEATURES,
    ensures
        r@ == samples(frozen as nat, seed),
{
    let mut rng: Lcg = Lcg::new(seed);
    let mut out: Vec<Point> = Vec::new();
    let mut i: usize = 0;
    while i < SAMPLES
        invariant
            frozen < FEATURES,
            i <= SAMPLES,
            out.len() == i,
            rng.state == after(seeded(seed), (4 * i) as nat),
            forall|k: int| 0 <= k < i ==> out@[k] == #[trigger] samples(frozen as nat, seed)[k],
        decreases SAMPLES - i,
    {
        let ghost s = rng.state;
        let two: Binary32 = Binary32 { bits: 0x4000_0000 };
        let x0: Binary32 = rng.next().mul(two);
        let x1: Binary32 = rng.next().mul(two);
        let x2: Binary32 = rng.next().mul(two);
        let held: Binary32 = Binary32::one().add(
            rng.next().mul(Binary32 { bits: 0x3ca3_d70a }),
        );
        proof {
            reveal_with_fuel(after, 5);
            lemma_after(seeded(seed), (4 * i) as nat, 4);
        }
        out.push(
            Point {
                x0: if frozen == 0 { held } else { x0 },
                x1: if frozen == 1 { held } else { x1 },
                x2: if frozen == 2 { held } else { x2 },
            },
        );
        i = i + 1;
    }
    proof {
        assert(out@ =~= samples(frozen as nat, seed));
    }
    out
}

/// The samples a model is scored on, with every feature varying.
pub open spec fn held_out_samples() -> Seq<Point> {
    Seq::new(
        HELD_OUT as nat,
        |i: int|
            {
                let s = after(seeded(9_999), (3 * i) as nat);
                let two = Binary32 { bits: 0x4000_0000 };
                Point {
                    x0: draw(s, 0).times(two),
                    x1: draw(s, 1).times(two),
                    x2: draw(s, 2).times(two),
                }
            },
    )
}

fn held_out() -> (r: Vec<Point>)
    ensures
        r@ == held_out_samples(),
{
    let mut rng: Lcg = Lcg::new(9_999);
    let mut out: Vec<Point> = Vec::new();
    let mut i: usize = 0;
    while i < HELD_OUT
        invariant
            i <= HELD_OUT,
            out.len() == i,
            rng.state == after(seeded(9_999), (3 * i) as nat),
            forall|k: int| 0 <= k < i ==> out@[k] == #[trigger] held_out_samples()[k],
        decreases HELD_OUT - i,
    {
        let two: Binary32 = Binary32 { bits: 0x4000_0000 };
        let x0: Binary32 = rng.next().mul(two);
        let x1: Binary32 = rng.next().mul(two);
        let x2: Binary32 = rng.next().mul(two);
        proof {
            reveal_with_fuel(after, 4);
            lemma_after(seeded(9_999), (3 * i) as nat, 3);
        }
        out.push(Point { x0, x1, x2 });
        i = i + 1;
    }
    proof {
        assert(out@ =~= held_out_samples());
    }
    out
}

/// What the true model, with coefficients 1.5, -2 and 0.5 and intercept 3,
/// gives for a sample.
pub open spec fn truth(x: Point) -> Binary32 {
    (Binary32 { bits: 0x3fc0_0000 }).times(x.x0).plus(
        (Binary32 { bits: 0xc000_0000 }).times(x.x1),
    ).plus((Binary32 { bits: 0x3f00_0000 }).times(x.x2)).plus(Binary32 { bits: 0x4040_0000 })
}

fn true_value(x: &Point) -> (r: Binary32)
    ensures
        r == truth(*x),
{
    Binary32 { bits: 0x3fc0_0000 }.mul(x.x0).add(Binary32 { bits: 0xc000_0000 }.mul(x.x1)).add(
        Binary32 { bits: 0x3f00_0000 }.mul(x.x2),
    ).add(Binary32 { bits: 0x4040_0000 })
}

/// What the linear model `w`, three coefficients and an intercept, gives for
/// a sample.
pub open spec fn linear(w: Seq<Binary32>, x: Point) -> Binary32 {
    w[0].times(x.x0).plus(w[1].times(x.x1)).plus(w[2].times(x.x2)).plus(w[3])
}

fn linear_value(w: &[Binary32], x: &Point) -> (r: Binary32)
    requires
        w.len() >= 4,
    ensures
        r == linear(w@, *x),
{
    w[0].mul(x.x0).add(w[1].mul(x.x1)).add(w[2].mul(x.x2)).add(w[3])
}

/// What one round of local training hands back.
#[derive(Debug)]
pub struct TrainResult {
    /// The trained model.
    pub weights: Vec<Binary32>,
    /// How many samples it was trained on.
    pub num_samples: u64,
    /// How many steps were taken.
    pub local_steps: Option<u32>,
    /// The loss of the last step.
    pub local_loss: Option<Binary32>,
}

/// A gradient by the three coefficients and the intercept.
#[derive(Clone, Copy, Debug)]
pub struct Gradient {
    pub x0: Binary32,
    pub x1: Binary32,
    pub x2: Binary32,
    pub intercept: Binary32,
}

impl Gradient {
    /// The gradient of nothing.
    pub open spec fn nothing() -> Gradient {
        Gradient {
            x0: Binary32::nothing(),
            x1: Binary32::nothing(),
            x2: Binary32::nothing(),
            intercept: Binary32::nothing(),
        }
    }

    /// The gradient with the share of one sample added, `d` for each unit of
    /// a feature.
    pub open spec fn with_sample(self, d: Binary32, x: Point) -> Gradient {
        Gradient {
            x0: self.x0.plus(d.times(x.x0)),
            x1: self.x1.plus(d.times(x.x1)),
            x2: self.x2.plus(d.times(x.x2)),
            intercept: self.intercept.plus(d),
        }
    }

    fn zero() -> (r: Gradient)
        ensures
            r == Gradient::nothing(),
    {
        Gradient {
            x0: Binary32::zero(),
            x1: Binary32::zero(),
            x2: Binary32::zero(),
            intercept: Binary32::zero(),
        }
    }

    fn add_sample(self, d: Binary32, x: &Point) -> (r: Gradient)
        ensures
            r == self.with_sample(d, *x),
    {
        Gradient {
            x0: self.x0.add(d.mul(x.x0)),
            x1: self.x1.add(d.mul(x.x1)),
            x2: self.x2.add(d.mul(x.x2)),
            intercept: self.intercept.add(d),
        }
    }
}

/// The model one step down the gradient: each of the first four weights less
/// `rate` times its slope over `n`.
pub open spec fn descended(w: Seq<Binary32>, g: Gradient, rate: Binary32, n: Binary32) -> Seq<
    Binary32,
> {
    w.update(0, w[0].minus(rate.times(g.x0).over(n))).update(
        1,
        w[1].minus(rate.times(g.x1).over(n)),
    ).update(2, w[2].minus(rate.times(g.x2).over(n))).update(
        3,
        w[3].minus(rate.times(g.intercept).over(n)),
    )
}

fn descend(w: &mut Vec<Binary32>, g: &Gradient, rate: Binary32, n: Binary32)
    requires
        old(w).len() >= 4,
    ensures
        final(w)@ == descended(old(w)@, *g, rate, n),
{
    let w0: Binary32 = w[0].sub(rate.mul(g.x0).div(n));
    let w1: Binary32 = w[1].sub(rate.mul(g.x1).div(n));
    let w2: Binary32 = w[2].sub(rate.mul(g.x2).div(n));
    let w3: Binary32 = w[3].sub(rate.mul(g.intercept).div(n));
    w.set(0, w0);
    w.set(1, w1);
    w.set(2, w2);
    w.set(3, w3);
}

/// The client that returns fixed weights.
#[derive(Debug)]
pub struct Stub {
    /// The last global model handed to it.
    pub seen: Vec<Binary32>,
}

impl Stub {
    /// A client that has seen no model.
    pub fn new() -> (r: Stub)
        ensures
            r.seen@ == Seq::<Binary32>::empty(),
    {
        Stub { seen: Vec::new() }
    }

    /// Answers every model with a half in each coordinate.
    pub fn train(&mut self, weights: &[Binary32]) -> (r: TrainResult)
        ensures
            final(self).seen@ == weights@,
            r.weights@ == Seq::new(
                weights@.len(),
                |i: int| Binary32 { bits: 0x3f00_0000 },
            ),
            r.num_samples == 1,
            r.local_steps is None,
            r.local_loss is None,
    {
        self.seen = copy32(weights);
        let halves: Vec<Binary32> = filled32(weights.len(), Binary32 { bits: 0x3f00_0000 });
        proof {
            assert(halves@ =~= Seq::new(
                weights@.len(),
                |i: int| Binary32 { bits: 0x3f00_0000 },
            ));
        }
        TrainResult { weights: halves, num_samples: 1, local_steps: None, local_loss: None }
    }
}

/// A client that fits a linear model by least squares.
#[derive(Debug)]
pub struct LinReg {
    /// Its samples.
    pub xs: Vec<Point>,
    /// The value of each.
    pub ys: Vec<Binary32>,
    /// The last global model handed to it.
    pub seen: Vec<Binary32>,
}

/// The slope of the squared error over the first `k` samples.
pub open spec fn squared_error_slope(w: Seq<Binary32>, xs: Seq<Point>, ys: Seq<Binary32>, k: nat) -> Gradient
    decreases k,
{
    if k == 0 {
        Gradient::nothing()
    } else {
        let x = xs[k - 1];
        let error = linear(w, x).minus(ys[k - 1]);
        squared_error_slope(w, xs, ys, (k - 1) as nat).with_sample(
            (Binary32 { bits: 0x4000_0000 }).times(error),
            x,
        )
    }
}

/// The linear model after `steps` steps at a rate of 0.05.
pub open spec fn least_squares(w: Seq<Binary32>, xs: Seq<Point>, ys: Seq<Binary32>, steps: nat) -> Seq<
    Binary32,
>
    decreases steps,
{
    if steps == 0 {
        w
    } else {
        let before = least_squares(w, xs, ys, (steps - 1) as nat);
        descended(
            before,
            squared_error_slope(before, xs, ys, xs.len()),
            Binary32 { bits: 0x3d4c_cccd },
            Binary32::whole(xs.len()),
        )
    }
}

/// The values a client's linear samples carry: the truth and a little noise.
pub open spec fn noisy_truths(xs: Seq<Point>, seed: u64) -> Seq<Binary32> {
    Seq::new(
        xs.len(),
        |i: int|
            truth(xs[i]).plus(
                draw(seeded(seed), i as nat).times(Binary32 { bits: 0x3dcc_cccd }),
            ),
    )
}

impl LinReg {
    /// Whether every sample has its value.
    pub open spec fn wf(self) -> bool {
        self.xs.len() == self.ys.len() == SAMPLES
    }

    /// The client for a participant, which is also its share of the data.
    pub fn for_client(index: usize) -> (r: LinReg)
        requires
            index <= u64::MAX - 7_000,
        ensures
            r.wf(),
            r.xs@ == samples((index % FEATURES) as nat, (1_000 + index) as u64),
            r.ys@ == noisy_truths(r.xs@, (7_000 + index) as u64),
            r.seen@ == Seq::<Binary32>::empty(),
    {
        let xs: Vec<Point> = features(index % FEATURES, 1_000 + index as u64);
        let seed: u64 = 7_000 + index as u64;
        let mut rng: Lcg = Lcg::new(seed);
        let mut ys: Vec<Binary32> = Vec::new();
        let mut i: usize = 0;
        while i < xs.len()
            invariant
                i <= xs.len(),
                ys.len() == i,
                rng.state == after(seeded(seed), i as nat),
                forall|k: int|
                    0 <= k < i ==> ys@[k] == #[trigger] noisy_truths(xs@, seed)[k],
            decreases xs.len() - i,
        {
            ys.push(true_value(&xs[i]).add(rng.next().mul(Binary32 { bits: 0x3dcc_cccd })));
            i = i + 1;
        }
        proof {
            assert(ys@ =~= noisy_truths(xs@, seed));
        }
        LinReg { xs, ys, seen: Vec::new() }
    }

    /// Takes the local steps from a global model.
    pub fn train(&mut self, weights: &[Binary32]) -> (r: TrainResult)
        requires
            old(self).wf(),
            weights@.len() >= 4,
        ensures
            final(self).wf(),
            final(self).xs == old(self).xs,
            final(self).ys == old(self).ys,
            final(self).seen@ == weights@,
            r.weights@ == least_squares(
                weights@,
                old(self).xs@,
                old(self).ys@,
                LOCAL_STEPS as nat,
            ),
            r.num_samples == SAMPLES,
            r.local_steps == Some(60u32),
            r.local_loss is None,
    {
        self.seen = copy32(weights);
        let mut w: Vec<Binary32> = copy32(weights);
        let n: Binary32 = Binary32::from_u64(self.xs.len() as u64);
        let mut step: usize = 0;
        while step < LOCAL_STEPS
            invariant
                step <= LOCAL_STEPS,
                self.wf(),
                w.len() >= 4,
                n == Binary32::whole(self.xs@.len()),
                w@ == least_squares(weights@, self.xs@, self.ys@, step as nat),
            decreases LOCAL_STEPS - step,
        {
            let mut g: Gradient = Gradient::zero();
            let mut i: usize = 0;
            while i < self.xs.len()
                invariant
                    i <= self.xs.len(),
                    self.wf(),
                    w.len() >= 4,
                    g == squared_error_slope(w@, self.xs@, self.ys@, i as nat),
                decreases self.xs.len() - i,
            {
                let error: Binary32 = linear_value(w.as_slice(), &self.xs[i]).sub(self.ys[i]);
                g = g.add_sample(Binary32 { bits: 0x4000_0000 }.mul(error), &self.xs[i]);
                i = i + 1;
            }
            descend(&mut w, &g, Binary32 { bits: 0x3d4c_cccd }, n);
            step = step + 1;
        }
        TrainResult {
            weights: w,
            num_samples: self.xs.len() as u64,
            local_steps: Some(60),
            local_loss: None,
        }
    }
}

/// The functions a logistic model needs.
#[derive(Debug)]
pub struct Logistic<E: Fn(Binary64) -> Binary64, L: Fn(Binary32) -> Binary32> {
    /// The exponential.
    pub exp: E,
    /// The natural logarithm.
    pub ln: L,
}

impl<E: Fn(Binary64) -> Binary64, L: Fn(Binary32) -> Binary32> Logistic<E, L> {
    /// Whether both answer every argument, and each always alike.
    pub open spec fn wf(self) -> bool {
        is_function64(self.exp) && is_function(self.ln)
    }

    /// The logistic function, in double precision: the exponential of a large
    /// negative number saturates early in single precision, and the gradient
    /// would vanish where it should not.
    pub open spec fn squashed(self, z: Binary32) -> Binary32 {
        Binary64::unit().over(
            Binary64::unit().plus(image64(self.exp, z.as_binary64().negated())),
        ).as_binary32()
    }

    /// The logarithm of a probability, held away from that of zero.
    pub open spec fn log_of(self, p: Binary32) -> Binary32 {
        image(self.ln, p.larger(Binary32 { bits: 0x33d6_bf95 }))
    }

    /// What one sample takes from the loss: the logarithm of the probability
    /// given to its class.
    pub open spec fn credit(self, prediction: Binary32, y: Binary32) -> Binary32 {
        y.times(self.log_of(prediction)).plus(
            Binary32::unit().minus(y).times(self.log_of(Binary32::unit().minus(prediction))),
        )
    }

    /// The logistic function.
    pub fn sigmoid(&self, z: Binary32) -> (r: Binary32)
        requires
            self.wf(),
        ensures
            r == self.squashed(z),
    {
        Binary64::one().div(Binary64::one().add(apply64(&self.exp, z.to_binary64().neg()))).to_binary32()
    }

    fn sample_credit(&self, prediction: Binary32, y: Binary32) -> (r: Binary32)
        requires
            self.wf(),
        ensures
            r == self.credit(prediction, y),
    {
        let floor: Binary32 = Binary32 { bits: 0x33d6_bf95 };
        let hit: Binary32 = apply(&self.ln, prediction.max(floor));
        let miss: Binary32 = apply(&self.ln, Binary32::one().sub(prediction).max(floor));
        y.mul(hit).add(Binary32::one().sub(y).mul(miss))
    }
}

/// A client that separates two classes by a linear model.
#[derive(Debug)]
pub struct LogReg {
    /// Its samples.
    pub xs: Vec<Point>,
    /// The class of each, one or zero.
    pub ys: Vec<Binary32>,
    /// The last global model handed to it.
    pub seen: Vec<Binary32>,
}

/// The slope of the logistic loss, and the loss, over the first `k` samples.
pub open spec fn logistic_slope<E: Fn(Binary64) -> Binary64, L: Fn(Binary32) -> Binary32>(
    f: Logistic<E, L>,
    w: Seq<Binary32>,
    xs: Seq<Point>,
    ys: Seq<Binary32>,
    k: nat,
) -> (Gradient, Binary32)
    decreases k,
{
    if k == 0 {
        (Gradient::nothing(), Binary32::nothing())
    } else {
        let x = xs[k - 1];
        let y = ys[k - 1];
        let (g, loss) = logistic_slope(f, w, xs, ys, (k - 1) as nat);
        let prediction = f.squashed(linear(w, x));
        (g.with_sample(prediction.minus(y), x), loss.minus(f.credit(prediction, y)))
    }
}

/// The logistic model after `steps` steps at a rate of one half.
pub open spec fn logistic_fit<E: Fn(Binary64) -> Binary64, L: Fn(Binary32) -> Binary32>(
    f: Logistic<E, L>,
    w: Seq<Binary32>,
    xs: Seq<Point>,
    ys: Seq<Binary32>,
    steps: nat,
) -> Seq<Binary32>
    decreases steps,
{
    if steps == 0 {
        w
    } else {
        let before = logistic_fit(f, w, xs, ys, (steps - 1) as nat);
        descended(
            before,
            logistic_slope(f, before, xs, ys, xs.len()).0,
            Binary32 { bits: 0x3f00_0000 },
            Binary32::whole(xs.len()),
        )
    }
}

/// The class of each sample: one where the truth is above three.
pub open spec fn classes(xs: Seq<Point>) -> Seq<Binary32> {
    Seq::new(
        xs.len(),
        |i: int|
            if (Binary32 { bits: 0x4040_0000 }).below(truth(xs[i])) {
                Binary32::unit()
            } else {
                Binary32::nothing()
            },
    )
}

/// The mean loss over the samples before the last step of a fit that starts
/// at `w`.
pub open spec fn last_loss<E: Fn(Binary64) -> Binary64, L: Fn(Binary32) -> Binary32>(
    f: Logistic<E, L>,
    w: Seq<Binary32>,
    xs: Seq<Point>,
    ys: Seq<Binary32>,
) -> Binary32 {
    logistic_slope(
        f,
        logistic_fit(f, w, xs, ys, (LOCAL_STEPS - 1) as nat),
        xs,
        ys,
        SAMPLES as nat,
    ).1.over(Binary32::whole(SAMPLES as nat))
}

impl LogReg {
    /// Whether every sample has its class.
    pub open spec fn wf(self) -> bool {
        self.xs.len() == self.ys.len() == SAMPLES
    }

    /// The client for a participant, which is also its share of the data.
    pub fn for_client(index: usize) -> (r: LogReg)
        requires
            index <= u64::MAX - 2_000,
        ensures
            r.wf(),
            r.xs@ == samples((index % FEATURES) as nat, (2_000 + index) as u64),
            r.ys@ == classes(r.xs@),
            r.seen@ == Seq::<Binary32>::empty(),
    {
        let xs: Vec<Point> = features(index % FEATURES, 2_000 + index as u64);
        let mut ys: Vec<Binary32> = Vec::new();
        let mut i: usize = 0;
        while i < xs.len()
            invariant
                i <= xs.len(),
                ys.len() == i,
                forall|k: int| 0 <= k < i ==> ys@[k] == #[trigger] classes(xs@)[k],
            decreases xs.len() - i,
        {
            ys.push(
                if (Binary32 { bits: 0x4040_0000 }).lt(true_value(&xs[i])) {
                    Binary32::one()
                } else {
                    Binary32::zero()
                },
            );
            i = i + 1;
        }
        proof {
            assert(ys@ =~= classes(xs@));
        }
        LogReg { xs, ys, seen: Vec::new() }
    }

    /// Takes the local steps from a global model; the loss is that of the
    /// last step.
    pub fn train<E: Fn(Binary64) -> Binary64, L: Fn(Binary32) -> Binary32>(
        &mut self,
        f: &Logistic<E, L>,
        weights: &[Binary32],
    ) -> (r: TrainResult)
        requires
            old(self).wf(),
            f.wf(),
            weights@.len() >= 4,
        ensures
            final(self).wf(),
            final(self).xs == old(self).xs,
            final(self).ys == old(self).ys,
            final(self).seen@ == weights@,
            r.weights@ == logistic_fit(
                *f,
                weights@,
                old(self).xs@,
                old(self).ys@,
                LOCAL_STEPS as nat,
            ),
            r.num_samples == SAMPLES,
            r.local_steps == Some(60u32),
            r.local_loss == Some(last_loss(*f, weights@, old(self).xs@, old(self).ys@)),
    {
        self.seen = copy32(weights);
        let mut w: Vec<Binary32> = copy32(weights);
        let n: Binary32 = Binary32::from_u64(self.xs.len() as u64);
        let mut loss: Binary32 = Binary32::zero();
        let mut step: usize = 0;
        while step < LOCAL_STEPS
            invariant
                step <= LOCAL_STEPS,
                self.wf(),
                f.wf(),
                w.len() >= 4,
                n == Binary32::whole(self.xs@.len()),
                w@ == logistic_fit(*f, weights@, self.xs@, self.ys@, step as nat),
                step > 0 ==> loss == logistic_slope(
                    *f,
                    logistic_fit(*f, weights@, self.xs@, self.ys@, (step - 1) as nat),
                    self.xs@,
                    self.ys@,
                    SAMPLES as nat,
                ).1,
            decreases LOCAL_STEPS - step,
        {
            let mut g: Gradient = Gradient::zero();
            loss = Binary32::zero();
            let mut i: usize = 0;
            while i < self.xs.len()
                invariant
                    i <= self.xs.len(),
                    self.wf(),
                    f.wf(),
                    w.len() >= 4,
                    (g, loss) == logistic_slope(*f, w@, self.xs@, self.ys@, i as nat),
                decreases self.xs.len() - i,
            {
                let y: Binary32 = self.ys[i];
                let prediction: Binary32 = f.sigmoid(linear_value(w.as_slice(), &self.xs[i]));
                g = g.add_sample(prediction.sub(y), &self.xs[i]);
                loss = loss.sub(f.sample_credit(prediction, y));
                i = i + 1;
            }
            descend(&mut w, &g, Binary32 { bits: 0x3f00_0000 }, n);
            step = step + 1;
        }
        TrainResult {
            weights: w,
            num_samples: self.xs.len() as u64,
            local_steps: Some(60),
            local_loss: Some(loss.div(n)),
        }
    }
}

/// How a demo model scores a global model, on data no client trained on.
#[derive(Clone, Copy, Debug)]
pub struct DemoScore {
    /// What the number is.
    pub label: &'static str,
    /// The number.
    pub value: Binary32,
    /// Which direction is better.
    pub lower_is_better: bool,
}

/// The squared error of `w` on each sample.
pub open spec fn squared_errors(w: Seq<Binary32>, xs: Seq<Point>) -> Seq<Binary32> {
    Seq::new(
        xs.len(),
        |i: int|
            linear(w, xs[i]).minus(truth(xs[i])).times(linear(w, xs[i]).minus(truth(xs[i]))),
    )
}

fn linreg_score(w: &[Binary32]) -> (r: DemoScore)
    requires
        w@.len() >= 4,
    ensures
        r.label@ == "held-out MSE"@,
        r.value == sum32(squared_errors(w@, held_out_samples())).over(
            Binary32::whole(HELD_OUT as nat),
        ),
        r.lower_is_better,
{
    let xs: Vec<Point> = held_out();
    let mut errors: Vec<Binary32> = Vec::new();
    let mut i: usize = 0;
    while i < xs.len()
        invariant
            i <= xs.len(),
            w@.len() >= 4,
            errors.len() == i,
            forall|k: int| 0 <= k < i ==> errors@[k] == #[trigger] squared_errors(w@, xs@)[k],
        decreases xs.len() - i,
    {
        let error: Binary32 = linear_value(w, &xs[i]).sub(true_value(&xs[i]));
        errors.push(error.mul(error));
        i = i + 1;
    }
    proof {
        assert(errors@ =~= squared_errors(w@, xs@));
    }
    DemoScore {
        label: "held-out MSE",
        value: total32(errors.as_slice()).div(Binary32::from_u64(xs.len() as u64)),
        lower_is_better: true,
    }
}

/// Whether `w` puts a sample in its class.
pub open spec fn classified(w: Seq<Binary32>) -> spec_fn(Point) -> bool {
    |x: Point|
        (Binary32 { bits: 0x4040_0000 }).below(truth(x)) == Binary32::nothing().below(linear(w, x))
}

fn logreg_score(w: &[Binary32]) -> (r: DemoScore)
    requires
        w@.len() >= 4,
    ensures
        r.label@ == "held-out accuracy"@,
        r.value == Binary32::whole(held_out_samples().filter(classified(w@)).len()).over(
            Binary32::whole(HELD_OUT as nat),
        ),
        !r.lower_is_better,
{
    let xs: Vec<Point> = held_out();
    let mut correct: u64 = 0;
    let mut i: usize = 0;
    while i < xs.len()
        invariant
            i <= xs.len(),
            w@.len() >= 4,
            correct <= i,
            xs.len() == HELD_OUT,
            correct == xs@.take(i as int).filter(classified(w@)).len(),
        decreases xs.len() - i,
    {
        proof {
            reveal(Seq::filter);
            assert(xs@.take(i + 1).drop_last() =~= xs@.take(i as int));
        }
        let high: bool = (Binary32 { bits: 0x4040_0000 }).lt(true_value(&xs[i]));
        let called: bool = Binary32::zero().lt(linear_value(w, &xs[i]));
        if high == called {
            correct = correct + 1;
        }
        i = i + 1;
    }
    proof {
        assert(xs@.take(xs.len() as int) =~= xs@);
        reveal(Seq::filter);
    }
    DemoScore {
        label: "held-out accuracy",
        value: Binary32::from_u64(correct).div(Binary32::from_u64(xs.len() as u64)),
        lower_is_better: false,
    }
}

/// Which demo client.
#[derive(Clone, Copy, Debug, PartialEq, Eq, Structural)]
pub enum DemoKind {
    Stub,
    LinReg,
    LogReg,
}

/// A demo client, and everything a caller needs to run and describe one.
#[derive(Clone, Copy, Debug)]
pub struct DemoModel {
    /// The name that selects it.
    pub name: &'static str,
    /// How many numbers the model is.
    pub weights_dim: usize,
    /// One line on what it does.
    pub headline: &'static str,
    /// What has to be said out loud whenever it runs.
    pub caveat: &'static str,
    /// Which client it is.
    pub kind: DemoKind,
}

impl DemoKind {
    /// The name that selects it.
    pub open spec fn name(self) -> Seq<char> {
        match self {
            DemoKind::Stub => "stub"@,
            DemoKind::LinReg => "linreg"@,
            DemoKind::LogReg => "logreg"@,
        }
    }

    /// One line on what it does.
    pub open spec fn headline(self) -> Seq<char> {
        match self {
            DemoKind::Stub => "Fixed weights, no training."@,
            DemoKind::LinReg => "Least squares over three features. Recovers the model exactly."@,
            DemoKind::LogReg => "Binary logistic regression over three features."@,
        }
    }

    /// What it must not be taken for.
    pub open spec fn caveat(self) -> Seq<char> {
        match self {
            DemoKind::Stub =>
                "This does not learn. It exercises the transport — registration, task fetch, chunked submission, quorum, aggregation, checkpoint — and nothing else. Any accuracy you compute from it is noise."@,
            DemoKind::LinReg =>
                "A demo model, not yours. Each client's data holds a different feature nearly constant, so no client can learn the model alone — which is the property being demonstrated, not a property of your data."@,
            DemoKind::LogReg =>
                "A demo model, not yours. Same non-IID arrangement as `linreg`: each client is blind to one coefficient, so the federation separates the classes and no single client does."@,
        }
    }
}

/// The kinds, in the order a catalog lists them.
pub open spec fn kinds() -> Seq<DemoKind> {
    seq![DemoKind::Stub, DemoKind::LinReg, DemoKind::LogReg]
}

fn stub_model() -> (r: DemoModel)
    ensures
        r.wf(),
        r.kind == DemoKind::Stub,
{
    DemoModel {
        name: "stub",
        weights_dim: 4,
        headline: "Fixed weights, no training.",
        caveat:
            "This does not learn. It exercises the transport — registration, task fetch, chunked submission, quorum, aggregation, checkpoint — and nothing else. Any accuracy you compute from it is noise.",
        kind: DemoKind::Stub,
    }
}

fn linreg_model() -> (r: DemoModel)
    ensures
        r.wf(),
        r.kind == DemoKind::LinReg,
{
    DemoModel {
        name: "linreg",
        weights_dim: 4,
        headline: "Least squares over three features. Recovers the model exactly.",
        caveat:
            "A demo model, not yours. Each client's data holds a different feature nearly constant, so no client can learn the model alone — which is the property being demonstrated, not a property of your data.",
        kind: DemoKind::LinReg,
    }
}

fn logreg_model() -> (r: DemoModel)
    ensures
        r.wf(),
        r.kind == DemoKind::LogReg,
{
    DemoModel {
        name: "logreg",
        weights_dim: 4,
        headline: "Binary logistic regression over three features.",
        caveat:
            "A demo model, not yours. Same non-IID arrangement as `linreg`: each client is blind to one coefficient, so the federation separates the classes and no single client does.",
        kind: DemoKind::LogReg,
    }
}

/// Every demo client, in the order a catalog lists them.
pub fn models() -> (r: Vec<DemoModel>)
    ensures
        r@.map_values(|m: DemoModel| m.kind) == kinds(),
        forall|i: int| 0 <= i < r@.len() ==> (#[trigger] r@[i]).wf(),
{
    let r: Vec<DemoModel> = vec![stub_model(), linreg_model(), logreg_model()];
    proof {
        assert(r@.map_values(|m: DemoModel| m.kind) =~= kinds());
    }
    r
}

/// The demo client called `name`, if there is one.
pub fn lookup(name: &str) -> (r: Option<DemoModel>)
    ensures
        r is Some <==> exists|k: DemoKind| #[trigger] k.name() == name@,
        r is Some ==> (r->0).wf() && (r->0).name@ == name@,
{
    let stub: DemoModel = stub_model();
    if same_text(stub.name, name) {
        assert(DemoKind::Stub.name() == name@);
        return Some(stub);
    }
    let linreg: DemoModel = linreg_model();
    if same_text(linreg.name, name) {
        assert(DemoKind::LinReg.name() == name@);
        return Some(linreg);
    }
    let logreg: DemoModel = logreg_model();
    if same_text(logreg.name, name) {
        assert(DemoKind::LogReg.name() == name@);
        return Some(logreg);
    }
    None
}

/// Every demo client's name, for a message that lists what exists.
pub fn names() -> (r: Vec<&'static str>)
    ensures
        r@.len() == kinds().len(),
        forall|i: int| 0 <= i < r@.len() ==> (#[trigger] r@[i])@ == kinds()[i].name(),
{
    vec!["stub", "linreg", "logreg"]
}

/// A demo client of one participant.
#[derive(Debug)]
pub enum DemoClient {
    Stub(Stub),
    LinReg(LinReg),
    LogReg(LogReg),
}

impl DemoModel {
    /// Whether the description is that of its kind.
    pub open spec fn wf(self) -> bool {
        &&& self.name@ == self.kind.name()
        &&& self.weights_dim == 4
        &&& self.headline@ == self.kind.headline()
        &&& self.caveat@ == self.kind.caveat()
    }

    /// The client of participant `index`, which is also its share of the data.
    pub fn make(&self, index: usize) -> (r: DemoClient)
        requires
            index <= u64::MAX - 7_000,
        ensures
            r.wf(),
            match r {
                DemoClient::Stub(c) => self.kind == DemoKind::Stub && c.seen@.len() == 0,
                DemoClient::LinReg(c) => self.kind == DemoKind::LinReg && c.seen@.len() == 0
                    && c.xs@ == samples((index % FEATURES) as nat, (1_000 + index) as u64) && c.ys@
                    == noisy_truths(c.xs@, (7_000 + index) as u64),
                DemoClient::LogReg(c) => self.kind == DemoKind::LogReg && c.seen@.len() == 0
                    && c.xs@ == samples((index % FEATURES) as nat, (2_000 + index) as u64) && c.ys@
                    == classes(c.xs@),
            },
    {
        match self.kind {
            DemoKind::Stub => DemoClient::Stub(Stub::new()),
            DemoKind::LinReg => DemoClient::LinReg(LinReg::for_client(index)),
            DemoKind::LogReg => DemoClient::LogReg(LogReg::for_client(index)),
        }
    }

    /// Scores a global model; none where there is nothing meaningful to score.
    pub fn score(&self, w: &[Binary32]) -> (r: Option<DemoScore>)
        requires
            self.kind != DemoKind::Stub ==> w@.len() >= 4,
        ensures
            match self.kind {
                DemoKind::Stub => r is None,
                DemoKind::LinReg => r is Some && (r->0).label@ == "held-out MSE"@
                    && (r->0).lower_is_better && (r->0).value == sum32(
                    squared_errors(w@, held_out_samples()),
                ).over(Binary32::whole(HELD_OUT as nat)),
                DemoKind::LogReg => r is Some && (r->0).label@ == "held-out accuracy"@
                    && !(r->0).lower_is_better && (r->0).value == Binary32::whole(
                    held_out_samples().filter(classified(w@)).len(),
                ).over(Binary32::whole(HELD_OUT as nat)),
            },
    {
        match self.kind {
            DemoKind::Stub => None,
            DemoKind::LinReg => Some(linreg_score(w)),
            DemoKind::LogReg => Some(logreg_score(w)),
        }
    }
}

impl DemoClient {
    /// Whether the client's samples are whole.
    pub open spec fn wf(self) -> bool {
        match self {
            DemoClient::Stub(c) => true,
            DemoClient::LinReg(c) => c.wf(),
            DemoClient::LogReg(c) => c.wf(),
        }
    }

    /// The last global model handed to it.
    pub open spec fn last_seen(self) -> Seq<Binary32> {
        match self {
            DemoClient::Stub(c) => c.seen@,
            DemoClient::LinReg(c) => c.seen@,
            DemoClient::LogReg(c) => c.seen@,
        }
    }

    /// One round of local training.
    pub fn train<E: Fn(Binary64) -> Binary64, L: Fn(Binary32) -> Binary32>(
        &mut self,
        f: &Logistic<E, L>,
        weights: &[Binary32],
    ) -> (r: TrainResult)
        requires
            old(self).wf(),
            f.wf(),
            !(*old(self) is Stub) ==> weights@.len() >= 4,
        ensures
            final(self).wf(),
            final(self).last_seen() == weights@,
            match (*old(self), *final(self)) {
                (DemoClient::Stub(_), DemoClient::Stub(_)) => {
                    &&& r.weights@ == Seq::new(
                        weights@.len(),
                        |i: int| Binary32 { bits: 0x3f00_0000 },
                    )
                    &&& r.num_samples == 1
                    &&& r.local_steps is None
                    &&& r.local_loss is None
                },
                (DemoClient::LinReg(c), DemoClient::LinReg(d)) => {
                    &&& d.xs == c.xs
                    &&& d.ys == c.ys
                    &&& r.weights@ == least_squares(weights@, c.xs@, c.ys@, LOCAL_STEPS as nat)
                    &&& r.num_samples == SAMPLES
                    &&& r.local_steps == Some(60u32)
                    &&& r.local_loss is None
                },
                (DemoClient::LogReg(c), DemoClient::LogReg(d)) => {
                    &&& d.xs == c.xs
                    &&& d.ys == c.ys
                    &&& r.weights@ == logistic_fit(
                        *f,
                        weights@,
                        c.xs@,
                        c.ys@,
                        LOCAL_STEPS as nat,
                    )
                    &&& r.num_samples == SAMPLES
                    &&& r.local_steps == Some(60u32)
                    &&& r.local_loss == Some(last_loss(*f, weights@, c.xs@, c.ys@))
                },
                _ => false,
            },
    {
        match self {
            DemoClient::Stub(c) => c.train(weights),
            DemoClient::LinReg(c) => c.train(weights),
            DemoClient::LogReg(c) => c.train(f, weights),
        }
    }
}

} // verus!
