//! Accounting for privacy spent, by composition of Renyi divergences.
use vstd::prelude::*;
use crate::elementary::{apply64, image64, is_function64};
use crate::float::binary32::Binary32;
use crate::float::binary64::Binary64;
use crate::history::{find_entry, history_of, lemma_history_lookup, lemma_history_update};
use crate::linear::sum64;
use crate::text::texts;
use crate::weights::{first_where, lemma_first_where};

verus! {

/// One round's noise multiplier and sampling rate.
pub type Round = (Binary32, Binary32);

/// The logarithm and the exponential, in double precision.
#[derive(Debug, Clone, Copy)]
pub struct LogExp<L, E> {
    pub ln: L,
    pub exp: E,
}

/// Whether both are functions.
pub open spec fn are_functions<L: Fn(Binary64) -> Binary64, E: Fn(Binary64) -> Binary64>(
    f: LogExp<L, E>,
) -> bool {
    is_function64(f.ln) && is_function64(f.exp)
}

/// The double-precision two.
pub open spec fn two64() -> Binary64 {
    Binary64 { bits: 0x4000_0000_0000_0000 }
}

/// Whether `x` is a whole number.
pub open spec fn is_whole(x: Binary64) -> bool {
    x.finite() && x.floor_nat() == x.ceil_nat()
}

/// The order as a count of terms, at most the largest 32-bit number.
pub open spec fn order_of(alpha: Binary64) -> nat {
    if alpha.floor_nat() < u32::MAX {
        alpha.floor_nat()
    } else {
        u32::MAX as nat
    }
}

/// The logarithm of the binomial coefficient of `order` over `k`.
pub open spec fn ln_binomial<L: Fn(Binary64) -> Binary64>(ln: L, order: nat, k: nat) -> Binary64
    decreases k,
{
    if k == 0 {
        Binary64::nothing()
    } else {
        ln_binomial(ln, order, (k - 1) as nat).plus(
            image64(ln, Binary64::whole((order - k + 1) as nat)).minus(
                image64(ln, Binary64::whole(k)),
            ),
        )
    }
}

/// The logarithm of the `k`-th term of the sampled Gaussian's moment.
pub open spec fn ln_term<L: Fn(Binary64) -> Binary64>(
    ln: L,
    alpha: Binary64,
    sigma: Binary64,
    q: Binary64,
    k: nat,
) -> Binary64 {
    let kf = Binary64::whole(k);
    ln_binomial(ln, order_of(alpha), k).plus(
        alpha.minus(kf).times(image64(ln, Binary64::unit().minus(q))),
    ).plus(kf.times(image64(ln, q))).plus(
        kf.times(kf.minus(Binary64::unit())).over(two64().times(sigma).times(sigma)),
    )
}

/// The logarithm of every term.
pub open spec fn ln_terms<L: Fn(Binary64) -> Binary64>(
    ln: L,
    alpha: Binary64,
    sigma: Binary64,
    q: Binary64,
) -> Seq<Binary64> {
    Seq::new(order_of(alpha) + 1, |k: int| ln_term(ln, alpha, sigma, q, k as nat))
}

/// The largest of `s`, negative infinity for none.
pub open spec fn largest64(s: Seq<Binary64>) -> Binary64
    decreases s.len(),
{
    if s.len() == 0 {
        Binary64 { bits: 0xfff0_0000_0000_0000 }
    } else {
        largest64(s.drop_last()).larger(s.last())
    }
}

/// The divergence of the sampled Gaussian mechanism at a whole order of at
/// least two, for a sampling rate strictly between zero and one and positive
/// noise; nothing elsewhere, and nothing where it leaves the finite numbers.
pub open spec fn sampled_divergence<L: Fn(Binary64) -> Binary64, E: Fn(Binary64) -> Binary64>(
    f: LogExp<L, E>,
    alpha: Binary64,
    sigma: Binary64,
    q: Binary64,
) -> Option<Binary64> {
    if !(is_whole(alpha) && two64().at_most(alpha) && Binary64::nothing().below(q) && q.below(
        Binary64::unit(),
    ) && Binary64::nothing().below(sigma)) {
        None
    } else {
        let terms = ln_terms(f.ln, alpha, sigma, q);
        let max = largest64(terms);
        if !max.finite() {
            None
        } else {
            let sum = sum64(
                Seq::new(terms.len(), |i: int| image64(f.exp, terms[i].minus(max))),
            );
            let rdp = max.plus(image64(f.ln, sum)).over(alpha.minus(Binary64::unit()));
            if rdp.finite() {
                Some(rdp.larger(Binary64::nothing()))
            } else {
                None
            }
        }
    }
}

/// One round's divergence: the sampled one where it is smaller than the bound
/// for full participation, else that bound.
pub open spec fn round_divergence<L: Fn(Binary64) -> Binary64, E: Fn(Binary64) -> Binary64>(
    f: LogExp<L, E>,
    alpha: Binary64,
    sigma: Binary64,
    q: Binary64,
) -> Binary64 {
    let full = alpha.over(two64().times(sigma).times(sigma));
    match sampled_divergence(f, alpha, sigma, q) {
        Some(tight) => if tight.below(full) {
            tight
        } else {
            full
        },
        None => full,
    }
}

/// Whether the `i`-th group has the configuration `round`.
pub open spec fn has_config(groups: Seq<(Round, u64)>, round: Round) -> spec_fn(int) -> bool {
    |i: int| groups[i].0 == round
}

/// The groups with one more occurrence of `round`.
pub open spec fn with_round(groups: Seq<(Round, u64)>, round: Round) -> Seq<(Round, u64)> {
    let i = first_where(groups.len(), has_config(groups, round));
    if i < groups.len() {
        groups.update(i as int, (round, (groups[i as int].1 + 1) as u64))
    } else {
        groups.push((round, 1))
    }
}

/// The distinct configurations of `rounds` and how often each occurs, in
/// order of first occurrence.
pub open spec fn grouped(rounds: Seq<Round>) -> Seq<(Round, u64)>
    decreases rounds.len(),
{
    if rounds.len() == 0 {
        Seq::empty()
    } else {
        with_round(grouped(rounds.drop_last()), rounds.last())
    }
}

/// The orders searched.
pub open spec fn orders() -> Seq<Binary64> {
    seq![
        Binary64 { bits: 0x3ff4_0000_0000_0000 },
        Binary64 { bits: 0x3ff8_0000_0000_0000 },
        Binary64 { bits: 0x3ffc_0000_0000_0000 },
        Binary64 { bits: 0x4000_0000_0000_0000 },
        Binary64 { bits: 0x4004_0000_0000_0000 },
        Binary64 { bits: 0x4008_0000_0000_0000 },
        Binary64 { bits: 0x4010_0000_0000_0000 },
        Binary64 { bits: 0x4014_0000_0000_0000 },
        Binary64 { bits: 0x4018_0000_0000_0000 },
        Binary64 { bits: 0x4020_0000_0000_0000 },
        Binary64 { bits: 0x4024_0000_0000_0000 },
        Binary64 { bits: 0x4028_0000_0000_0000 },
        Binary64 { bits: 0x4030_0000_0000_0000 },
        Binary64 { bits: 0x4034_0000_0000_0000 },
        Binary64 { bits: 0x4038_0000_0000_0000 },
        Binary64 { bits: 0x4040_0000_0000_0000 },
        Binary64 { bits: 0x4048_0000_0000_0000 },
        Binary64 { bits: 0x4050_0000_0000_0000 },
        Binary64 { bits: 0x4058_0000_0000_0000 },
        Binary64 { bits: 0x4060_0000_0000_0000 },
        Binary64 { bits: 0x4068_0000_0000_0000 },
        Binary64 { bits: 0x4070_0000_0000_0000 },
    ]
}

fn rdp_orders() -> (r: Vec<Binary64>)
    ensures
        r@ == orders(),
{
    let mut out: Vec<Binary64> = Vec::new();
    out.push(Binary64 { bits: 0x3ff4_0000_0000_0000 });
    out.push(Binary64 { bits: 0x3ff8_0000_0000_0000 });
    out.push(Binary64 { bits: 0x3ffc_0000_0000_0000 });
    out.push(Binary64 { bits: 0x4000_0000_0000_0000 });
    out.push(Binary64 { bits: 0x4004_0000_0000_0000 });
    out.push(Binary64 { bits: 0x4008_0000_0000_0000 });
    out.push(Binary64 { bits: 0x4010_0000_0000_0000 });
    out.push(Binary64 { bits: 0x4014_0000_0000_0000 });
    out.push(Binary64 { bits: 0x4018_0000_0000_0000 });
    out.push(Binary64 { bits: 0x4020_0000_0000_0000 });
    out.push(Binary64 { bits: 0x4024_0000_0000_0000 });
    out.push(Binary64 { bits: 0x4028_0000_0000_0000 });
    out.push(Binary64 { bits: 0x4030_0000_0000_0000 });
    out.push(Binary64 { bits: 0x4034_0000_0000_0000 });
    out.push(Binary64 { bits: 0x4038_0000_0000_0000 });
    out.push(Binary64 { bits: 0x4040_0000_0000_0000 });
    out.push(Binary64 { bits: 0x4048_0000_0000_0000 });
    out.push(Binary64 { bits: 0x4050_0000_0000_0000 });
    out.push(Binary64 { bits: 0x4058_0000_0000_0000 });
    out.push(Binary64 { bits: 0x4060_0000_0000_0000 });
    out.push(Binary64 { bits: 0x4068_0000_0000_0000 });
    out.push(Binary64 { bits: 0x4070_0000_0000_0000 });
    proof {
        assert(out@ =~= orders());
    }
    out
}

/// What the groups cost together at one order: the divergence of each, times
/// how often it occurs.
pub open spec fn composed<L: Fn(Binary64) -> Binary64, E: Fn(Binary64) -> Binary64>(
    f: LogExp<L, E>,
    groups: Seq<(Round, u64)>,
    alpha: Binary64,
) -> Binary64 {
    sum64(
        Seq::new(
            groups.len(),
            |i: int|
                round_divergence(
                    f,
                    alpha,
                    groups[i].0.0.as_binary64(),
                    groups[i].0.1.as_binary64(),
                ).times(Binary64::whole(groups[i].1 as nat)),
        ),
    )
}

/// The smallest of `s`, infinity for none.
pub open spec fn smallest64(s: Seq<Binary64>) -> Binary64
    decreases s.len(),
{
    if s.len() == 0 {
        Binary64 { bits: 0x7ff0_0000_0000_0000 }
    } else {
        smallest64(s.drop_last()).smaller(s.last())
    }
}

/// The epsilon of one order.
pub open spec fn epsilon_at<L: Fn(Binary64) -> Binary64, E: Fn(Binary64) -> Binary64>(
    f: LogExp<L, E>,
    groups: Seq<(Round, u64)>,
    delta: Binary64,
    alpha: Binary64,
) -> Binary64 {
    composed(f, groups, alpha).plus(
        image64(f.ln, Binary64::unit().over(delta)).over(alpha.minus(Binary64::unit())),
    )
}

/// What `rounds` cost: nothing for none, else the least epsilon over the
/// orders.
pub open spec fn epsilon_of<L: Fn(Binary64) -> Binary64, E: Fn(Binary64) -> Binary64>(
    f: LogExp<L, E>,
    rounds: Seq<Round>,
    delta: Binary64,
) -> Binary64 {
    if rounds.len() == 0 {
        Binary64::nothing()
    } else {
        smallest64(
            Seq::new(
                orders().len(),
                |i: int| epsilon_at(f, grouped(rounds), delta, orders()[i]),
            ),
        )
    }
}

/// The divergence of the sampled Gaussian mechanism.
pub fn sampled_gaussian_rdp<L: Fn(Binary64) -> Binary64, E: Fn(Binary64) -> Binary64>(
    f: &LogExp<L, E>,
    alpha: Binary64,
    sigma: Binary64,
    q: Binary64,
) -> (r: Option<Binary64>)
    requires
        are_functions(*f),
    ensures
        r == sampled_divergence(*f, alpha, sigma, q),
{
    let one: Binary64 = Binary64::one();
    let two: Binary64 = Binary64 { bits: 0x4000_0000_0000_0000 };
    let whole: bool = alpha.is_finite() && alpha.floor_u64() == alpha.ceil_u64();
    let rate: bool = Binary64::zero().lt(q) && q.lt(one);
    if !(whole && two.le(alpha) && rate && Binary64::zero().lt(sigma)) {
        return None;
    }
    let floor: u64 = alpha.floor_u64();
    let order: u64 = if floor < 0xffff_ffff {
        floor
    } else {
        0xffff_ffff
    };
    let ln_q: Binary64 = apply64(&f.ln, q);
    let ln_rest: Binary64 = apply64(&f.ln, one.sub(q));
    let spread: Binary64 = two.mul(sigma).mul(sigma);
    let ghost terms = ln_terms(f.ln, alpha, sigma, q);
    let mut logs: Vec<Binary64> = Vec::new();
    let mut binomial: Binary64 = Binary64::zero();
    let mut max: Binary64 = Binary64 { bits: 0xfff0_0000_0000_0000 };
    let mut k: u64 = 0;
    while k <= order
        invariant
            are_functions(*f),
            k <= order + 1,
            order <= 0xffff_ffff,
            order as nat == order_of(alpha),
            one == Binary64::unit(),
            ln_q == image64(f.ln, q),
            ln_rest == image64(f.ln, one.minus(q)),
            spread == two64().times(sigma).times(sigma),
            terms == ln_terms(f.ln, alpha, sigma, q),
            k > 0 ==> binomial == ln_binomial(f.ln, order as nat, (k - 1) as nat),
            k == 0 ==> binomial == Binary64::nothing(),
            logs@ == terms.take(k as int),
            max == largest64(terms.take(k as int)),
        decreases order + 1 - k,
    {
        if k > 0 {
            let up: Binary64 = apply64(&f.ln, Binary64::from_u64(order - k + 1));
            let down: Binary64 = apply64(&f.ln, Binary64::from_u64(k));
            binomial = binomial.add(up.sub(down));
        }
        let kf: Binary64 = Binary64::from_u64(k);
        let term: Binary64 = binomial.add(alpha.sub(kf).mul(ln_rest)).add(kf.mul(ln_q)).add(
            kf.mul(kf.sub(one)).div(spread),
        );
        proof {
            assert(term == terms[k as int]);
            assert(terms.take(k + 1).drop_last() =~= terms.take(k as int));
            assert(terms.take(k + 1).last() == terms[k as int]);
        }
        logs.push(term);
        max = max.max(term);
        proof {
            assert(logs@ =~= terms.take(k + 1));
        }
        k = k + 1;
    }
    proof {
        assert(terms.take(k as int) =~= terms);
    }
    if !max.is_finite() {
        return None;
    }
    let ghost powers = Seq::new(terms.len(), |i: int| image64(f.exp, terms[i].minus(max)));
    let mut sum: Binary64 = Binary64 { bits: 0x8000_0000_0000_0000 };
    let mut i: usize = 0;
    while i < logs.len()
        invariant
            are_functions(*f),
            i <= logs.len(),
            logs@ == terms,
            powers == Seq::new(terms.len(), |i: int| image64(f.exp, terms[i].minus(max))),
            sum == sum64(powers.take(i as int)),
        decreases logs.len() - i,
    {
        sum = sum.add(apply64(&f.exp, logs[i].sub(max)));
        proof {
            assert(powers.take(i + 1).drop_last() =~= powers.take(i as int));
            assert(powers.take(i + 1).last() == powers[i as int]);
        }
        i = i + 1;
    }
    proof {
        assert(powers.take(i as int) =~= powers);
    }
    let rdp: Binary64 = max.add(apply64(&f.ln, sum)).div(alpha.sub(one));
    if rdp.is_finite() {
        Some(rdp.max(Binary64::zero()))
    } else {
        None
    }
}

/// One round's divergence.
pub fn rdp_per_round<L: Fn(Binary64) -> Binary64, E: Fn(Binary64) -> Binary64>(
    f: &LogExp<L, E>,
    alpha: Binary64,
    sigma: Binary64,
    q: Binary64,
) -> (r: Binary64)
    requires
        are_functions(*f),
    ensures
        r == round_divergence(*f, alpha, sigma, q),
{
    let two: Binary64 = Binary64 { bits: 0x4000_0000_0000_0000 };
    let full: Binary64 = alpha.div(two.mul(sigma).mul(sigma));
    match sampled_gaussian_rdp(f, alpha, sigma, q) {
        Some(tight) => if tight.lt(full) {
            tight
        } else {
            full
        },
        None => full,
    }
}

fn group_rounds(rounds: &Vec<Round>) -> (r: Vec<(Round, u64)>)
    ensures
        r@ == grouped(rounds@),
{
    let mut groups: Vec<(Round, u64)> = Vec::new();
    let mut k: usize = 0;
    while k < rounds.len()
        invariant
            k <= rounds.len(),
            groups@ == grouped(rounds@.take(k as int)),
            forall|i: int| 0 <= i < groups.len() ==> (#[trigger] groups@[i]).1 <= k,
        decreases rounds.len() - k,
    {
        let round: Round = rounds[k];
        let ghost before = groups@;
        let ghost is_it = has_config(before, round);
        proof {
            assert(rounds@.take(k + 1).drop_last() =~= rounds@.take(k as int));
            assert(rounds@.take(k + 1).last() == round);
        }
        let mut i: usize = 0;
        while i < groups.len() && !(groups[i].0.0.bits == round.0.bits && groups[i].0.1.bits
            == round.1.bits)
            invariant
                i <= groups.len(),
                groups@ == before,
                is_it == has_config(before, round),
                forall|j: int| 0 <= j < i ==> !(#[trigger] is_it(j)),
            decreases groups.len() - i,
        {
            proof {
                assert(!is_it(i as int));
            }
            i = i + 1;
        }
        proof {
            if i < groups.len() {
                assert(before[i as int].0 == round);
                assert(is_it(i as int));
            }
            lemma_first_where(before.len(), is_it, i as nat);
        }
        if i < groups.len() {
            let count: u64 = groups[i].1;
            groups.set(i, (round, count + 1));
        } else {
            groups.push((round, 1));
        }
        k = k + 1;
    }
    proof {
        assert(rounds@.take(k as int) =~= rounds@);
    }
    groups
}

fn compose<L: Fn(Binary64) -> Binary64, E: Fn(Binary64) -> Binary64>(
    f: &LogExp<L, E>,
    groups: &Vec<(Round, u64)>,
    alpha: Binary64,
) -> (r: Binary64)
    requires
        are_functions(*f),
    ensures
        r == composed(*f, groups@, alpha),
{
    let ghost terms = Seq::new(
        groups@.len(),
        |i: int|
            round_divergence(
                *f,
                alpha,
                groups@[i].0.0.as_binary64(),
                groups@[i].0.1.as_binary64(),
            ).times(Binary64::whole(groups@[i].1 as nat)),
    );
    let mut acc: Binary64 = Binary64 { bits: 0x8000_0000_0000_0000 };
    let mut i: usize = 0;
    while i < groups.len()
        invariant
            are_functions(*f),
            i <= groups.len(),
            terms.len() == groups.len(),
            forall|k: int|
                0 <= k < terms.len() ==> #[trigger] terms[k] == round_divergence(
                    *f,
                    alpha,
                    groups@[k].0.0.as_binary64(),
                    groups@[k].0.1.as_binary64(),
                ).times(Binary64::whole(groups@[k].1 as nat)),
            acc == sum64(terms.take(i as int)),
        decreases groups.len() - i,
    {
        let (round, count): (Round, u64) = groups[i];
        let each: Binary64 = rdp_per_round(
            f,
            alpha,
            round.0.to_binary64(),
            round.1.to_binary64(),
        );
        acc = acc.add(each.mul(Binary64::from_u64(count)));
        proof {
            assert(terms.take(i + 1).drop_last() =~= terms.take(i as int));
            assert(terms.take(i + 1).last() == terms[i as int]);
        }
        i = i + 1;
    }
    proof {
        assert(terms.take(i as int) =~= terms);
    }
    acc
}

/// What `rounds` cost at `delta`.
pub fn epsilon_from_rounds<L: Fn(Binary64) -> Binary64, E: Fn(Binary64) -> Binary64>(
    f: &LogExp<L, E>,
    rounds: &Vec<Round>,
    delta: Binary64,
) -> (r: Binary64)
    requires
        are_functions(*f),
    ensures
        r == epsilon_of(*f, rounds@, delta),
{
    if rounds.len() == 0 {
        return Binary64::zero();
    }
    let groups: Vec<(Round, u64)> = group_rounds(rounds);
    let all: Vec<Binary64> = rdp_orders();
    let log: Binary64 = apply64(&f.ln, Binary64::one().div(delta));
    let ghost costs = Seq::new(
        orders().len(),
        |i: int| epsilon_at(*f, groups@, delta, orders()[i]),
    );
    let mut best: Binary64 = Binary64 { bits: 0x7ff0_0000_0000_0000 };
    let mut i: usize = 0;
    while i < all.len()
        invariant
            are_functions(*f),
            i <= all.len(),
            all@ == orders(),
            log == image64(f.ln, Binary64::unit().over(delta)),
            costs.len() == all.len(),
            forall|k: int|
                0 <= k < costs.len() ==> #[trigger] costs[k] == epsilon_at(
                    *f,
                    groups@,
                    delta,
                    orders()[k],
                ),
            best == smallest64(costs.take(i as int)),
        decreases all.len() - i,
    {
        let alpha: Binary64 = all[i];
        let cost: Binary64 = compose(f, &groups, alpha).add(log.div(alpha.sub(Binary64::one())));
        best = best.min(cost);
        proof {
            assert(costs.take(i + 1).drop_last() =~= costs.take(i as int));
            assert(costs.take(i + 1).last() == costs[i as int]);
        }
        i = i + 1;
    }
    proof {
        assert(costs.take(i as int) =~= costs);
    }
    best
}

/// Tracks what was spent and says when a budget is gone.
pub trait PrivacyAccountant: Sized {
    /// The rounds recorded so far.
    spec fn recorded(&self) -> Seq<Round>;

    /// Whether the accountant can compute.
    spec fn able(&self) -> bool;

    /// What the recorded rounds cost at `delta`.
    spec fn spent(&self, delta: Binary64) -> Binary64;

    /// Records that one round ran with these parameters.
    fn record_round(&mut self, noise_multiplier: Binary32, sample_rate: Binary32)
        requires
            old(self).able(),
        ensures
            final(self).able(),
            final(self).recorded() == old(self).recorded().push((noise_multiplier, sample_rate)),
    ;

    /// What was spent so far, at `delta`.
    fn current_epsilon(&self, delta: Binary64) -> (r: Binary64)
        requires
            self.able(),
        ensures
            r == self.spent(delta),
    ;

    /// Whether what was spent has reached the target.
    fn budget_exhausted(&self, target_epsilon: Binary64, delta: Binary64) -> (r: bool)
        requires
            self.able(),
        ensures
            r == target_epsilon.at_most(self.spent(delta)),
    ;
}

/// Accounts by composing Renyi divergences, for the whole experiment and for
/// each client on its own.
pub struct RdpAccountant<L: Fn(Binary64) -> Binary64, E: Fn(Binary64) -> Binary64> {
    pub functions: LogExp<L, E>,
    /// The rounds of the experiment.
    pub rounds: Vec<Round>,
    /// The rounds of each client.
    pub client_rounds: Vec<(String, Vec<Round>)>,
}

impl<L: Fn(Binary64) -> Binary64, E: Fn(Binary64) -> Binary64> RdpAccountant<L, E> {
    /// The rounds recorded for each client.
    pub open spec fn by_client(&self) -> Map<Seq<char>, Seq<Round>> {
        history_of(self.client_rounds@)
    }

    /// The rounds recorded for one client; none where it never took part.
    pub open spec fn rounds_of(&self, id: Seq<char>) -> Seq<Round> {
        if self.by_client().contains_key(id) {
            self.by_client()[id]
        } else {
            Seq::empty()
        }
    }

    /// No client is listed twice, and the elementary functions are functions.
    pub open spec fn well_formed(&self) -> bool {
        &&& are_functions(self.functions)
        &&& forall|i: int, j: int|
            0 <= i < j < self.client_rounds.len() ==> (#[trigger] self.client_rounds@[i]).0@ != (
            #[trigger] self.client_rounds@[j]).0@
    }

    /// An accountant with nothing recorded.
    pub fn new(functions: LogExp<L, E>) -> (r: RdpAccountant<L, E>)
        requires
            are_functions(functions),
        ensures
            r.well_formed(),
            r.functions == functions,
            r.rounds@ == Seq::<Round>::empty(),
            r.by_client() == Map::<Seq<char>, Seq<Round>>::empty(),
    {
        RdpAccountant { functions, rounds: Vec::new(), client_rounds: Vec::new() }
    }

    /// Records one round of exposure for one client.
    pub fn record_round_for_client(
        &mut self,
        client_id: &str,
        noise_multiplier: Binary32,
        sample_rate: Binary32,
    )
        requires
            old(self).well_formed(),
        ensures
            final(self).well_formed(),
            final(self).functions == old(self).functions,
            final(self).rounds == old(self).rounds,
            final(self).by_client() == old(self).by_client().insert(
                client_id@,
                old(self).rounds_of(client_id@).push((noise_multiplier, sample_rate)),
            ),
            forall|other: Seq<char>|
                other != client_id@ ==> #[trigger] final(self).rounds_of(other) == old(
                    self,
                ).rounds_of(other),
    {
        let id: String = client_id.to_owned();
        let ghost before = self.client_rounds@;
        let mut k: usize = self.client_rounds.len();
        while k > 0 && !(self.client_rounds[k - 1].0 == id)
            invariant
                k <= self.client_rounds.len(),
                *self == *old(self),
                forall|j: int|
                    k <= j < self.client_rounds.len() ==> (#[trigger] self.client_rounds@[j]).0@
                        != id@,
            decreases k,
        {
            k = k - 1;
        }
        proof {
            lemma_history_lookup(before, k as int, id@);
        }
        if k > 0 {
            let (name, mut rounds): (String, Vec<Round>) = self.client_rounds.remove(k - 1);
            rounds.push((noise_multiplier, sample_rate));
            let entry: (String, Vec<Round>) = (name, rounds);
            proof {
                lemma_history_update(before, k - 1, entry);
            }
            self.client_rounds.insert(k - 1, entry);
            proof {
                assert(self.client_rounds@ =~= before.update(k - 1, entry));
            }
        } else {
            let first: Vec<Round> = vec![(noise_multiplier, sample_rate)];
            proof {
                assert(first@ =~= Seq::<Round>::empty().push((noise_multiplier, sample_rate)));
            }
            self.client_rounds.push((id, first));
            proof {
                assert(self.client_rounds@.drop_last() =~= before);
            }
        }
    }

    /// What one client spent so far, at `delta`; nothing where it never took
    /// part.
    pub fn current_epsilon_for_client(&self, client_id: &str, delta: Binary64) -> (r: Binary64)
        requires
            self.well_formed(),
        ensures
            r == epsilon_of(self.functions, self.rounds_of(client_id@), delta),
    {
        match find_entry(&self.client_rounds, &client_id.to_owned()) {
            Some(rounds) => epsilon_from_rounds(&self.functions, rounds, delta),
            None => Binary64::zero(),
        }
    }

    /// Whether what one client spent has reached the target.
    pub fn budget_exhausted_for_client(
        &self,
        client_id: &str,
        target_epsilon: Binary64,
        delta: Binary64,
    ) -> (r: bool)
        requires
            self.well_formed(),
        ensures
            r == target_epsilon.at_most(
                epsilon_of(self.functions, self.rounds_of(client_id@), delta),
            ),
    {
        target_epsilon.le(self.current_epsilon_for_client(client_id, delta))
    }

    /// Every client with a recorded round, each once.
    pub fn client_ids(&self) -> (r: Vec<String>)
        requires
            self.well_formed(),
        ensures
            texts(r@).no_duplicates(),
            forall|id: Seq<char>| #[trigger]
                texts(r@).contains(id) <==> self.by_client().contains_key(id),
    {
        let mut out: Vec<String> = Vec::with_capacity(self.client_rounds.len());
        let mut i: usize = 0;
        while i < self.client_rounds.len()
            invariant
                i <= self.client_rounds.len(),
                out.len() == i,
                forall|k: int| 0 <= k < i ==> (#[trigger] out[k])@ == self.client_rounds@[k].0@,
            decreases self.client_rounds.len() - i,
        {
            out.push(self.client_rounds[i].0.clone());
            i = i + 1;
        }
        proof {
            let names = texts(out@);
            assert forall|id: Seq<char>| #[trigger]
                names.contains(id) <==> self.by_client().contains_key(id) by {
                let k = lemma_last_entry(self.client_rounds@, id);
                lemma_history_lookup(self.client_rounds@, k, id);
                if k > 0 {
                    assert(names[k - 1] == id);
                } else if names.contains(id) {
                    let j = choose|j: int| 0 <= j < names.len() && names[j] == id;
                    assert(self.client_rounds@[j].0@ != id);
                }
            }
            assert(names.no_duplicates()) by {
                assert forall|i: int, j: int| 0 <= i < names.len() && 0 <= j < names.len() && i
                    != j implies names[i] != names[j] by {
                    if i < j {
                        assert(self.client_rounds@[i].0@ != self.client_rounds@[j].0@);
                    } else {
                        assert(self.client_rounds@[j].0@ != self.client_rounds@[i].0@);
                    }
                }
            }
        }
        out
    }
}

proof fn lemma_last_entry<T>(entries: Seq<(String, Vec<T>)>, id: Seq<char>) -> (k: int)
    ensures
        0 <= k <= entries.len(),
        forall|j: int| k <= j < entries.len() ==> (#[trigger] entries[j]).0@ != id,
        k > 0 ==> entries[k - 1].0@ == id,
    decreases entries.len(),
{
    if entries.len() == 0 {
        0
    } else if entries.last().0@ == id {
        entries.len() as int
    } else {
        let front = entries.drop_last();
        let k = lemma_last_entry(front, id);
        assert forall|j: int| k <= j < entries.len() implies (#[trigger] entries[j]).0@ != id by {
            if j < front.len() {
                assert(entries[j] == front[j]);
            }
        }
        k
    }
}

impl<L: Fn(Binary64) -> Binary64, E: Fn(Binary64) -> Binary64> PrivacyAccountant for RdpAccountant<
    L,
    E,
> {
    open spec fn recorded(&self) -> Seq<Round> {
        self.rounds@
    }

    open spec fn able(&self) -> bool {
        self.well_formed()
    }

    open spec fn spent(&self, delta: Binary64) -> Binary64 {
        epsilon_of(self.functions, self.rounds@, delta)
    }

    fn record_round(&mut self, noise_multiplier: Binary32, sample_rate: Binary32)
        ensures
            final(self).functions == old(self).functions,
            final(self).by_client() == old(self).by_client(),
    {
        self.rounds.push((noise_multiplier, sample_rate));
    }

    fn current_epsilon(&self, delta: Binary64) -> (r: Binary64) {
        epsilon_from_rounds(&self.functions, &self.rounds, delta)
    }

    fn budget_exhausted(&self, target_epsilon: Binary64, delta: Binary64) -> (r: bool) {
        target_epsilon.le(self.current_epsilon(delta))
    }
}

} // verus!
