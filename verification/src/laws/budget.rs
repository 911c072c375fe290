//! What the reported cost of a list of rounds is, by the rounds themselves.
use vstd::prelude::*;
use vstd::arithmetic::div_mod::*;
use vstd::arithmetic::mul::*;
use vstd::arithmetic::power2::*;
use crate::elementary::image64;
use crate::float::binary32::Binary32;
use crate::float::binary64::Binary64;
use crate::float::format::Format;
use crate::float::ieee::{lemma_round_zero, lemma_units_zero};
use crate::float::laws::{lemma_doubled, lemma_one, lemma_product_parts, lemma_sizes, one_magnitude};
use crate::float::scale::{at_least, lemma_product_at_least, lemma_product_up_to, lemma_quotient_up_to, lemma_single_at_least, lemma_single_up_to, lemma_sizes_ordered, size, up_to};
use crate::float::slip::{lemma_nearly_at_most, lemma_nearly_cancelled, lemma_nearly_chain, lemma_nearly_more, lemma_nearly_scaled, lemma_nearly_sum, lemma_over_slip, lemma_plus_slip, lemma_times_slip, lemma_whole_slip, nearly};
use crate::float::twice::lemma_size_zero;
use crate::laws::confidence::lemma_empty_sum64;
use crate::laws::length::lemma_large_product;
use crate::laws::privacy::{groups_are_known, grows_from_one, is_cost, lemma_composed_is_cost, lemma_divergence, lemma_finite_number, lemma_first_where_found, lemma_grouped, lemma_orders, noise_is_known};
use crate::linear::{empty_sum64, sum64};
use crate::privacy::accountant::{composed, epsilon_at, epsilon_of, grouped, has_config, orders, round_divergence, smallest64, two64, with_round, LogExp, Round};
use crate::weights::first_where;

verus! {

/// The smallest of a list that is not empty is one of it, and no larger than
/// any.
proof fn lemma_smallest_is_one(s: Seq<Binary64>) -> (k: int)
    requires
        s.len() > 0,
        forall|i: int| 0 <= i < s.len() ==> is_cost(#[trigger] s[i]),
    ensures
        0 <= k < s.len(),
        smallest64(s).rank() == s[k].rank(),
        is_cost(smallest64(s)),
        forall|i: int| 0 <= i < s.len() ==> smallest64(s).rank() <= (#[trigger] s[i]).rank(),
    decreases s.len(),
{
    let rest = s.drop_last();
    let x = s.last();
    assert(is_cost(s[s.len() - 1]));
    let top = Binary64 { bits: 0x7ff0_0000_0000_0000 };
    top.unsigned_patterns();
    x.rank_at_most_infinite();
    if rest.len() == 0 {
        assert(smallest64(rest) == top);
        0
    } else {
        assert forall|i: int| 0 <= i < rest.len() implies is_cost(#[trigger] rest[i]) by {
            assert(is_cost(s[i]));
        }
        let k = lemma_smallest_is_one(rest);
        assert forall|i: int| 0 <= i < s.len() implies smallest64(s).rank() <= (
        #[trigger] s[i]).rank() by {
            if i < rest.len() {
                assert(smallest64(rest).rank() <= rest[i].rank());
            }
        }
        if x.rank() < s[k].rank() {
            s.len() - 1
        } else {
            k
        }
    }
}

/// What turning a divergence of order `alpha` into an epsilon costs at
/// `delta`.
pub open spec fn surcharge<L: Fn(Binary64) -> Binary64>(
    ln: L,
    delta: Binary64,
    alpha: Binary64,
) -> Binary64 {
    image64(ln, Binary64::unit().over(delta)).over(alpha.minus(Binary64::unit()))
}

proof fn lemma_surcharge<L: Fn(Binary64) -> Binary64>(ln: L, delta: Binary64, i: int)
    requires
        grows_from_one(ln),
        !delta.nan(),
        0 < delta.rank() < Binary64::unit().rank(),
        0 <= i < orders().len(),
    ensures
        is_cost(surcharge(ln, delta, orders()[i])),
{
    Binary64::unit().unsigned_patterns();
    delta.one_over_a_fraction();
    lemma_orders(i);
    orders()[i].gap_is_positive(Binary64::unit());
    image64(ln, Binary64::unit().over(delta)).length_over_a_positive(
        orders()[i].minus(Binary64::unit()),
    );
}

/// The cost reported for rounds is, at one of the orders searched, their
/// divergence and the surcharge of that order, and at every order no more
/// than that.
pub proof fn the_cost_is_the_least_over_the_orders<
    L: Fn(Binary64) -> Binary64,
    E: Fn(Binary64) -> Binary64,
>(f: LogExp<L, E>, rounds: Seq<Round>, delta: Binary64)
    requires
        0 < rounds.len() <= u64::MAX,
        noise_is_known(rounds),
        grows_from_one(f.ln),
        !delta.nan(),
        0 < delta.rank() < Binary64::unit().rank(),
    ensures
        exists|i: int|
            0 <= i < orders().len() && epsilon_of(f, rounds, delta).rank() == composed(
                f,
                grouped(rounds),
                #[trigger] orders()[i],
            ).plus(surcharge(f.ln, delta, orders()[i])).rank(),
        forall|i: int|
            0 <= i < orders().len() ==> epsilon_of(f, rounds, delta).rank() <= composed(
                f,
                grouped(rounds),
                #[trigger] orders()[i],
            ).plus(surcharge(f.ln, delta, orders()[i])).rank(),
        forall|i: int|
            0 <= i < orders().len() ==> is_cost(
                composed(f, grouped(rounds), #[trigger] orders()[i]),
            ) && is_cost(
                composed(f, grouped(rounds), orders()[i]).plus(
                    surcharge(f.ln, delta, orders()[i]),
                ),
            ),
        is_cost(epsilon_of(f, rounds, delta)),
{
    lemma_grouped(rounds);
    let g = grouped(rounds);
    let s = Seq::new(
        orders().len(),
        |i: int| epsilon_at(f, g, delta, orders()[i]),
    );
    assert forall|i: int| 0 <= i < orders().len() implies is_cost(#[trigger] s[i]) && s[i]
        == composed(f, g, orders()[i]).plus(surcharge(f.ln, delta, orders()[i])) && is_cost(
        composed(f, g, orders()[i]),
    ) by {
        lemma_orders(i);
        lemma_composed_is_cost(f, orders()[i], g);
        lemma_surcharge(f.ln, delta, i);
        composed(f, g, orders()[i]).lengths_add_up(surcharge(f.ln, delta, orders()[i]));
    }
    let k = lemma_smallest_is_one(s);
    assert(s[k] == composed(f, g, orders()[k]).plus(surcharge(f.ln, delta, orders()[k])));
    assert forall|i: int| 0 <= i < orders().len() implies epsilon_of(f, rounds, delta).rank()
        <= composed(f, g, #[trigger] orders()[i]).plus(surcharge(f.ln, delta, orders()[i])).rank()
        && is_cost(composed(f, g, orders()[i])) && is_cost(
        composed(f, g, orders()[i]).plus(surcharge(f.ln, delta, orders()[i])),
    ) by {
        assert(s[i] == composed(f, g, orders()[i]).plus(surcharge(f.ln, delta, orders()[i])));
    }
}

/// Whatever the rounds, the cost covers the surcharge of one of the orders:
/// no noise makes a guarantee for less.
pub proof fn the_cost_covers_a_surcharge<
    L: Fn(Binary64) -> Binary64,
    E: Fn(Binary64) -> Binary64,
>(f: LogExp<L, E>, rounds: Seq<Round>, delta: Binary64)
    requires
        0 < rounds.len() <= u64::MAX,
        noise_is_known(rounds),
        grows_from_one(f.ln),
        !delta.nan(),
        0 < delta.rank() < Binary64::unit().rank(),
    ensures
        exists|i: int|
            0 <= i < orders().len() && surcharge(f.ln, delta, #[trigger] orders()[i]).rank()
                <= epsilon_of(f, rounds, delta).rank(),
{
    the_cost_is_the_least_over_the_orders(f, rounds, delta);
    let g = grouped(rounds);
    let i = choose|i: int|
        0 <= i < orders().len() && epsilon_of(f, rounds, delta).rank() == composed(
            f,
            g,
            #[trigger] orders()[i],
        ).plus(surcharge(f.ln, delta, orders()[i])).rank();
    assert(is_cost(composed(f, g, orders()[i])));
    lemma_surcharge(f.ln, delta, i);
    let (x, y) = (composed(f, g, orders()[i]), surcharge(f.ln, delta, orders()[i]));
    Binary64::nothing().zeros();
    lemma_finite_number(Binary64::nothing());
    Binary64::nothing().wide_sums_keep_the_order(x, y);
    Binary64::nothing().wide_zero_adds_nothing(y);
}

/// Whether a larger number has no smaller a logarithm.
pub open spec fn is_increasing<L: Fn(Binary64) -> Binary64>(ln: L) -> bool {
    forall|x: Binary64, y: Binary64|
        !x.nan() && !y.nan() && Binary64::unit().rank() <= x.rank() <= y.rank() ==> #[trigger] image64(
            ln,
            x,
        ).rank() <= #[trigger] image64(ln, y).rank()
}

/// A smaller probability of failure never costs less.
pub proof fn a_smaller_delta_never_costs_less<
    L: Fn(Binary64) -> Binary64,
    E: Fn(Binary64) -> Binary64,
>(f: LogExp<L, E>, rounds: Seq<Round>, small: Binary64, large: Binary64)
    requires
        rounds.len() <= u64::MAX,
        noise_is_known(rounds),
        grows_from_one(f.ln),
        is_increasing(f.ln),
        !small.nan(),
        !large.nan(),
        0 < small.rank() <= large.rank() < Binary64::unit().rank(),
    ensures
        epsilon_of(f, rounds, large).rank() <= epsilon_of(f, rounds, small).rank(),
{
    if rounds.len() > 0 {
        the_cost_is_the_least_over_the_orders(f, rounds, small);
        the_cost_is_the_least_over_the_orders(f, rounds, large);
        let g = grouped(rounds);
        let i = choose|i: int|
            0 <= i < orders().len() && epsilon_of(f, rounds, small).rank() == composed(
                f,
                g,
                #[trigger] orders()[i],
            ).plus(surcharge(f.ln, small, orders()[i])).rank();
        let c = composed(f, g, orders()[i]);
        assert(is_cost(c));
        lemma_surcharge(f.ln, small, i);
        lemma_surcharge(f.ln, large, i);
        small.reciprocals_turn_the_order(large);
        small.one_over_a_fraction();
        large.one_over_a_fraction();
        lemma_orders(i);
        Binary64::unit().unsigned_patterns();
        orders()[i].gap_is_positive(Binary64::unit());
        let (x, y) = (
            image64(f.ln, Binary64::unit().over(large)),
            image64(f.ln, Binary64::unit().over(small)),
        );
        x.quotients_keep_the_order(y, orders()[i].minus(Binary64::unit()));
        let (a, b) = (surcharge(f.ln, large, orders()[i]), surcharge(f.ln, small, orders()[i]));
        a.wide_sums_keep_the_order(b, c);
        a.plus_commutes(c);
        b.plus_commutes(c);
        assert(epsilon_of(f, rounds, large).rank() <= c.plus(a).rank());
    }
}

/// One configuration, so many times.
pub open spec fn repeated(round: Round, n: nat) -> Seq<Round> {
    Seq::new(n, |i: int| round)
}

/// Rounds of one configuration make one group.
proof fn lemma_repeated(round: Round, n: nat)
    requires
        0 < n <= u64::MAX,
    ensures
        grouped(repeated(round, n)) == seq![(round, n as u64)],
    decreases n,
{
    let all = repeated(round, n);
    assert(all.drop_last() =~= repeated(round, (n - 1) as nat));
    assert(all.last() == round);
    if n == 1 {
        assert(all.drop_last() =~= Seq::empty());
        assert(grouped(all.drop_last()) =~= Seq::empty());
        assert(with_round(Seq::empty(), round) =~= seq![(round, 1u64)]);
    } else {
        lemma_repeated(round, (n - 1) as nat);
        let g = seq![(round, (n - 1) as u64)];
        assert(has_config(g, round)(0));
        assert(first_where(1, has_config(g, round)) == 0);
        assert(with_round(g, round) =~= seq![(round, n as u64)]);
    }
}

/// What rounds of one configuration cost at one order.
proof fn lemma_repeated_cost<L: Fn(Binary64) -> Binary64, E: Fn(Binary64) -> Binary64>(
    f: LogExp<L, E>,
    round: Round,
    n: nat,
    i: int,
)
    requires
        0 < n <= u64::MAX,
        !round.0.as_binary64().nan(),
        0 <= i < orders().len(),
    ensures
        composed(f, grouped(repeated(round, n)), orders()[i]).rank() == round_divergence(
            f,
            orders()[i],
            round.0.as_binary64(),
            round.1.as_binary64(),
        ).times(Binary64::whole(n)).rank(),
        is_cost(composed(f, grouped(repeated(round, n)), orders()[i])),
        is_cost(
            round_divergence(f, orders()[i], round.0.as_binary64(), round.1.as_binary64()),
        ),
{
    let alpha = orders()[i];
    lemma_orders(i);
    lemma_repeated(round, n);
    let g = grouped(repeated(round, n));
    lemma_composed_is_cost(f, alpha, g);
    let d = round_divergence(f, alpha, round.0.as_binary64(), round.1.as_binary64());
    lemma_divergence(f, alpha, round.0.as_binary64(), round.1.as_binary64());
    let s = Seq::new(
        g.len(),
        |k: int|
            round_divergence(f, alpha, g[k].0.0.as_binary64(), g[k].0.1.as_binary64()).times(
                Binary64::whole(g[k].1 as nat),
            ),
    );
    assert(s.drop_last() =~= Seq::empty());
    assert(sum64(Seq::<Binary64>::empty()) == empty_sum64());
    Binary64::words_are_finite(n);
    Binary64::unit().unsigned_patterns();
    d.wide_products_keep_the_order(Binary64::whole(n), Binary64::whole(n));
    assert(empty_sum64().finite() && empty_sum64().rank() == 0) by {
        assert(Binary64::nothing().negated() == empty_sum64()) by {
            reveal(Binary64::negated);
            assert(0nat % 0x8000_0000_0000_0000nat == 0);
        }
        empty_sum64().zeros();
    }
    empty_sum64().wide_zero_adds_nothing(d.times(Binary64::whole(n)));
}

/// Where the divergence of one round is no larger at any order, neither is
/// the cost of any number of them.
proof fn lemma_cheaper_rounds<L: Fn(Binary64) -> Binary64, E: Fn(Binary64) -> Binary64>(
    f: LogExp<L, E>,
    cheap: Round,
    dear: Round,
    n: nat,
    delta: Binary64,
)
    requires
        n <= u64::MAX,
        !cheap.0.as_binary64().nan(),
        !dear.0.as_binary64().nan(),
        grows_from_one(f.ln),
        !delta.nan(),
        0 < delta.rank() < Binary64::unit().rank(),
        forall|i: int|
            0 <= i < orders().len() ==> round_divergence(
                f,
                #[trigger] orders()[i],
                cheap.0.as_binary64(),
                cheap.1.as_binary64(),
            ).rank() <= round_divergence(
                f,
                orders()[i],
                dear.0.as_binary64(),
                dear.1.as_binary64(),
            ).rank(),
    ensures
        epsilon_of(f, repeated(cheap, n), delta).rank() <= epsilon_of(
            f,
            repeated(dear, n),
            delta,
        ).rank(),
{
    if n > 0 {
        let (a, b) = (repeated(cheap, n), repeated(dear, n));
        the_cost_is_the_least_over_the_orders(f, a, delta);
        the_cost_is_the_least_over_the_orders(f, b, delta);
        let i = choose|i: int|
            0 <= i < orders().len() && epsilon_of(f, b, delta).rank() == composed(
                f,
                grouped(b),
                #[trigger] orders()[i],
            ).plus(surcharge(f.ln, delta, orders()[i])).rank();
        lemma_repeated_cost(f, cheap, n, i);
        lemma_repeated_cost(f, dear, n, i);
        lemma_surcharge(f.ln, delta, i);
        let alpha = orders()[i];
        let (x, y) = (
            round_divergence(f, alpha, cheap.0.as_binary64(), cheap.1.as_binary64()),
            round_divergence(f, alpha, dear.0.as_binary64(), dear.1.as_binary64()),
        );
        Binary64::words_are_finite(n);
        Binary64::unit().unsigned_patterns();
        x.larger_factors_give_more(y, Binary64::whole(n));
        let (c, d) = (composed(f, grouped(a), alpha), composed(f, grouped(b), alpha));
        c.wide_sums_keep_the_order(d, surcharge(f.ln, delta, alpha));
        assert(epsilon_of(f, a, delta).rank() <= c.plus(surcharge(f.ln, delta, alpha)).rank());
    }
}

/// Sampling never costs more: rounds in which only a fraction of the clients
/// takes part cost no more than as many in which all do.
pub proof fn sampling_never_costs_more<
    L: Fn(Binary64) -> Binary64,
    E: Fn(Binary64) -> Binary64,
>(f: LogExp<L, E>, sigma: Binary32, q: Binary32, n: nat, delta: Binary64)
    requires
        n <= u64::MAX,
        !sigma.as_binary64().nan(),
        grows_from_one(f.ln),
        !delta.nan(),
        0 < delta.rank() < Binary64::unit().rank(),
    ensures
        epsilon_of(f, repeated((sigma, q), n), delta).rank() <= epsilon_of(
            f,
            repeated((sigma, Binary32::unit()), n),
            delta,
        ).rank(),
{
    Binary32::unit().unsigned_patterns();
    Binary32::one_is_one();
    Binary64::unit().unsigned_patterns();
    lemma_cheaper_rounds(f, (sigma, q), (sigma, Binary32::unit()), n, delta);
}

proof fn lemma_times_nothing(x: Binary64)
    requires
        x.finite(),
        0 <= x.rank(),
    ensures
        x.times(Binary64::nothing()).rank() == 0,
{
    let f = Format::Double;
    reveal(Binary64::finite);
    reveal(Binary64::times);
    reveal(Binary64::rank);
    lemma_sizes(f);
    lemma_small_mod(0, f.sign_weight());
    lemma_product_parts(f, x.bits as nat, 0);
    lemma_units_zero(f);
    lemma_pow2_pos(1074);
    lemma_round_zero(f, pow2(1074));
    assert(f.units(f.magnitude(x.bits as nat)) * 0 == 0);
}

/// More noise never costs more: rounds in which all clients take part cost no
/// more the larger the noise multiplier.
pub proof fn noise_never_costs_more<
    L: Fn(Binary64) -> Binary64,
    E: Fn(Binary64) -> Binary64,
>(f: LogExp<L, E>, quiet: Binary32, loud: Binary32, n: nat, delta: Binary64)
    requires
        n <= u64::MAX,
        quiet.finite(),
        loud.finite(),
        0 <= quiet.rank() <= loud.rank(),
        grows_from_one(f.ln),
        !delta.nan(),
        0 < delta.rank() < Binary64::unit().rank(),
    ensures
        epsilon_of(f, repeated((loud, Binary32::unit()), n), delta).rank() <= epsilon_of(
            f,
            repeated((quiet, Binary32::unit()), n),
            delta,
        ).rank(),
{
    Binary32::unit().unsigned_patterns();
    Binary32::one_is_one();
    Binary64::unit().unsigned_patterns();
    quiet.widening_is_exact();
    loud.widening_is_exact();
    let (a, b) = (quiet.as_binary64(), loud.as_binary64());
    lemma_finite_number(a);
    lemma_finite_number(b);
    quiet.widening_keeps_the_order(loud);
    a.twice_a_square();
    b.twice_a_square();
    Binary32::nothing().zeros();
    Binary32::nothing().widens_to_nothing();
    Binary32::nothing().widening_keeps_the_order(quiet);
    let two = two64();
    two.unsigned_patterns();
    lemma_two();
    lemma_single_up_to(quiet);
    lemma_single_up_to(loud);
    lemma_product_up_to(two, a, 1075, 1202);
    lemma_product_up_to(two, b, 1075, 1202);
    two.products_keep_the_order(two, a, b);
    assert(0 <= two.times(a).rank()) by {
        Binary64::nothing().zeros();
        two.products_keep_the_order(two, Binary64::nothing(), a);
        lemma_times_nothing(two);
    }
    two.times(a).products_keep_the_order(two.times(b), a, b);
    assert forall|i: int| 0 <= i < orders().len() implies round_divergence(
        f,
        #[trigger] orders()[i],
        b,
        Binary32::unit().as_binary64(),
    ).rank() <= round_divergence(f, orders()[i], a, Binary32::unit().as_binary64()).rank() by {
        lemma_orders(i);
        orders()[i].larger_divisors_give_less(
            two64().times(a).times(a),
            two64().times(b).times(b),
        );
    }
    lemma_cheaper_rounds(f, (loud, Binary32::unit()), (quiet, Binary32::unit()), n, delta);
}

/// How large the divergence of a round is at one order, in units.
pub open spec fn share_of<L: Fn(Binary64) -> Binary64, E: Fn(Binary64) -> Binary64>(
    f: LogExp<L, E>,
    alpha: Binary64,
    round: Round,
) -> nat {
    size(round_divergence(f, alpha, round.0.as_binary64(), round.1.as_binary64()))
}

/// The divergences of the rounds, one by one, added up exactly.
pub open spec fn exact_total<L: Fn(Binary64) -> Binary64, E: Fn(Binary64) -> Binary64>(
    f: LogExp<L, E>,
    alpha: Binary64,
    rounds: Seq<Round>,
) -> nat
    decreases rounds.len(),
{
    if rounds.len() == 0 {
        0
    } else {
        exact_total(f, alpha, rounds.drop_last()) + share_of(f, alpha, rounds.last())
    }
}

/// The same over groups.
spec fn group_total<L: Fn(Binary64) -> Binary64, E: Fn(Binary64) -> Binary64>(
    f: LogExp<L, E>,
    alpha: Binary64,
    groups: Seq<(Round, u64)>,
) -> nat
    decreases groups.len(),
{
    if groups.len() == 0 {
        0
    } else {
        group_total(f, alpha, groups.drop_last()) + groups.last().1 as nat * share_of(
            f,
            alpha,
            groups.last().0,
        )
    }
}

proof fn lemma_group_total_updated<L: Fn(Binary64) -> Binary64, E: Fn(Binary64) -> Binary64>(
    f: LogExp<L, E>,
    alpha: Binary64,
    groups: Seq<(Round, u64)>,
    k: int,
    count: u64,
)
    requires
        0 <= k < groups.len(),
        count == groups[k].1 + 1,
    ensures
        group_total(f, alpha, groups.update(k, (groups[k].0, count))) == group_total(
            f,
            alpha,
            groups,
        ) + share_of(f, alpha, groups[k].0),
    decreases groups.len(),
{
    let after = groups.update(k, (groups[k].0, count));
    let rest = groups.drop_last();
    let d = share_of(f, alpha, groups[k].0);
    if k == groups.len() - 1 {
        assert(after.drop_last() =~= rest);
        let c = groups[k].1 as nat;
        assert((c + 1) * d == c * d + d) by (nonlinear_arith);
    } else {
        lemma_group_total_updated(f, alpha, rest, k, count);
        assert(after.drop_last() =~= rest.update(k, (rest[k].0, count)));
    }
}

proof fn lemma_totals_agree<L: Fn(Binary64) -> Binary64, E: Fn(Binary64) -> Binary64>(
    f: LogExp<L, E>,
    alpha: Binary64,
    rounds: Seq<Round>,
)
    requires
        rounds.len() <= u64::MAX,
        noise_is_known(rounds),
    ensures
        group_total(f, alpha, grouped(rounds)) == exact_total(f, alpha, rounds),
        grouped(rounds).len() <= rounds.len(),
        forall|k: int|
            0 <= k < grouped(rounds).len() ==> rounds.contains((#[trigger] grouped(rounds)[k]).0),
    decreases rounds.len(),
{
    if rounds.len() > 0 {
        let before = rounds.drop_last();
        let r = rounds.last();
        assert forall|i: int| 0 <= i < before.len() implies !(
        #[trigger] before[i]).0.as_binary64().nan() by {
            assert(!rounds[i].0.as_binary64().nan());
        }
        lemma_totals_agree(f, alpha, before);
        lemma_grouped(before);
        let g = grouped(before);
        let k = first_where(g.len(), has_config(g, r));
        lemma_first_where_found(g, r);
        let after = grouped(rounds);
        if k < g.len() {
            assert(g[k as int].1 <= before.len());
            lemma_group_total_updated(f, alpha, g, k as int, (g[k as int].1 + 1) as u64);
        } else {
            assert(after.drop_last() =~= g);
            let d = share_of(f, alpha, r);
            assert(1 * d == d);
        }
        assert forall|j: int| 0 <= j < after.len() implies rounds.contains(
            (#[trigger] after[j]).0,
        ) by {
            if j < g.len() && j != k {
                assert(before.contains(g[j].0));
                let at = choose|at: int| 0 <= at < before.len() && before[at] == g[j].0;
                assert(rounds[at] == g[j].0);
            } else {
                assert(rounds[rounds.len() - 1] == r);
            }
        }
    }
}

/// What a group costs is its count times the divergence, but for roundings.
proof fn lemma_one_group<L: Fn(Binary64) -> Binary64, E: Fn(Binary64) -> Binary64>(
    f: LogExp<L, E>,
    alpha: Binary64,
    round: Round,
    count: u64,
)
    requires
        count > 0,
        ({
            let d = round_divergence(f, alpha, round.0.as_binary64(), round.1.as_binary64());
            d.finite() && (size(d) == 0 || size(d) >= pow2(53)) && d.times(
                Binary64::whole(count as nat),
            ).finite()
        }),
    ensures
        ({
            let c = round_divergence(f, alpha, round.0.as_binary64(), round.1.as_binary64()).times(
                Binary64::whole(count as nat),
            );
            &&& nearly(Format::Double, size(c), count as nat * share_of(f, alpha, round), 2)
            &&& nearly(Format::Double, count as nat * share_of(f, alpha, round), size(c), 4)
        }),
{
    let fm = Format::Double;
    let d = round_divergence(f, alpha, round.0.as_binary64(), round.1.as_binary64());
    let whole = Binary64::whole(count as nat);
    let (x, w, u, c, n) = (size(d), size(whole), pow2(1074), size(d.times(whole)), count as nat);
    lemma_whole_slip(n);
    lemma_pow2_pos(1074);
    if x != 0 {
        lemma_large_product(x, w, 53, 1074, 1127);
    }
    lemma_times_slip(d, whole);
    lemma_nearly_scaled(fm, w, n * u, x, 1);
    lemma_nearly_chain(fm, c * u, x * w, x * (n * u), 1, 1);
    assert(x * (n * u) == (n * x) * u) by (nonlinear_arith);
    lemma_nearly_cancelled(fm, c, n * x, u, 2);
    lemma_nearly_scaled(fm, n * u, w, x, 2);
    lemma_nearly_chain(fm, x * (n * u), x * w, c * u, 2, 2);
    lemma_nearly_cancelled(fm, n * x, c, u, 4);
}

proof fn lemma_groups_add_up<L: Fn(Binary64) -> Binary64, E: Fn(Binary64) -> Binary64>(
    f: LogExp<L, E>,
    alpha: Binary64,
    groups: Seq<(Round, u64)>,
)
    requires
        alpha.finite(),
        alpha.rank() > 0,
        groups_are_known(groups),
        composed(f, groups, alpha).finite(),
        forall|k: int|
            0 <= k < groups.len() ==> {
                let d = round_divergence(
                    f,
                    alpha,
                    (#[trigger] groups[k]).0.0.as_binary64(),
                    groups[k].0.1.as_binary64(),
                );
                d.finite() && (size(d) == 0 || size(d) >= pow2(53))
            },
    ensures
        is_cost(composed(f, groups, alpha)),
        nearly(
            Format::Double,
            size(composed(f, groups, alpha)),
            group_total(f, alpha, groups),
            groups.len() + 2,
        ),
        nearly(
            Format::Double,
            group_total(f, alpha, groups),
            size(composed(f, groups, alpha)),
            2 * groups.len() + 4,
        ),
    decreases groups.len(),
{
    let fm = Format::Double;
    lemma_composed_is_cost(f, alpha, groups);
    if groups.len() == 0 {
        assert(composed(f, groups, alpha) == empty_sum64());
        lemma_empty_sum64();
        lemma_size_zero(empty_sum64());
        lemma_nearly_at_most(fm, 0, 0, 2);
        lemma_nearly_at_most(fm, 0, 0, 4);
    } else {
        let rest = groups.drop_last();
        let g = groups.last();
        let n = rest.len();
        assert(groups[groups.len() - 1].1 > 0);
        assert forall|k: int| 0 <= k < rest.len() implies !(
        #[trigger] rest[k]).0.0.as_binary64().nan() && rest[k].1 > 0 by {
            assert(groups[k].1 > 0);
        }
        let d = round_divergence(f, alpha, g.0.0.as_binary64(), g.0.1.as_binary64());
        let c = d.times(Binary64::whole(g.1 as nat));
        let (before, after) = (composed(f, rest, alpha), composed(f, groups, alpha));
        let s = Seq::new(
            groups.len(),
            |i: int|
                round_divergence(
                    f,
                    alpha,
                    groups[i].0.0.as_binary64(),
                    groups[i].0.1.as_binary64(),
                ).times(Binary64::whole(groups[i].1 as nat)),
        );
        assert(s.drop_last() =~= Seq::new(
            rest.len(),
            |i: int|
                round_divergence(
                    f,
                    alpha,
                    rest[i].0.0.as_binary64(),
                    rest[i].0.1.as_binary64(),
                ).times(Binary64::whole(rest[i].1 as nat)),
        ));
        assert(after == before.plus(c));
        if !before.finite() {
            before.overflow_stays(c);
        }
        if !c.finite() {
            c.overflow_stays(before);
        }
        assert forall|k: int| 0 <= k < rest.len() implies {
            let d = round_divergence(
                f,
                alpha,
                (#[trigger] rest[k]).0.0.as_binary64(),
                rest[k].0.1.as_binary64(),
            );
            d.finite() && (size(d) == 0 || size(d) >= pow2(53))
        } by {
            assert(rest[k] == groups[k]);
        }
        lemma_groups_add_up(f, alpha, rest);
        lemma_divergence(f, alpha, g.0.0.as_binary64(), g.0.1.as_binary64());
        Binary64::words_are_finite(g.1 as nat);
        Binary64::unit().unsigned_patterns();
        d.wide_products_keep_the_order(
            Binary64::whole(g.1 as nat),
            Binary64::whole(g.1 as nat),
        );
        lemma_one_group(f, alpha, g.0, g.1);
        lemma_plus_slip(before, c);
        let (a, b, x, y) = (
            size(before),
            size(c),
            group_total(f, alpha, rest),
            g.1 as nat * share_of(f, alpha, g.0),
        );
        lemma_nearly_more(fm, b, y, 2, n + 2);
        lemma_nearly_sum(fm, a, x, b, y, n + 2);
        lemma_nearly_chain(fm, size(after), a + b, x + y, 1, n + 2);
        lemma_nearly_more(fm, y, b, 4, 2 * n + 4);
        lemma_nearly_sum(fm, x, a, y, b, 2 * n + 4);
        lemma_nearly_chain(fm, x + y, a + b, size(after), 2 * n + 4, 2);
    }
}

/// Divergences compose by addition: at every order what the rounds come to is
/// the divergences of the rounds, one by one, added up, in whatever order and
/// however often each configuration occurs, but for roundings. (A sum that
/// leaves the finite numbers, and divergences so small that counting them is
/// lost to rounding, are left out.)
pub proof fn divergences_compose_by_addition<
    L: Fn(Binary64) -> Binary64,
    E: Fn(Binary64) -> Binary64,
>(f: LogExp<L, E>, rounds: Seq<Round>, i: int)
    requires
        rounds.len() <= u64::MAX,
        noise_is_known(rounds),
        0 <= i < orders().len(),
        composed(f, grouped(rounds), orders()[i]).finite(),
        forall|k: int|
            0 <= k < rounds.len() ==> {
                let d = round_divergence(
                    f,
                    orders()[i],
                    (#[trigger] rounds[k]).0.as_binary64(),
                    rounds[k].1.as_binary64(),
                );
                d.finite() && (size(d) == 0 || size(d) >= pow2(53))
            },
    ensures
        nearly(
            Format::Double,
            size(composed(f, grouped(rounds), orders()[i])),
            exact_total(f, orders()[i], rounds),
            2 * rounds.len() + 4,
        ),
        nearly(
            Format::Double,
            exact_total(f, orders()[i], rounds),
            size(composed(f, grouped(rounds), orders()[i])),
            2 * rounds.len() + 4,
        ),
{
    let fm = Format::Double;
    let alpha = orders()[i];
    lemma_orders(i);
    lemma_totals_agree(f, alpha, rounds);
    lemma_grouped(rounds);
    let g = grouped(rounds);
    assert forall|k: int| 0 <= k < g.len() implies {
        let d = round_divergence(
            f,
            alpha,
            (#[trigger] g[k]).0.0.as_binary64(),
            g[k].0.1.as_binary64(),
        );
        d.finite() && (size(d) == 0 || size(d) >= pow2(53))
    } by {
        assert(rounds.contains(g[k].0));
        let at = choose|at: int| 0 <= at < rounds.len() && rounds[at] == g[k].0;
        assert(rounds[at] == g[k].0);
    }
    lemma_groups_add_up(f, alpha, g);
    let (a, b) = (size(composed(f, g, alpha)), exact_total(f, alpha, rounds));
    lemma_nearly_more(fm, a, b, g.len() + 2, 2 * rounds.len() + 4);
    lemma_nearly_more(fm, b, a, 2 * g.len() + 4, 2 * rounds.len() + 4);
}

/// A round in which all clients take part has, at every order, the divergence
/// of the Gaussian mechanism: the order over twice the square of the noise
/// multiplier, but for roundings.
pub proof fn a_full_round_has_the_gaussian_divergence<
    L: Fn(Binary64) -> Binary64,
    E: Fn(Binary64) -> Binary64,
>(f: LogExp<L, E>, sigma: Binary32, i: int)
    requires
        sigma.finite(),
        sigma.rank() > 0,
        0 <= i < orders().len(),
    ensures
        ({
            let s = size(sigma.as_binary64());
            let d = share_of(f, orders()[i], (sigma, Binary32::unit()));
            &&& nearly(
                Format::Double,
                d * (2 * (s * s)),
                size(orders()[i]) * (pow2(1074) * pow2(1074)),
                5,
            )
            &&& nearly(
                Format::Double,
                size(orders()[i]) * (pow2(1074) * pow2(1074)),
                d * (2 * (s * s)),
                4,
            )
        }),
{
    let fm = Format::Double;
    let alpha = orders()[i];
    lemma_orders(i);
    Binary32::one_is_one();
    Binary64::unit().unsigned_patterns();
    sigma.widening_is_exact();
    let (x, two) = (sigma.as_binary64(), two64());
    lemma_finite_number(x);
    lemma_two();
    lemma_single_up_to(sigma);
    lemma_single_at_least(sigma);
    let t1 = two.times(x);
    let t2 = t1.times(x);
    lemma_product_up_to(two, x, 1075, 1202);
    lemma_product_at_least(two, x, 1075, 925);
    lemma_product_up_to(t1, x, 1203, 1202);
    lemma_product_at_least(t1, x, 926, 925);
    assert(up_to(alpha, 1138) && at_least(alpha, 1074)) by {
        lemma_order_size(i);
    }
    lemma_quotient_up_to(alpha, t2, 1138, 777);
    let d = alpha.over(t2);
    assert(round_divergence(f, alpha, x, Binary32::unit().as_binary64()) == d);
    let (u, s, a, p, q, r) = (pow2(1074), size(x), size(alpha), size(t1), size(t2), size(d));
    lemma_pow2_pos(1074);
    lemma_pow2_pos(777);
    // twice the noise
    lemma_large_product(size(two), s, 1075, 925, 1127);
    lemma_times_slip(two, x);
    assert(size(two) * s == (2 * s) * u) by (nonlinear_arith)
        requires
            size(two) == 2 * u,
    ;
    lemma_nearly_cancelled(fm, p, 2 * s, u, 1);
    lemma_nearly_cancelled(fm, 2 * s, p, u, 2);
    // times the noise
    lemma_large_product(p, s, 926, 925, 1127);
    lemma_times_slip(t1, x);
    // the order over that
    lemma_large_product(a, u, 1074, 1074, 2148);
    lemma_pow2_adds(53, 1331);
    lemma_pow2_strictly_increases(1384, 2148);
    lemma_mul_inequality(q as int, pow2(1331) as int, pow2(53) as int);
    lemma_mul_is_commutative(q as int, pow2(53) as int);
    lemma_mul_is_commutative(pow2(1331) as int, pow2(53) as int);
    lemma_over_slip(alpha, t2);
    // together
    let goal = r * (2 * (s * s));
    let full = a * (u * u);
    lemma_nearly_scaled(fm, 2 * s, p, r * s, 2);
    assert((2 * s) * (r * s) == goal) by (nonlinear_arith)
        requires
            goal == r * (2 * (s * s)),
    ;
    lemma_nearly_scaled(fm, p * s, q * u, r, 2);
    assert(p * (r * s) == (p * s) * r) by (nonlinear_arith);
    lemma_nearly_scaled(fm, r * q, a * u, u, 1);
    assert((q * u) * r == (r * q) * u) by (nonlinear_arith);
    assert((a * u) * u == full) by (nonlinear_arith)
        requires
            full == a * (u * u),
    ;
    lemma_nearly_chain(fm, goal, (p * s) * r, (q * u) * r, 2, 2);
    lemma_nearly_chain(fm, goal, (r * q) * u, full, 4, 1);
    lemma_nearly_scaled(fm, a * u, r * q, u, 2);
    lemma_nearly_scaled(fm, q * u, p * s, r, 1);
    lemma_nearly_scaled(fm, p, 2 * s, r * s, 1);
    lemma_nearly_chain(fm, full, (q * u) * r, (p * s) * r, 2, 1);
    lemma_nearly_chain(fm, full, p * (r * s), goal, 3, 1);
}

proof fn lemma_two()
    ensures
        two64().finite(),
        up_to(two64(), 1075),
        at_least(two64(), 1075),
        size(two64()) == 2 * pow2(1074),
        0 < two64().rank(),
{
    two64().unsigned_patterns();
    lemma_one(Format::Double);
    lemma_doubled(Format::Double, one_magnitude(Format::Double));
    lemma_pow2_unfold(1075);
    lemma_small_mod(0x4000_0000_0000_0000, Format::Double.sign_weight());
}

proof fn lemma_order_size(i: int)
    requires
        0 <= i < orders().len(),
    ensures
        up_to(orders()[i], 1138),
        at_least(orders()[i], 1074),
{
    let x = orders()[i];
    let f = Format::Double;
    lemma_orders(i);
    Binary64::unit().unsigned_patterns();
    lemma_one(f);
    lemma_small_mod(one_magnitude(f), f.sign_weight());
    lemma_sizes_ordered(Binary64::unit(), x);
    let big = Binary64 { bits: 0x43f0_0000_0000_0000 };
    big.unsigned_patterns();
    x.unsigned_patterns();
    let b = x.bits;
    assert(b == 0x3ff4_0000_0000_0000 || b == 0x3ff8_0000_0000_0000 || b == 0x3ffc_0000_0000_0000
        || (0x4000_0000_0000_0000 <= b <= 0x4070_0000_0000_0000));
    lemma_sizes_ordered(x, big);
    assert(size(big) == pow2(1138)) by {
        reveal(Format::units);
        lemma_small_mod(0x43f0_0000_0000_0000, f.sign_weight());
        lemma_fundamental_div_mod_converse(
            0x43f0_0000_0000_0000,
            f.hidden() as int,
            1087,
            0,
        );
        lemma_pow2_adds(52, 1086);
        lemma2_to64_rest();
    }
}

} // verus!
