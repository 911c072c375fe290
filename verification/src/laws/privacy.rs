//! What the privacy accounting promises.
use vstd::prelude::*;
use crate::elementary::image64;
use crate::float::binary64::Binary64;
use crate::linear::{empty_sum64, sum64};
use crate::privacy::accountant::{composed, epsilon_at, epsilon_of, grouped, has_config, orders, round_divergence, sampled_divergence, smallest64, two64, with_round, LogExp, Round};
use crate::weights::{first_from, first_where};

verus! {

/// Whether every round has a noise multiplier that is a number.
pub open spec fn noise_is_known(rounds: Seq<Round>) -> bool {
    forall|i: int| 0 <= i < rounds.len() ==> !(#[trigger] rounds[i]).0.as_binary64().nan()
}

/// Whether every group has one, and occurs at least once.
pub open spec fn groups_are_known(groups: Seq<(Round, u64)>) -> bool {
    forall|i: int|
        0 <= i < groups.len() ==> !(#[trigger] groups[i]).0.0.as_binary64().nan() && groups[i].1 > 0
}

/// A number that is not below zero, be it an infinity.
pub open spec fn is_cost(x: Binary64) -> bool {
    !x.nan() && 0 <= x.rank()
}

pub proof fn lemma_finite_number(x: Binary64)
    requires
        x.finite(),
    ensures
        !x.nan(),
{
    reveal(Binary64::finite);
    reveal(Binary64::nan);
}

/// One round's divergence is never negative.
pub proof fn lemma_divergence<L: Fn(Binary64) -> Binary64, E: Fn(Binary64) -> Binary64>(
    f: LogExp<L, E>,
    alpha: Binary64,
    sigma: Binary64,
    q: Binary64,
)
    requires
        alpha.finite(),
        alpha.rank() > 0,
        !sigma.nan(),
    ensures
        is_cost(round_divergence(f, alpha, sigma, q)),
{
    sigma.twice_a_square();
    let divisor = two64().times(sigma).times(sigma);
    assert(0 <= divisor.rank()) by {
        reveal(Binary64::rank);
    }
    alpha.ratios_are_not_negative(divisor);
    match sampled_divergence(f, alpha, sigma, q) {
        Some(tight) => {
            Binary64::nothing().zeros();
            lemma_finite_number(Binary64::nothing());
        },
        None => {},
    }
}

/// What a group costs at one order.
spec fn group_cost<L: Fn(Binary64) -> Binary64, E: Fn(Binary64) -> Binary64>(
    f: LogExp<L, E>,
    alpha: Binary64,
    group: (Round, u64),
) -> Binary64 {
    round_divergence(f, alpha, group.0.0.as_binary64(), group.0.1.as_binary64()).times(
        Binary64::whole(group.1 as nat),
    )
}

spec fn group_costs<L: Fn(Binary64) -> Binary64, E: Fn(Binary64) -> Binary64>(
    f: LogExp<L, E>,
    alpha: Binary64,
    groups: Seq<(Round, u64)>,
) -> Seq<Binary64> {
    Seq::new(groups.len(), |i: int| group_cost(f, alpha, groups[i]))
}

/// A group costs no less for occurring more often.
proof fn lemma_group_cost<L: Fn(Binary64) -> Binary64, E: Fn(Binary64) -> Binary64>(
    f: LogExp<L, E>,
    alpha: Binary64,
    round: Round,
    fewer: u64,
    more: u64,
)
    requires
        alpha.finite(),
        alpha.rank() > 0,
        !round.0.as_binary64().nan(),
        0 < fewer <= more,
    ensures
        is_cost(group_cost(f, alpha, (round, fewer))),
        !group_cost(f, alpha, (round, more)).nan(),
        group_cost(f, alpha, (round, fewer)).rank() <= group_cost(f, alpha, (round, more)).rank(),
{
    let d = round_divergence(f, alpha, round.0.as_binary64(), round.1.as_binary64());
    lemma_divergence(f, alpha, round.0.as_binary64(), round.1.as_binary64());
    Binary64::words_are_finite(fewer as nat);
    Binary64::words_are_finite(more as nat);
    Binary64::words_keep_the_order(fewer as nat, more as nat);
    d.wide_products_keep_the_order(Binary64::whole(fewer as nat), Binary64::whole(more as nat));
}

pub proof fn lemma_empty_cost()
    ensures
        is_cost(empty_sum64()),
{
    assert(Binary64::nothing().negated() == empty_sum64()) by {
        reveal(Binary64::negated);
        assert(0nat % 0x8000_0000_0000_0000nat == 0);
    }
    empty_sum64().zeros();
    lemma_finite_number(empty_sum64());
}

/// Costs add up to a cost, and to no less where each is no less.
pub proof fn lemma_costs_add_up(s: Seq<Binary64>, t: Seq<Binary64>)
    requires
        s.len() == t.len(),
        forall|i: int|
            0 <= i < s.len() ==> is_cost(#[trigger] s[i]) && is_cost(t[i]) && s[i].rank()
                <= t[i].rank(),
    ensures
        is_cost(sum64(s)),
        is_cost(sum64(t)),
        sum64(s).rank() <= sum64(t).rank(),
    decreases s.len(),
{
    lemma_empty_cost();
    if s.len() > 0 {
        let (a, b) = (s.drop_last(), t.drop_last());
        assert forall|i: int| 0 <= i < a.len() implies is_cost(#[trigger] a[i]) && is_cost(b[i])
            && a[i].rank() <= b[i].rank() by {
            assert(is_cost(s[i]));
        }
        lemma_costs_add_up(a, b);
        let (x, y) = (s.last(), t.last());
        assert(is_cost(s[s.len() - 1]));
        // sum64(a) + x <= sum64(b) + x <= sum64(b) + y
        sum64(a).wide_sums_keep_the_order(sum64(b), x);
        x.wide_sums_keep_the_order(y, sum64(b));
        sum64(b).plus_commutes(x);
        sum64(b).plus_commutes(y);
        sum64(b).wide_sums_keep_the_order(sum64(b), y);
    }
}

/// Every order searched is a finite number above one.
pub proof fn lemma_orders(i: int)
    requires
        0 <= i < orders().len(),
    ensures
        orders()[i].finite(),
        orders()[i].rank() > Binary64::unit().rank() > 0,
{
    let b = orders()[i].bits;
    assert(b == 0x3ff4_0000_0000_0000 || b == 0x3ff8_0000_0000_0000 || b == 0x3ffc_0000_0000_0000
        || (0x4000_0000_0000_0000 <= b <= 0x4070_0000_0000_0000));
    orders()[i].unsigned_patterns();
    Binary64::unit().unsigned_patterns();
}

/// The costs of all groups are costs.
proof fn lemma_group_costs<L: Fn(Binary64) -> Binary64, E: Fn(Binary64) -> Binary64>(
    f: LogExp<L, E>,
    alpha: Binary64,
    groups: Seq<(Round, u64)>,
)
    requires
        alpha.finite(),
        alpha.rank() > 0,
        groups_are_known(groups),
    ensures
        forall|i: int| 0 <= i < groups.len() ==> is_cost(#[trigger] group_costs(f, alpha, groups)[i]),
        composed(f, groups, alpha) == sum64(group_costs(f, alpha, groups)),
{
    assert(group_costs(f, alpha, groups) =~= Seq::new(
        groups.len(),
        |i: int|
            round_divergence(
                f,
                alpha,
                groups[i].0.0.as_binary64(),
                groups[i].0.1.as_binary64(),
            ).times(Binary64::whole(groups[i].1 as nat)),
    ));
    assert forall|i: int| 0 <= i < groups.len() implies is_cost(
        #[trigger] group_costs(f, alpha, groups)[i],
    ) by {
        let g = groups[i];
        lemma_group_cost(f, alpha, g.0, g.1, g.1);
    }
}

/// The divergence of known groups is a cost.
pub proof fn lemma_composed_is_cost<L: Fn(Binary64) -> Binary64, E: Fn(Binary64) -> Binary64>(
    f: LogExp<L, E>,
    alpha: Binary64,
    groups: Seq<(Round, u64)>,
)
    requires
        alpha.finite(),
        alpha.rank() > 0,
        groups_are_known(groups),
    ensures
        is_cost(composed(f, groups, alpha)),
{
    lemma_group_costs(f, alpha, groups);
    let s = group_costs(f, alpha, groups);
    lemma_costs_add_up(s, s);
}

/// One more round costs no less at any order.
proof fn lemma_composed_grows<L: Fn(Binary64) -> Binary64, E: Fn(Binary64) -> Binary64>(
    f: LogExp<L, E>,
    alpha: Binary64,
    groups: Seq<(Round, u64)>,
    round: Round,
)
    requires
        alpha.finite(),
        alpha.rank() > 0,
        groups_are_known(groups),
        !round.0.as_binary64().nan(),
        forall|i: int| 0 <= i < groups.len() ==> (#[trigger] groups[i]).1 < u64::MAX,
    ensures
        groups_are_known(with_round(groups, round)),
        is_cost(composed(f, groups, alpha)),
        is_cost(composed(f, with_round(groups, round), alpha)),
        composed(f, groups, alpha).rank() <= composed(f, with_round(groups, round), alpha).rank(),
{
    let after = with_round(groups, round);
    let k = first_where(groups.len(), has_config(groups, round));
    let s = group_costs(f, alpha, groups);
    let t = group_costs(f, alpha, after);
    lemma_first_where_found(groups, round);
    if k < groups.len() {
        assert forall|i: int| 0 <= i < after.len() implies !(
        #[trigger] after[i]).0.0.as_binary64().nan() && after[i].1 > 0 by {
            assert(groups[i].1 > 0);
        }
        lemma_group_costs(f, alpha, groups);
        lemma_group_costs(f, alpha, after);
        assert forall|i: int| 0 <= i < s.len() implies is_cost(#[trigger] s[i]) && is_cost(t[i])
            && s[i].rank() <= t[i].rank() by {
            assert(is_cost(t[i]));
            if i == k {
                let g = groups[i];
                assert(g.0 == round);
                lemma_group_cost(f, alpha, round, g.1, (g.1 + 1) as u64);
            }
        }
        lemma_costs_add_up(s, t);
    } else {
        assert forall|i: int| 0 <= i < after.len() implies !(
        #[trigger] after[i]).0.0.as_binary64().nan() && after[i].1 > 0 by {
            if i < groups.len() {
                assert(groups[i].1 > 0);
            }
        }
        lemma_group_costs(f, alpha, groups);
        lemma_group_costs(f, alpha, after);
        lemma_costs_add_up(s, s);
        lemma_costs_add_up(t, t);
        let added = t.last();
        assert(is_cost(t[t.len() - 1]));
        assert(t.drop_last() =~= s);
        // sum64(s) + 0 <= sum64(s) + added
        lemma_empty_cost();
        let zero = Binary64::nothing();
        zero.zeros();
        lemma_finite_number(zero);
        zero.wide_sums_keep_the_order(added, sum64(s));
        sum64(s).plus_commutes(zero);
        sum64(s).plus_commutes(added);
        lemma_adding_nothing(sum64(s));
    }
}

/// Adding zero makes no cost smaller.
proof fn lemma_adding_nothing(x: Binary64)
    requires
        is_cost(x),
    ensures
        x.rank() <= Binary64::nothing().plus(x).rank(),
{
    Binary64::nothing().zeros();
    if x.finite() {
        x.zero_adds_nothing(Binary64::nothing());
    } else {
        lemma_finite_number(Binary64::nothing());
        x.plus_commutes(Binary64::nothing());
        reveal(Binary64::plus);
        reveal(Binary64::nan);
        reveal(Binary64::finite);
        reveal(Binary64::rank);
    }
}

/// What is found first has the configuration looked for.
pub proof fn lemma_first_where_found(groups: Seq<(Round, u64)>, round: Round)
    ensures
        first_where(groups.len(), has_config(groups, round)) < groups.len() ==> groups[first_where(
            groups.len(),
            has_config(groups, round),
        ) as int].0 == round,
{
    lemma_first_from_found(groups, round, 0);
}

proof fn lemma_first_from_found(groups: Seq<(Round, u64)>, round: Round, from: nat)
    ensures
        first_from(from, groups.len(), has_config(groups, round)) < groups.len()
            ==> groups[first_from(
            from,
            groups.len(),
            has_config(groups, round),
        ) as int].0 == round,
    decreases groups.len() - from,
{
    if from < groups.len() && !has_config(groups, round)(from as int) {
        lemma_first_from_found(groups, round, from + 1);
    }
}

/// The groups of known rounds are known, and none occurs more often than
/// there are rounds.
pub proof fn lemma_grouped(rounds: Seq<Round>)
    requires
        noise_is_known(rounds),
        rounds.len() <= u64::MAX,
    ensures
        groups_are_known(grouped(rounds)),
        forall|i: int|
            0 <= i < grouped(rounds).len() ==> (#[trigger] grouped(rounds)[i]).1 <= rounds.len(),
    decreases rounds.len(),
{
    if rounds.len() > 0 {
        let before = rounds.drop_last();
        assert forall|i: int| 0 <= i < before.len() implies !(
        #[trigger] before[i]).0.as_binary64().nan() by {
            assert(!rounds[i].0.as_binary64().nan());
        }
        lemma_grouped(before);
        let (g, r) = (grouped(before), rounds.last());
        assert(!rounds[rounds.len() - 1].0.as_binary64().nan());
        lemma_first_where_found(g, r);
        let after = with_round(g, r);
        let k = first_where(g.len(), has_config(g, r));
        assert forall|i: int| 0 <= i < after.len() implies !(
        #[trigger] after[i]).0.0.as_binary64().nan() && after[i].1 > 0 && after[i].1
            <= rounds.len() by {
            if i < g.len() {
                assert(g[i].1 <= before.len());
            }
        }
    }
}

/// The smallest is no smaller where each is no smaller.
proof fn lemma_smallest(s: Seq<Binary64>, t: Seq<Binary64>)
    requires
        s.len() == t.len(),
        forall|i: int|
            0 <= i < s.len() ==> !(#[trigger] s[i]).nan() && !t[i].nan() && s[i].rank()
                <= t[i].rank(),
    ensures
        !smallest64(s).nan(),
        !smallest64(t).nan(),
        smallest64(s).rank() <= smallest64(t).rank(),
    decreases s.len(),
{
    if s.len() == 0 {
        (Binary64 { bits: 0x7ff0_0000_0000_0000 }).unsigned_patterns();
    } else {
        let (a, b) = (s.drop_last(), t.drop_last());
        assert forall|i: int| 0 <= i < a.len() implies !(#[trigger] a[i]).nan() && !b[i].nan()
            && a[i].rank() <= b[i].rank() by {
            assert(!s[i].nan());
        }
        lemma_smallest(a, b);
        assert(!s[s.len() - 1].nan());
    }
}

/// What the probability of failure adds to the epsilon of an order.
pub open spec fn failure_term<L: Fn(Binary64) -> Binary64, E: Fn(Binary64) -> Binary64>(
    f: LogExp<L, E>,
    delta: Binary64,
    alpha: Binary64,
) -> Binary64 {
    image64(f.ln, Binary64::unit().over(delta)).over(alpha.minus(Binary64::unit()))
}

/// Whether a number is finite, or not negative.
pub open spec fn is_addable(x: Binary64) -> bool {
    x.finite() || (!x.nan() && 0 <= x.rank())
}

/// From the second round on another never costs less, wherever the logarithm
/// is one that can be added.
pub proof fn later_rounds_never_cost_less<
    L: Fn(Binary64) -> Binary64,
    E: Fn(Binary64) -> Binary64,
>(f: LogExp<L, E>, rounds: Seq<Round>, round: Round, delta: Binary64)
    requires
        0 < rounds.len() < u64::MAX,
        noise_is_known(rounds.push(round)),
        forall|i: int|
            0 <= i < orders().len() ==> is_addable(#[trigger] failure_term(f, delta, orders()[i])),
    ensures
        !epsilon_of(f, rounds, delta).nan(),
        !epsilon_of(f, rounds.push(round), delta).nan(),
        epsilon_of(f, rounds, delta).rank() <= epsilon_of(f, rounds.push(round), delta).rank(),
{
    let longer = rounds.push(round);
    assert(longer.drop_last() =~= rounds);
    assert forall|i: int| 0 <= i < rounds.len() implies !(
    #[trigger] rounds[i]).0.as_binary64().nan() by {
        assert(!longer[i].0.as_binary64().nan());
    }
    assert(!longer[rounds.len() as int].0.as_binary64().nan());
    lemma_grouped(rounds);
    let g = grouped(rounds);
    let h = grouped(longer);
    assert(h == with_round(g, round));
    let s = Seq::new(orders().len(), |i: int| epsilon_at(f, g, delta, orders()[i]));
    let t = Seq::new(orders().len(), |i: int| epsilon_at(f, h, delta, orders()[i]));
    assert forall|i: int| 0 <= i < s.len() implies !(#[trigger] s[i]).nan() && !t[i].nan()
        && s[i].rank() <= t[i].rank() by {
        let alpha = orders()[i];
        lemma_orders(i);
        lemma_composed_grows(f, alpha, g, round);
        let log = failure_term(f, delta, alpha);
        assert(is_addable(log));
        if log.finite() {
            lemma_finite_number(log);
        }
        composed(f, g, alpha).wide_sums_keep_the_order(composed(f, h, alpha), log);
    }
    lemma_smallest(s, t);
}

/// Whether the logarithm of a number from one up is a number and not negative.
pub open spec fn grows_from_one<L: Fn(Binary64) -> Binary64>(ln: L) -> bool {
    forall|x: Binary64|
        !x.nan() && Binary64::unit().rank() <= x.rank() ==> !(#[trigger] image64(ln, x)).nan() && 0
            <= image64(ln, x).rank()
}

/// The smallest of numbers that are not negative is not negative.
proof fn lemma_smallest_not_negative(s: Seq<Binary64>)
    requires
        forall|i: int| 0 <= i < s.len() ==> is_cost(#[trigger] s[i]),
    ensures
        is_cost(smallest64(s)),
    decreases s.len(),
{
    if s.len() == 0 {
        (Binary64 { bits: 0x7ff0_0000_0000_0000 }).unsigned_patterns();
    } else {
        let a = s.drop_last();
        assert forall|i: int| 0 <= i < a.len() implies is_cost(#[trigger] a[i]) by {
            assert(is_cost(s[i]));
        }
        lemma_smallest_not_negative(a);
        assert(is_cost(s[s.len() - 1]));
    }
}

/// Another round never costs less, the first one included: for a probability
/// of failure between zero and one, what was spent does not fall and is never
/// negative.
pub proof fn another_round_never_costs_less<
    L: Fn(Binary64) -> Binary64,
    E: Fn(Binary64) -> Binary64,
>(f: LogExp<L, E>, rounds: Seq<Round>, round: Round, delta: Binary64)
    requires
        rounds.len() < u64::MAX,
        noise_is_known(rounds.push(round)),
        grows_from_one(f.ln),
        !delta.nan(),
        0 < delta.rank() < Binary64::unit().rank(),
    ensures
        !epsilon_of(f, rounds, delta).nan(),
        !epsilon_of(f, rounds.push(round), delta).nan(),
        0 <= epsilon_of(f, rounds, delta).rank() <= epsilon_of(
            f,
            rounds.push(round),
            delta,
        ).rank(),
{
    let longer = rounds.push(round);
    Binary64::unit().unsigned_patterns();
    Binary64::nothing().zeros();
    lemma_finite_number(Binary64::nothing());
    delta.one_over_a_fraction();
    assert forall|i: int| 0 <= i < orders().len() implies is_cost(
        #[trigger] failure_term(f, delta, orders()[i]),
    ) by {
        lemma_orders(i);
        orders()[i].gap_is_positive(Binary64::unit());
        image64(f.ln, Binary64::unit().over(delta)).length_over_a_positive(
            orders()[i].minus(Binary64::unit()),
        );
    }
    lemma_never_negative(f, longer, delta);
    if rounds.len() > 0 {
        assert forall|i: int| 0 <= i < rounds.len() implies !(
        #[trigger] rounds[i]).0.as_binary64().nan() by {
            assert(!longer[i].0.as_binary64().nan());
        }
        lemma_never_negative(f, rounds, delta);
        assert forall|i: int| 0 <= i < orders().len() implies is_addable(
            #[trigger] failure_term(f, delta, orders()[i]),
        ) by {
            assert(is_cost(failure_term(f, delta, orders()[i])));
        }
        later_rounds_never_cost_less(f, rounds, round, delta);
    }
}

proof fn lemma_never_negative<L: Fn(Binary64) -> Binary64, E: Fn(Binary64) -> Binary64>(
    f: LogExp<L, E>,
    rounds: Seq<Round>,
    delta: Binary64,
)
    requires
        0 < rounds.len() <= u64::MAX,
        noise_is_known(rounds),
        forall|i: int|
            0 <= i < orders().len() ==> is_cost(#[trigger] failure_term(f, delta, orders()[i])),
    ensures
        is_cost(epsilon_of(f, rounds, delta)),
{
    let before = rounds.drop_last();
    assert forall|i: int| 0 <= i < before.len() implies !(
    #[trigger] before[i]).0.as_binary64().nan() by {
        assert(!rounds[i].0.as_binary64().nan());
    }
    assert(!rounds[rounds.len() - 1].0.as_binary64().nan());
    lemma_grouped(before);
    let (g, h) = (grouped(before), grouped(rounds));
    assert(h == with_round(g, rounds.last()));
    let t = Seq::new(orders().len(), |i: int| epsilon_at(f, h, delta, orders()[i]));
    assert forall|i: int| 0 <= i < t.len() implies is_cost(#[trigger] t[i]) by {
        let alpha = orders()[i];
        lemma_orders(i);
        lemma_composed_grows(f, alpha, g, rounds.last());
        let log = failure_term(f, delta, alpha);
        assert(is_cost(log));
        composed(f, h, alpha).wide_sums_keep_the_order(composed(f, h, alpha), log);
    }
    lemma_smallest_not_negative(t);
}

/// One thing an accountant is told.
pub enum Exposure {
    /// A round of the experiment.
    Experiment(Round),
    /// A round in which this client took part.
    Client(Seq<char>, Round),
}

/// The rounds listed for a client; none where it is not listed.
pub open spec fn listed(by_client: Map<Seq<char>, Seq<Round>>, id: Seq<char>) -> Seq<Round> {
    if by_client.contains_key(id) {
        by_client[id]
    } else {
        Seq::empty()
    }
}

/// The rounds of each client that an accountant lists once it has been told
/// `told`.
pub open spec fn accounts(told: Seq<Exposure>) -> Map<Seq<char>, Seq<Round>>
    decreases told.len(),
{
    if told.len() == 0 {
        Map::empty()
    } else {
        let before = accounts(told.drop_last());
        match told.last() {
            Exposure::Experiment(_) => before,
            Exposure::Client(id, round) => before.insert(id, listed(before, id).push(round)),
        }
    }
}

/// The rounds in which a client took part, by what was told.
pub open spec fn own_rounds(told: Seq<Exposure>, id: Seq<char>) -> Seq<Round>
    decreases told.len(),
{
    if told.len() == 0 {
        Seq::empty()
    } else {
        let before = own_rounds(told.drop_last(), id);
        match told.last() {
            Exposure::Client(who, round) if who == id => before.push(round),
            _ => before,
        }
    }
}

/// Clients never affect each other: whatever an accountant is told, it lists
/// for a client the rounds in which that client took part, and no others. So
/// what the client spent is what it would be alone, and nothing where it
/// never took part.
pub proof fn clients_are_accounted_apart<
    L: Fn(Binary64) -> Binary64,
    E: Fn(Binary64) -> Binary64,
>(f: LogExp<L, E>, told: Seq<Exposure>, id: Seq<char>, delta: Binary64)
    ensures
        listed(accounts(told), id) == own_rounds(told, id),
        epsilon_of(f, listed(accounts(told), id), delta) == epsilon_of(
            f,
            own_rounds(told, id),
            delta,
        ),
        own_rounds(told, id).len() == 0 ==> epsilon_of(f, listed(accounts(told), id), delta)
            == Binary64::nothing(),
    decreases told.len(),
{
    if told.len() > 0 {
        clients_are_accounted_apart(f, told.drop_last(), id, delta);
    }
}

/// Nothing an accountant is told lowers what a client spent: a round of its
/// own never costs less, and any other leaves it as it is.
pub proof fn nothing_told_costs_less<
    L: Fn(Binary64) -> Binary64,
    E: Fn(Binary64) -> Binary64,
>(f: LogExp<L, E>, told: Seq<Exposure>, next: Exposure, id: Seq<char>, delta: Binary64)
    requires
        told.len() < u64::MAX,
        noise_is_known(own_rounds(told.push(next), id)),
        grows_from_one(f.ln),
        !delta.nan(),
        0 < delta.rank() < Binary64::unit().rank(),
    ensures
        !epsilon_of(f, listed(accounts(told), id), delta).nan(),
        !epsilon_of(f, listed(accounts(told.push(next)), id), delta).nan(),
        epsilon_of(f, listed(accounts(told), id), delta).rank() <= epsilon_of(
            f,
            listed(accounts(told.push(next)), id),
            delta,
        ).rank(),
        next is Experiment || next->Client_0 != id ==> epsilon_of(
            f,
            listed(accounts(told), id),
            delta,
        ) == epsilon_of(f, listed(accounts(told.push(next)), id), delta),
{
    let longer = told.push(next);
    clients_are_accounted_apart(f, told, id, delta);
    clients_are_accounted_apart(f, longer, id, delta);
    assert(longer.drop_last() =~= told);
    let own = own_rounds(told, id);
    lemma_own_rounds_count(told, id);
    if next is Client && next->Client_0 == id {
        another_round_never_costs_less(f, own, next->Client_1, delta);
    } else {
        assert(own_rounds(longer, id) == own);
        // what was spent is a number
        if own.len() > 0 {
            assert(own.drop_last().push(own.last()) =~= own);
            another_round_never_costs_less(f, own.drop_last(), own.last(), delta);
        } else {
            Binary64::nothing().zeros();
            lemma_finite_number(Binary64::nothing());
        }
    }
}

proof fn lemma_own_rounds_count(told: Seq<Exposure>, id: Seq<char>)
    ensures
        own_rounds(told, id).len() <= told.len(),
    decreases told.len(),
{
    if told.len() > 0 {
        lemma_own_rounds_count(told.drop_last(), id);
    }
}

} // verus!
