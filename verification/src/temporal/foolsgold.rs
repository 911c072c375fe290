//! FoolsGold: clients whose histories resemble each other lose weight.
use vstd::prelude::*;
use crate::aggregator::Aggregator;
use crate::averaging::{add_weighted_rows, is_zero, lemma_weighted_rows_len, weighted_rows};
use crate::delta::{batch_of, ClientDelta, Delta};
use crate::elementary::{apply, image, is_function};
use crate::error::{AggregatorError, Rejection};
use crate::float::binary32::Binary32;
use crate::history::{history_of, lemma_history_lookup, lemma_history_update, History};
use crate::linear::{copy32, dot32, filled32, inner_product, zeros32};
use crate::robust::faba::{equal_share, even_mean, mean_of_rows};
use crate::weights::{accepted_batches_are_fit, all_finite, decode_and_validate, is_matrix, rows, validated};

verus! {

/// The first `k` coordinates, where there are that many.
pub open spec fn prefix(v: Seq<Binary32>, k: nat) -> Seq<Binary32> {
    if k < v.len() {
        v.take(k as int)
    } else {
        v
    }
}

/// Whether two vectors are one and the same direction to the last bit: finite,
/// not zero, and equal.
pub open spec fn is_same_direction(a: Seq<Binary32>, b: Seq<Binary32>) -> bool {
    &&& a == b
    &&& all_finite(a)
    &&& exists|k: int| 0 <= k < a.len() && !is_zero(#[trigger] a[k])
}

/// The cosine of the angle between two vectors in single precision, over the
/// coordinates they share; zero where one of them has no length. Identical
/// vectors have a cosine of one, which rounding would miss.
pub open spec fn cosine32(a: Seq<Binary32>, b: Seq<Binary32>) -> Binary32 {
    let norm_a = dot32(a, a).root();
    let norm_b = dot32(b, b).root();
    if is_same_direction(a, b) {
        Binary32::unit()
    } else if is_zero(norm_a) || is_zero(norm_b) {
        Binary32::nothing()
    } else {
        dot32(prefix(a, b.len()), prefix(b, a.len())).over(norm_a.times(norm_b))
    }
}

fn first_of(v: &Vec<Binary32>, k: usize) -> (r: Vec<Binary32>)
    ensures
        r@ == prefix(v@, k as nat),
{
    let mut out: Vec<Binary32> = copy32(v.as_slice());
    out.truncate(k);
    proof {
        assert(out@ =~= prefix(v@, k as nat));
    }
    out
}

/// Whether two vectors are finite, not zero, and equal.
fn same_direction(a: &Vec<Binary32>, b: &Vec<Binary32>) -> (r: bool)
    ensures
        r == is_same_direction(a@, b@),
{
    if a.len() != b.len() {
        return false;
    }
    let mut moves: bool = false;
    let mut i: usize = 0;
    while i < a.len()
        invariant
            i <= a.len(),
            a.len() == b.len(),
            forall|k: int| 0 <= k < i ==> #[trigger] a[k] == b[k] && a[k].finite(),
            moves == exists|k: int| 0 <= k < i && !is_zero(#[trigger] a@[k]),
        decreases a.len() - i,
    {
        if a[i] != b[i] || !a[i].is_finite() {
            return false;
        }
        if !a[i].eq_value(Binary32::zero()) {
            moves = true;
            assert(!is_zero(a@[i as int]));
        }
        i = i + 1;
    }
    assert(a@ =~= b@);
    moves
}

/// The cosine of the angle between two vectors.
pub fn cosine_similarity(a: &Vec<Binary32>, b: &Vec<Binary32>) -> (r: Binary32)
    ensures
        r == cosine32(a@, b@),
{
    if same_direction(a, b) {
        return Binary32::one();
    }
    let norm_a: Binary32 = inner_product(a.as_slice(), a.as_slice()).sqrt();
    let norm_b: Binary32 = inner_product(b.as_slice(), b.as_slice()).sqrt();
    if norm_a.eq_value(Binary32::zero()) || norm_b.eq_value(Binary32::zero()) {
        return Binary32::zero();
    }
    let dot: Binary32 = if a.len() == b.len() {
        inner_product(a.as_slice(), b.as_slice())
    } else {
        let short_a: Vec<Binary32> = first_of(a, b.len());
        let short_b: Vec<Binary32> = first_of(b, a.len());
        inner_product(short_a.as_slice(), short_b.as_slice())
    };
    dot.div(norm_a.mul(norm_b))
}

/// How much the history of `i` resembles that of `j`; nothing for itself.
pub open spec fn resemblance(h: Seq<Seq<Binary32>>, i: int, j: int) -> Binary32 {
    if i == j {
        Binary32::nothing()
    } else {
        cosine32(h[i], h[j])
    }
}

/// The largest of `s`, and at least zero.
pub open spec fn largest(s: Seq<Binary32>) -> Binary32
    decreases s.len(),
{
    if s.len() == 0 {
        Binary32::nothing()
    } else {
        largest(s.drop_last()).larger(s.last())
    }
}

/// The largest of `s`, and at least zero.
pub fn largest_of(s: &Vec<Binary32>) -> (r: Binary32)
    ensures
        r == largest(s@),
{
    let mut acc: Binary32 = Binary32::zero();
    let mut i: usize = 0;
    while i < s.len()
        invariant
            i <= s.len(),
            acc == largest(s@.take(i as int)),
        decreases s.len() - i,
    {
        acc = acc.max(s[i]);
        proof {
            assert(s@.take(i + 1).drop_last() =~= s@.take(i as int));
        }
        i = i + 1;
    }
    proof {
        assert(s@.take(i as int) =~= s@);
    }
    acc
}

/// What every client resembles most, before pardoning.
pub open spec fn most_alike(h: Seq<Seq<Binary32>>) -> Seq<Binary32> {
    Seq::new(h.len(), |i: int| largest(Seq::new(h.len(), |j: int| resemblance(h, i, j))))
}

/// The resemblance of `i` to `j`, scaled down where `j` resembles somebody
/// more than `i` does.
pub open spec fn pardoned(h: Seq<Seq<Binary32>>, most: Seq<Binary32>, i: int, j: int) -> Binary32 {
    if i != j && most[i].below(most[j]) {
        resemblance(h, i, j).times(most[i].over(most[j]))
    } else {
        resemblance(h, i, j)
    }
}

/// `x` held between zero and one; a NaN stays one.
pub open spec fn held_in_unit(x: Binary32) -> Binary32 {
    if x.below(Binary32::nothing()) {
        Binary32::nothing()
    } else if Binary32::unit().below(x) {
        Binary32::unit()
    } else {
        x
    }
}

/// Holds `x` between zero and one.
fn hold_in_unit(x: Binary32) -> (r: Binary32)
    ensures
        r == held_in_unit(x),
{
    if x.lt(Binary32::zero()) {
        Binary32::zero()
    } else if Binary32::one().lt(x) {
        Binary32::one()
    } else {
        x
    }
}

/// How little each client's history resembles anyone's, from zero to one.
pub open spec fn distinctness(h: Seq<Seq<Binary32>>) -> Seq<Binary32> {
    let most = most_alike(h);
    Seq::new(
        h.len(),
        |i: int|
            held_in_unit(
                Binary32::unit().minus(
                    largest(Seq::new(h.len(), |j: int| pardoned(h, most, i, j))),
                ),
            ),
    )
}

/// The distinctness relative to the most distinct client, kept below one.
pub open spec fn relative_distinctness(own: Binary32, most: Binary32) -> Binary32 {
    let w = own.over(most);
    if Binary32::unit().at_most(w) {
        Binary32 { bits: 0x3f7d_70a4 }
    } else {
        w
    }
}

/// A weight from the logarithm of its odds.
pub open spec fn sharpened(log_odds: Binary32) -> Binary32 {
    held_in_unit(log_odds.plus(Binary32 { bits: 0x3f00_0000 }))
}

/// A weight from the logarithm of its odds: a half more, held between zero
/// and one.
pub fn sharpen(log_odds: Binary32) -> (r: Binary32)
    ensures
        r == sharpened(log_odds),
{
    hold_in_unit(log_odds.add(Binary32 { bits: 0x3f00_0000 }))
}

/// The weight of a client of relative distinctness `w`.
pub open spec fn sharpened_weight<L: Fn(Binary32) -> Binary32>(ln: L, w: Binary32) -> Binary32 {
    sharpened(image(ln, w.over(Binary32::unit().minus(w))))
}

/// The weight of every client; all zero where nobody is distinct.
pub open spec fn foolsgold_weights_of<L: Fn(Binary32) -> Binary32>(
    ln: L,
    h: Seq<Seq<Binary32>>,
) -> Seq<Binary32> {
    let own = distinctness(h);
    let most = largest(own);
    Seq::new(
        h.len(),
        |i: int|
            if most.at_most(Binary32::nothing()) {
                Binary32::nothing()
            } else {
                sharpened_weight(ln, relative_distinctness(own[i], most))
            },
    )
}

fn resemblance_rows(h: &Vec<Vec<Binary32>>) -> (r: Vec<Vec<Binary32>>)
    ensures
        r.len() == h.len(),
        forall|i: int|
            0 <= i < h.len() ==> (#[trigger] r[i])@ == Seq::new(
                h.len() as nat,
                |j: int| resemblance(rows(h@), i, j),
            ),
{
    let ghost hh = rows(h@);
    let n: usize = h.len();
    let mut out: Vec<Vec<Binary32>> = Vec::with_capacity(n);
    let mut i: usize = 0;
    while i < n
        invariant
            i <= n,
            n == h.len(),
            hh == rows(h@),
            out.len() == i,
            forall|k: int|
                0 <= k < i ==> (#[trigger] out[k])@ == Seq::new(
                    n as nat,
                    |j: int| resemblance(hh, k, j),
                ),
        decreases n - i,
    {
        let mut row: Vec<Binary32> = Vec::with_capacity(n);
        let mut j: usize = 0;
        while j < n
            invariant
                j <= n,
                i < n,
                n == h.len(),
                hh == rows(h@),
                row.len() == j,
                forall|k: int| 0 <= k < j ==> #[trigger] row[k] == resemblance(hh, i as int, k),
            decreases n - j,
        {
            if i == j {
                row.push(Binary32::zero());
            } else {
                row.push(cosine_similarity(&h[i], &h[j]));
            }
            j = j + 1;
        }
        proof {
            assert(row@ =~= Seq::new(n as nat, |j: int| resemblance(hh, i as int, j)));
        }
        out.push(row);
        i = i + 1;
    }
    out
}

fn distinct_clients(h: &Vec<Vec<Binary32>>) -> (r: Vec<Binary32>)
    ensures
        r@ == distinctness(rows(h@)),
{
    let ghost hh = rows(h@);
    let n: usize = h.len();
    let table: Vec<Vec<Binary32>> = resemblance_rows(h);
    let mut most: Vec<Binary32> = Vec::with_capacity(n);
    let mut i: usize = 0;
    while i < n
        invariant
            i <= n,
            n == hh.len(),
            table.len() == n,
            forall|k: int|
                0 <= k < n ==> (#[trigger] table[k])@ == Seq::new(
                    n as nat,
                    |j: int| resemblance(hh, k, j),
                ),
            most.len() == i,
            forall|k: int| 0 <= k < i ==> #[trigger] most[k] == most_alike(hh)[k],
        decreases n - i,
    {
        most.push(largest_of(&table[i]));
        i = i + 1;
    }
    proof {
        assert(most@ =~= most_alike(hh));
    }
    let mut out: Vec<Binary32> = Vec::with_capacity(n);
    let mut k: usize = 0;
    while k < n
        invariant
            k <= n,
            n == hh.len(),
            table.len() == n,
            most@ == most_alike(hh),
            forall|a: int|
                0 <= a < n ==> (#[trigger] table[a])@ == Seq::new(
                    n as nat,
                    |j: int| resemblance(hh, a, j),
                ),
            out.len() == k,
            forall|a: int| 0 <= a < k ==> #[trigger] out[a] == distinctness(hh)[a],
        decreases n - k,
    {
        let ghost goal = Seq::new(n as nat, |j: int| pardoned(hh, most@, k as int, j));
        let mut row: Vec<Binary32> = Vec::with_capacity(n);
        let mut j: usize = 0;
        while j < n
            invariant
                j <= n,
                k < n,
                n == hh.len(),
                most.len() == n,
                table.len() == n,
                table[k as int]@ == Seq::new(n as nat, |j: int| resemblance(hh, k as int, j)),
                goal == Seq::new(n as nat, |j: int| pardoned(hh, most@, k as int, j)),
                row.len() == j,
                forall|a: int| 0 <= a < j ==> #[trigger] row[a] == goal[a],
            decreases n - j,
        {
            let plain: Binary32 = table[k][j];
            if k != j && most[k].lt(most[j]) {
                row.push(plain.mul(most[k].div(most[j])));
            } else {
                row.push(plain);
            }
            j = j + 1;
        }
        proof {
            assert(row@ =~= goal);
        }
        out.push(hold_in_unit(Binary32::one().sub(largest_of(&row))));
        k = k + 1;
    }
    proof {
        assert(out@ =~= distinctness(hh));
    }
    out
}

/// The weight of every client by the histories of all, from zero to one.
pub fn foolsgold_weights<L: Fn(Binary32) -> Binary32>(ln: &L, histories: &Vec<Vec<Binary32>>) -> (r:
    Vec<Binary32>)
    requires
        is_function(*ln),
    ensures
        r@ == foolsgold_weights_of(*ln, rows(histories@)),
{
    let ghost hh = rows(histories@);
    let n: usize = histories.len();
    let own: Vec<Binary32> = distinct_clients(histories);
    let most: Binary32 = largest_of(&own);
    if most.le(Binary32::zero()) {
        let none: Vec<Binary32> = filled32(n, Binary32::zero());
        proof {
            assert(none@ =~= foolsgold_weights_of(*ln, hh));
        }
        return none;
    }
    let mut out: Vec<Binary32> = Vec::with_capacity(n);
    let mut i: usize = 0;
    while i < n
        invariant
            i <= n,
            n == hh.len(),
            is_function(*ln),
            own@ == distinctness(hh),
            most == largest(own@),
            !most.at_most(Binary32::nothing()),
            out.len() == i,
            forall|k: int| 0 <= k < i ==> #[trigger] out[k] == foolsgold_weights_of(*ln, hh)[k],
        decreases n - i,
    {
        let scaled: Binary32 = own[i].div(most);
        let w: Binary32 = if Binary32::one().le(scaled) {
            Binary32 { bits: 0x3f7d_70a4 }
        } else {
            scaled
        };
        out.push(sharpen(apply(ln, w.div(Binary32::one().sub(w)))));
        i = i + 1;
    }
    proof {
        assert(out@ =~= foolsgold_weights_of(*ln, hh));
    }
    out
}

/// `h` with `w` added to the coordinates both have.
pub open spec fn extended(h: Seq<Binary32>, w: Seq<Binary32>) -> Seq<Binary32> {
    Seq::new(h.len(), |k: int| if k < w.len() { h[k].plus(w[k]) } else { h[k] })
}

/// A client's history after one more update.
pub open spec fn history_after(history: History, id: Seq<char>, w: Seq<Binary32>) -> Seq<Binary32> {
    extended(if history.contains_key(id) { history[id] } else { zeros32(w.len()) }, w)
}

/// The histories after the first `k` updates of a batch, and each client's at
/// the time of its update.
pub open spec fn absorbed(history: History, batch: Seq<Delta>, m: Seq<Seq<Binary32>>, k: nat) -> (
    History,
    Seq<Seq<Binary32>>,
)
    decreases k,
{
    if k == 0 {
        (history, Seq::empty())
    } else {
        let (before, seen) = absorbed(history, batch, m, (k - 1) as nat);
        let id = batch[k - 1].client_id;
        let h = history_after(before, id, m[k - 1]);
        (before.insert(id, h), seen.push(h))
    }
}

/// The combination of a batch under the clients' weights: the mean of the
/// weighted updates, or of the plain ones where every weight is zero.
pub open spec fn foolsgold_combined(weights: Seq<Binary32>, m: Seq<Seq<Binary32>>) -> Seq<Binary32> {
    if forall|i: int| 0 <= i < weights.len() ==> is_zero(#[trigger] weights[i]) {
        even_mean(m, m[0].len())
    } else {
        weighted_rows(
            m,
            Seq::new(m.len(), |i: int| weights[i].times(equal_share(m.len()))),
            m[0].len(),
            m.len(),
        )
    }
}

/// FoolsGold with the history of every client seen so far.
pub struct FoolsGoldAggregator<L: Fn(Binary32) -> Binary32> {
    /// The natural logarithm.
    pub ln: L,
    /// What each client has submitted so far, added up.
    pub history: Vec<(String, Vec<Binary32>)>,
}

impl<L: Fn(Binary32) -> Binary32> FoolsGoldAggregator<L> {
    /// An aggregator that has seen nobody, with `ln` as its natural
    /// logarithm.
    pub fn new(ln: L) -> (r: FoolsGoldAggregator<L>)
        ensures
            r.ln == ln,
            r.history@.len() == 0,
    {
        FoolsGoldAggregator { ln, history: Vec::new() }
    }

    /// Adds one update to its client's history and returns that history.
    fn absorb(&mut self, id: &String, w: &Vec<Binary32>) -> (r: Vec<Binary32>)
        ensures
            r@ == history_after(history_of(old(self).history@), id@, w@),
            history_of(final(self).history@) == history_of(old(self).history@).insert(id@, r@),
            final(self).ln == old(self).ln,
    {
        let mut k: usize = self.history.len();
        while k > 0
            invariant
                k <= self.history.len(),
                *self == *old(self),
                forall|j: int| k <= j < self.history.len() ==> (#[trigger] self.history@[j]).0@ != id@,
            decreases k,
        {
            if self.history[k - 1].0 == *id {
                proof {
                    lemma_history_lookup(self.history@, k as int, id@);
                }
                let updated: Vec<Binary32> = extend(&self.history[k - 1].1, w);
                let entry: (String, Vec<Binary32>) = (id.clone(), copy32(updated.as_slice()));
                proof {
                    lemma_history_update(self.history@, k - 1, entry);
                }
                self.history.set(k - 1, entry);
                return updated;
            }
            k = k - 1;
        }
        proof {
            lemma_history_lookup(self.history@, 0, id@);
        }
        let fresh: Vec<Binary32> = filled32(w.len(), Binary32::zero());
        proof {
            assert(fresh@ =~= zeros32(w@.len()));
        }
        let updated: Vec<Binary32> = extend(&fresh, w);
        let ghost before = self.history@;
        self.history.push((id.clone(), copy32(updated.as_slice())));
        proof {
            assert(self.history@.drop_last() =~= before);
        }
        updated
    }
}

fn extend(h: &Vec<Binary32>, w: &Vec<Binary32>) -> (r: Vec<Binary32>)
    ensures
        r@ == extended(h@, w@),
{
    let mut out: Vec<Binary32> = Vec::with_capacity(h.len());
    let mut k: usize = 0;
    while k < h.len()
        invariant
            k <= h.len(),
            out@ == extended(h@, w@).take(k as int),
        decreases h.len() - k,
    {
        if k < w.len() {
            out.push(h[k].add(w[k]));
        } else {
            out.push(h[k]);
        }
        proof {
            assert(out@ =~= extended(h@, w@).take(k + 1));
        }
        k = k + 1;
    }
    proof {
        assert(extended(h@, w@).take(k as int) =~= extended(h@, w@));
    }
    out
}

/// Combines a batch under the clients' weights.
pub fn combine_weighted(weights: &Vec<Binary32>, m: &Vec<Vec<Binary32>>) -> (r: Vec<Binary32>)
    requires
        m.len() > 0,
        weights.len() == m.len(),
        is_matrix(rows(m@), rows(m@)[0].len()),
    ensures
        r@ == foolsgold_combined(weights@, rows(m@)),
{
    let ghost mm = rows(m@);
    proof {
        assert(mm[0] == m[0]@);
    }
    let dim: usize = m[0].len();
    let mut i: usize = 0;
    while i < weights.len()
        invariant
            i <= weights.len(),
            weights.len() == m.len(),
            mm == rows(m@),
            mm[0].len() == dim,
            is_matrix(mm, dim as nat),
            forall|k: int| 0 <= k < i ==> is_zero(#[trigger] weights[k]),
        decreases weights.len() - i,
    {
        if !weights[i].eq_value(Binary32::zero()) {
            return weigh_rows(weights, m, dim);
        }
        i = i + 1;
    }
    mean_of_rows(m, dim)
}

fn weigh_rows(weights: &Vec<Binary32>, m: &Vec<Vec<Binary32>>, dim: usize) -> (r: Vec<Binary32>)
    requires
        weights.len() == m.len(),
        is_matrix(rows(m@), dim as nat),
    ensures
        r@ == weighted_rows(
            rows(m@),
            Seq::new(m.len() as nat, |i: int| weights[i].times(equal_share(m.len() as nat))),
            dim as nat,
            m.len() as nat,
        ),
{
    let share: Binary32 = Binary32::one().div(Binary32::from_u64(m.len() as u64));
    let mut scaled: Vec<Binary32> = Vec::with_capacity(m.len());
    let mut i: usize = 0;
    while i < weights.len()
        invariant
            i <= weights.len(),
            weights.len() == m.len(),
            share == equal_share(m.len() as nat),
            scaled.len() == i,
            forall|k: int| 0 <= k < i ==> #[trigger] scaled[k] == weights[k].times(share),
        decreases weights.len() - i,
    {
        scaled.push(weights[i].mul(share));
        i = i + 1;
    }
    proof {
        assert(scaled@ =~= Seq::new(
            m.len() as nat,
            |i: int| weights[i].times(equal_share(m.len() as nat)),
        ));
    }
    add_weighted_rows(m, &scaled, dim)
}

/// The result and the histories after a batch. A batch of one is its own
/// result.
#[verifier::opaque]
pub open spec fn foolsgold_step<L: Fn(Binary32) -> Binary32>(
    ln: L,
    history: History,
    batch: Seq<Delta>,
) -> (Result<Seq<Binary32>, Rejection>, History) {
    if batch.len() == 0 {
        (Err(Rejection::EmptyBatch), history)
    } else {
        match validated(batch) {
            Err(e) => (Err(e), history),
            Ok(m) => {
                let (after, seen) = absorbed(history, batch, m, batch.len());
                if batch.len() == 1 {
                    (Ok(m[0]), after)
                } else {
                    (Ok(foolsgold_combined(foolsgold_weights_of(ln, seen), m)), after)
                }
            },
        }
    }
}

impl<L: Fn(Binary32) -> Binary32> Aggregator for FoolsGoldAggregator<L> {
    type State = (L, History);

    open spec fn state(&self) -> (L, History) {
        (self.ln, history_of(self.history@))
    }

    open spec fn ready(s: (L, History)) -> bool {
        is_function(s.0)
    }

    open spec fn step(s: (L, History), batch: Seq<Delta>) -> (
        Result<Seq<Binary32>, Rejection>,
        (L, History),
    ) {
        let (r, after) = foolsgold_step(s.0, s.1, batch);
        (r, (s.0, after))
    }

    proof fn keeps_dimension(s: (L, History), batch: Seq<Delta>) {
        reveal(foolsgold_step);
        accepted_batches_are_fit(batch);
        let m = validated(batch)->Ok_0;
        let seen = absorbed(s.1, batch, m, batch.len()).1;
        let weights = foolsgold_weights_of(s.0, seen);
        lemma_weighted_rows_len(
            m,
            Seq::new(m.len(), |i: int| equal_share(m.len())),
            m[0].len(),
            m.len(),
        );
        lemma_weighted_rows_len(
            m,
            Seq::new(m.len(), |i: int| weights[i].times(equal_share(m.len()))),
            m[0].len(),
            m.len(),
        );
    }

    fn aggregate(&mut self, updates: &[ClientDelta]) -> (r: Result<Vec<Binary32>, AggregatorError>) {
        proof {
            reveal(foolsgold_step);
        }
        let ghost batch = batch_of(updates@);
        if updates.len() == 0 {
            return Err(AggregatorError::EmptyBatch);
        }
        let m: Vec<Vec<Binary32>> = match decode_and_validate(updates) {
            Ok(m) => m,
            Err(e) => {
                return Err(e);
            },
        };
        let ghost mm = rows(m@);
        proof {
            accepted_batches_are_fit(batch);
            assert(mm[0] == m[0]@);
        }
        let n: usize = updates.len();
        let mut seen: Vec<Vec<Binary32>> = Vec::with_capacity(n);
        let ghost start = history_of(self.history@);
        proof {
            assert(rows(seen@) =~= Seq::empty());
        }
        let mut k: usize = 0;
        while k < n
            invariant
                k <= n,
                n == updates.len(),
                n == m.len(),
                batch == batch_of(updates@),
                mm == rows(m@),
                self.ln == old(self).ln,
                (history_of(self.history@), rows(seen@)) == absorbed(start, batch, mm, k as nat),
                seen.len() == k,
            decreases n - k,
        {
            proof {
                assert(batch[k as int].client_id == updates[k as int].client_id@);
                assert(mm[k as int] == m[k as int]@);
            }
            let ghost before = rows(seen@);
            let h: Vec<Binary32> = self.absorb(&updates[k].client_id, &m[k]);
            seen.push(h);
            proof {
                assert(rows(seen@) =~= before.push(h@));
            }
            k = k + 1;
        }
        if n == 1 {
            return Ok(copy32(m[0].as_slice()));
        }
        let weights: Vec<Binary32> = foolsgold_weights(&self.ln, &seen);
        Ok(combine_weighted(&weights, &m))
    }
}

} // verus!
