//! The filter itself: scoring each client against its forecast.
use vstd::prelude::*;
use vstd::utf8::encode_utf8;
use crate::aggregator::{model_dim, Aggregator};
use crate::delta::{batch_of, pick_updates, picked, ClientDelta, Delta};
use crate::error::{AggregatorError, Rejection};
use crate::flanders::forecast::{fit_mar, fitted, forecast_coordinates, pairs_of, pairs_shaped, spread_coordinates, spread_coordinates_are_coordinates, Pair};
use crate::flanders::matrix::{entries, has_width, matmul, product_of, tabulated, Entries, Matrix};
use crate::float::binary32::Binary32;
use crate::float::binary64::Binary64;
use crate::history::{find_entry, history_of, History};
use crate::linear::{copy32, distance_squared64, squared_distance64, sum64};
use crate::order::{as_ranks, order_by_rank, stable_order, stable_order_is_a_sorted_permutation};
use crate::robust::filter::{ascending, in_ascending_order, indices_below, kept, lemma_kept};
use crate::weights::{accepted_batches_are_fit, decode_and_validate, first_where, is_matrix, lemma_first_where, lemma_picked_is_fit, rows, validated};

verus! {

/// Whether `a` comes before `b` byte by byte.
pub open spec fn bytes_before(a: Seq<u8>, b: Seq<u8>) -> bool
    decreases a.len(),
{
    if b.len() == 0 {
        false
    } else if a.len() == 0 {
        true
    } else if a[0] != b[0] {
        a[0] < b[0]
    } else {
        bytes_before(a.skip(1), b.skip(1))
    }
}

/// Whether `a` comes before `b` in the order of texts.
pub open spec fn text_before(a: Seq<char>, b: Seq<char>) -> bool {
    bytes_before(encode_utf8(a), encode_utf8(b))
}

/// `ids` with `id` put in its place, unless it is there.
pub open spec fn with_id(ids: Seq<Seq<char>>, id: Seq<char>) -> Seq<Seq<char>>
    decreases ids.len(),
{
    if ids.len() == 0 {
        seq![id]
    } else if ids.last() == id {
        ids
    } else if text_before(ids.last(), id) {
        ids.push(id)
    } else {
        with_id(ids.drop_last(), id).push(ids.last())
    }
}

/// Whether every snapshot has the client.
pub open spec fn in_every(history: Seq<History>, id: Seq<char>) -> bool {
    forall|k: int| 0 <= k < history.len() ==> (#[trigger] history[k]).contains_key(id)
}

/// The clients among the first `k` updates that every snapshot has, sorted.
pub open spec fn known_ids(batch: Seq<Delta>, history: Seq<History>, k: nat) -> Seq<Seq<char>>
    decreases k,
{
    if k == 0 {
        Seq::empty()
    } else {
        let before = known_ids(batch, history, (k - 1) as nat);
        let id = batch[k - 1].client_id;
        if in_every(history, id) {
            with_id(before, id)
        } else {
            before
        }
    }
}

/// Whether a snapshot has every client, each with `dim` weights.
pub open spec fn observable(snapshot: History, order: Seq<Seq<char>>, dim: nat) -> bool {
    forall|j: int|
        0 <= j < order.len() ==> snapshot.contains_key(#[trigger] order[j])
            && snapshot[order[j]].len() == dim
}

/// A snapshot as a matrix: a row for each coordinate, a column for each
/// client.
pub open spec fn observed(
    snapshot: History,
    order: Seq<Seq<char>>,
    coords: Seq<usize>,
) -> Entries {
    tabulated(
        coords.len(),
        order.len(),
        |i: int, j: int| snapshot[order[j]][coords[i] as int].as_binary64(),
    )
}

/// The pairs of consecutive snapshots among the first `k + 1` that can both
/// be observed.
pub open spec fn observed_pairs(
    history: Seq<History>,
    order: Seq<Seq<char>>,
    dim: nat,
    coords: Seq<usize>,
    k: nat,
) -> Seq<Pair>
    decreases k,
{
    if k == 0 {
        Seq::empty()
    } else {
        let before = observed_pairs(history, order, dim, coords, (k - 1) as nat);
        let (x, y) = (history[k - 1], history[k as int]);
        if observable(x, order, dim) && observable(y, order, dim) {
            before.push((observed(x, order, coords), observed(y, order, coords)))
        } else {
            before
        }
    }
}

/// What can be tuned.
pub struct FlandersTuning {
    pub history_window: usize,
    pub byzantine_fraction: Binary32,
    pub ridge: Binary64,
    pub als_iterations: usize,
    pub max_forecast_dim: usize,
}

/// The forecast of this round: a column for each of `order`; nothing with
/// fewer than two clients or snapshots, or where no model can be fitted.
pub open spec fn forecast_of(
    t: FlandersTuning,
    history: Seq<History>,
    order: Seq<Seq<char>>,
    dim: nat,
) -> Option<Entries> {
    let coords = spread_coordinates(dim, t.max_forecast_dim as nat);
    if order.len() < 2 || history.len() < 2 || coords.len() == 0 {
        None
    } else {
        let pairs = observed_pairs(history, order, dim, coords, (history.len() - 1) as nat);
        if pairs.len() == 0 {
            None
        } else {
            match fitted(pairs, t.ridge, coords.len(), order.len(), t.als_iterations as nat) {
                None => None,
                Some(p) => if observable(history.last(), order, dim) {
                    Some(
                        product_of(
                            product_of(p.0, observed(history.last(), order, coords)),
                            p.1,
                        ),
                    )
                } else {
                    None
                },
            }
        }
    }
}

/// The column of a client; the number of columns where it has none.
pub open spec fn column_of(order: Seq<Seq<char>>, id: Seq<char>) -> nat {
    first_where(order.len(), |j: int| order[j] == id)
}

/// The squared distance of `w` at `coords` from column `col` of a forecast.
pub open spec fn forecast_error(
    w: Seq<Binary32>,
    coords: Seq<usize>,
    forecast: Entries,
    col: int,
) -> Binary64 {
    sum64(
        Seq::new(
            coords.len(),
            |i: int|
                w[coords[i] as int].as_binary64().minus(forecast[i][col]).times(
                    w[coords[i] as int].as_binary64().minus(forecast[i][col]),
                ),
        ),
    )
}

/// The squared distance of `w` from the global model, over the coordinates
/// both have; zero without a global model.
pub open spec fn cold_score(w: Seq<Binary32>, global: Option<Seq<Binary32>>) -> Binary64 {
    match global {
        None => Binary64::nothing(),
        Some(g) => {
            let n = if w.len() < g.len() { w.len() } else { g.len() };
            distance_squared64(w.take(n as int), g.take(n as int))
        },
    }
}

/// A client's anomaly score: against its forecast where it has one.
pub open spec fn anomaly(
    d: Delta,
    w: Seq<Binary32>,
    order: Seq<Seq<char>>,
    coords: Seq<usize>,
    forecast: Option<Entries>,
    global: Option<Seq<Binary32>>,
) -> Binary64 {
    if forecast is Some && column_of(order, d.client_id) < order.len() {
        forecast_error(w, coords, forecast->0, column_of(order, d.client_id) as int)
    } else {
        cold_score(w, global)
    }
}

/// How many of `m` clients are kept: all of them before there is a signal,
/// else all but the assumed hostile share rounded up, and at least one.
pub open spec fn kept_count(fraction: Binary32, m: nat, signal: bool) -> nat {
    let excluded = fraction.times(Binary32::whole(m)).ceil_nat();
    if !signal {
        m
    } else if m > excluded {
        (m - excluded) as nat
    } else {
        1
    }
}

/// What was thought of a client, as mathematical values.
pub struct Judgement {
    pub client_id: Seq<char>,
    pub score: Binary64,
    pub forecast_available: bool,
    pub kept: bool,
}


/// What each client scored, in batch order.
pub open spec fn scores_of(
    t: FlandersTuning,
    history: Seq<History>,
    global: Option<Seq<Binary32>>,
    batch: Seq<Delta>,
    m: Seq<Seq<Binary32>>,
) -> Seq<Binary64> {
    let order = known_ids(batch, history, batch.len());
    let coords = spread_coordinates(m[0].len(), t.max_forecast_dim as nat);
    let forecast = forecast_of(t, history, order, m[0].len());
    Seq::new(
        batch.len(),
        |i: int| anomaly(batch[i], m[i], order, coords, forecast, global),
    )
}

/// Ranks of scores, the lowest first.
pub open spec fn ranks64(v: Seq<Binary64>) -> Seq<int> {
    Seq::new(v.len(), |i: int| v[i].rank())
}

/// The indices of the clients that are kept, in ascending order.
pub open spec fn survivors(
    t: FlandersTuning,
    history: Seq<History>,
    global: Option<Seq<Binary32>>,
    batch: Seq<Delta>,
    m: Seq<Seq<Binary32>>,
) -> Seq<usize> {
    let order = known_ids(batch, history, batch.len());
    let signal = forecast_of(t, history, order, m[0].len()) is Some || global is Some;
    let best = stable_order(ranks64(scores_of(t, history, global, batch, m))).take(
        kept_count(t.byzantine_fraction, batch.len(), signal) as int,
    );
    kept(batch.len(), |i: int| best.contains(i as usize))
}

/// What was thought of every client, in batch order.
pub open spec fn judgements(
    t: FlandersTuning,
    history: Seq<History>,
    global: Option<Seq<Binary32>>,
    batch: Seq<Delta>,
    m: Seq<Seq<Binary32>>,
) -> Seq<Judgement> {
    let order = known_ids(batch, history, batch.len());
    let forecast = forecast_of(t, history, order, m[0].len());
    let scores = scores_of(t, history, global, batch, m);
    let left = survivors(t, history, global, batch, m);
    Seq::new(
        batch.len(),
        |i: int|
            Judgement {
                client_id: batch[i].client_id,
                score: scores[i],
                forecast_available: forecast is Some && column_of(order, batch[i].client_id)
                    < order.len(),
                kept: left.contains(i as usize),
            },
    )
}

/// A batch as one snapshot; a client's later update replaces its earlier one.
pub open spec fn snapshot_of(batch: Seq<Delta>, m: Seq<Seq<Binary32>>, k: nat) -> History
    decreases k,
{
    if k == 0 {
        Map::empty()
    } else {
        snapshot_of(batch, m, (k - 1) as nat).insert(batch[k - 1].client_id, m[k - 1])
    }
}

/// The last `window` snapshots.
pub open spec fn windowed(history: Seq<History>, window: nat) -> Seq<History> {
    if history.len() <= window {
        history
    } else {
        history.skip(history.len() - window)
    }
}

/// What the method remembers.
pub struct FlandersMemory<S> {
    pub tuning: FlandersTuning,
    pub base: S,
    pub history: Seq<History>,
    pub global: Option<Seq<Binary32>>,
    pub diagnostics: Seq<Judgement>,
}

/// The result and the state after a batch. A batch the base method refuses
/// leaves no trace in the history.
#[verifier::opaque]
pub open spec fn flanders_step<B: Aggregator>(s: FlandersMemory<B::State>, batch: Seq<Delta>) -> (
    Result<Seq<Binary32>, Rejection>,
    FlandersMemory<B::State>,
) {
    if batch.len() == 0 {
        (Err(Rejection::EmptyBatch), s)
    } else {
        match validated(batch) {
            Err(e) => (Err(e), s),
            Ok(m) => {
                let left = survivors(s.tuning, s.history, s.global, batch, m);
                let (r, base) = B::step(s.base, picked(batch, left));
                let t = FlandersMemory {
                    base,
                    diagnostics: judgements(s.tuning, s.history, s.global, batch, m),
                    ..s
                };
                match r {
                    Err(e) => (Err(e), t),
                    Ok(out) => (
                        Ok(out),
                        FlandersMemory {
                            history: windowed(
                                s.history.push(snapshot_of(batch, m, batch.len())),
                                s.tuning.history_window as nat,
                            ),
                            global: Some(out),
                            ..t
                        },
                    ),
                }
            },
        }
    }
}

/// What was thought of one client.
#[derive(Debug, Clone)]
pub struct ClientFlandersDiagnostic {
    /// Which client.
    pub client_id: String,
    /// The squared distance from its forecast, or from the global model
    /// without one; lower is better.
    pub anomaly_score: Binary64,
    /// Whether the score came from a forecast.
    pub forecast_available: bool,
    /// Whether the client was kept.
    pub kept: bool,
}

impl View for ClientFlandersDiagnostic {
    type V = Judgement;

    open spec fn view(&self) -> Judgement {
        Judgement {
            client_id: self.client_id@,
            score: self.anomaly_score,
            forecast_available: self.forecast_available,
            kept: self.kept,
        }
    }
}

/// What a vector holds, where there is one.
pub open spec fn contents(v: Option<Vec<Binary32>>) -> Option<Seq<Binary32>> {
    match v {
        None => None,
        Some(x) => Some(x@),
    }
}

/// One round's vectors, an entry for each client.
pub type Snapshot = Vec<(String, Vec<Binary32>)>;

pub open spec fn snapshots_of(h: Seq<Snapshot>) -> Seq<History> {
    Seq::new(h.len(), |k: int| history_of(h[k]@))
}

pub open spec fn judgements_of(d: Seq<ClientFlandersDiagnostic>) -> Seq<Judgement> {
    Seq::new(d.len(), |k: int| d[k]@)
}

pub open spec fn ids_of(v: Seq<String>) -> Seq<Seq<char>> {
    Seq::new(v.len(), |k: int| v[k]@)
}

fn text_less(a: &String, b: &String) -> (r: bool)
    ensures
        r == text_before(a@, b@),
{
    let x: &[u8] = a.as_str().as_bytes();
    let y: &[u8] = b.as_str().as_bytes();
    let mut i: usize = 0;
    proof {
        assert(x@.skip(0) =~= x@);
        assert(y@.skip(0) =~= y@);
    }
    while i < x.len() && i < y.len()
        invariant
            i <= x.len(),
            i <= y.len(),
            bytes_before(x@, y@) == bytes_before(x@.skip(i as int), y@.skip(i as int)),
            text_before(a@, b@) == bytes_before(x@, y@),
        decreases x.len() - i,
    {
        if x[i] != y[i] {
            return x[i] < y[i];
        }
        proof {
            assert(x@.skip(i as int).skip(1) =~= x@.skip(i + 1));
            assert(y@.skip(i as int).skip(1) =~= y@.skip(i + 1));
        }
        i = i + 1;
    }
    i < y.len()
}

proof fn lemma_with_id(ids: Seq<Seq<char>>, id: Seq<char>, k: int)
    requires
        0 <= k <= ids.len(),
        forall|j: int| k <= j < ids.len() ==> (#[trigger] ids[j]) != id && !text_before(ids[j], id),
        k > 0 ==> ids[k - 1] == id || text_before(ids[k - 1], id),
    ensures
        with_id(ids, id) == if k > 0 && ids[k - 1] == id { ids } else { ids.insert(k, id) },
    decreases ids.len(),
{
    if k < ids.len() {
        let front = ids.drop_last();
        assert(ids[ids.len() - 1] != id);
        lemma_with_id(front, id, k);
        if k > 0 && ids[k - 1] == id {
            assert(front.push(ids.last()) =~= ids);
        } else {
            assert(front.insert(k, id).push(ids.last()) =~= ids.insert(k, id));
        }
    } else if k == 0 {
        assert(ids.insert(0, id) =~= seq![id]);
    } else {
        assert(ids.insert(k, id) =~= ids.push(id));
    }
}

fn insert_id(ids: &mut Vec<String>, id: &String)
    ensures
        ids_of(final(ids)@) == with_id(ids_of(old(ids)@), id@),
{
    let ghost before = ids_of(ids@);
    let mut k: usize = ids.len();
    while k > 0 && !(ids[k - 1] == *id) && !text_less(&ids[k - 1], id)
        invariant
            k <= ids.len(),
            before == ids_of(ids@),
            ids@ == old(ids)@,
            forall|j: int|
                k <= j < before.len() ==> (#[trigger] before[j]) != id@ && !text_before(
                    before[j],
                    id@,
                ),
        decreases k,
    {
        k = k - 1;
    }
    proof {
        lemma_with_id(before, id@, k as int);
    }
    if k > 0 && ids[k - 1] == *id {
        return;
    }
    ids.insert(k, id.clone());
    proof {
        assert(ids_of(ids@) =~= before.insert(k as int, id@));
    }
}

fn known_everywhere(history: &Vec<Snapshot>, id: &String) -> (r: bool)
    ensures
        r == in_every(snapshots_of(history@), id@),
{
    let ghost hs = snapshots_of(history@);
    let mut k: usize = 0;
    while k < history.len()
        invariant
            k <= history.len(),
            hs == snapshots_of(history@),
            forall|j: int| 0 <= j < k ==> (#[trigger] hs[j]).contains_key(id@),
        decreases history.len() - k,
    {
        if find_entry(&history[k], id).is_none() {
            proof {
                assert(!hs[k as int].contains_key(id@));
            }
            return false;
        }
        k = k + 1;
    }
    true
}

fn known_clients(updates: &[ClientDelta], history: &Vec<Snapshot>) -> (r: Vec<String>)
    ensures
        ids_of(r@) == known_ids(
            batch_of(updates@),
            snapshots_of(history@),
            updates.len() as nat,
        ),
{
    let ghost batch = batch_of(updates@);
    let mut out: Vec<String> = Vec::new();
    proof {
        assert(ids_of(out@) =~= Seq::empty());
    }
    let mut k: usize = 0;
    while k < updates.len()
        invariant
            k <= updates.len(),
            batch == batch_of(updates@),
            ids_of(out@) == known_ids(batch, snapshots_of(history@), k as nat),
        decreases updates.len() - k,
    {
        proof {
            assert(batch[k as int].client_id == updates[k as int].client_id@);
        }
        if known_everywhere(history, &updates[k].client_id) {
            insert_id(&mut out, &updates[k].client_id);
        }
        k = k + 1;
    }
    out
}

fn is_observable(snapshot: &Snapshot, order: &Vec<String>, dim: usize) -> (r: bool)
    ensures
        r == observable(history_of(snapshot@), ids_of(order@), dim as nat),
{
    let ghost h = history_of(snapshot@);
    let ghost ids = ids_of(order@);
    let mut j: usize = 0;
    while j < order.len()
        invariant
            j <= order.len(),
            h == history_of(snapshot@),
            ids == ids_of(order@),
            forall|i: int| 0 <= i < j ==> h.contains_key(#[trigger] ids[i]) && h[ids[i]].len() == dim,
        decreases order.len() - j,
    {
        proof {
            assert(ids[j as int] == order[j as int]@);
        }
        match find_entry(snapshot, &order[j]) {
            None => {
                proof {
                    assert(!h.contains_key(ids[j as int]));
                }
                return false;
            },
            Some(w) => {
                if w.len() != dim {
                    proof {
                        assert(h[ids[j as int]].len() != dim);
                    }
                    return false;
                }
            },
        }
        j = j + 1;
    }
    true
}

fn observation(snapshot: &Snapshot, order: &Vec<String>, dim: usize, coords: &Vec<usize>) -> (r:
    Option<Matrix>)
    requires
        forall|k: int| 0 <= k < coords.len() ==> #[trigger] coords[k] < dim,
    ensures
        r is Some <==> observable(history_of(snapshot@), ids_of(order@), dim as nat),
        r is Some ==> entries(r->0@) == observed(
            history_of(snapshot@),
            ids_of(order@),
            coords@,
        ),
        r is Some ==> r->0.len() == coords.len() && has_width(
            entries(r->0@),
            order.len() as nat,
        ),
{
    let ghost h = history_of(snapshot@);
    let ghost ids = ids_of(order@);
    let ghost goal = observed(h, ids, coords@);
    if !is_observable(snapshot, order, dim) {
        return None;
    }
    let mut out: Matrix = Vec::with_capacity(coords.len());
    let mut i: usize = 0;
    while i < coords.len()
        invariant
            i <= coords.len(),
            h == history_of(snapshot@),
            ids == ids_of(order@),
            goal == observed(h, ids, coords@),
            observable(h, ids, dim as nat),
            forall|k: int| 0 <= k < coords.len() ==> #[trigger] coords[k] < dim,
            out.len() == i,
            forall|k: int| 0 <= k < i ==> (#[trigger] out[k])@ == goal[k],
        decreases coords.len() - i,
    {
        let at: usize = coords[i];
        let mut row: Vec<Binary64> = Vec::with_capacity(order.len());
        let mut j: usize = 0;
        while j < order.len()
            invariant
                j <= order.len(),
                i < coords.len(),
                at == coords[i as int],
                at < dim,
                h == history_of(snapshot@),
                ids == ids_of(order@),
                goal == observed(h, ids, coords@),
                observable(h, ids, dim as nat),
                row.len() == j,
                forall|k: int| 0 <= k < j ==> #[trigger] row[k] == goal[i as int][k],
            decreases order.len() - j,
        {
            proof {
                assert(ids[j as int] == order[j as int]@);
                assert(h.contains_key(ids[j as int]) && h[ids[j as int]].len() == dim);
            }
            match find_entry(snapshot, &order[j]) {
                Some(w) => {
                    row.push(w[at].to_binary64());
                },
                None => {},
            }
            j = j + 1;
        }
        proof {
            assert(row@ =~= goal[i as int]);
        }
        out.push(row);
        i = i + 1;
    }
    proof {
        assert(entries(out@) =~= goal);
    }
    Some(out)
}


fn consecutive_pairs(history: &Vec<Snapshot>, order: &Vec<String>, dim: usize, coords: &Vec<usize>) -> (r:
    Vec<(Matrix, Matrix)>)
    requires
        history.len() > 0,
        forall|k: int| 0 <= k < coords.len() ==> #[trigger] coords[k] < dim,
    ensures
        pairs_of(r@) == observed_pairs(
            snapshots_of(history@),
            ids_of(order@),
            dim as nat,
            coords@,
            (history.len() - 1) as nat,
        ),
        pairs_shaped(pairs_of(r@), coords.len() as nat, order.len() as nat),
{
    let ghost hs = snapshots_of(history@);
    let ghost ids = ids_of(order@);
    let mut out: Vec<(Matrix, Matrix)> = Vec::new();
    proof {
        assert(pairs_of(out@) =~= Seq::empty());
    }
    let mut k: usize = 0;
    while k < history.len() - 1
        invariant
            k <= history.len() - 1,
            history.len() > 0,
            hs == snapshots_of(history@),
            ids == ids_of(order@),
            forall|j: int| 0 <= j < coords.len() ==> #[trigger] coords[j] < dim,
            pairs_of(out@) == observed_pairs(hs, ids, dim as nat, coords@, k as nat),
            pairs_shaped(pairs_of(out@), coords.len() as nat, order.len() as nat),
        decreases history.len() - k,
    {
        proof {
            assert(hs[k as int] == history_of(history[k as int]@));
            assert(hs[k + 1] == history_of(history[k + 1]@));
        }
        let first: Option<Matrix> = observation(&history[k], order, dim, coords);
        let second: Option<Matrix> = observation(&history[k + 1], order, dim, coords);
        match (first, second) {
            (Some(x), Some(y)) => {
                let ghost before = pairs_of(out@);
                let ghost pair = (entries(x@), entries(y@));
                out.push((x, y));
                proof {
                    assert(pairs_of(out@) =~= before.push(pair));
                    assert forall|j: int| 0 <= j < pairs_of(out@).len() implies {
                        &&& (#[trigger] pairs_of(out@)[j]).0.len() == coords.len()
                        &&& pairs_of(out@)[j].1.len() == coords.len()
                        &&& has_width(pairs_of(out@)[j].0, order.len() as nat)
                        &&& has_width(pairs_of(out@)[j].1, order.len() as nat)
                    } by {
                        if j < before.len() {
                            assert(pairs_of(out@)[j] == before[j]);
                        }
                    }
                }
            },
            _ => {},
        }
        k = k + 1;
    }
    out
}

fn make_forecast(
    t: &FlandersTuning,
    history: &Vec<Snapshot>,
    order: &Vec<String>,
    dim: usize,
    coords: &Vec<usize>,
) -> (r: Option<Matrix>)
    requires
        coords@ == spread_coordinates(dim as nat, t.max_forecast_dim as nat),
        forall|k: int| 0 <= k < coords.len() ==> #[trigger] coords[k] < dim,
    ensures
        match (r, forecast_of(*t, snapshots_of(history@), ids_of(order@), dim as nat)) {
            (Some(x), Some(s)) => entries(x@) == s,
            (None, None) => true,
            _ => false,
        },
        r is Some ==> r->0.len() == coords.len() && has_width(
            entries(r->0@),
            order.len() as nat,
        ),
{
    let ghost hs = snapshots_of(history@);
    let ghost ids = ids_of(order@);
    let d: usize = coords.len();
    let h: usize = order.len();
    if h < 2 || history.len() < 2 || d == 0 {
        return None;
    }
    let pairs: Vec<(Matrix, Matrix)> = consecutive_pairs(history, order, dim, coords);
    if pairs.len() == 0 {
        return None;
    }
    let (a, b): (Matrix, Matrix) = match fit_mar(&pairs, t.ridge, d, h, t.als_iterations) {
        Some(p) => p,
        None => {
            return None;
        },
    };
    proof {
        assert(hs.last() == history_of(history[history.len() - 1]@));
    }
    match observation(&history[history.len() - 1], order, dim, coords) {
        None => None,
        Some(prev) => {
            proof {
                assert(entries(prev@)[0].len() == h);
                assert(entries(b@)[0].len() == h);
            }
            let moved: Matrix = matmul(&a, &prev);
            proof {
                assert(entries(moved@).len() == d);
                assert(has_width(entries(moved@), h as nat));
            }
            let out: Matrix = matmul(&moved, &b);
            proof {
                assert(entries(out@).len() == d);
                assert(has_width(entries(out@), h as nat));
            }
            Some(out)
        },
    }
}

fn find_column(order: &Vec<String>, id: &String) -> (r: usize)
    ensures
        r as nat == column_of(ids_of(order@), id@),
        r <= order.len(),
{
    let ghost ids = ids_of(order@);
    let ghost is_it = |j: int| ids[j] == id@;
    let mut j: usize = 0;
    while j < order.len()
        invariant
            j <= order.len(),
            ids == ids_of(order@),
            is_it == (|j: int| ids[j] == id@),
            forall|k: int| 0 <= k < j ==> !(#[trigger] is_it(k)),
        decreases order.len() - j,
    {
        proof {
            assert(ids[j as int] == order[j as int]@);
        }
        if order[j] == *id {
            proof {
                assert(is_it(j as int));
                lemma_first_where(order.len() as nat, is_it, j as nat);
            }
            return j;
        }
        proof {
            assert(!is_it(j as int));
        }
        j = j + 1;
    }
    proof {
        lemma_first_where(order.len() as nat, is_it, order.len() as nat);
    }
    j
}

fn error_of_forecast(w: &Vec<Binary32>, coords: &Vec<usize>, forecast: &Matrix, col: usize) -> (r:
    Binary64)
    requires
        forall|k: int| 0 <= k < coords.len() ==> #[trigger] coords[k] < w.len(),
        forecast.len() == coords.len(),
        forall|k: int| 0 <= k < forecast.len() ==> col < (#[trigger] forecast[k]).len(),
    ensures
        r == forecast_error(w@, coords@, entries(forecast@), col as int),
{
    let ghost ef = entries(forecast@);
    let ghost terms = Seq::new(
        coords@.len(),
        |i: int|
            w@[coords@[i] as int].as_binary64().minus(ef[i][col as int]).times(
                w@[coords@[i] as int].as_binary64().minus(ef[i][col as int]),
            ),
    );
    let mut acc: Binary64 = Binary64 { bits: 0x8000_0000_0000_0000 };
    let mut i: usize = 0;
    while i < coords.len()
        invariant
            i <= coords.len(),
            ef == entries(forecast@),
            forecast.len() == coords.len(),
            forall|k: int| 0 <= k < coords.len() ==> #[trigger] coords[k] < w.len(),
            forall|k: int| 0 <= k < forecast.len() ==> col < (#[trigger] forecast[k]).len(),
            terms.len() == coords.len(),
            forall|k: int|
                0 <= k < terms.len() ==> #[trigger] terms[k] == w@[coords@[k] as int].as_binary64().minus(
                    ef[k][col as int],
                ).times(w@[coords@[k] as int].as_binary64().minus(ef[k][col as int])),
            acc == sum64(terms.take(i as int)),
        decreases coords.len() - i,
    {
        proof {
            assert(ef[i as int] == forecast[i as int]@);
            assert(col < forecast[i as int].len());
        }
        let at: usize = coords[i];
        let p: Binary64 = forecast[i][col];
        let d: Binary64 = w[at].to_binary64().sub(p);
        acc = acc.add(d.mul(d));
        proof {
            assert(terms.take(i + 1).drop_last() =~= terms.take(i as int));
            assert(terms.take(i + 1).last() == terms[i as int]);
        }
        i = i + 1;
    }
    proof {
        assert(terms.take(i as int) =~= terms);
    }
    acc
}

fn distance_from_global(w: &Vec<Binary32>, global: &Option<Vec<Binary32>>) -> (r: Binary64)
    ensures
        r == cold_score(
            w@,
            contents(*global),
        ),
{
    match global {
        None => Binary64::zero(),
        Some(g) => {
            let n: usize = if w.len() < g.len() {
                w.len()
            } else {
                g.len()
            };
            let mut a: Vec<Binary32> = copy32(w.as_slice());
            let mut b: Vec<Binary32> = copy32(g.as_slice());
            a.truncate(n);
            b.truncate(n);
            proof {
                assert(a@ =~= w@.take(n as int));
                assert(b@ =~= g@.take(n as int));
            }
            squared_distance64(a.as_slice(), b.as_slice())
        },
    }
}

fn keep_count(fraction: Binary32, m: usize, signal: bool) -> (r: usize)
    requires
        m > 0,
    ensures
        r as nat == kept_count(fraction, m as nat, signal),
        0 < r <= m,
{
    if !signal {
        return m;
    }
    let excluded: u64 = fraction.mul(Binary32::from_u64(m as u64)).ceil_u64();
    if m as u64 > excluded {
        m - excluded as usize
    } else {
        1
    }
}

/// FLANDERS in front of a base method.
pub struct FlandersAggregator<B: Aggregator> {
    pub base: B,
    pub tuning: FlandersTuning,
    /// The last rounds' vectors, the oldest first.
    pub history: Vec<Snapshot>,
    /// The last result; none before the first round.
    pub global: Option<Vec<Binary32>>,
    pub diagnostics: Vec<ClientFlandersDiagnostic>,
}

impl<B: Aggregator> FlandersAggregator<B> {
    /// Filters for `base`: five rounds of history, a fifth assumed hostile,
    /// a ridge of one millionth, five alternations, five hundred coordinates.
    pub fn new(base: B) -> (r: FlandersAggregator<B>)
        ensures
            r.base == base,
            r.tuning == (FlandersTuning {
                history_window: 5,
                byzantine_fraction: Binary32 { bits: 0x3e4c_cccd },
                ridge: Binary64 { bits: 0x3eb0_c6f7_a0b5_ed8d },
                als_iterations: 5,
                max_forecast_dim: 500,
            }),
            r.history.len() == 0,
            r.global is None,
            r.diagnostics.len() == 0,
    {
        FlandersAggregator {
            base,
            tuning: FlandersTuning {
                history_window: 5,
                byzantine_fraction: Binary32 { bits: 0x3e4c_cccd },
                ridge: Binary64 { bits: 0x3eb0_c6f7_a0b5_ed8d },
                als_iterations: 5,
                max_forecast_dim: 500,
            },
            history: Vec::new(),
            global: None,
            diagnostics: Vec::new(),
        }
    }

    /// What was thought of each client in the last round.
    pub fn last_diagnostics(&self) -> (r: Vec<ClientFlandersDiagnostic>)
        ensures
            judgements_of(r@) == judgements_of(self.diagnostics@),
    {
        let mut out: Vec<ClientFlandersDiagnostic> = Vec::with_capacity(self.diagnostics.len());
        let mut i: usize = 0;
        while i < self.diagnostics.len()
            invariant
                i <= self.diagnostics.len(),
                out.len() == i,
                forall|k: int| 0 <= k < i ==> (#[trigger] out[k])@ == self.diagnostics[k]@,
            decreases self.diagnostics.len() - i,
        {
            let d: &ClientFlandersDiagnostic = &self.diagnostics[i];
            out.push(
                ClientFlandersDiagnostic {
                    client_id: d.client_id.clone(),
                    anomaly_score: d.anomaly_score,
                    forecast_available: d.forecast_available,
                    kept: d.kept,
                },
            );
            i = i + 1;
        }
        proof {
            assert(judgements_of(out@) =~= judgements_of(self.diagnostics@));
        }
        out
    }

    /// Records a round that was aggregated.
    fn record(&mut self, updates: &[ClientDelta], m: Vec<Vec<Binary32>>, out: &Vec<Binary32>)
        requires
            m.len() == updates.len(),
        ensures
            snapshots_of(final(self).history@) == windowed(
                snapshots_of(old(self).history@).push(
                    snapshot_of(batch_of(updates@), rows(m@), updates.len() as nat),
                ),
                old(self).tuning.history_window as nat,
            ),
            final(self).global is Some,
            final(self).global->0@ == out@,
            final(self).base == old(self).base,
            final(self).tuning == old(self).tuning,
            final(self).diagnostics == old(self).diagnostics,
    {
        let ghost batch = batch_of(updates@);
        let ghost mm = rows(m@);
        let mut snapshot: Snapshot = Vec::with_capacity(updates.len());
        let mut k: usize = 0;
        while k < updates.len()
            invariant
                k <= updates.len(),
                m.len() == updates.len(),
                batch == batch_of(updates@),
                mm == rows(m@),
                history_of(snapshot@) == snapshot_of(batch, mm, k as nat),
                *self == *old(self),
            decreases updates.len() - k,
        {
            let ghost before = snapshot@;
            snapshot.push((updates[k].client_id.clone(), copy32(m[k].as_slice())));
            proof {
                assert(snapshot@.drop_last() =~= before);
                assert(batch[k as int].client_id == updates[k as int].client_id@);
                assert(mm[k as int] == m[k as int]@);
            }
            k = k + 1;
        }
        let ghost start = snapshots_of(self.history@);
        let ghost full = start.push(history_of(snapshot@));
        self.history.push(snapshot);
        proof {
            assert(snapshots_of(self.history@) =~= full);
            assert(full.skip(0) =~= full);
        }
        let window: usize = self.tuning.history_window;
        while self.history.len() > window
            invariant
                self.history.len() <= full.len(),
                window == old(self).tuning.history_window,
                snapshots_of(self.history@) == full.skip(full.len() - self.history.len()),
                self.history.len() >= window || self.history.len() == full.len(),
                self.base == old(self).base,
                self.tuning == old(self).tuning,
                self.diagnostics == old(self).diagnostics,
            decreases self.history.len(),
        {
            let ghost before = snapshots_of(self.history@);
            self.history.remove(0);
            proof {
                assert(snapshots_of(self.history@) =~= before.skip(1));
                assert(before.skip(1) =~= full.skip(full.len() - self.history.len()));
            }
        }
        proof {
            assert(full.skip(0) =~= full);
        }
        self.global = Some(copy32(out.as_slice()));
    }
}


/// Scores every client of a batch and decides who is kept.
fn judge(
    t: &FlandersTuning,
    history: &Vec<Snapshot>,
    global: &Option<Vec<Binary32>>,
    updates: &[ClientDelta],
    m: &Vec<Vec<Binary32>>,
) -> (r: (Vec<ClientFlandersDiagnostic>, Vec<usize>))
    requires
        updates.len() > 0,
        m.len() == updates.len(),
        is_matrix(rows(m@), rows(m@)[0].len()),
    ensures
        ({
            let g = contents(*global);
            let hs = snapshots_of(history@);
            &&& judgements_of(r.0@) == judgements(*t, hs, g, batch_of(updates@), rows(m@))
            &&& r.1@ == survivors(*t, hs, g, batch_of(updates@), rows(m@))
        }),
        indices_below(r.1@, updates.len() as nat),
{
    let ghost batch = batch_of(updates@);
    let ghost mm = rows(m@);
    let ghost hs = snapshots_of(history@);
    let ghost g = contents(*global);
    let n: usize = updates.len();
    proof {
        assert(mm[0] == m[0]@);
    }
    let dim: usize = m[0].len();
    let order: Vec<String> = known_clients(updates, history);
    let coords: Vec<usize> = forecast_coordinates(dim, t.max_forecast_dim);
    proof {
        spread_coordinates_are_coordinates(dim as nat, t.max_forecast_dim as nat);
    }
    let forecast: Option<Matrix> = make_forecast(t, history, &order, dim, &coords);
    let ghost ids = ids_of(order@);
    let ghost scores = scores_of(*t, hs, g, batch, mm);
    let ghost spec_forecast = forecast_of(*t, hs, ids, dim as nat);
    let mut out: Vec<ClientFlandersDiagnostic> = Vec::with_capacity(n);
    let mut ranks: Vec<i64> = Vec::with_capacity(n);
    let mut i: usize = 0;
    while i < n
        invariant
            i <= n,
            n == updates.len(),
            n == m.len(),
            batch == batch_of(updates@),
            mm == rows(m@),
            mm[0].len() == dim,
            is_matrix(mm, dim as nat),
            g == contents(*global),
            ids == ids_of(order@),
            ids == known_ids(batch, hs, batch.len()),
            coords@ == spread_coordinates(dim as nat, t.max_forecast_dim as nat),
            forall|k: int| 0 <= k < coords.len() ==> #[trigger] coords[k] < dim,
            spec_forecast == forecast_of(*t, hs, ids, dim as nat),
            scores == scores_of(*t, hs, g, batch, mm),
            match (forecast, spec_forecast) {
                (Some(x), Some(s)) => entries(x@) == s,
                (None, None) => true,
                _ => false,
            },
            forecast is Some ==> forecast->0.len() == coords.len() && has_width(
                entries(forecast->0@),
                order.len() as nat,
            ),
            out.len() == i,
            ranks.len() == i,
            forall|k: int| 0 <= k < i ==> #[trigger] ranks[k] == scores[k].rank(),
            forall|k: int|
                0 <= k < i ==> (#[trigger] out[k])@ == (Judgement {
                    client_id: batch[k].client_id,
                    score: scores[k],
                    forecast_available: spec_forecast is Some && column_of(
                        ids,
                        batch[k].client_id,
                    ) < ids.len(),
                    kept: false,
                }),
        decreases n - i,
    {
        proof {
            assert(batch[i as int].client_id == updates[i as int].client_id@);
            assert(mm[i as int] == m[i as int]@);
            assert(mm[i as int].len() == dim);
        }
        let col: usize = find_column(&order, &updates[i].client_id);
        let predicted: Option<Binary64> = match &forecast {
            Some(f) => if col < order.len() {
                proof {
                    assert forall|k: int| 0 <= k < f.len() implies col < (#[trigger] f[k]).len() by {
                        assert(entries(f@)[k].len() == order.len());
                    }
                    assert forall|k: int| 0 <= k < coords.len() implies #[trigger] coords[k]
                        < m[i as int].len() by {}
                }
                Some(error_of_forecast(&m[i], &coords, f, col))
            } else {
                None
            },
            None => None,
        };
        let (score, available): (Binary64, bool) = match predicted {
            Some(e) => (e, true),
            None => (distance_from_global(&m[i], global), false),
        };
        proof {
            assert(score == scores[i as int]);
        }
        out.push(
            ClientFlandersDiagnostic {
                client_id: updates[i].client_id.clone(),
                anomaly_score: score,
                forecast_available: available,
                kept: false,
            },
        );
        ranks.push(score.order_key());
        i = i + 1;
    }
    proof {
        assert(as_ranks(ranks@) =~= ranks64(scores));
    }
    let signal: bool = forecast.is_some() || global.is_some();
    let k: usize = keep_count(t.byzantine_fraction, n, signal);
    let mut best: Vec<usize> = order_by_rank(&ranks);
    let ghost full = best@;
    best.truncate(k);
    proof {
        assert(best@ =~= full.take(k as int));
        assert forall|j: int| 0 <= j < best.len() implies #[trigger] best[j] < n by {
            assert(best[j] == full[j]);
        }
    }
    let left: Vec<usize> = in_ascending_order(&best, n);
    let mut j: usize = 0;
    while j < left.len()
        invariant
            j <= left.len(),
            out.len() == n,
            n == batch.len(),
            indices_below(left@, n as nat),
            forall|a: int|
                0 <= a < n ==> (#[trigger] out[a])@ == (Judgement {
                    client_id: batch[a].client_id,
                    score: scores[a],
                    forecast_available: spec_forecast is Some && column_of(
                        ids,
                        batch[a].client_id,
                    ) < ids.len(),
                    kept: left@.take(j as int).contains(a as usize),
                }),
        decreases left.len() - j,
    {
        let at: usize = left[j];
        let marked: ClientFlandersDiagnostic = ClientFlandersDiagnostic {
            client_id: out[at].client_id.clone(),
            anomaly_score: out[at].anomaly_score,
            forecast_available: out[at].forecast_available,
            kept: true,
        };
        let ghost before = out@;
        out.set(at, marked);
        proof {
            let t0 = left@.take(j as int);
            let t1 = left@.take(j + 1);
            assert forall|a: int| 0 <= a < n implies (#[trigger] out[a])@ == (Judgement {
                client_id: batch[a].client_id,
                score: scores[a],
                forecast_available: spec_forecast is Some && column_of(ids, batch[a].client_id)
                    < ids.len(),
                kept: t1.contains(a as usize),
            }) by {
                assert(before[a]@.client_id == batch[a].client_id);
                if a == at {
                    assert(t1[j as int] == at);
                } else {
                    if t0.contains(a as usize) {
                        let x = choose|x: int| 0 <= x < t0.len() && t0[x] == a as usize;
                        assert(t1[x] == a as usize);
                    }
                    if t1.contains(a as usize) {
                        let x = choose|x: int| 0 <= x < t1.len() && t1[x] == a as usize;
                        assert(x < j);
                        assert(t0[x] == a as usize);
                    }
                }
            }
        }
        j = j + 1;
    }
    proof {
        assert(left@.take(j as int) =~= left@);
        assert(judgements_of(out@) =~= judgements(*t, hs, g, batch, mm));
    }
    (out, left)
}

proof fn lemma_survivors(
    t: FlandersTuning,
    history: Seq<History>,
    global: Option<Seq<Binary32>>,
    batch: Seq<Delta>,
    m: Seq<Seq<Binary32>>,
)
    requires
        0 < batch.len() <= usize::MAX,
        m.len() == batch.len(),
    ensures
        indices_below(survivors(t, history, global, batch, m), batch.len()),
        ascending(survivors(t, history, global, batch, m)),
        survivors(t, history, global, batch, m).len() <= batch.len(),
        survivors(t, history, global, batch, m).len() > 0,
{
    let order = known_ids(batch, history, batch.len());
    let signal = forecast_of(t, history, order, m[0].len()) is Some || global is Some;
    let ranks = ranks64(scores_of(t, history, global, batch, m));
    let count = kept_count(t.byzantine_fraction, batch.len(), signal);
    let best = stable_order(ranks).take(count as int);
    let keep = |i: int| best.contains(i as usize);
    lemma_kept(batch.len(), keep);
    stable_order_is_a_sorted_permutation(ranks);
    let first = stable_order(ranks)[0];
    assert(best[0] == first);
    assert(keep(first as int));
    lemma_kept_contains(batch.len(), keep, first as int);
}

proof fn lemma_kept_contains(n: nat, keep: spec_fn(int) -> bool, i: int)
    requires
        n <= usize::MAX,
        0 <= i < n,
        keep(i),
    ensures
        kept(n, keep).len() > 0,
        kept(n, keep).contains(i as usize),
    decreases n,
{
    if i == n - 1 {
        assert(kept(n, keep)[kept(n, keep).len() - 1] == i as usize);
    } else {
        lemma_kept_contains((n - 1) as nat, keep, i);
        let before = kept((n - 1) as nat, keep);
        let x = choose|x: int| 0 <= x < before.len() && before[x] == i as usize;
        assert(kept(n, keep)[x] == i as usize);
    }
}

impl<B: Aggregator> Aggregator for FlandersAggregator<B> {
    type State = FlandersMemory<B::State>;

    open spec fn state(&self) -> FlandersMemory<B::State> {
        FlandersMemory {
            tuning: self.tuning,
            base: self.base.state(),
            history: snapshots_of(self.history@),
            global: contents(self.global),
            diagnostics: judgements_of(self.diagnostics@),
        }
    }

    open spec fn ready(s: FlandersMemory<B::State>) -> bool {
        B::ready(s.base)
    }

    open spec fn step(s: FlandersMemory<B::State>, batch: Seq<Delta>) -> (
        Result<Seq<Binary32>, Rejection>,
        FlandersMemory<B::State>,
    ) {
        flanders_step::<B>(s, batch)
    }

    proof fn keeps_dimension(s: FlandersMemory<B::State>, batch: Seq<Delta>) {
        reveal(flanders_step);
        accepted_batches_are_fit(batch);
        let m = validated(batch)->Ok_0;
        let left = survivors(s.tuning, s.history, s.global, batch, m);
        lemma_survivors(s.tuning, s.history, s.global, batch, m);
        lemma_picked_is_fit(batch, left);
        B::keeps_dimension(s.base, picked(batch, left));
        assert(left[0] < batch.len());
        assert(m[left[0] as int].len() == model_dim(batch));
    }

    fn aggregate(&mut self, updates: &[ClientDelta]) -> (r: Result<Vec<Binary32>, AggregatorError>) {
        proof {
            reveal(flanders_step);
        }
        let ghost batch = batch_of(updates@);
        if updates.len() == 0 {
            return Err(AggregatorError::EmptyBatch);
        }
        let m: Vec<Vec<Binary32>> = match decode_and_validate(updates) {
            Ok(m) => m,
            Err(e) => {
                return Err(e);
            },
        };
        proof {
            accepted_batches_are_fit(batch);
            assert(rows(m@)[0] == m[0]@);
        }
        let (diagnostics, left): (Vec<ClientFlandersDiagnostic>, Vec<usize>) = judge(
            &self.tuning,
            &self.history,
            &self.global,
            updates,
            &m,
        );
        self.diagnostics = diagnostics;
        let filtered: Vec<ClientDelta> = pick_updates(updates, &left);
        match self.base.aggregate(filtered.as_slice()) {
            Err(e) => Err(e),
            Ok(out) => {
                self.record(updates, m, &out);
                Ok(out)
            },
        }
    }
}

} // verus!
