//! The catalog: the aggregation method a name stands for.
use vstd::prelude::*;
use crate::aggregator::Aggregator;
use crate::averaging::{weighted_mean, AveragingWeighting, FedAvg, SampleCountWeighting, WeightedAverageAggregator};
use crate::delta::{picked, ClientDelta, Delta};
use crate::elementary::{is_function, is_function2};
use crate::error::{AggregatorError, Rejection};
use crate::flanders::filter::{flanders_step, judgements_of, snapshots_of, FlandersAggregator, FlandersMemory, FlandersTuning};
use crate::float::binary32::Binary32;
use crate::float::binary64::Binary64;
use crate::history::History;
use crate::optimization::fedavgm::{momentum_step, FedAvgMAggregator, MomentumMemory};
use crate::optimization::fedopt::{fedopt_step, FedOptAggregator, FedOptMemory, FedOptParams, FedOptVariant};
use crate::optimization::qfedavg::{qfedavg_step, QFedAvgAggregator, QFedAvgRule};
use crate::robust::coordinate::{combined_columns, CoordinateWiseAggregator, CoordinateWiseRobustStatistic, MedianOfMeansStatistic, MedianStatistic, TrimmedMeanStatistic};
use crate::robust::divide::DivideAndConquerFilter;
use crate::robust::faba::FabaFilter;
use crate::robust::filter::{every_index, filtered_step, FilteredAggregator, UpdateFilter};
use crate::robust::geometric::{combined_vectors, GeometricMedianStatistic, VectorRobustAggregator};
use crate::robust::krum::{BulyanFilter, KrumFilter, MultiKrumFilter};
use crate::temporal::clipping::{clipping_step, CenteredClippingAggregator};
use crate::temporal::foolsgold::{foolsgold_step, FoolsGoldAggregator};
use crate::text::{join, joined, same_text, texts};
use crate::trusted::fltrust::{fltrust_outcome, FlTrustAggregator, Reference, TrustedReference};
use crate::weights::validated;

verus! {

/// What the methods of the catalog are tuned by. Each value is read by one
/// family and ignored by the others.
#[derive(Debug, Clone, Copy, PartialEq, Eq, Structural)]
pub struct AggregatorParams {
    /// The fraction of a batch assumed hostile.
    pub byzantine_fraction: Binary32,
    /// The radius a client's deviation is clipped to.
    pub clip_radius: Binary32,
    /// The server learning rate, where it is not the method's own.
    pub server_learning_rate: Option<Binary32>,
    /// The floor of adaptivity, where it is not the method's own.
    pub server_tau: Option<Binary32>,
    /// The server momentum, where it is not the method's own.
    pub server_momentum: Option<Binary32>,
    /// The preference for fairness; none by default.
    pub fairness_q: Option<Binary32>,
    /// The step-size estimate of q-FedAvg; one by default.
    pub server_lipschitz: Option<Binary32>,
    /// The client population of SCAFFOLD; one by default.
    pub scaffold_num_clients: Option<u32>,
}

impl AggregatorParams {
    /// A fifth assumed hostile, a clip radius of one, and each method's own
    /// values for the rest.
    pub open spec fn standard() -> AggregatorParams {
        AggregatorParams {
            byzantine_fraction: Binary32 { bits: 0x3e4c_cccd },
            clip_radius: Binary32::unit(),
            server_learning_rate: None,
            server_tau: None,
            server_momentum: None,
            fairness_q: None,
            server_lipschitz: None,
            scaffold_num_clients: None,
        }
    }
}

impl Default for AggregatorParams {
    fn default() -> (r: Self)
        ensures
            r == AggregatorParams::standard(),
    {
        AggregatorParams {
            byzantine_fraction: Binary32 { bits: 0x3e4c_cccd },
            clip_radius: Binary32::one(),
            server_learning_rate: None,
            server_tau: None,
            server_momentum: None,
            fairness_q: None,
            server_lipschitz: None,
            scaffold_num_clients: None,
        }
    }
}

/// `chosen`, or `otherwise` where nothing was chosen.
pub open spec fn chosen_or(chosen: Option<Binary32>, otherwise: Binary32) -> Binary32 {
    match chosen {
        Some(x) => x,
        None => otherwise,
    }
}

fn choose_or(chosen: Option<Binary32>, otherwise: Binary32) -> (r: Binary32)
    ensures
        r == chosen_or(chosen, otherwise),
{
    match chosen {
        Some(x) => x,
        None => otherwise,
    }
}

/// A variant's parameters, each of them open to override.
pub open spec fn fedopt_params_of(variant: FedOptVariant, params: AggregatorParams) -> FedOptParams {
    let p = FedOptParams::of_variant(variant);
    FedOptParams {
        server_learning_rate: chosen_or(params.server_learning_rate, p.server_learning_rate),
        tau: chosen_or(params.server_tau, p.tau),
        ..p
    }
}

/// A variant's parameters, each of them open to override.
pub fn fedopt_params(variant: FedOptVariant, params: &AggregatorParams) -> (r: FedOptParams)
    ensures
        r == fedopt_params_of(variant, *params),
{
    let p: FedOptParams = FedOptParams::for_variant(variant);
    FedOptParams {
        server_learning_rate: choose_or(params.server_learning_rate, p.server_learning_rate),
        beta1: p.beta1,
        beta2: p.beta2,
        tau: choose_or(params.server_tau, p.tau),
    }
}

/// A method of the catalog.
pub enum CatalogAggregator<
    L: Fn(Binary32) -> Binary32,
    P: Fn(Binary64, Binary64) -> Binary64,
    N: Aggregator,
    S: Aggregator,
> {
    FedAvg(FedAvg),
    Krum(FilteredAggregator<KrumFilter, FedAvg>),
    MultiKrum(FilteredAggregator<MultiKrumFilter, FedAvg>),
    TrimmedMean(CoordinateWiseAggregator<TrimmedMeanStatistic>),
    Median(CoordinateWiseAggregator<MedianStatistic>),
    Faba(FilteredAggregator<FabaFilter, FedAvg>),
    Bulyan(FilteredAggregator<BulyanFilter, CoordinateWiseAggregator<TrimmedMeanStatistic>>),
    GeometricMedian(VectorRobustAggregator<GeometricMedianStatistic>),
    MedianOfMeans(CoordinateWiseAggregator<MedianOfMeansStatistic>),
    DivideAndConquer(FilteredAggregator<DivideAndConquerFilter, FedAvg>),
    FoolsGold(FoolsGoldAggregator<L>),
    CenteredClipping(CenteredClippingAggregator),
    FlTrust(FlTrustAggregator),
    Flanders(FlandersAggregator<FilteredAggregator<KrumFilter, FedAvg>>),
    QFedAvg(QFedAvgAggregator<P>),
    FedAvgM(FedAvgMAggregator<FedAvg>),
    FedOpt(FedOptAggregator<FedAvg>),
    FedNova(N),
    Scaffold(S),
}

/// What a method of the catalog remembers.
pub enum CatalogState<L, P, N, S> {
    FedAvg(SampleCountWeighting),
    Krum((KrumFilter, SampleCountWeighting)),
    MultiKrum((MultiKrumFilter, SampleCountWeighting)),
    TrimmedMean(TrimmedMeanStatistic),
    Median(MedianStatistic),
    Faba((FabaFilter, SampleCountWeighting)),
    Bulyan((BulyanFilter, TrimmedMeanStatistic)),
    GeometricMedian(GeometricMedianStatistic),
    MedianOfMeans(MedianOfMeansStatistic),
    DivideAndConquer((DivideAndConquerFilter, SampleCountWeighting)),
    FoolsGold((L, History)),
    CenteredClipping((Binary32, Option<Seq<Binary32>>)),
    FlTrust(Option<Reference>),
    Flanders(FlandersMemory<(KrumFilter, SampleCountWeighting)>),
    QFedAvg((QFedAvgRule<P>, Option<Seq<Binary32>>)),
    FedAvgM(MomentumMemory<SampleCountWeighting>),
    FedOpt(FedOptMemory<SampleCountWeighting>),
    FedNova(N),
    Scaffold(S),
}

impl<
    L: Fn(Binary32) -> Binary32,
    P: Fn(Binary64, Binary64) -> Binary64,
    N: Aggregator,
    S: Aggregator,
> Aggregator for CatalogAggregator<L, P, N, S> {
    type State = CatalogState<L, P, N::State, S::State>;

    open spec fn state(&self) -> CatalogState<L, P, N::State, S::State> {
        match *self {
            CatalogAggregator::FedAvg(a) => CatalogState::FedAvg(a.state()),
            CatalogAggregator::Krum(a) => CatalogState::Krum(a.state()),
            CatalogAggregator::MultiKrum(a) => CatalogState::MultiKrum(a.state()),
            CatalogAggregator::TrimmedMean(a) => CatalogState::TrimmedMean(a.state()),
            CatalogAggregator::Median(a) => CatalogState::Median(a.state()),
            CatalogAggregator::Faba(a) => CatalogState::Faba(a.state()),
            CatalogAggregator::Bulyan(a) => CatalogState::Bulyan(a.state()),
            CatalogAggregator::GeometricMedian(a) => CatalogState::GeometricMedian(a.state()),
            CatalogAggregator::MedianOfMeans(a) => CatalogState::MedianOfMeans(a.state()),
            CatalogAggregator::DivideAndConquer(a) => CatalogState::DivideAndConquer(a.state()),
            CatalogAggregator::FoolsGold(a) => CatalogState::FoolsGold(a.state()),
            CatalogAggregator::CenteredClipping(a) => CatalogState::CenteredClipping(a.state()),
            CatalogAggregator::FlTrust(a) => CatalogState::FlTrust(a.state()),
            CatalogAggregator::Flanders(a) => CatalogState::Flanders(a.state()),
            CatalogAggregator::QFedAvg(a) => CatalogState::QFedAvg(a.state()),
            CatalogAggregator::FedAvgM(a) => CatalogState::FedAvgM(a.state()),
            CatalogAggregator::FedOpt(a) => CatalogState::FedOpt(a.state()),
            CatalogAggregator::FedNova(a) => CatalogState::FedNova(a.state()),
            CatalogAggregator::Scaffold(a) => CatalogState::Scaffold(a.state()),
        }
    }

    open spec fn ready(s: CatalogState<L, P, N::State, S::State>) -> bool {
        match s {
            CatalogState::FedAvg(x) => <FedAvg as Aggregator>::ready(x),
            CatalogState::Krum(x) => <FilteredAggregator<KrumFilter, FedAvg> as Aggregator>::ready(x),
            CatalogState::MultiKrum(x) => <FilteredAggregator<MultiKrumFilter, FedAvg> as Aggregator>::ready(x),
            CatalogState::TrimmedMean(x) => <CoordinateWiseAggregator<TrimmedMeanStatistic> as Aggregator>::ready(x),
            CatalogState::Median(x) => <CoordinateWiseAggregator<MedianStatistic> as Aggregator>::ready(x),
            CatalogState::Faba(x) => <FilteredAggregator<FabaFilter, FedAvg> as Aggregator>::ready(x),
            CatalogState::Bulyan(x) => <FilteredAggregator<BulyanFilter, CoordinateWiseAggregator<TrimmedMeanStatistic>> as Aggregator>::ready(x),
            CatalogState::GeometricMedian(x) => <VectorRobustAggregator<GeometricMedianStatistic> as Aggregator>::ready(x),
            CatalogState::MedianOfMeans(x) => <CoordinateWiseAggregator<MedianOfMeansStatistic> as Aggregator>::ready(x),
            CatalogState::DivideAndConquer(x) => <FilteredAggregator<DivideAndConquerFilter, FedAvg> as Aggregator>::ready(x),
            CatalogState::FoolsGold(x) => <FoolsGoldAggregator<L> as Aggregator>::ready(x),
            CatalogState::CenteredClipping(x) => <CenteredClippingAggregator as Aggregator>::ready(x),
            CatalogState::FlTrust(x) => <FlTrustAggregator as Aggregator>::ready(x),
            CatalogState::Flanders(x) => <FlandersAggregator<FilteredAggregator<KrumFilter, FedAvg>> as Aggregator>::ready(x),
            CatalogState::QFedAvg(x) => <QFedAvgAggregator<P> as Aggregator>::ready(x),
            CatalogState::FedAvgM(x) => <FedAvgMAggregator<FedAvg> as Aggregator>::ready(x),
            CatalogState::FedOpt(x) => <FedOptAggregator<FedAvg> as Aggregator>::ready(x),
            CatalogState::FedNova(x) => N::ready(x),
            CatalogState::Scaffold(x) => S::ready(x),
        }
    }

    open spec fn step(s: CatalogState<L, P, N::State, S::State>, batch: Seq<Delta>) -> (
        Result<Seq<Binary32>, Rejection>,
        CatalogState<L, P, N::State, S::State>,
    ) {
        match s {
            CatalogState::FedAvg(x) => {
                let (r, after) = <FedAvg as Aggregator>::step(x, batch);
                (r, CatalogState::FedAvg(after))
            },
            CatalogState::Krum(x) => {
                let (r, after) = <FilteredAggregator<KrumFilter, FedAvg> as Aggregator>::step(x, batch);
                (r, CatalogState::Krum(after))
            },
            CatalogState::MultiKrum(x) => {
                let (r, after) = <FilteredAggregator<MultiKrumFilter, FedAvg> as Aggregator>::step(x, batch);
                (r, CatalogState::MultiKrum(after))
            },
            CatalogState::TrimmedMean(x) => {
                let (r, after) = <CoordinateWiseAggregator<TrimmedMeanStatistic> as Aggregator>::step(x, batch);
                (r, CatalogState::TrimmedMean(after))
            },
            CatalogState::Median(x) => {
                let (r, after) = <CoordinateWiseAggregator<MedianStatistic> as Aggregator>::step(x, batch);
                (r, CatalogState::Median(after))
            },
            CatalogState::Faba(x) => {
                let (r, after) = <FilteredAggregator<FabaFilter, FedAvg> as Aggregator>::step(x, batch);
                (r, CatalogState::Faba(after))
            },
            CatalogState::Bulyan(x) => {
                let (r, after) = <FilteredAggregator<BulyanFilter, CoordinateWiseAggregator<TrimmedMeanStatistic>> as Aggregator>::step(x, batch);
                (r, CatalogState::Bulyan(after))
            },
            CatalogState::GeometricMedian(x) => {
                let (r, after) = <VectorRobustAggregator<GeometricMedianStatistic> as Aggregator>::step(x, batch);
                (r, CatalogState::GeometricMedian(after))
            },
            CatalogState::MedianOfMeans(x) => {
                let (r, after) = <CoordinateWiseAggregator<MedianOfMeansStatistic> as Aggregator>::step(x, batch);
                (r, CatalogState::MedianOfMeans(after))
            },
            CatalogState::DivideAndConquer(x) => {
                let (r, after) = <FilteredAggregator<DivideAndConquerFilter, FedAvg> as Aggregator>::step(x, batch);
                (r, CatalogState::DivideAndConquer(after))
            },
            CatalogState::FoolsGold(x) => {
                let (r, after) = <FoolsGoldAggregator<L> as Aggregator>::step(x, batch);
                (r, CatalogState::FoolsGold(after))
            },
            CatalogState::CenteredClipping(x) => {
                let (r, after) = <CenteredClippingAggregator as Aggregator>::step(x, batch);
                (r, CatalogState::CenteredClipping(after))
            },
            CatalogState::FlTrust(x) => {
                let (r, after) = <FlTrustAggregator as Aggregator>::step(x, batch);
                (r, CatalogState::FlTrust(after))
            },
            CatalogState::Flanders(x) => {
                let (r, after) = <FlandersAggregator<FilteredAggregator<KrumFilter, FedAvg>> as Aggregator>::step(x, batch);
                (r, CatalogState::Flanders(after))
            },
            CatalogState::QFedAvg(x) => {
                let (r, after) = <QFedAvgAggregator<P> as Aggregator>::step(x, batch);
                (r, CatalogState::QFedAvg(after))
            },
            CatalogState::FedAvgM(x) => {
                let (r, after) = <FedAvgMAggregator<FedAvg> as Aggregator>::step(x, batch);
                (r, CatalogState::FedAvgM(after))
            },
            CatalogState::FedOpt(x) => {
                let (r, after) = <FedOptAggregator<FedAvg> as Aggregator>::step(x, batch);
                (r, CatalogState::FedOpt(after))
            },
            CatalogState::FedNova(x) => {
                let (r, after) = N::step(x, batch);
                (r, CatalogState::FedNova(after))
            },
            CatalogState::Scaffold(x) => {
                let (r, after) = S::step(x, batch);
                (r, CatalogState::Scaffold(after))
            },
        }
    }

    proof fn keeps_dimension(s: CatalogState<L, P, N::State, S::State>, batch: Seq<Delta>) {
        match s {
            CatalogState::FedAvg(x) => {
                <FedAvg as Aggregator>::keeps_dimension(x, batch);
            },
            CatalogState::Krum(x) => {
                <FilteredAggregator<KrumFilter, FedAvg> as Aggregator>::keeps_dimension(x, batch);
            },
            CatalogState::MultiKrum(x) => {
                <FilteredAggregator<MultiKrumFilter, FedAvg> as Aggregator>::keeps_dimension(x, batch);
            },
            CatalogState::TrimmedMean(x) => {
                <CoordinateWiseAggregator<TrimmedMeanStatistic> as Aggregator>::keeps_dimension(x, batch);
            },
            CatalogState::Median(x) => {
                <CoordinateWiseAggregator<MedianStatistic> as Aggregator>::keeps_dimension(x, batch);
            },
            CatalogState::Faba(x) => {
                <FilteredAggregator<FabaFilter, FedAvg> as Aggregator>::keeps_dimension(x, batch);
            },
            CatalogState::Bulyan(x) => {
                <FilteredAggregator<BulyanFilter, CoordinateWiseAggregator<TrimmedMeanStatistic>> as Aggregator>::keeps_dimension(x, batch);
            },
            CatalogState::GeometricMedian(x) => {
                <VectorRobustAggregator<GeometricMedianStatistic> as Aggregator>::keeps_dimension(x, batch);
            },
            CatalogState::MedianOfMeans(x) => {
                <CoordinateWiseAggregator<MedianOfMeansStatistic> as Aggregator>::keeps_dimension(x, batch);
            },
            CatalogState::DivideAndConquer(x) => {
                <FilteredAggregator<DivideAndConquerFilter, FedAvg> as Aggregator>::keeps_dimension(x, batch);
            },
            CatalogState::FoolsGold(x) => {
                <FoolsGoldAggregator<L> as Aggregator>::keeps_dimension(x, batch);
            },
            CatalogState::CenteredClipping(x) => {
                <CenteredClippingAggregator as Aggregator>::keeps_dimension(x, batch);
            },
            CatalogState::FlTrust(x) => {
                <FlTrustAggregator as Aggregator>::keeps_dimension(x, batch);
            },
            CatalogState::Flanders(x) => {
                <FlandersAggregator<FilteredAggregator<KrumFilter, FedAvg>> as Aggregator>::keeps_dimension(x, batch);
            },
            CatalogState::QFedAvg(x) => {
                <QFedAvgAggregator<P> as Aggregator>::keeps_dimension(x, batch);
            },
            CatalogState::FedAvgM(x) => {
                <FedAvgMAggregator<FedAvg> as Aggregator>::keeps_dimension(x, batch);
            },
            CatalogState::FedOpt(x) => {
                <FedOptAggregator<FedAvg> as Aggregator>::keeps_dimension(x, batch);
            },
            CatalogState::FedNova(x) => {
                N::keeps_dimension(x, batch);
            },
            CatalogState::Scaffold(x) => {
                S::keeps_dimension(x, batch);
            },
        }
    }

    fn requires_trusted_reference(&self) -> (r: bool)
        ensures
            r == (self is FlTrust),
    {
        match self {
            CatalogAggregator::FlTrust(a) => a.requires_trusted_reference(),
            _ => false,
        }
    }

    fn set_trusted_reference(&mut self, reference: TrustedReference)
        ensures
            *old(self) is FlTrust ==> final(self).state() == CatalogState::<L, P, N::State, S::State>::FlTrust(
                Some(reference@),
            ),
            !(*old(self) is FlTrust) ==> *final(self) == *old(self),
    {
        match self {
            CatalogAggregator::FlTrust(a) => {
                a.set_trusted_reference(reference);
            },
            _ => {},
        }
    }

    /// Of the catalog, SCAFFOLD alone keeps a control variate.
    fn control_variate(&self) -> (r: Option<Vec<Binary32>>)
        ensures
            match *self {
                CatalogAggregator::Scaffold(a) => call_ensures(S::control_variate, (&a,), r),
                _ => r is None,
            },
    {
        match self {
            CatalogAggregator::Scaffold(a) => a.control_variate(),
            _ => None,
        }
    }

    fn aggregate(&mut self, updates: &[ClientDelta]) -> (r: Result<Vec<Binary32>, AggregatorError>) {
        match self {
            CatalogAggregator::FedAvg(a) => a.aggregate(updates),
            CatalogAggregator::Krum(a) => a.aggregate(updates),
            CatalogAggregator::MultiKrum(a) => a.aggregate(updates),
            CatalogAggregator::TrimmedMean(a) => a.aggregate(updates),
            CatalogAggregator::Median(a) => a.aggregate(updates),
            CatalogAggregator::Faba(a) => a.aggregate(updates),
            CatalogAggregator::Bulyan(a) => a.aggregate(updates),
            CatalogAggregator::GeometricMedian(a) => a.aggregate(updates),
            CatalogAggregator::MedianOfMeans(a) => a.aggregate(updates),
            CatalogAggregator::DivideAndConquer(a) => a.aggregate(updates),
            CatalogAggregator::FoolsGold(a) => a.aggregate(updates),
            CatalogAggregator::CenteredClipping(a) => a.aggregate(updates),
            CatalogAggregator::FlTrust(a) => a.aggregate(updates),
            CatalogAggregator::Flanders(a) => a.aggregate(updates),
            CatalogAggregator::QFedAvg(a) => a.aggregate(updates),
            CatalogAggregator::FedAvgM(a) => a.aggregate(updates),
            CatalogAggregator::FedOpt(a) => a.aggregate(updates),
            CatalogAggregator::FedNova(a) => a.aggregate(updates),
            CatalogAggregator::Scaffold(a) => a.aggregate(updates),
        }
    }
}


/// The elementary functions some methods need.
pub struct Functions<L, P> {
    /// The natural logarithm, in single precision.
    pub ln: L,
    /// The power function, in double precision.
    pub pow: P,
}

/// The methods of the catalog that the caller brings along: what they compute
/// rests on reports that a plain update does not hold.
pub struct Supplied<N: Aggregator, F> {
    /// FedNova.
    pub fednova: N,
    /// Makes SCAFFOLD for a server learning rate and a client population.
    pub scaffold: F,
}

/// What a name is built as.
pub enum Plan<L, P, N, S> {
    /// A method that starts in this state.
    Method(CatalogState<L, P, N, S>),
    /// SCAFFOLD, made for these two values.
    Scaffold { server_learning_rate: Binary32, num_clients: u32 },
}

/// Why a name could not be turned into a method.
#[derive(Debug)]
pub enum AggregatorBuildError {
    /// The catalog does not know the name.
    Unknown(String),
    /// The method lives entirely in the client's training; its server half
    /// is federated averaging.
    ClientSideOnly(String),
}

/// What a build error says, as mathematical values.
pub enum BuildFailure {
    Unknown(Seq<char>),
    ClientSideOnly(Seq<char>),
}

impl View for AggregatorBuildError {
    type V = BuildFailure;

    open spec fn view(&self) -> BuildFailure {
        match *self {
            AggregatorBuildError::Unknown(n) => BuildFailure::Unknown(n@),
            AggregatorBuildError::ClientSideOnly(n) => BuildFailure::ClientSideOnly(n@),
        }
    }
}

/// The registered names.
pub open spec fn registered() -> Seq<Seq<char>> {
    seq![
        "fedavg"@,
        "fltrust"@,
        "flanders"@,
        "fedyogi"@,
        "fedadam"@,
        "fedavgm"@,
        "qfedavg"@,
        "fednova"@,
        "scaffold"@,
        "fedadagrad"@,
        "krum"@,
        "multi_krum"@,
        "trimmed_mean"@,
        "median"@,
        "faba"@,
        "bulyan"@,
        "geometric_median"@,
        "median_of_means"@,
        "divide_and_conquer"@,
        "foolsgold"@,
        "centered_clipping"@,
    ]
}

/// The registered names.
pub fn registered_names() -> (r: Vec<String>)
    ensures
        texts(r@) == registered(),
{
    let mut out: Vec<String> = Vec::new();
    out.push("fedavg".to_owned());
    out.push("fltrust".to_owned());
    out.push("flanders".to_owned());
    out.push("fedyogi".to_owned());
    out.push("fedadam".to_owned());
    out.push("fedavgm".to_owned());
    out.push("qfedavg".to_owned());
    out.push("fednova".to_owned());
    out.push("scaffold".to_owned());
    out.push("fedadagrad".to_owned());
    out.push("krum".to_owned());
    out.push("multi_krum".to_owned());
    out.push("trimmed_mean".to_owned());
    out.push("median".to_owned());
    out.push("faba".to_owned());
    out.push("bulyan".to_owned());
    out.push("geometric_median".to_owned());
    out.push("median_of_means".to_owned());
    out.push("divide_and_conquer".to_owned());
    out.push("foolsgold".to_owned());
    out.push("centered_clipping".to_owned());
    proof {
        assert(texts(out@) =~= registered());
    }
    out
}

/// Whether a name is registered.
pub fn is_registered(name: &str) -> (r: bool)
    ensures
        r == registered().contains(name@),
{
    let all: Vec<String> = registered_names();
    let wanted: String = name.to_owned();
    let mut i: usize = 0;
    while i < all.len()
        invariant
            i <= all.len(),
            texts(all@) == registered(),
            wanted@ == name@,
            forall|k: int| 0 <= k < i ==> (#[trigger] registered()[k]) != name@,
        decreases all.len() - i,
    {
        proof {
            assert(texts(all@)[i as int] == all[i as int]@);
        }
        if all[i] == wanted {
            proof {
                assert(registered()[i as int] == name@);
            }
            return true;
        }
        i = i + 1;
    }
    proof {
        assert(!registered().contains(name@)) by {
            if registered().contains(name@) {
                let k = choose|k: int| 0 <= k < registered().len() && registered()[k] == name@;
                assert(registered()[k] != name@);
            }
        }
    }
    false
}

/// The registered names, each in quotes, separated by commas.
pub open spec fn known_text() -> Seq<char> {
    joined(
        Seq::new(registered().len(), |i: int| "\""@ + registered()[i] + "\""@),
        ", "@,
    )
}

/// The registered names, each in quotes, separated by commas.
pub fn known_aggregators() -> (r: String)
    ensures
        r@ == known_text(),
{
    let all: Vec<String> = registered_names();
    let mut quoted: Vec<String> = Vec::new();
    let mut i: usize = 0;
    while i < all.len()
        invariant
            i <= all.len(),
            texts(all@) == registered(),
            quoted.len() == i,
            forall|k: int|
                0 <= k < i ==> (#[trigger] quoted[k])@ == "\""@ + registered()[k] + "\""@,
        decreases all.len() - i,
    {
        proof {
            assert(texts(all@)[i as int] == all[i as int]@);
        }
        quoted.push("\"".to_owned().concat(all[i].as_str()).concat("\""));
        i = i + 1;
    }
    proof {
        assert(texts(quoted@) =~= Seq::new(
            registered().len(),
            |i: int| "\""@ + registered()[i] + "\""@,
        ));
    }
    join(&quoted, ", ")
}

impl AggregatorBuildError {
    /// The message for an operator.
    pub fn message(&self) -> (r: String)
        ensures
            r@ == self@.text(),
    {
        match self {
            AggregatorBuildError::Unknown(n) => "unknown aggregator \"".to_owned().concat(
                n.as_str(),
            ).concat("\" — not a registered conflux-core strategy (known: ").concat(
                known_aggregators().as_str(),
            ).concat(")"),
            AggregatorBuildError::ClientSideOnly(n) => "\"".to_owned().concat(n.as_str()).concat(
                CLIENT_SIDE_TEXT,
            ),
        }
    }
}

impl BuildFailure {
    /// The message for an operator.
    pub open spec fn text(self) -> Seq<char> {
        match self {
            BuildFailure::Unknown(n) => "unknown aggregator \""@ + n
                + "\" — not a registered conflux-core strategy (known: "@ + known_text() + ")"@,
            BuildFailure::ClientSideOnly(n) => "\""@ + n + CLIENT_SIDE_TEXT@,
        }
    }
}

/// What is said of a method that lives in the client.
pub const CLIENT_SIDE_TEXT: &'static str = "\" is a client-side method and has no server-side aggregator — its server half *is* FedAvg. Set aggregator = \"fedavg\" and enable the method in your ClientApp instead: FedProx adds the proximal term (mu/2)*||w - w_global||^2 to the client's own local loss, which the harnesses expose as --mu.";

/// What a name is built as, or why it is not.
pub open spec fn planned<L, P, N: Aggregator, S: Aggregator>(
    name: Seq<char>,
    params: AggregatorParams,
    functions: Functions<L, P>,
    fednova: N,
) -> Result<Plan<L, P, N::State, S::State>, BuildFailure> {
    if name == "fedavg"@ {
        Ok(Plan::Method(CatalogState::FedAvg(SampleCountWeighting)))
    } else if name == "krum"@ {
        Ok(Plan::Method(CatalogState::Krum((KrumFilter { byzantine_fraction: params.byzantine_fraction }, SampleCountWeighting))))
    } else if name == "multi_krum"@ {
        Ok(Plan::Method(CatalogState::MultiKrum((MultiKrumFilter { byzantine_fraction: params.byzantine_fraction }, SampleCountWeighting))))
    } else if name == "trimmed_mean"@ {
        Ok(Plan::Method(CatalogState::TrimmedMean(TrimmedMeanStatistic { byzantine_fraction: params.byzantine_fraction })))
    } else if name == "median"@ {
        Ok(Plan::Method(CatalogState::Median(MedianStatistic)))
    } else if name == "faba"@ {
        Ok(Plan::Method(CatalogState::Faba((FabaFilter { byzantine_fraction: params.byzantine_fraction }, SampleCountWeighting))))
    } else if name == "bulyan"@ {
        Ok(Plan::Method(CatalogState::Bulyan((
                BulyanFilter { byzantine_fraction: params.byzantine_fraction },
                TrimmedMeanStatistic { byzantine_fraction: params.byzantine_fraction },
            ))))
    } else if name == "geometric_median"@ {
        Ok(Plan::Method(CatalogState::GeometricMedian(GeometricMedianStatistic { iterations: 8 })))
    } else if name == "median_of_means"@ {
        Ok(Plan::Method(CatalogState::MedianOfMeans(MedianOfMeansStatistic { group_size: 2 })))
    } else if name == "divide_and_conquer"@ {
        Ok(Plan::Method(CatalogState::DivideAndConquer((
                DivideAndConquerFilter { byzantine_fraction: params.byzantine_fraction, power_iterations: 30 },
                SampleCountWeighting,
            ))))
    } else if name == "foolsgold"@ {
        Ok(Plan::Method(CatalogState::FoolsGold((functions.ln, Map::empty()))))
    } else if name == "centered_clipping"@ {
        Ok(Plan::Method(CatalogState::CenteredClipping((params.clip_radius, None))))
    } else if name == "fltrust"@ {
        Ok(Plan::Method(CatalogState::FlTrust(None)))
    } else if name == "flanders"@ {
        Ok(Plan::Method(CatalogState::Flanders(FlandersMemory {
                tuning: FlandersTuning {
                    history_window: 5,
                    byzantine_fraction: params.byzantine_fraction,
                    ridge: Binary64 { bits: 0x3eb0_c6f7_a0b5_ed8d },
                    als_iterations: 5,
                    max_forecast_dim: 500,
                },
                base: (KrumFilter { byzantine_fraction: params.byzantine_fraction }, SampleCountWeighting),
                history: Seq::empty(),
                global: None,
                diagnostics: Seq::empty(),
            })))
    } else if name == "qfedavg"@ {
        Ok(Plan::Method(CatalogState::QFedAvg((
                QFedAvgRule {
                    q: chosen_or(params.fairness_q, Binary32::nothing()),
                    lipschitz: chosen_or(params.server_lipschitz, Binary32::unit()),
                    pow: functions.pow,
                },
                None,
            ))))
    } else if name == "fedavgm"@ {
        Ok(Plan::Method(CatalogState::FedAvgM(MomentumMemory {
                beta: chosen_or(params.server_momentum, Binary32 { bits: 0x3f66_6666 }),
                server_learning_rate: chosen_or(params.server_learning_rate, Binary32::unit()),
                base: None,
                model: None,
            })))
    } else if name == "fedadagrad"@ {
        Ok(Plan::Method(CatalogState::FedOpt(FedOptMemory {
                variant: FedOptVariant::Adagrad,
                params: fedopt_params_of(FedOptVariant::Adagrad, params),
                base: None,
                optimizer: None,
            })))
    } else if name == "fedadam"@ {
        Ok(Plan::Method(CatalogState::FedOpt(FedOptMemory {
                variant: FedOptVariant::Adam,
                params: fedopt_params_of(FedOptVariant::Adam, params),
                base: None,
                optimizer: None,
            })))
    } else if name == "fedyogi"@ {
        Ok(Plan::Method(CatalogState::FedOpt(FedOptMemory {
                variant: FedOptVariant::Yogi,
                params: fedopt_params_of(FedOptVariant::Yogi, params),
                base: None,
                optimizer: None,
            })))
    } else if name == "fednova"@ {
        Ok(Plan::Method(CatalogState::FedNova(fednova.state())))
    } else if name == "scaffold"@ {
        Ok(
            Plan::Scaffold {
                server_learning_rate: chosen_or(params.server_learning_rate, Binary32::unit()),
                num_clients: match params.scaffold_num_clients {
                    Some(n) => n,
                    None => 1,
                },
            },
        )
    } else if name == "fedprox"@ {
        Err(BuildFailure::ClientSideOnly(name))
    } else {
        Err(BuildFailure::Unknown(name))
    }
}

/// Builds the method a name stands for.
pub fn build_aggregator<
    L: Fn(Binary32) -> Binary32,
    P: Fn(Binary64, Binary64) -> Binary64,
    N: Aggregator,
    S: Aggregator,
    F: Fn(Binary32, u32) -> S,
>(
    name: &str,
    params: AggregatorParams,
    functions: Functions<L, P>,
    supplied: Supplied<N, F>,
) -> (r: Result<CatalogAggregator<L, P, N, S>, AggregatorBuildError>)
    requires
        is_function(functions.ln),
        is_function2(functions.pow),
        N::ready(supplied.fednova.state()),
        forall|rate: Binary32, n: u32| call_requires(supplied.scaffold, (rate, n)),
        forall|rate: Binary32, n: u32, a: S| #[trigger]
            call_ensures(supplied.scaffold, (rate, n), a) ==> S::ready(a.state()),
    ensures
        match (r, planned::<L, P, N, S>(name@, params, functions, supplied.fednova)) {
            (Ok(a), Ok(Plan::Method(s))) => a.state() == s && CatalogAggregator::<
                L,
                P,
                N,
                S,
            >::ready(a.state()),
            (
                Ok(CatalogAggregator::Scaffold(a)),
                Ok(Plan::Scaffold { server_learning_rate, num_clients }),
            ) => S::ready(a.state()) && call_ensures(
                supplied.scaffold,
                (server_learning_rate, num_clients),
                a,
            ),
            (Err(e), Err(f)) => e@ == f,
            _ => false,
        },
{
    if same_text(name, "fedavg") {
        Ok(CatalogAggregator::FedAvg(WeightedAverageAggregator::default()))
    } else if same_text(name, "krum") {
        Ok(CatalogAggregator::Krum(FilteredAggregator::new(
                KrumFilter { byzantine_fraction: params.byzantine_fraction },
                WeightedAverageAggregator::default(),
            )))
    } else if same_text(name, "multi_krum") {
        Ok(CatalogAggregator::MultiKrum(FilteredAggregator::new(
                MultiKrumFilter { byzantine_fraction: params.byzantine_fraction },
                WeightedAverageAggregator::default(),
            )))
    } else if same_text(name, "trimmed_mean") {
        Ok(CatalogAggregator::TrimmedMean(CoordinateWiseAggregator::new(
                TrimmedMeanStatistic { byzantine_fraction: params.byzantine_fraction },
            )))
    } else if same_text(name, "median") {
        Ok(CatalogAggregator::Median(CoordinateWiseAggregator::new(MedianStatistic)))
    } else if same_text(name, "faba") {
        Ok(CatalogAggregator::Faba(FilteredAggregator::new(
                FabaFilter { byzantine_fraction: params.byzantine_fraction },
                WeightedAverageAggregator::default(),
            )))
    } else if same_text(name, "bulyan") {
        Ok(CatalogAggregator::Bulyan(FilteredAggregator::new(
                BulyanFilter { byzantine_fraction: params.byzantine_fraction },
                CoordinateWiseAggregator::new(
                    TrimmedMeanStatistic { byzantine_fraction: params.byzantine_fraction },
                ),
            )))
    } else if same_text(name, "geometric_median") {
        Ok(CatalogAggregator::GeometricMedian(VectorRobustAggregator::new(GeometricMedianStatistic::default())))
    } else if same_text(name, "median_of_means") {
        Ok(CatalogAggregator::MedianOfMeans(CoordinateWiseAggregator::new(MedianOfMeansStatistic::default())))
    } else if same_text(name, "divide_and_conquer") {
        Ok(CatalogAggregator::DivideAndConquer(FilteredAggregator::new(
                DivideAndConquerFilter { byzantine_fraction: params.byzantine_fraction, power_iterations: 30 },
                WeightedAverageAggregator::default(),
            )))
    } else if same_text(name, "foolsgold") {
        Ok(CatalogAggregator::FoolsGold(FoolsGoldAggregator::new(functions.ln)))
    } else if same_text(name, "centered_clipping") {
        Ok(CatalogAggregator::CenteredClipping(CenteredClippingAggregator::new(params.clip_radius)))
    } else if same_text(name, "fltrust") {
        Ok(CatalogAggregator::FlTrust(FlTrustAggregator::new()))
    } else if same_text(name, "flanders") {
        let base: FilteredAggregator<KrumFilter, FedAvg> = FilteredAggregator::new(
            KrumFilter { byzantine_fraction: params.byzantine_fraction },
            WeightedAverageAggregator::default(),
        );
        let mut filter: FlandersAggregator<FilteredAggregator<KrumFilter, FedAvg>> =
            FlandersAggregator::new(base);
        filter.tuning.byzantine_fraction = params.byzantine_fraction;
        proof {
            assert(snapshots_of(filter.history@) =~= Seq::empty());
            assert(judgements_of(filter.diagnostics@) =~= Seq::empty());
        }
        Ok(CatalogAggregator::Flanders(filter))
    } else if same_text(name, "qfedavg") {
        Ok(CatalogAggregator::QFedAvg(QFedAvgAggregator::with_params(
                choose_or(params.fairness_q, Binary32::zero()),
                choose_or(params.server_lipschitz, Binary32::one()),
                functions.pow,
            )))
    } else if same_text(name, "fedavgm") {
        let mut m: FedAvgMAggregator<FedAvg> = FedAvgMAggregator::new();
        m.beta = choose_or(params.server_momentum, m.beta);
        m.server_learning_rate = choose_or(params.server_learning_rate, m.server_learning_rate);
        Ok(CatalogAggregator::FedAvgM(m))
    } else if same_text(name, "fedadagrad") {
        Ok(CatalogAggregator::FedOpt(FedOptAggregator::with_params(
                FedOptVariant::Adagrad,
                fedopt_params(FedOptVariant::Adagrad, &params),
            )))
    } else if same_text(name, "fedadam") {
        Ok(CatalogAggregator::FedOpt(FedOptAggregator::with_params(
                FedOptVariant::Adam,
                fedopt_params(FedOptVariant::Adam, &params),
            )))
    } else if same_text(name, "fedyogi") {
        Ok(CatalogAggregator::FedOpt(FedOptAggregator::with_params(
                FedOptVariant::Yogi,
                fedopt_params(FedOptVariant::Yogi, &params),
            )))
    } else if same_text(name, "fednova") {
        Ok(CatalogAggregator::FedNova(supplied.fednova))
    } else if same_text(name, "scaffold") {
        let num_clients: u32 = match params.scaffold_num_clients {
            Some(n) => n,
            None => 1,
        };
        Ok(
            CatalogAggregator::Scaffold(
                (supplied.scaffold)(
                    choose_or(params.server_learning_rate, Binary32::one()),
                    num_clients,
                ),
            ),
        )
    } else if same_text(name, "fedprox") {
        Err(AggregatorBuildError::ClientSideOnly(name.to_owned()))
    } else {
        Err(AggregatorBuildError::Unknown(name.to_owned()))
    }
}


/// Whatever the method and its state, a batch that is empty or not fit to
/// aggregate is refused with the reason, and changes nothing. (The methods
/// that the caller supplies answer for themselves.)
pub proof fn refused_batches_change_nothing<
    L: Fn(Binary32) -> Binary32,
    P: Fn(Binary64, Binary64) -> Binary64,
    N: Aggregator,
    S: Aggregator,
>(s: CatalogState<L, P, N::State, S::State>, batch: Seq<Delta>)
    requires
        batch.len() == 0 || validated(batch) is Err,
        !(s is FedNova),
        !(s is Scaffold),
    ensures
        CatalogAggregator::<L, P, N, S>::step(s, batch) == (
            Err::<Seq<Binary32>, Rejection>(
                if batch.len() == 0 {
                    Rejection::EmptyBatch
                } else {
                    validated(batch)->Err_0
                },
            ),
            s,
        ),
{
    reveal(weighted_mean);
    reveal(combined_columns);
    reveal(combined_vectors);
    reveal(filtered_step);
    reveal(foolsgold_step);
    reveal(clipping_step);
    reveal(fltrust_outcome);
    reveal(flanders_step);
    reveal(qfedavg_step);
    reveal(momentum_step);
    reveal(fedopt_step);
    if batch.len() == 1 {
        assert(picked(batch, every_index(1)) =~= batch);
    }
}

/// The catalog builds the registered names and no others.
pub proof fn buildable_names_are_registered<L, P, N: Aggregator, S: Aggregator>(
    name: Seq<char>,
    params: AggregatorParams,
    functions: Functions<L, P>,
    fednova: N,
)
    ensures
        planned::<L, P, N, S>(name, params, functions, fednova) is Ok <==> registered().contains(
            name,
        ),
{
    let r = registered();
    assert(r[0] == "fedavg"@);
    assert(r[1] == "fltrust"@);
    assert(r[2] == "flanders"@);
    assert(r[3] == "fedyogi"@);
    assert(r[4] == "fedadam"@);
    assert(r[5] == "fedavgm"@);
    assert(r[6] == "qfedavg"@);
    assert(r[7] == "fednova"@);
    assert(r[8] == "scaffold"@);
    assert(r[9] == "fedadagrad"@);
    assert(r[10] == "krum"@);
    assert(r[11] == "multi_krum"@);
    assert(r[12] == "trimmed_mean"@);
    assert(r[13] == "median"@);
    assert(r[14] == "faba"@);
    assert(r[15] == "bulyan"@);
    assert(r[16] == "geometric_median"@);
    assert(r[17] == "median_of_means"@);
    assert(r[18] == "divide_and_conquer"@);
    assert(r[19] == "foolsgold"@);
    assert(r[20] == "centered_clipping"@);
}

} // verus!
