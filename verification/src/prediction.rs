//! Dispute prediction based on the Hodge decomposition.
//!
//! A disagreement that is mostly **gradient** is already resolved, one that is
//! mostly **curl** will resolve (agents cycle around but converge), and one
//! that is mostly **harmonic** will not (a topological obstruction).
use vstd::prelude::*;

verus! {

/// The three Hodge components.
#[derive(Debug, Clone, Copy, PartialEq, Eq, Structural)]
pub enum Component {
    Gradient,
    Curl,
    Harmonic,
}

/// The name of a component: `gradient`, `curl` or `harmonic`.
pub open spec fn component_name(c: Component) -> Seq<char> {
    match c {
        Component::Gradient => "gradient"@,
        Component::Curl => "curl"@,
        Component::Harmonic => "harmonic"@,
    }
}

/// The component that dominates, from the comparisons of the three shares:
/// gradient when its share is at least both others, else curl when its share
/// is at least the harmonic one, else harmonic.
pub open spec fn dominant_spec(
    gradient_ge_curl: bool,
    gradient_ge_harmonic: bool,
    curl_ge_harmonic: bool,
) -> Component {
    if gradient_ge_curl && gradient_ge_harmonic {
        Component::Gradient
    } else if curl_ge_harmonic {
        Component::Curl
    } else {
        Component::Harmonic
    }
}

impl Component {
    /// The dominant component of a dispute, given how the shares compare:
    /// `gradient_ge_curl` is whether the gradient share is at least the curl
    /// share, and so on. Ties go to gradient, then to curl.
    pub fn dominant(gradient_ge_curl: bool, gradient_ge_harmonic: bool, curl_ge_harmonic: bool) -> (c: Component)
        ensures
            c == dominant_spec(gradient_ge_curl, gradient_ge_harmonic, curl_ge_harmonic),
            (c == Component::Gradient) <==> (gradient_ge_curl && gradient_ge_harmonic),
            (c == Component::Curl) <==> (!(gradient_ge_curl && gradient_ge_harmonic) && curl_ge_harmonic),
            (c == Component::Harmonic) <==> (!(gradient_ge_curl && gradient_ge_harmonic) && !curl_ge_harmonic),
    {
        if gradient_ge_curl && gradient_ge_harmonic {
            Component::Gradient
        } else if curl_ge_harmonic {
            Component::Curl
        } else {
            Component::Harmonic
        }
    }

    /// Whether a dispute dominated by this component resolves: gradient
    /// disputes are already resolved, curl disputes converge, harmonic ones
    /// persist.
    pub fn resolves(&self) -> (b: bool)
        ensures
            b <==> *self != Component::Harmonic,
    {
        match self {
            Component::Gradient => true,
            Component::Curl => true,
            Component::Harmonic => false,
        }
    }

    /// The name of this component.
    pub fn name(&self) -> (s: String)
        ensures
            s@ == component_name(*self),
    {
        match self {
            Component::Gradient => String::from_str("gradient"),
            Component::Curl => String::from_str("curl"),
            Component::Harmonic => String::from_str("harmonic"),
        }
    }
}

/// Prediction for a specific edge dispute: whether it resolves, the
/// confidence (of scalar type `F`), the dominant component and the edge.
#[derive(Debug, Clone)]
pub struct DisputePrediction<F> {
    /// Whether the dispute will resolve.
    pub will_resolve: bool,
    /// Confidence of the prediction.
    pub confidence: F,
    /// Dominant component: "gradient", "curl", or "harmonic".
    pub dominant_component: String,
    /// Edge index this prediction refers to.
    pub edge_index: usize,
}

impl<F> DisputePrediction<F> {
    /// The prediction for edge `edge_index` whose dominant component is
    /// `dominant`: it resolves unless the component is harmonic.
    pub fn new(dominant: Component, confidence: F, edge_index: usize) -> (p: Self)
        ensures
            p.will_resolve <==> dominant != Component::Harmonic,
            p.dominant_component@ == component_name(dominant),
            p.confidence == confidence,
            p.edge_index == edge_index,
    {
        DisputePrediction {
            will_resolve: dominant.resolves(),
            confidence,
            dominant_component: dominant.name(),
            edge_index,
        }
    }
}

/// The number of predictions that resolve.
pub open spec fn resolvable_count<F>(p: Seq<DisputePrediction<F>>) -> nat
    decreases p.len(),
{
    if p.len() == 0 {
        0
    } else {
        resolvable_count(p.drop_last()) + if p.last().will_resolve { 1nat } else { 0nat }
    }
}

/// The share that a component holds among the gradient, curl and harmonic
/// shares `g`, `c`, `h`.
pub open spec fn share(d: Component, g: int, c: int, h: int) -> int {
    match d {
        Component::Gradient => g,
        Component::Curl => c,
        Component::Harmonic => h,
    }
}

/// The dominant component holds the largest share: given any shares of the
/// three components, the component chosen from their comparisons has a share
/// at least as large as each of the three; gradient wins whenever its share
/// is largest, and harmonic only when its share is strictly above both others.
pub proof fn lemma_dominant_holds_largest_share(g: int, c: int, h: int)
    ensures
        share(dominant_spec(g >= c, g >= h, c >= h), g, c, h) >= g,
        share(dominant_spec(g >= c, g >= h, c >= h), g, c, h) >= c,
        share(dominant_spec(g >= c, g >= h, c >= h), g, c, h) >= h,
        (g >= c && g >= h) ==> dominant_spec(g >= c, g >= h, c >= h) == Component::Gradient,
        (c > g && c >= h) ==> dominant_spec(g >= c, g >= h, c >= h) == Component::Curl,
        (h > g && h > c) <==> dominant_spec(g >= c, g >= h, c >= h) == Component::Harmonic,
{
}

/// A dispute is predicted to resolve exactly when the curl share is largest
/// or the gradient share is largest; it persists exactly when the harmonic
/// share is strictly above both others.
pub proof fn lemma_resolves_unless_harmonic_largest(g: int, c: int, h: int)
    ensures
        (dominant_spec(g >= c, g >= h, c >= h) != Component::Harmonic) <==> (g >= h || c >= h),
{
}

/// The number of predictions that resolve is the number of entries whose
/// `will_resolve` holds: when all resolve it is the length, when none does it
/// is 0, and it never exceeds the length.
pub proof fn lemma_resolvable_count_counts<F>(p: Seq<DisputePrediction<F>>)
    ensures
        resolvable_count(p) == p.filter(|x: DisputePrediction<F>| x.will_resolve).len(),
        resolvable_count(p) <= p.len(),
        (forall|k: int| 0 <= k < p.len() ==> (#[trigger] p[k]).will_resolve) ==> resolvable_count(p) == p.len(),
        (forall|k: int| 0 <= k < p.len() ==> !(#[trigger] p[k]).will_resolve) ==> resolvable_count(p) == 0,
    decreases p.len(),
{
    reveal_with_fuel(Seq::filter, 1);
    if p.len() > 0 {
        let q = p.drop_last();
        lemma_resolvable_count_counts(q);
        assert(p.filter(|x: DisputePrediction<F>| x.will_resolve) == (if p.last().will_resolve {
            q.filter(|x: DisputePrediction<F>| x.will_resolve).push(p.last())
        } else {
            q.filter(|x: DisputePrediction<F>| x.will_resolve)
        }));
        if forall|k: int| 0 <= k < p.len() ==> (#[trigger] p[k]).will_resolve {
            assert forall|k: int| 0 <= k < q.len() implies (#[trigger] q[k]).will_resolve by {
                assert(q[k] == p[k]);
            }
            assert(p[p.len() - 1].will_resolve);
        }
        if forall|k: int| 0 <= k < p.len() ==> !(#[trigger] p[k]).will_resolve {
            assert forall|k: int| 0 <= k < q.len() implies !(#[trigger] q[k]).will_resolve by {
                assert(q[k] == p[k]);
            }
            assert(!p[p.len() - 1].will_resolve);
        }
    }
}

/// Every prediction is in exactly one of the two filters: resolving or not.
proof fn lemma_filter_split<F>(p: Seq<DisputePrediction<F>>)
    ensures
        p.filter(|x: DisputePrediction<F>| x.will_resolve).len() + p.filter(|x: DisputePrediction<F>| !x.will_resolve).len()
            == p.len(),
    decreases p.len(),
{
    reveal_with_fuel(Seq::filter, 1);
    if p.len() > 0 {
        lemma_filter_split(p.drop_last());
    }
}

/// How many disputes resolve and how many persist: every prediction counts
/// in exactly one of the two.
pub fn tally<F>(predictions: &Vec<DisputePrediction<F>>) -> (r: (usize, usize))
    ensures
        r.0 == resolvable_count(predictions@),
        r.0 == predictions@.filter(|x: DisputePrediction<F>| x.will_resolve).len(),
        r.1 == predictions@.filter(|x: DisputePrediction<F>| !x.will_resolve).len(),
        r.0 + r.1 == predictions@.len(),
{
    let mut resolvable: usize = 0;
    let mut k: usize = 0;
    while k < predictions.len()
        invariant
            k <= predictions@.len(),
            resolvable == resolvable_count(predictions@.take(k as int)),
            resolvable <= k,
        decreases predictions@.len() - k,
    {
        assert(predictions@.take(k + 1).drop_last() =~= predictions@.take(k as int));
        if predictions[k].will_resolve {
            resolvable = resolvable + 1;
        }
        k = k + 1;
    }
    assert(predictions@.take(k as int) =~= predictions@);
    proof {
        lemma_resolvable_count_counts(predictions@);
        lemma_filter_split(predictions@);
    }
    (resolvable, predictions.len() - resolvable)
}

/// Overall prediction report: the per-edge predictions, the fraction that
/// resolves (of scalar type `F`), and how many resolve and persist.
#[derive(Debug, Clone)]
pub struct PredictionReport<F> {
    /// Per-edge predictions.
    pub predictions: Vec<DisputePrediction<F>>,
    /// Overall resolvability score (fraction of disputes that will resolve).
    pub resolvability: F,
    /// Number of disputes predicted to resolve.
    pub n_resolvable: usize,
    /// Number of disputes predicted to persist.
    pub n_persistent: usize,
}

impl<F> PredictionReport<F> {
    /// The report on `predictions` with the given resolvability score: the
    /// counts of the disputes that resolve and of those that persist.
    pub fn new(predictions: Vec<DisputePrediction<F>>, resolvability: F) -> (r: Self)
        ensures
            r.predictions@ == predictions@,
            r.resolvability == resolvability,
            r.n_resolvable == resolvable_count(predictions@),
            r.n_resolvable == predictions@.filter(|x: DisputePrediction<F>| x.will_resolve).len(),
            r.n_persistent == predictions@.filter(|x: DisputePrediction<F>| !x.will_resolve).len(),
            r.n_resolvable + r.n_persistent == predictions@.len(),
    {
        let (n_resolvable, n_persistent) = tally(&predictions);
        PredictionReport { predictions, resolvability, n_resolvable, n_persistent }
    }
}

} // verus!
