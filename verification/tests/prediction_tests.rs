use hodge_consensus::prediction::tally;
use hodge_consensus::{Component, DisputePrediction, PredictionReport};

#[test]
fn dominant_component_prefers_gradient_then_curl() {
    assert_eq!(Component::dominant(true, true, true), Component::Gradient);
    assert_eq!(Component::dominant(true, true, false), Component::Gradient);
    assert_eq!(Component::dominant(false, true, true), Component::Curl);
    assert_eq!(Component::dominant(true, false, true), Component::Curl);
    assert_eq!(Component::dominant(true, false, false), Component::Harmonic);
    assert_eq!(Component::dominant(false, false, false), Component::Harmonic);
}

#[test]
fn only_harmonic_disputes_persist() {
    assert!(Component::Gradient.resolves());
    assert!(Component::Curl.resolves());
    assert!(!Component::Harmonic.resolves());
}

#[test]
fn component_names() {
    assert_eq!(Component::Gradient.name(), "gradient");
    assert_eq!(Component::Curl.name(), "curl");
    assert_eq!(Component::Harmonic.name(), "harmonic");
}

#[test]
fn prediction_from_dominant_component() {
    let p = DisputePrediction::new(Component::Harmonic, 0.9, 4);
    assert!(!p.will_resolve);
    assert_eq!(p.dominant_component, "harmonic");
    assert_eq!(p.confidence, 0.9);
    assert_eq!(p.edge_index, 4);
    let q = DisputePrediction::new(Component::Curl, 0.6, 0);
    assert!(q.will_resolve);
    assert_eq!(q.dominant_component, "curl");
}

#[test]
fn tally_counts_each_prediction_once() {
    let preds = vec![
        DisputePrediction::new(Component::Gradient, 1.0, 0),
        DisputePrediction::new(Component::Harmonic, 0.7, 1),
        DisputePrediction::new(Component::Curl, 0.8, 2),
        DisputePrediction::new(Component::Harmonic, 0.6, 3),
    ];
    assert_eq!(tally(&preds), (2, 2));
    let report = PredictionReport::new(preds, 0.5);
    assert_eq!(report.n_resolvable, 2);
    assert_eq!(report.n_persistent, 2);
    assert_eq!(report.n_resolvable + report.n_persistent, report.predictions.len());
    assert_eq!(report.resolvability, 0.5);
}

#[test]
fn empty_report() {
    let report: PredictionReport<f64> = PredictionReport::new(Vec::new(), 1.0);
    assert_eq!((report.n_resolvable, report.n_persistent), (0, 0));
}
