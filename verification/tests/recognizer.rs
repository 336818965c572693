use jeff::recognizer::{AsymptoticCost, CoverageReport, DispatchTag, Recognized, SaturationBudget};

#[test]
fn default_budget_is_a_hundred_thousand_nodes_and_a_second() {
    let b = SaturationBudget::default();
    assert_eq!(b.max_nodes, 100_000);
    assert_eq!(b.max_millis, 1_000);
}

#[test]
fn unrecognized_work_keeps_its_linear_cost() {
    let r = Recognized::unrecognized();
    assert_eq!(r.tag, DispatchTag::Unrecognized);
    assert_eq!(r.original_cost, AsymptoticCost::Linear);
    assert_eq!(r.candidate_cost, AsymptoticCost::Linear);
}

#[test]
fn empty_coverage_report_counts_nothing() {
    let c = CoverageReport::default();
    assert_eq!(c.structured_total + c.structured_collapsed + c.exact + c.probabilistic, 0);
    assert_eq!(c.unstructured_total + c.unstructured_deferred, 0);
}
