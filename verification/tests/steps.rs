//! The window's steps, which are testable without painting anything.

use breadify::steps::{everything, Loaded, Step, ALL_STEPS};
use breadify::validate::{Finding, FindingKind, Severity};
use breadify::route::Route;

#[test]
fn the_steps_walk_forwards_and_back() {
    assert_eq!(Step::Open.previous(), None);
    assert_eq!(Step::Open.next(), Some(Step::Check));
    assert_eq!(Step::Check.previous(), Some(Step::Open));
    assert_eq!(Step::Print.next(), None);

    let mut step = Step::Open;
    let mut walked = vec![step];
    while let Some(next) = step.next() {
        step = next;
        walked.push(step);
    }
    assert_eq!(walked, ALL_STEPS);
}

#[test]
fn every_step_is_numbered_and_labelled() {
    let numbers: Vec<&str> = ALL_STEPS.iter().map(|step| step.number()).collect();
    let labels: Vec<&str> = ALL_STEPS.iter().map(|step| step.label()).collect();

    assert_eq!(numbers, ["01", "02", "03", "04"]);
    assert_eq!(labels, ["Open", "Check", "Configure", "Print"]);
}

#[test]
fn everything_selects_each_route_once() {
    let routes: Vec<Route> = ["5", "hau 1", "5", "12"]
        .iter()
        .map(|name| Route { nickname: (*name).to_owned(), stops: Vec::new() })
        .collect();
    let chosen = everything(&routes);
    let names: Vec<&str> = chosen.iter().map(|name| name.as_str()).collect();
    assert_eq!(names, ["12", "5", "hau 1"]);
}

fn finding(severity: Severity) -> Finding {
    Finding {
        severity,
        kind: FindingKind::UnfamiliarValue,
        headline: "headline".to_owned(),
        detail: "detail".to_owned(),
        rows: vec![2],
    }
}

#[test]
fn only_blocking_findings_are_counted_as_blocking() {
    let loaded = Loaded {
        path: "exports/PSR-BREAD-2026-03-04.xlsx".to_owned(),
        name: "PSR-BREAD-2026-03-04.xlsx".to_owned(),
        rows: Vec::new(),
        orders: Vec::new(),
        routes: Vec::new(),
        findings: vec![
            finding(Severity::Blocking),
            finding(Severity::Warning),
            finding(Severity::Blocking),
            finding(Severity::Notice),
        ],
        dates: None,
    };
    assert_eq!(loaded.blocking_count(), 2);
    assert_eq!(loaded.products(), 0);
}
