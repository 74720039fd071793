use std::collections::BTreeSet;

use map_generator::basemaps::{Exemption, IngestError, ParseError};
use map_generator::quantize::{canonical_rotation, clean_ring, QPoint};
use map_generator::timeline::{
    ingest, ArcUse, EpochChange, EpochInput, FeatureRings, Ingest, IngestConfig, PolygonRings,
};
use map_generator::world::TimePoint;

fn tp(year: i32) -> TimePoint {
    TimePoint { year, month: None, day: None }
}

fn config() -> IngestConfig {
    IngestConfig { source: "historical-basemaps".to_string(), anchor: Some(tp(-4004)) }
}

fn q(lon: f64, lat: f64) -> QPoint {
    QPoint { lon: (lon * 1e7).round() as i64, lat: (lat * 1e7).round() as i64 }
}

fn square(lon0: f64, lat0: f64, lon1: f64, lat1: f64) -> Vec<QPoint> {
    vec![q(lon0, lat0), q(lon1, lat0), q(lon1, lat1), q(lon0, lat1), q(lon0, lat0)]
}

/// Features from (name, outer rings) pairs; a None name makes an
/// anonymous feature.
fn fc(features: &[(Option<&str>, Vec<Vec<QPoint>>)]) -> Vec<FeatureRings> {
    features
        .iter()
        .map(|(name, polys)| FeatureRings {
            name: name.map(|n| n.to_string()),
            polygons: polys.iter().map(|outer| PolygonRings { outer: outer.clone(), holes: vec![] }).collect(),
        })
        .collect()
}

fn epoch(year: i32, label: &str, features: &[(Option<&str>, Vec<Vec<QPoint>>)]) -> EpochInput {
    EpochInput { year, label: label.to_string(), features: Ok(fc(features)) }
}

/// The points a cycle of arc uses walks, each arc minus its trailing
/// junction.
fn rebuild(out: &Ingest, cycle: &[ArcUse]) -> Vec<QPoint> {
    let mut ring = Vec::new();
    for u in cycle {
        let pts = &out.arcs[u.arc].points;
        if u.forward {
            ring.extend_from_slice(&pts[..pts.len() - 1]);
        } else {
            ring.extend(pts[1..].iter().rev());
        }
    }
    ring
}

/// Fidelity: every named source ring of the epoch, cleaned, comes back
/// from the stored geometry of the epoch's world, ring for ring.
fn fidelity_holds(out: &Ingest, k: usize, source: &[(Option<&str>, Vec<Vec<QPoint>>)]) -> bool {
    let world = &out.worlds[k];
    for (name, polys) in source {
        let Some(name) = name else { continue };
        let want: BTreeSet<Vec<QPoint>> = polys
            .iter()
            .filter_map(|r| clean_ring(r))
            .map(|r| canonical_rotation(&r))
            .collect();
        let Some(region) = world.regions.iter().find(|g| g.name == *name) else { return false };
        let mut got = BTreeSet::new();
        for part in &region.parts {
            got.insert(canonical_rotation(&rebuild(out, &part.cycle)));
            for hole in &part.holes {
                got.insert(canonical_rotation(&rebuild(out, hole)));
            }
        }
        if got != want {
            return false;
        }
    }
    true
}

#[test]
fn fidelity_and_arc_sharing_on_fixture() {
    let source = [
        (Some("Westia"), vec![square(0.0, 0.0, 5.0, 10.0)]),
        (Some("Estia"), vec![square(5.0, 0.0, 10.0, 10.0)]),
        (Some("Isla"), vec![square(20.0, 0.0, 21.0, 1.0)]),
    ];
    let out = ingest(&config(), &vec![epoch(-2000, "fixture_bc2000", &source)]).unwrap();

    // Sharing: Westia-private + shared + Estia-private + Isla = 4 arcs.
    assert_eq!(out.arcs.len(), 4);
    assert_eq!(out.regions.len(), 3);

    // The shared arc is the two-point vertical edge, referenced by both.
    let shared: Vec<_> = out.arcs.iter().filter(|h| h.points.len() == 2).collect();
    assert_eq!(shared.len(), 1, "exactly one two-point shared arc");

    // The fidelity law, ring for ring.
    assert!(fidelity_holds(&out, 0, &source));
}

#[test]
fn epoch_differences_are_narrated() {
    let s1 = [
        (Some("Stayland"), vec![square(0.0, 0.0, 5.0, 5.0)]),
        (Some("Growland"), vec![square(30.0, 0.0, 31.0, 1.0)]),
        (Some("Goneland"), vec![square(50.0, 0.0, 51.0, 1.0)]),
    ];
    let s2 = [
        (Some("Stayland"), vec![square(0.0, 0.0, 5.0, 5.0)]),
        (Some("Growland"), vec![square(30.0, 0.0, 32.0, 1.0)]),
        (Some("Newland"), vec![square(60.0, 0.0, 61.0, 1.0)]),
    ];
    let out = ingest(
        &config(),
        &vec![epoch(-2000, "fixture_bc2000", &s1), epoch(-1500, "fixture_bc1500", &s2)],
    )
    .unwrap();

    // Unchanged geometry merges into ONE version spanning both epochs.
    let stay = out.regions.iter().find(|r| r.name == "Stayland").expect("Stayland present");
    assert_eq!(stay.geom_history.len(), 1);
    assert_eq!(stay.geom_history[0].0.to, None, "open: the source's edge of knowledge");

    // Changes are narrated: a Rise, a Fall, and Shifts, all at -1500.
    assert!(out.events.iter().all(|e| e.at == tp(-1500)));
    assert!(out.events.iter().any(|e| matches!(e.change, EpochChange::Rise(_))));
    assert!(out.events.iter().any(|e| matches!(e.change, EpochChange::Fall(_))));
    assert!(out.events.iter().any(|e| matches!(e.change, EpochChange::Shift(_))));

    // Fidelity holds at BOTH epochs.
    assert!(fidelity_holds(&out, 0, &s1));
    assert!(fidelity_holds(&out, 1, &s2));

    // The scrubber's view: at least one stop after the first epoch.
    let stops: Vec<_> = out.events.iter().filter(|e| e.at.year > -2000).collect();
    assert!(!stops.is_empty());
}

#[test]
fn pre_anchor_epochs_are_excluded_with_exemption() {
    let deep_time = epoch(-10000, "fixture_bc10000", &[(Some("Prehistoria"), vec![square(0.0, 0.0, 1.0, 1.0)])]);
    let in_frame = epoch(-2000, "fixture_bc2000", &[(Some("Historia"), vec![square(0.0, 0.0, 1.0, 1.0)])]);
    let out = ingest(&config(), &vec![deep_time, in_frame]).unwrap();
    assert!(out
        .exemptions
        .iter()
        .any(|e| matches!(e, Exemption::PreAnchorEpoch { year: -10000, .. })));
    // Nothing from the excluded epoch leaked into the timeline.
    for hist in &out.arcs {
        for iv in &hist.versions {
            assert!(iv.from.year >= -4004);
        }
    }
    // Without an anchor, the same epochs all ingest — the anchor is a
    // parameter, not a hardcode.
    let unanchored = IngestConfig { source: "historical-basemaps".to_string(), anchor: None };
    let out2 = ingest(
        &unanchored,
        &vec![epoch(-10000, "fixture_bc10000", &[(Some("Prehistoria"), vec![square(0.0, 0.0, 1.0, 1.0)])])],
    )
    .unwrap();
    assert!(out2.exemptions.is_empty());
    assert_eq!(out2.regions.len(), 1);
}

#[test]
fn unnamed_features_are_counted_not_silently_dropped() {
    let e = epoch(
        -2000,
        "fixture_bc2000",
        &[
            (Some("Namedia"), vec![square(0.0, 0.0, 1.0, 1.0)]),
            (None, vec![square(10.0, 0.0, 11.0, 1.0)]),
            (None, vec![square(20.0, 0.0, 21.0, 1.0)]),
        ],
    );
    let out = ingest(&config(), &vec![e]).unwrap();
    assert!(out
        .exemptions
        .iter()
        .any(|e| matches!(e, Exemption::UnnamedFeatures { year: -2000, count: 2 })));
    assert_eq!(out.regions.len(), 1);
}

#[test]
fn year_zero_refuses_the_whole_ingest() {
    let es = vec![
        epoch(-100, "world_bc100", &[(Some("A"), vec![square(0.0, 0.0, 1.0, 1.0)])]),
        epoch(0, "world_0", &[]),
        epoch(0, "world_zero_again", &[]),
    ];
    match ingest(&config(), &es) {
        Err(IngestError::BadYear(label, 0)) => assert_eq!(label, "world_0"),
        other => panic!("expected a year-zero refusal, got {:?}", other.map(|_| ())),
    }
}

#[test]
fn an_unreadable_kept_epoch_refuses_but_an_excluded_one_does_not() {
    let unreadable = |year: i32, label: &str| EpochInput {
        year,
        label: label.to_string(),
        features: Err(ParseError::BadSyntax("not json".to_string())),
    };
    // Before the anchor: excluded, so never read.
    let out = ingest(
        &config(),
        &vec![unreadable(-9000, "deep"), epoch(-2000, "ok", &[(Some("A"), vec![square(0.0, 0.0, 1.0, 1.0)])])],
    )
    .unwrap();
    assert_eq!(out.worlds.len(), 1);
    assert_eq!(
        out.exemptions,
        vec![Exemption::PreAnchorEpoch { label: "deep".to_string(), year: -9000 }]
    );
    // In frame: the whole ingest is refused, naming the epoch.
    match ingest(&config(), &vec![epoch(-2000, "ok", &[]), unreadable(-1000, "broken")]) {
        Err(IngestError::Parse(label, ParseError::BadSyntax(m))) => {
            assert_eq!(label, "broken");
            assert_eq!(m, "not json");
        },
        other => panic!("expected a parse refusal, got {:?}", other.map(|_| ())),
    }
}

#[test]
fn epochs_are_taken_in_year_order_ties_in_input_order() {
    let a = epoch(-1500, "later", &[(Some("A"), vec![square(0.0, 0.0, 1.0, 1.0)])]);
    let b = epoch(-2000, "earlier", &[(Some("A"), vec![square(0.0, 0.0, 1.0, 1.0)])]);
    let c = epoch(-1500, "later_too", &[(Some("A"), vec![square(0.0, 0.0, 1.0, 1.0)])]);
    let out = ingest(&config(), &vec![a, b, c]).unwrap();
    let labels: Vec<&str> = out.worlds.iter().map(|w| w.label.as_str()).collect();
    assert_eq!(labels, vec!["earlier", "later", "later_too"]);
    // Unchanged throughout: one label version, one geometry version,
    // one arc version, all open-ended.
    assert_eq!(out.regions[0].label_history.len(), 1);
    assert_eq!(out.regions[0].geom_history.len(), 1);
    assert_eq!(out.regions[0].geom_history[0].1, 2, "the geometry of the run's last epoch");
    assert_eq!(out.arcs.len(), 1);
    assert_eq!(out.arcs[0].versions.len(), 1);
    assert_eq!(out.arcs[0].versions[0].from, tp(-2000));
    assert_eq!(out.arcs[0].versions[0].to, None);
    assert!(out.events.is_empty());
}

#[test]
fn degenerate_rings_are_counted_not_silently_dropped() {
    let sliver = vec![q(0.0, 0.0), q(1.0, 0.0), q(0.0, 0.0)];
    let holed = PolygonRings { outer: square(10.0, 0.0, 20.0, 10.0), holes: vec![sliver.clone(), square(12.0, 2.0, 13.0, 3.0)] };
    let fs = vec![
        FeatureRings { name: Some("Thin".to_string()), polygons: vec![PolygonRings { outer: sliver, holes: vec![] }] },
        FeatureRings { name: Some("Holed".to_string()), polygons: vec![holed] },
    ];
    let out = ingest(&config(), &vec![EpochInput { year: -2000, label: "e".to_string(), features: Ok(fs) }]).unwrap();
    assert_eq!(out.exemptions, vec![Exemption::DegenerateRings { year: -2000, count: 2 }]);
    // The thin polygon leaves no region; the holed one keeps its good hole.
    assert_eq!(out.regions.len(), 1);
    assert_eq!(out.worlds[0].regions[0].name, "Holed");
    assert_eq!(out.worlds[0].regions[0].parts.len(), 1);
    assert_eq!(out.worlds[0].regions[0].parts[0].holes.len(), 1);
}

#[test]
fn narration_is_exact_and_in_order() {
    let s1 = [
        (Some("Stayland"), vec![square(0.0, 0.0, 5.0, 5.0)]),
        (Some("Growland"), vec![square(30.0, 0.0, 31.0, 1.0)]),
        (Some("Goneland"), vec![square(50.0, 0.0, 51.0, 1.0)]),
    ];
    let s2 = [
        (Some("Stayland"), vec![square(0.0, 0.0, 5.0, 5.0)]),
        (Some("Growland"), vec![square(30.0, 0.0, 32.0, 1.0)]),
        (Some("Newland"), vec![square(60.0, 0.0, 61.0, 1.0)]),
    ];
    let out = ingest(&config(), &vec![epoch(-2000, "a", &s1), epoch(-1500, "b", &s2)]).unwrap();
    // The arc table: the first epoch's three lone rings, then the two
    // new ones of the second.
    assert_eq!(out.arcs.len(), 5);
    let told: Vec<String> = out
        .events
        .iter()
        .map(|e| match &e.change {
            EpochChange::Rise(n) => format!("rise {n}"),
            EpochChange::Fall(n) => format!("fall {n}"),
            EpochChange::Shift(a) => format!("shift {a}"),
        })
        .collect();
    assert_eq!(told, vec!["shift 1", "shift 3", "rise Newland", "fall Goneland"]);
    assert!(out.events.iter().all(|e| e.epoch == 1));
    // Goneland's presence ends where the second epoch begins.
    let gone = out.regions.iter().find(|r| r.name == "Goneland").unwrap();
    assert_eq!(gone.label_history.len(), 1);
    assert_eq!(gone.label_history[0].to, Some(tp(-1500)));
    // Growland changed: two geometry versions under one label.
    let grow = out.regions.iter().find(|r| r.name == "Growland").unwrap();
    assert_eq!(grow.label_history.len(), 1);
    assert_eq!(grow.geom_history.len(), 2);
    assert_eq!(grow.geom_history[0].0.to, Some(tp(-1500)));
    assert_eq!(grow.geom_history[1].1, 1);
    // Regions come in name order.
    let names: Vec<&str> = out.regions.iter().map(|r| r.name.as_str()).collect();
    assert_eq!(names, vec!["Goneland", "Growland", "Newland", "Stayland"]);
}

#[test]
fn an_absence_splits_a_region_into_two_runs() {
    let here = [(Some("Rover"), vec![square(0.0, 0.0, 1.0, 1.0)])];
    let out = ingest(
        &config(),
        &vec![epoch(-3000, "a", &here), epoch(-2000, "b", &[]), epoch(-1000, "c", &here)],
    )
    .unwrap();
    let rover = &out.regions[0];
    assert_eq!(rover.label_history.len(), 2);
    assert_eq!(rover.label_history[0].from, tp(-3000));
    assert_eq!(rover.label_history[0].to, Some(tp(-2000)));
    assert_eq!(rover.label_history[1].from, tp(-1000));
    assert_eq!(rover.label_history[1].to, None);
    assert_eq!(out.arcs[0].versions.len(), 2);
    let told: Vec<String> = out
        .events
        .iter()
        .map(|e| match &e.change {
            EpochChange::Rise(n) => format!("{} rise {n}", e.at.year),
            EpochChange::Fall(n) => format!("{} fall {n}", e.at.year),
            EpochChange::Shift(a) => format!("{} shift {a}", e.at.year),
        })
        .collect();
    assert_eq!(told, vec!["-2000 fall Rover", "-1000 rise Rover"]);
}
