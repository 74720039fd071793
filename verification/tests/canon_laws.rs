use map_generator::canon::{EntityId, LayerKind};
use map_generator::canon_check::{BorderId, CanonIndex, CanonViolation, FeatureId, FeatureRefs, LegSpan, Shape, Snapshot};
use map_generator::world::{SnapshotId, TimePoint, World};

fn ts(year: i32) -> TimePoint {
    TimePoint::year_only(year)
}

fn ts_day(year: i32, month: u8, day: u8) -> TimePoint {
    TimePoint { year, month: Some(month), day: Some(day) }
}

fn entity(s: &str) -> EntityId {
    EntityId(s.to_string())
}

fn area(ent: &str, rings: &[u64]) -> FeatureRefs {
    FeatureRefs {
        entity: entity(ent),
        name: ent.to_string(),
        shape: Shape::Area { rings: rings.iter().map(|b| BorderId(*b)).collect(), holes: Vec::new() },
    }
}

fn world(moments: &[(TimePoint, u64)]) -> World {
    let mut w = World::default();
    for (t, s) in moments {
        w.insert(*t, SnapshotId(*s)).unwrap();
    }
    w
}

fn snap(fs: &[FeatureId]) -> Snapshot {
    Snapshot { features: fs.to_vec() }
}

fn empty_index() -> CanonIndex {
    CanonIndex { borders: Vec::new(), features: Vec::new(), snapshots: Vec::new(), layers: Vec::new(), witnesses: Vec::new() }
}

/// Every id in the canon resolves, or validation says exactly what is
/// dangling. A well-formed canon validates to an empty list.
#[test]
fn references_are_closed_or_named() {
    let mut ix = empty_index();
    ix.borders = vec![BorderId(0x10)];
    ix.features = vec![(FeatureId(0x20), area("egypt", &[0x10]))];
    ix.snapshots = vec![(SnapshotId(0x30), snap(&[FeatureId(0x20)]))];
    ix.layers = vec![(LayerKind::Territory, world(&[(ts(-1450), 0x30)]))];
    assert_eq!(ix.validate(&[]), vec![], "a whole canon is quiet");

    // A snapshot referencing a feature nobody stored:
    let ghost = FeatureId(0xdead);
    ix.snapshots.push((SnapshotId(0x31), snap(&[ghost])));
    ix.layers.push((LayerKind::Journeys, world(&[(ts(100), 0x31)])));
    assert!(ix
        .validate(&[])
        .iter()
        .any(|v| matches!(v, CanonViolation::UnresolvedFeature { feature, .. } if *feature == ghost)));
}

/// A feature referencing a border nobody stored is named too.
#[test]
fn dangling_borders_are_named() {
    let mut ix = empty_index();
    let ghost = BorderId(0xbeef);
    ix.features = vec![(FeatureId(0x20), area("nowhere", &[0xbeef]))];
    ix.snapshots = vec![(SnapshotId(0x30), snap(&[FeatureId(0x20)]))];
    ix.layers = vec![(LayerKind::Territory, world(&[(ts(0 - 1), 0x30)]))];
    assert!(ix
        .validate(&[])
        .iter()
        .any(|v| matches!(v, CanonViolation::UnresolvedBorder { border, .. } if *border == ghost)));
}

/// Two territorial claims on the same ground at the same moment is a
/// contradiction: validation names the moment and both entities.
#[test]
fn overlapping_territories_fail_loud() {
    let mut ix = empty_index();
    ix.borders = vec![BorderId(1), BorderId(2)];
    ix.features = vec![(FeatureId(10), area("egypt", &[1])), (FeatureId(11), area("usurper", &[2]))];
    ix.snapshots = vec![(SnapshotId(20), snap(&[FeatureId(10), FeatureId(11)]))];
    ix.layers = vec![(LayerKind::Territory, world(&[(ts(-1450), 20)]))];
    // the geometry says the two squares overlap
    let violations = ix.validate(&[(FeatureId(11), FeatureId(10))]);
    assert_eq!(
        violations,
        vec![CanonViolation::TerritorialOverlap { at: ts(-1450), a: entity("egypt"), b: entity("usurper") }]
    );
}

/// Overlap ACROSS layers is meaning, not contradiction, and overlap in
/// the SAME layer at DIFFERENT moments is history moving.
#[test]
fn overlap_is_only_a_crime_within_territory_at_one_moment() {
    let mut ix = empty_index();
    ix.borders = vec![BorderId(1), BorderId(2)];
    ix.features = vec![(FeatureId(10), area("kingdom", &[1])), (FeatureId(11), area("authored:promise", &[2]))];
    ix.snapshots = vec![(SnapshotId(20), snap(&[FeatureId(10)])), (SnapshotId(21), snap(&[FeatureId(11)]))];
    ix.layers = vec![
        (LayerKind::Territory, world(&[(ts(-1000), 20)])),
        (LayerKind::ScriptureClaims, world(&[(ts(-1000), 21)])),
    ];
    let overlaps = [(FeatureId(10), FeatureId(11))];
    assert_eq!(ix.validate(&overlaps), vec![], "cross-layer overlap is meaning");

    // Same layer, different moments: Egypt's border moved over itself.
    let mut ix2 = empty_index();
    ix2.borders = vec![BorderId(1), BorderId(2)];
    ix2.features = vec![(FeatureId(10), area("egypt", &[1])), (FeatureId(11), area("egypt", &[2]))];
    ix2.snapshots = vec![(SnapshotId(20), snap(&[FeatureId(10)])), (SnapshotId(21), snap(&[FeatureId(11)]))];
    ix2.layers = vec![(LayerKind::Territory, world(&[(ts(-1500), 20), (ts(-1400), 21)]))];
    assert_eq!(ix2.validate(&overlaps), vec![], "history moving is not a contradiction");
}

/// A leg whose span runs backward is named by validation.
#[test]
fn route_legs_carry_ordered_spans() {
    let road = BorderId(0x70);
    let ok = FeatureId(0x80);
    let backward = FeatureId(0x81);
    let way = |ent: &str, from: TimePoint, to: TimePoint| FeatureRefs {
        entity: entity(ent),
        name: ent.to_string(),
        shape: Shape::Way { legs: vec![LegSpan { border: road, from, to }] },
    };
    let mut ix = empty_index();
    ix.borders = vec![road];
    ix.features = vec![
        (ok, way("damascus-road", ts_day(35, 3, 1), ts_day(35, 3, 6))),
        (backward, way("backward", ts_day(35, 3, 6), ts_day(35, 3, 1))),
    ];
    ix.snapshots = vec![(SnapshotId(0x90), snap(&[ok])), (SnapshotId(0x91), snap(&[backward]))];
    ix.layers = vec![(LayerKind::Journeys, world(&[(ts_day(35, 3, 1), 0x90)]))];
    assert_eq!(ix.validate(&[]), vec![]);

    ix.layers = vec![(LayerKind::Journeys, world(&[(ts_day(35, 3, 6), 0x91)]))];
    assert_eq!(ix.validate(&[]), vec![CanonViolation::BackwardLeg { feature: backward, index: 0 }]);
}

#[test]
fn violations_come_in_walking_order() {
    let mut ix = empty_index();
    ix.borders = vec![BorderId(1)];
    ix.features = vec![
        (FeatureId(10), area("a", &[1, 5])),
        (FeatureId(11), area("b", &[1])),
        (FeatureId(12), area("c", &[6])),
        (FeatureId(13), FeatureRefs { entity: entity("unseen"), name: "unseen".to_string(), shape: Shape::Area { rings: vec![BorderId(9)], holes: Vec::new() } }),
    ];
    ix.snapshots = vec![(SnapshotId(20), snap(&[FeatureId(10), FeatureId(11), FeatureId(99)])), (SnapshotId(21), snap(&[FeatureId(12)]))];
    ix.layers = vec![
        (LayerKind::Territory, world(&[(ts(-10), 20), (ts(-5), 77)])),
        (LayerKind::Water, world(&[(ts(1), 21)])),
    ];
    let v = ix.validate(&[(FeatureId(10), FeatureId(11))]);
    assert_eq!(
        v,
        vec![
            CanonViolation::UnresolvedFeature { layer: LayerKind::Territory, snapshot: SnapshotId(20), feature: FeatureId(99) },
            CanonViolation::TerritorialOverlap { at: ts(-10), a: entity("a"), b: entity("b") },
            CanonViolation::UnresolvedSnapshot { layer: LayerKind::Territory, at: ts(-5), snapshot: SnapshotId(77) },
            CanonViolation::UnresolvedBorder { feature: FeatureId(10), border: BorderId(5) },
            CanonViolation::UnresolvedBorder { feature: FeatureId(12), border: BorderId(6) },
        ]
    );
}

#[test]
fn points_reference_no_border() {
    let mut ix = empty_index();
    ix.features = vec![(FeatureId(1), FeatureRefs { entity: entity("jerusalem"), name: "Jerusalem".to_string(), shape: Shape::Point })];
    ix.snapshots = vec![(SnapshotId(2), snap(&[FeatureId(1)]))];
    ix.layers = vec![(LayerKind::Background, world(&[(ts(30), 2)]))];
    assert!(ix.validate(&[]).is_empty());
}

use map_generator::changes::{changes_between, Change, ChangeKind};

fn change(at: i32, layer: LayerKind, kind: ChangeKind, ent: &str) -> Change {
    Change { at: ts(at), layer, kind, entity: entity(ent) }
}

fn history() -> CanonIndex {
    let mut ix = empty_index();
    ix.borders = vec![BorderId(1), BorderId(2), BorderId(3)];
    ix.features = vec![
        (FeatureId(10), area("egypt", &[1])),
        (FeatureId(11), area("egypt", &[2])),
        (FeatureId(12), area("edom", &[3])),
        (
            FeatureId(20),
            FeatureRefs {
                entity: entity("exodus"),
                name: "the exodus".to_string(),
                shape: Shape::Way { legs: vec![LegSpan { border: BorderId(1), from: ts(-950), to: ts(-950) }] },
            },
        ),
    ];
    ix.snapshots = vec![
        (SnapshotId(30), snap(&[FeatureId(10)])),
        (SnapshotId(31), snap(&[FeatureId(11), FeatureId(12)])),
        (SnapshotId(32), snap(&[FeatureId(12)])),
        (SnapshotId(33), snap(&[FeatureId(20)])),
    ];
    ix.layers = vec![
        (LayerKind::Territory, world(&[(ts(-1000), 30), (ts(-900), 31), (ts(-800), 32)])),
        (LayerKind::Journeys, world(&[(ts(-950), 33)])),
    ];
    ix
}

#[test]
fn moment_diffs_become_change_events_in_time_order() {
    let ix = history();
    assert_eq!(
        ix.derive_changes(),
        vec![
            change(-1000, LayerKind::Territory, ChangeKind::Rise, "egypt"),
            change(-950, LayerKind::Journeys, ChangeKind::Journey, "exodus"),
            change(-900, LayerKind::Territory, ChangeKind::Rise, "edom"),
            change(-900, LayerKind::Territory, ChangeKind::Shift, "egypt"),
            change(-800, LayerKind::Territory, ChangeKind::Fall, "egypt"),
        ]
    );
}

#[test]
fn a_later_feature_of_one_entity_wins_its_moment() {
    let mut ix = history();
    ix.snapshots[0].1 = snap(&[FeatureId(10), FeatureId(11)]);
    let changes = ix.derive_changes();
    // egypt rises at -1000 as feature 11, so nothing shifts at -900
    assert_eq!(changes[0], change(-1000, LayerKind::Territory, ChangeKind::Rise, "egypt"));
    assert!(!changes.iter().any(|c| c.kind == ChangeKind::Shift));
}

#[test]
fn transitions_pass_the_changes_between_their_instants() {
    let all = history().derive_changes();
    let forward = changes_between(&all, ts(-950), ts(-850));
    assert_eq!(
        forward,
        vec![
            change(-900, LayerKind::Territory, ChangeKind::Rise, "edom"),
            change(-900, LayerKind::Territory, ChangeKind::Shift, "egypt"),
        ]
    );
    assert_eq!(changes_between(&all, ts(-850), ts(-950)), forward, "either direction");
    assert_eq!(changes_between(&all, ts(-1000), ts(-1000)), vec![], "an instant passes nothing");
    assert_eq!(changes_between(&all, ts(-2000), ts(-1000)).len(), 1, "the later instant counts");
}

use map_generator::canon::Witness;

#[test]
fn a_layer_holds_its_latest_state_at_a_time() {
    let ix = history();
    assert_eq!(ix.active(LayerKind::Territory, &ts(-900)), vec![FeatureId(11), FeatureId(12)]);
    assert_eq!(ix.active(LayerKind::Territory, &ts(-950)), vec![FeatureId(10)]);
    assert_eq!(ix.active(LayerKind::Territory, &ts(-2000)), vec![]);
    assert_eq!(ix.active(LayerKind::Water, &ts(-900)), vec![]);
    assert_eq!(ix.active(LayerKind::Journeys, &ts(0 - 1)), vec![FeatureId(20)]);
}

#[test]
fn the_listing_names_each_living_entity_once() {
    let mut ix = history();
    ix.witnesses = vec![(FeatureId(11), Witness::Atlas), (FeatureId(20), Witness::Authored)];
    // a claim over egypt in a later-listed layer does not list egypt twice
    ix.snapshots.push((SnapshotId(34), snap(&[FeatureId(10)])));
    ix.layers.insert(1, (LayerKind::ScriptureClaims, world(&[(ts(-1200), 34)])));
    let rows = ix.entities_at(&ts(-900));
    let got: Vec<(String, String, &str, &str)> = rows.into_iter().map(|(e, n, k, w)| (e.0, n, k, w)).collect();
    assert_eq!(
        got,
        vec![
            ("egypt".to_string(), "egypt".to_string(), "territory", "atlas"),
            ("edom".to_string(), "edom".to_string(), "territory", "unknown"),
            ("exodus".to_string(), "the exodus".to_string(), "journey", "authored"),
        ]
    );
}

use map_generator::journeys::Progress;

/// Partial journeys: mid-first-leg the road is walked in part, stations
/// appear as reached; before departure nothing is walked.
#[test]
fn canon_journeys_walk_in_time() {
    let mut ix = empty_index();
    ix.borders = vec![BorderId(1), BorderId(2)];
    let legs = vec![
        LegSpan { border: BorderId(1), from: ts(45), to: ts(47) },
        LegSpan { border: BorderId(2), from: ts(47), to: ts(49) },
    ];
    assert_eq!(ix.walk_progress(&legs, &ts(44)), (vec![], 0), "not yet departed");
    assert_eq!(
        ix.walk_progress(&legs, &ts(46)),
        (vec![(0, Progress::Partial { gone: 2, dur: 3 })], 1),
        "only the first station is behind them"
    );
    assert_eq!(
        ix.walk_progress(&legs, &ts(49)),
        (vec![(0, Progress::Done), (1, Progress::Done)], 3),
        "arrived: all three stations"
    );
    assert_eq!(
        ix.walk_progress(&legs, &ts(48)),
        (vec![(0, Progress::Done), (1, Progress::Partial { gone: 2, dur: 3 })], 2)
    );
}

#[test]
fn legs_without_a_stored_border_are_passed_over() {
    let mut ix = empty_index();
    ix.borders = vec![BorderId(2)];
    let legs = vec![
        LegSpan { border: BorderId(1), from: ts(-3), to: ts(-2) },
        LegSpan { border: BorderId(2), from: ts(-2), to: ts(1) },
    ];
    // the year line has no zero: -2, -1, 1 are three years
    assert_eq!(
        ix.walk_progress(&legs, &ts(-1)),
        (vec![(1, Progress::Partial { gone: 2, dur: 3 })], 0)
    );
}

use map_generator::selection::{layers_wanted, witness_source, LayerSet};

#[test]
fn a_request_names_its_layers_in_drawing_order() {
    let all = LayerSet { geometry: true, topography: true, relief: true, journeys: true };
    assert_eq!(
        layers_wanted(all),
        vec![
            LayerKind::Background,
            LayerKind::Territory,
            LayerKind::ScriptureClaims,
            LayerKind::Water,
            LayerKind::Relief,
            LayerKind::Journeys
        ]
    );
    let ways = LayerSet { geometry: false, topography: false, relief: false, journeys: true };
    assert_eq!(layers_wanted(ways), vec![LayerKind::Journeys]);
}

#[test]
fn scripture_stands_behind_atlas_and_authored_witnesses() {
    let mut ix = empty_index();
    ix.witnesses = vec![(FeatureId(1), Witness::Authored), (FeatureId(2), Witness::Basemap)];
    assert_eq!(ix.sources_of(FeatureId(1)), vec!["scripture", "witness:authored"]);
    assert_eq!(ix.sources_of(FeatureId(2)), vec!["witness:basemap"]);
    assert!(ix.sources_of(FeatureId(3)).is_empty());
    assert_eq!(witness_source(Witness::NaturalEarth), "witness:natural-earth");
}
