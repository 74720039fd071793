use map_generator::basemaps::{IngestError, ParseError};
use map_generator::quantize::QPoint;
use map_generator::timeline::{FeatureRings, PolygonRings};
use map_generator::waters::{ingest_ocean, ingest_water, WaterInput};

fn q(lon: f64, lat: f64) -> QPoint {
    QPoint { lon: (lon * 1e7).round() as i64, lat: (lat * 1e7).round() as i64 }
}

fn square(lon0: f64, lat0: f64, lon1: f64, lat1: f64) -> Vec<QPoint> {
    vec![q(lon0, lat0), q(lon1, lat0), q(lon1, lat1), q(lon0, lat1), q(lon0, lat0)]
}

fn feature(name: Option<&str>, outers: Vec<Vec<QPoint>>) -> FeatureRings {
    FeatureRings {
        name: name.map(str::to_string),
        polygons: outers.into_iter().map(|outer| PolygonRings { outer, holes: vec![] }).collect(),
    }
}

fn dataset(label: &str, features: Vec<FeatureRings>, skip_largest_feature: bool) -> WaterInput {
    WaterInput { label_for_unnamed: label.to_string(), features: Ok(features), skip_largest_feature }
}

#[test]
fn waters_are_explorable_regions() {
    let water = ingest_water(&vec![dataset(
        "the sea",
        vec![
            feature(Some("Test Sea"), vec![square(10.0, 10.0, 12.0, 12.0)]),
            feature(None, vec![square(20.0, 10.0, 25.0, 15.0)]),
        ],
        false,
    )])
    .unwrap();
    assert_eq!(water.len(), 2);
    let labels: Vec<&str> = water.iter().map(|r| r.name.as_str()).collect();
    assert!(labels.contains(&"Test Sea") && labels.contains(&"the sea"));
}

#[test]
fn same_named_waters_merge_into_one_region_in_name_order() {
    let water = ingest_water(&vec![
        dataset("unnamed", vec![feature(Some("Lake"), vec![square(0.0, 0.0, 1.0, 1.0)])], false),
        dataset(
            "unnamed",
            vec![
                feature(Some("Bay"), vec![square(5.0, 0.0, 6.0, 1.0)]),
                feature(Some("Lake"), vec![square(2.0, 0.0, 3.0, 1.0), square(3.0, 3.0, 4.0, 4.0)]),
            ],
            false,
        ),
    ])
    .unwrap();
    let names: Vec<&str> = water.iter().map(|r| r.name.as_str()).collect();
    assert_eq!(names, vec!["Bay", "Lake"]);
    assert_eq!(water[1].parts.len(), 3);
    // Rings leave closure implicit: four corners, no repeat.
    assert_eq!(water[1].parts[0].cycle, square(0.0, 0.0, 1.0, 1.0)[..4].to_vec());
}

#[test]
fn the_largest_feature_can_be_dropped_last_of_equals() {
    let a = feature(Some("A"), vec![square(0.0, 0.0, 1.0, 1.0)]);
    let b = feature(Some("B"), vec![square(5.0, 0.0, 6.0, 1.0)]);
    let small = feature(Some("C"), vec![vec![q(9.0, 0.0), q(9.5, 0.0), q(9.0, 0.5), q(9.0, 0.0)]]);
    let water = ingest_water(&vec![dataset("x", vec![a, b, small], true)]).unwrap();
    let names: Vec<&str> = water.iter().map(|r| r.name.as_str()).collect();
    // A and B tie for the most vertices: the later one, B, is dropped.
    assert_eq!(names, vec!["A", "C"]);
}

#[test]
fn a_surviving_hole_stands_in_for_a_degenerate_outer_ring() {
    let sliver = vec![q(0.0, 0.0), q(1.0, 0.0), q(0.0, 0.0)];
    let f = FeatureRings {
        name: Some("Odd".to_string()),
        polygons: vec![
            PolygonRings { outer: sliver.clone(), holes: vec![square(0.2, 0.2, 0.4, 0.4)] },
            PolygonRings { outer: sliver, holes: vec![] },
        ],
    };
    let water = ingest_water(&vec![dataset("x", vec![f], false)]).unwrap();
    assert_eq!(water.len(), 1);
    assert_eq!(water[0].parts.len(), 1, "a polygon with no surviving ring adds no part");
    assert_eq!(water[0].parts[0].cycle, square(0.2, 0.2, 0.4, 0.4)[..4].to_vec());
    assert!(water[0].parts[0].holes.is_empty());
}

#[test]
fn an_unreadable_dataset_refuses_under_its_label() {
    let bad = WaterInput {
        label_for_unnamed: "the lakes".to_string(),
        features: Err(ParseError::BadShape("no features array")),
        skip_largest_feature: false,
    };
    let out = ingest_water(&vec![dataset("fine", vec![], false), bad]);
    assert_eq!(
        out.err(),
        Some(IngestError::Parse("the lakes".to_string(), ParseError::BadShape("no features array")))
    );
}

#[test]
fn the_sea_holds_the_lands_outer_coasts() {
    let island = PolygonRings { outer: square(0.0, 0.0, 2.0, 2.0), holes: vec![square(0.5, 0.5, 1.0, 1.0)] };
    let sliver = PolygonRings { outer: vec![q(5.0, 5.0), q(6.0, 5.0), q(5.0, 5.0)], holes: vec![] };
    let land = vec![FeatureRings { name: None, polygons: vec![island, sliver] }];
    let coasts = ingest_ocean(&Ok(land)).unwrap();
    assert_eq!(coasts, vec![square(0.0, 0.0, 2.0, 2.0)[..4].to_vec()], "inland holes and slivers are not coasts");
    assert_eq!(
        ingest_ocean(&Err(ParseError::BadSyntax("eof".to_string()))).err(),
        Some(IngestError::Parse("land".to_string(), ParseError::BadSyntax("eof".to_string())))
    );
}
