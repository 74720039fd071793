use map_generator::canon::{LayerKind, Witness};
use map_generator::canon_file::{
    border_id_of, canon_from_bytes, canon_from_json, canon_to_bytes, canon_to_json, feature_id_of, snapshot_id_of,
    CanonDoc, FeatureDoc, LegDoc, PointText, ProvenanceDoc, ShapeDoc,
};
use map_generator::world::{SnapshotId, TimePoint, World};

fn pt(x: &str, y: &str, z: &str) -> PointText {
    PointText { x: x.to_string(), y: y.to_string(), z: z.to_string() }
}

/// A small canon whose every section is in increasing id order, as the
/// file's sorted keys give it back.
fn sample() -> CanonDoc {
    let ring = vec![pt("0", "0", "1"), pt("0.5", "0.5", "0.7071"), pt("1", "0", "0")];
    let path = vec![pt("0", "1", "0"), pt("0", "0", "1")];
    let mut borders = vec![(border_id_of(&ring), ring), (border_id_of(&path), path)];
    borders.sort_by_key(|b| b.0);
    let (ring_id, path_id) = (borders.iter().find(|b| b.1.len() == 3).unwrap().0, borders.iter().find(|b| b.1.len() == 2).unwrap().0);
    let mut rings = vec![ring_id];
    rings.sort();
    let area = FeatureDoc {
        entity: "egypt".to_string(),
        name: "Egypt".to_string(),
        shape: ShapeDoc::Area { rings, holes: vec![] },
    };
    let way = FeatureDoc {
        entity: "exodus".to_string(),
        name: "The Exodus".to_string(),
        shape: ShapeDoc::Way {
            legs: vec![LegDoc {
                from: "rameses".to_string(),
                to: "succoth".to_string(),
                border: path_id,
                start: TimePoint { year: -1446, month: Some(1), day: Some(15) },
                end: TimePoint { year: -1446, month: Some(1), day: None },
            }],
        },
    };
    let point = FeatureDoc { entity: "sinai".to_string(), name: "Sinai".to_string(), shape: ShapeDoc::Point { at: pt("0", "0", "1") } };
    let mut features = vec![(feature_id_of(&area), area), (feature_id_of(&way), way), (feature_id_of(&point), point)];
    features.sort_by_key(|f| f.0);
    let mut members: Vec<u64> = features.iter().map(|f| f.0).collect();
    members.sort();
    let sid = snapshot_id_of(&members);
    let mut world = World::default();
    world.insert(TimePoint::year_only(-1446), SnapshotId(sid)).unwrap();
    world.insert(TimePoint::year_only(-1500), SnapshotId(sid)).unwrap();
    let provenance = vec![(
        features[0].0,
        ProvenanceDoc { witness: Witness::Atlas, verses: vec!["Exod 12:37".to_string()], note: "atlas".to_string() },
    )];
    CanonDoc {
        borders,
        features,
        snapshots: vec![(sid, members)],
        layers: vec![(LayerKind::Territory, world)],
        provenance,
    }
}

#[test]
fn content_ids_are_fnv_over_the_content() {
    assert_eq!(border_id_of(&vec![]), 0xf4b5ca5bcc646e52);
    assert_eq!(border_id_of(&vec![pt("0", "0", "1")]), 0xfa31dc106df02cf5);
    assert_eq!(snapshot_id_of(&vec![]), 0x8037ca2a50c2a9e0);
}

#[test]
fn what_is_written_reads_back() {
    let doc = sample();
    assert_eq!(canon_from_json(&canon_to_json(&doc)).unwrap(), doc);
    let bytes = canon_to_bytes(&doc).unwrap();
    assert_eq!(canon_from_bytes(&bytes).unwrap(), doc);
    // byte-stable: the same canon writes the same bytes
    assert_eq!(canon_to_bytes(&sample()).unwrap(), bytes);
}

fn load(text: &str) -> String {
    canon_from_bytes(text.as_bytes()).unwrap_err()
}

const EMPTY: &str = r#""features": {}, "snapshots": {}, "layers": {}, "provenance": {}"#;

#[test]
fn a_file_that_lies_about_its_content_is_refused() {
    assert!(load("{").starts_with("canon: bad json: "));
    assert_eq!(load("{}"), "canon: missing 'borders'");
    assert_eq!(
        load(&format!(r#"{{"borders": {{"00000000000000ff": [[0, 0, 1]]}}, {EMPTY}}}"#)),
        "border 00000000000000ff: content does not match its id"
    );
    assert_eq!(
        load(&format!(r#"{{"borders": {{"zz": []}}, {EMPTY}}}"#)),
        "bad id 'zz': invalid digit found in string"
    );
    assert_eq!(load(&format!(r#"{{"borders": {{"a": [[0, 0]]}}, {EMPTY}}}"#)), "border point: not [x,y,z]");
    assert_eq!(load(&format!(r#"{{"borders": {{"a": [[0, "0", 1]]}}, {EMPTY}}}"#)), "y");
    assert_eq!(
        load(r#"{"borders": {}, "features": {"01": {"kind": "cloud", "entity": "e", "name": "n"}}}"#),
        "feature: unknown kind 'cloud'"
    );
    assert_eq!(load(r#"{"borders": {}, "features": {"01": {"entity": "e"}}}"#), "feature: missing kind");
    assert_eq!(
        load(r#"{"borders": {}, "features": {"01": {"kind": "area", "entity": "e", "name": "n", "rings": [1]}}}"#),
        "rings: not a string"
    );
}

#[test]
fn layers_and_provenance_are_checked_by_name() {
    let head = r#""borders": {}, "features": {}, "snapshots": {}"#;
    assert_eq!(load(&format!(r#"{{{head}, "layers": {{"sky": []}}, "provenance": {{}}}}"#)), "unknown layer 'sky'");
    assert_eq!(
        load(&format!(
            r#"{{{head}, "layers": {{"territory": [[{{"y": 1}}, "01"], [{{"y": 1}}, "02"]]}}, "provenance": {{}}}}"#
        )),
        "layer territory: two snapshots at one instant"
    );
    assert_eq!(
        load(&format!(r#"{{{head}, "layers": {{"territory": [[{{"y": 0}}, "01"]]}}, "provenance": {{}}}}"#)),
        "timestamp: bad year 0"
    );
    assert_eq!(
        load(&format!(r#"{{{head}, "layers": {{}}, "provenance": {{"01": {{"witness": "oracle"}}}}}}"#)),
        "unknown witness 'oracle'"
    );
    // the same moment twice is one moment; verses keep their strings, note defaults to empty
    let ok = canon_from_bytes(
        format!(
            r#"{{{head}, "layers": {{"water": [[{{"y": 1}}, "01"], [{{"y": 1}}, "01"]]}}, "provenance": {{"01": {{"witness": "basemap", "verses": ["a", 3]}}}}}}"#
        )
        .as_bytes(),
    )
    .unwrap();
    assert_eq!(ok.layers[0].1.moments().len(), 1);
    assert_eq!(ok.provenance[0].1.verses, vec!["a".to_string()]);
    assert_eq!(ok.provenance[0].1.note, "");
}
