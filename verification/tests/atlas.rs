use map_generator::eras::{place_id, resolve_circuit, WaypointBinding};
use map_generator::exports::{load_exports, AtlasExports, ExportError};

const GAZETTEER: &str = r#"{
  "format_version": 1,
  "atlas_version_root": "00ff",
  "places": [
    {"id": "p-jer", "canonical": "Jerusalem", "lat": 31.78, "lon": 35.22,
     "aliases": ["Salem", 7], "attestations": ["GEN.14.18"], "provenance": "survey"},
    {"id": "p-kj", "canonical": "Kiriath-jearim", "lat": 31.8, "lon": 35.1},
    {"id": "p-other", "canonical": "Elsewhere", "lat": 30, "lon": 34, "aliases": ["salem"]}
  ]
}"#;

const CHRONOLOGY: &str = r#"{
  "format_version": 1,
  "atlas_version_root": "FF",
  "events": [
    {"id": "e-mel", "label": "Melchizedek", "attestations": ["GEN.14.18", "nonsense"],
     "placement": {"from_year": -1913, "to_year": -1913, "basis": "Textual"}},
    {"id": "e-back", "placement": {"from_year": -1000, "to_year": -1200}}
  ],
  "spans": [{"label": "Patriarchs", "from": -2000, "to": -1700}, {"label": "broken"}],
  "anchors": [{"id": "creation", "at": {"year": -4004}, "citation": "GEN.1.1"}, {"id": "undated"}]
}"#;

fn loaded() -> AtlasExports {
    load_exports(GAZETTEER, CHRONOLOGY).unwrap()
}

#[test]
fn exports_load_places_events_spans_and_anchors() {
    let a = loaded();
    assert_eq!(a.root, 0xff);
    assert_eq!(a.places.len(), 3);
    assert_eq!(a.places[0].id, "p-jer");
    assert_eq!(a.places[0].lat, "31.78");
    assert_eq!(a.places[0].aliases, vec!["Salem".to_string()], "non-strings are skipped");
    assert_eq!(a.places[0].provenance.as_deref(), Some("survey"));
    assert_eq!(a.places[1].aliases.len(), 0);
    assert_eq!(a.events.len(), 2);
    assert_eq!(a.events[0].attestations, vec![(1, 14, 18)], "unreadable loci are skipped");
    assert_eq!(a.events[1].label, "");
    assert!(a.placements[0].textual);
    assert!(!a.placements[1].textual);
    assert_eq!(a.placements[1].seq, 1);
    // An end before the start is clamped to the start.
    assert_eq!((a.placements[1].from_year, a.placements[1].to_year), (-1000, -1000));
    assert_eq!(a.events[1].to_year, -1200);
    assert_eq!(a.spans.len(), 1);
    assert_eq!(a.spans[0].label, "Patriarchs");
    assert_eq!(a.anchors.len(), 1);
    assert_eq!(a.creation_anchor(), Some((-4004, "GEN.1.1".to_string())));
}

#[test]
fn exports_refuse_loudly() {
    assert!(matches!(load_exports("{", CHRONOLOGY), Err(ExportError::BadSyntax(_))));
    let v2 = GAZETTEER.replace("\"format_version\": 1", "\"format_version\": 2");
    assert_eq!(load_exports(&v2, CHRONOLOGY).err(), Some(ExportError::UnsupportedFormat(2)));
    let other_root = CHRONOLOGY.replace("\"FF\"", "\"0100\"");
    assert_eq!(load_exports(GAZETTEER, &other_root).err(), Some(ExportError::RootMismatch));
    let bad_hex = GAZETTEER.replace("\"00ff\"", "\"xyz\"");
    assert_eq!(load_exports(&bad_hex, CHRONOLOGY).err(), Some(ExportError::BadShape("bad root hex")));
    let no_places = r#"{"format_version": 1, "atlas_version_root": "ff"}"#;
    assert_eq!(load_exports(no_places, CHRONOLOGY).err(), Some(ExportError::BadShape("no places")));
    let no_lat = GAZETTEER.replace("\"lat\": 31.8, ", "");
    assert_eq!(load_exports(&no_lat, CHRONOLOGY).err(), Some(ExportError::BadShape("place lat/lon")));
    let year_zero = CHRONOLOGY.replace("\"from_year\": -1000", "\"from_year\": 0");
    assert_eq!(
        load_exports(GAZETTEER, &year_zero).err(),
        Some(ExportError::BadShape("year zero in chronology"))
    );
}

#[test]
fn places_resolve_canonical_first_then_aliases() {
    let a = loaded();
    let id = |name: &str| a.resolve_place(name).map(|(id, _, _)| id);
    assert_eq!(id("JERUSALEM").as_deref(), Some("p-jer"));
    // Two places answer to "salem": the first in the gazetteer wins.
    assert_eq!(id("Salem").as_deref(), Some("p-jer"));
    // A parenthetical is stripped when the whole name answers to nothing.
    assert_eq!(id("Kiriath-jearim (Baalah)").as_deref(), Some("p-kj"));
    assert_eq!(id("Atlantis"), None);
    assert_eq!(a.resolve_place("Jerusalem"), Some(("p-jer".to_string(), "31.78".to_string(), "35.22".to_string())));
}

#[test]
fn circuits_bind_to_the_atlas_or_keep_their_stand_ins() {
    let a = loaded();
    let names = vec!["Jerusalem".to_string(), "Hazar enan".to_string()];
    let (bindings, bound) = resolve_circuit(&names, Some(&a));
    assert_eq!(bound, 1);
    assert!(matches!(&bindings[0], WaypointBinding::Atlas { id, .. } if id == "p-jer"));
    assert!(matches!(&bindings[1], WaypointBinding::StandIn { id } if id == "standin:Hazar-enan"));
    let (alone, none) = resolve_circuit(&names, None);
    assert_eq!(none, 0);
    assert!(matches!(&alone[0], WaypointBinding::StandIn { id } if id == "standin:Jerusalem"));
    assert_eq!(place_id("Mount Hor"), "standin:Mount-Hor");
}
