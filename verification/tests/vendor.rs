use map_generator::narratives::{EventRow, NarrativeRow};
use map_generator::vendor::{parse_eras, parse_event, parse_narratives, vendor_order, vendor_pin, EraRow};

#[test]
fn narratives_parse_with_ordered_legs() {
    let rows = parse_narratives(
        r##"[{"id": "abraham", "name": "Abraham", "color": "#D97706", "legs": ["ab_ur", "ab_haran"]}]"##,
    )
    .unwrap();
    assert_eq!(
        rows,
        vec![NarrativeRow {
            id: "abraham".into(),
            name: "Abraham".into(),
            color: "#D97706".into(),
            legs: vec!["ab_ur".into(), "ab_haran".into()],
        }]
    );
    assert_eq!(parse_narratives("{}").unwrap_err(), "narratives: not an array");
    assert_eq!(
        parse_narratives(r#"[{"id": "n", "legs": 3}]"#).unwrap_err(),
        "narrative 'n': 'legs' is not an array"
    );
    assert_eq!(parse_narratives(r#"[{"id": "n", "legs": ["a", 1]}]"#).unwrap_err(), "narrative 'n': leg id");
    assert_eq!(parse_narratives(r#"[{"legs": []}]"#).unwrap_err(), "narrative '?': missing field 'id'");
    assert_eq!(
        parse_narratives(r#"[{"id": "n", "name": 7, "legs": []}]"#).unwrap_err(),
        "narrative 'n': field 'name' is not a string"
    );
    assert!(parse_narratives("[").unwrap_err().starts_with("narratives: bad json: "));
}

#[test]
fn events_parse_with_time_places_verses() {
    let row = parse_event(
        r#"{"id": "ab_ur", "title": "Ur", "when": {"from_year": -2095, "to_year": -2093},
            "places": [{"id": "ur-1"}, {"id": "ur-2"}],
            "witnesses": [{"verse_groups": [{"verses": ["GEN.11.28", 5, "GEN.11.31"]}, {"other": 1}]},
                          {"note": "no groups"}]}"#,
    )
    .unwrap();
    assert_eq!(
        row,
        EventRow {
            id: "ab_ur".into(),
            label: "Ur".into(),
            when: Some((-2095, -2093)),
            places: vec!["ur-1".into(), "ur-2".into()],
            verses: vec!["GEN.11.28".into(), "GEN.11.31".into()],
        }
    );
    let undated = parse_event(r#"{"id": "e", "label": "L", "when": null, "places": []}"#).unwrap();
    assert_eq!(undated.when, None);
    assert_eq!(undated.label, "L");
    assert_eq!(
        parse_event(r#"{"id": "e", "places": []}"#).unwrap_err(),
        "event 'e': missing field 'label'"
    );
    assert_eq!(
        parse_event(r#"{"id": "e", "when": {"to_year": 1}, "places": []}"#).unwrap_err(),
        "event 'e': missing field 'from_year'"
    );
    assert_eq!(
        parse_event(r#"{"id": "e", "when": {"from_year": 1.5, "to_year": 2}, "places": []}"#).unwrap_err(),
        "event 'e': field 'from_year' is not a number"
    );
    assert_eq!(
        parse_event(r#"{"id": "e", "title": "t", "places": [{"name": "x"}]}"#).unwrap_err(),
        "event 'e': missing field 'id'"
    );
    assert_eq!(parse_event(r#"{"places": {}}"#).unwrap_err(), "event '?': 'places' is not an array");
}

#[test]
fn eras_parse() {
    let rows = parse_eras(r#"[{"id": "judges", "name": "Judges", "from_year": -1380, "to_year": -1050}]"#).unwrap();
    assert_eq!(
        rows,
        vec![EraRow { id: "judges".into(), name: "Judges".into(), from_year: -1380, to_year: -1050 }]
    );
    assert_eq!(parse_eras(r#"{"eras": []}"#).unwrap_err(), "eras: not an array");
    assert_eq!(
        parse_eras(r#"[{"id": "x", "name": "X", "from_year": "early", "to_year": 1}]"#).unwrap_err(),
        "era: field 'from_year' is not a number"
    );
    // an integer beyond i32 is read as i64 and truncated, as `as i32` does
    let wide = parse_eras(r#"[{"id": "x", "name": "X", "from_year": 4294967297, "to_year": 1}]"#).unwrap();
    assert_eq!(wide[0].from_year, 1);
}

#[test]
fn vendoring_order_and_pin_ignore_hand_in_order() {
    let a = vec![("polities.json".to_string(), vec![1u8, 2]), ("eras.json".to_string(), vec![3u8])];
    let b = vec![("eras.json".to_string(), vec![3u8]), ("polities.json".to_string(), vec![1u8, 2])];
    assert_eq!(vendor_order(&a), vec![1, 0]);
    assert_eq!(vendor_order(&b), vec![0, 1]);
    assert_eq!(vendor_pin(&a), vendor_pin(&b), "same payloads, same pin");
    let c = vec![("eras.json".to_string(), vec![4u8]), ("polities.json".to_string(), vec![1u8, 2])];
    assert_ne!(vendor_pin(&c), vendor_pin(&b), "the pin moves when the data moves");
}

#[test]
fn vendoring_pin_is_fnv_over_lengths_names_and_bytes() {
    // no payloads: the FNV-1a offset basis
    assert_eq!(vendor_pin(&[]), 0xcbf29ce484222325);
    // one payload "a" holding [1]: FNV-1a over be(1) be('a') be(1) 01
    assert_eq!(vendor_pin(&[("a".to_string(), vec![1u8])]), 0xdf1be7e6b80b6189);
}
