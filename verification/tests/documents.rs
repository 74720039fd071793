use map_generator::exports::{exports_from_json, ExportError};
use map_generator::json::Json;
use map_generator::vendor::{eras_from_json, event_from_json, narratives_from_json, EraRow};

fn s(x: &str) -> String {
    x.to_string()
}

fn obj(members: Vec<(&str, Json)>) -> Json {
    Json::Object(members.into_iter().map(|(k, v)| (k.to_string(), v)).collect())
}

#[test]
fn parsed_payloads_read_as_their_texts_do() {
    assert_eq!(narratives_from_json(&Json::Null).unwrap_err(), "narratives: not an array");
    assert_eq!(eras_from_json(&obj(vec![])).unwrap_err(), "eras: not an array");
    let era = obj(vec![
        ("id", Json::Str(s("judges"))),
        ("name", Json::Str(s("Judges"))),
        ("from_year", Json::Number(s("-1380"))),
        ("to_year", Json::Number(s("-1050"))),
    ]);
    assert_eq!(
        eras_from_json(&Json::Array(vec![era])).unwrap(),
        vec![EraRow { id: s("judges"), name: s("Judges"), from_year: -1380, to_year: -1050 }]
    );
    assert!(event_from_json(&Json::Null).is_err());
    assert_eq!(narratives_from_json(&Json::Array(vec![])).unwrap(), vec![]);
}

#[test]
fn parsed_artifacts_are_checked_as_their_texts_are() {
    let bare = obj(vec![]);
    assert_eq!(exports_from_json(&bare, &bare).err(), Some(ExportError::BadShape("no format_version")));
    let v2 = obj(vec![("format_version", Json::Number(s("2")))]);
    assert_eq!(exports_from_json(&v2, &bare).err(), Some(ExportError::UnsupportedFormat(2)));
}
