use map_generator::bridge::slug;
use map_generator::reconcile::{is_waived, parse_reconcile, reconcile_routes, RouteRule};
use map_generator::vendor::dechunk;
use map_generator::years::{era_moments, year_after, CompileReport};

fn atlas_narratives() -> Vec<String> {
    vec!["exodus".to_string(), "paul-first-journey".to_string()]
}

/// Every authored route must be reconciled by NAME — a route the file
/// does not mention fails the compile; superseded routes are dropped;
/// kept routes stay.
#[test]
fn authored_routes_require_reconciliation_rows() {
    let json = r#"{"routes": [
        {"authored": "R-EXODUS", "superseded_by": "exodus"},
        {"authored": "R-SPIES", "keep": true}
    ]}"#;
    let rec = parse_reconcile(json).expect("parses");
    let verdicts = reconcile_routes(
        &rec,
        &["R-EXODUS".to_string(), "R-SPIES".to_string()],
        &atlas_narratives(),
    )
    .expect("all rows present");
    assert_eq!(verdicts.dropped, vec!["R-EXODUS".to_string()]);
    assert_eq!(verdicts.kept, vec!["R-SPIES".to_string()]);

    let err = reconcile_routes(
        &rec,
        &["R-EXODUS".to_string(), "R-SPIES".to_string(), "R-JONAH".to_string()],
        &atlas_narratives(),
    )
    .unwrap_err();
    assert!(err.contains("R-JONAH"), "the unreconciled route is named: {err}");
}

/// A supersession must point at a REAL atlas narrative — a typo'd id is
/// an error, not a silent drop.
#[test]
fn supersessions_must_resolve() {
    let json = r#"{"routes": [{"authored": "R-EXODUS", "superseded_by": "exodsu"}]}"#;
    let rec = parse_reconcile(json).expect("parses");
    let err = reconcile_routes(&rec, &["R-EXODUS".to_string()], &atlas_narratives()).unwrap_err();
    assert!(err.contains("exodsu"), "the ghost narrative is named: {err}");
}

/// A REAL territorial conflict can be acknowledged (never silently
/// dropped): a waiver row names the pair and the reason, and only listed
/// pairs are downgraded to warnings.
#[test]
fn territory_waivers_parse_and_match() {
    let json = r#"{"territory_conflicts": [
        {"a": "babylon", "b": "sumer", "note": "atlas era ruling requested"}
    ]}"#;
    let rec = parse_reconcile(json).expect("parses");
    assert!(is_waived(&rec, "babylon", "sumer"));
    assert!(is_waived(&rec, "sumer", "babylon"), "order does not matter");
    assert!(!is_waived(&rec, "babylon", "elam"));
}

#[test]
fn reconcile_messages_are_exact() {
    let rec = parse_reconcile(r#"{"routes": [{"authored": "R-A", "superseded_by": "nowhere"}]}"#).unwrap();
    assert_eq!(
        reconcile_routes(&rec, &["R-B".to_string()], &atlas_narratives()).unwrap_err(),
        "authored route 'R-B' has no reconciliation row — no silent precedence"
    );
    assert_eq!(
        reconcile_routes(&rec, &["R-A".to_string()], &atlas_narratives()).unwrap_err(),
        "route 'R-A' superseded by 'nowhere', but no such atlas narrative exists"
    );
    let none = reconcile_routes(&rec, &[], &atlas_narratives()).unwrap();
    assert!(none.kept.is_empty() && none.dropped.is_empty());
}

#[test]
fn reconcile_rows_are_checked_in_file_order() {
    let rec = parse_reconcile(
        r#"{"routes": [{"authored": "R-A", "keep": true}],
            "territory_conflicts": [{"a": "x", "b": "y"}],
            "regions": [{"authored_slug": "old-edom", "superseded_by": "edom"}]}"#,
    )
    .unwrap();
    assert_eq!(rec.routes, vec![("R-A".to_string(), RouteRule::Keep)]);
    assert_eq!(rec.territory_waivers, vec![("x".to_string(), "y".to_string(), String::new())]);
    assert_eq!(rec.region_drops, vec![("old-edom".to_string(), "edom".to_string())]);

    assert_eq!(
        parse_reconcile(r#"{"routes": [{"keep": true}]}"#).unwrap_err(),
        "reconcile route: missing 'authored'"
    );
    assert_eq!(
        parse_reconcile(r#"{"routes": [{"authored": "R-A", "keep": false}]}"#).unwrap_err(),
        "reconcile route 'R-A': needs 'keep': true or 'superseded_by'"
    );
    assert_eq!(
        parse_reconcile(r#"{"territory_conflicts": [{"b": "y"}]}"#).unwrap_err(),
        "territory_conflicts: missing 'a'"
    );
    assert_eq!(
        parse_reconcile(r#"{"territory_conflicts": [{"a": "x"}]}"#).unwrap_err(),
        "territory_conflicts: missing 'b'"
    );
    assert_eq!(
        parse_reconcile(r#"{"regions": [{"superseded_by": "edom"}]}"#).unwrap_err(),
        "reconcile region: missing 'authored_slug'"
    );
    assert_eq!(
        parse_reconcile(r#"{"regions": [{"authored_slug": "old-edom"}]}"#).unwrap_err(),
        "reconcile region: missing 'superseded_by'"
    );
    // sections that are not arrays are not read
    assert!(parse_reconcile(r#"{"routes": 5}"#).unwrap().routes.is_empty());
}

#[test]
fn bad_json_is_named() {
    let err = parse_reconcile("{not json").unwrap_err();
    assert!(err.starts_with("reconcile: bad json: "), "{err}");
    assert!(err.len() > "reconcile: bad json: ".len());
}

#[test]
fn the_year_after_skips_zero() {
    assert_eq!(year_after(-1), 1);
    assert_eq!(year_after(-2), -1);
    assert_eq!(year_after(1), 2);
}

#[test]
fn eras_change_the_world_at_their_edges() {
    // two eras, the second starting inside the first
    let spans = [(-1000, -501), (-600, -1)];
    let moments = era_moments(&spans);
    let years: Vec<i32> = moments.iter().map(|(y, _)| *y).collect();
    assert_eq!(years, vec![-1000, -600, -500, 1]);
    assert_eq!(moments[0].1, vec![0]);
    assert_eq!(moments[1].1, vec![0, 1]);
    assert_eq!(moments[2].1, vec![1]);
    assert_eq!(moments[3].1, Vec::<usize>::new(), "after the last era nothing stands");
    assert!(era_moments(&[]).is_empty());
}

#[test]
fn compile_report_starts_empty() {
    let r = CompileReport::default();
    assert_eq!((r.polity_eras, r.routes), (0, 0));
}

#[test]
fn slugs_are_lowercase_words_joined_by_dashes() {
    assert_eq!(slug("Kiriath-jearim (Baalah)"), "kiriath-jearim-baalah");
    assert_eq!(slug("  Land of Goshen!  "), "land-of-goshen");
    assert_eq!(slug("Tyre"), "tyre");
    assert_eq!(slug("---"), "");
    assert_eq!(slug(""), "");
    assert_eq!(slug("Rome 2"), "rome-2");
    assert_eq!(slug("Ségou"), "s-gou");
}

#[test]
fn chunked_bodies_decode() {
    let body = b"4\r\nWiki\r\n5\r\npedia\r\nE\r\n in\r\n\r\nchunks.\r\n0\r\n\r\n";
    assert_eq!(dechunk(body).unwrap(), b"Wikipedia in\r\n\r\nchunks.".to_vec());
    assert_eq!(dechunk(b" a \r\n0123456789\r\n0\r\n").unwrap(), b"0123456789".to_vec());
    assert_eq!(dechunk(b"0\r\n").unwrap(), Vec::<u8>::new());
}

#[test]
fn broken_chunking_is_named() {
    assert_eq!(dechunk(b"4\r\nWi").unwrap_err(), "chunk: truncated");
    assert_eq!(dechunk(b"4\r\nWiki").unwrap_err(), "chunk: truncated");
    assert_eq!(dechunk(b"4\r\nWiki\r\n").unwrap_err(), "chunk: missing size line");
    assert_eq!(dechunk(b"zz\r\n").unwrap_err(), "chunk size: invalid digit found in string");
    assert_eq!(dechunk(b"\r\n").unwrap_err(), "chunk size: cannot parse integer from empty string");
    assert_eq!(dechunk(b"").unwrap_err(), "chunk: missing size line");
}

