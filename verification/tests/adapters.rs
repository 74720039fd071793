use map_generator::arcs::{extract, reconstruct_ring, ArcDir};
use map_generator::basemaps::epoch_year_from_label;
use map_generator::exports::{creation_anchor, parse_locus, resolve_event, AtlasEvent};
use map_generator::quantize::{canonical_rotation, clean_ring, QPoint};

fn q(lon: f64, lat: f64) -> QPoint {
    QPoint { lon: (lon * 1e7).round() as i64, lat: (lat * 1e7).round() as i64 }
}

fn p(lon: i64, lat: i64) -> QPoint {
    QPoint { lon, lat }
}

#[test]
fn epoch_labels_parse() {
    assert_eq!(epoch_year_from_label("world_bc2000"), Some(-2000));
    assert_eq!(epoch_year_from_label("world_100"), Some(100));
    assert_eq!(epoch_year_from_label("world_bc1"), Some(-1));
    assert_eq!(epoch_year_from_label("nonsense"), None);
}

#[test]
fn epoch_labels_follow_integer_syntax() {
    assert_eq!(epoch_year_from_label("world_+7"), Some(7));
    assert_eq!(epoch_year_from_label("world_"), None);
    assert_eq!(epoch_year_from_label("world_bc"), None);
    assert_eq!(epoch_year_from_label("world_bc 5"), None);
    assert_eq!(epoch_year_from_label("world_2147483648"), None);
}

#[test]
fn ring_cleaning_normalizes() {
    // Closing repeat dropped, consecutive duplicates collapsed.
    let ring = [q(0.0, 0.0), q(1.0, 0.0), q(1.0, 0.0), q(1.0, 1.0), q(0.0, 0.0)];
    let cleaned = clean_ring(&ring).unwrap();
    assert_eq!(cleaned.len(), 3);
    assert_eq!(cleaned[0], q(0.0, 0.0));
    // Degenerate rings refuse to exist.
    assert_eq!(clean_ring(&[q(0.0, 0.0), q(1.0, 0.0), q(0.0, 0.0)]), None);
}

#[test]
fn ring_cleaning_drops_every_closing_repeat() {
    let ring = [p(0, 0), p(5, 0), p(5, 5), p(0, 0), p(0, 0)];
    assert_eq!(clean_ring(&ring), Some(vec![p(0, 0), p(5, 0), p(5, 5)]));
}

#[test]
fn canonical_rotation_picks_the_least_phase() {
    let ring = vec![p(3, 1), p(1, 2), p(2, 0), p(1, 1)];
    assert_eq!(canonical_rotation(&ring), vec![p(1, 1), p(3, 1), p(1, 2), p(2, 0)]);
    // every rotation of a ring has the same canonical form
    let turned = vec![p(2, 0), p(1, 1), p(3, 1), p(1, 2)];
    assert_eq!(canonical_rotation(&turned), canonical_rotation(&ring));
    assert_eq!(canonical_rotation(&[]), Vec::<QPoint>::new());
}

fn square(x0: i64, y0: i64, x1: i64, y1: i64) -> Vec<QPoint> {
    vec![p(x0, y0), p(x1, y0), p(x1, y1), p(x0, y1)]
}

/// Two squares sharing one full edge, plus an island: the shared edge
/// is stored once, and every ring reconstructs to a rotation of itself.
#[test]
fn shared_edge_is_stored_once() {
    let rings = vec![square(0, 0, 5, 10), square(5, 0, 10, 10), square(20, 0, 21, 1)];
    let ext = extract(&rings);
    assert_eq!(ext.arcs.len(), 4);
    assert_eq!(ext.cycles.len(), 3);
    let shared: Vec<&Vec<QPoint>> = ext.arcs.iter().filter(|a| a.len() == 2).collect();
    assert_eq!(shared.len(), 1, "exactly one two-point shared arc");
    let mut shared_index = None;
    for (i, a) in ext.arcs.iter().enumerate() {
        if a.len() == 2 {
            shared_index = Some(i);
        }
    }
    let s = shared_index.unwrap();
    let users: Vec<(usize, ArcDir)> = ext
        .cycles
        .iter()
        .flat_map(|c| c.iter().copied())
        .filter(|(a, _)| *a == s)
        .collect();
    assert_eq!(users.len(), 2, "both squares walk the shared arc");
    assert_ne!(users[0].1, users[1].1, "in opposite directions");
    for (r, ring) in rings.iter().enumerate() {
        let back = reconstruct_ring(&ext, r);
        assert_eq!(canonical_rotation(&back), canonical_rotation(ring));
    }
}

#[test]
fn a_lone_ring_is_one_closed_arc() {
    let rings = vec![square(0, 0, 1, 1)];
    let ext = extract(&rings);
    assert_eq!(ext.arcs.len(), 1);
    // least over both directions: the reversed walk reads smaller
    assert_eq!(ext.arcs[0], vec![p(0, 0), p(0, 1), p(1, 1), p(1, 0), p(0, 0)]);
    assert_eq!(ext.cycles, vec![vec![(0, ArcDir::Reverse)]]);
    assert_eq!(reconstruct_ring(&ext, 0), square(0, 0, 1, 1));
}

#[test]
fn loci_parse_by_book_chapter_verse() {
    assert_eq!(parse_locus("2KI.5.12"), Some((12, 5, 12)));
    assert_eq!(parse_locus("GEN.1.1"), Some((1, 1, 1)));
    assert_eq!(parse_locus("rev.22.21"), Some((66, 22, 21)));
    assert_eq!(parse_locus("Mat.5.3.9"), Some((40, 5, 3)));
    assert_eq!(parse_locus("XYZ.1.1"), None);
    assert_eq!(parse_locus("GEN.1"), None);
    assert_eq!(parse_locus("GEN.x.1"), None);
    assert_eq!(parse_locus("GEN.1.70000"), None);
    assert_eq!(parse_locus(""), None);
}

fn event(id: &str, atts: Vec<(u8, u16, u16)>, from: i32, to: i32) -> AtlasEvent {
    AtlasEvent { id: id.to_string(), label: id.to_string(), attestations: atts, from_year: from, to_year: to }
}

#[test]
fn a_clear_winner_binds() {
    let events = vec![
        event("naaman", vec![(12, 5, 1), (12, 5, 10), (12, 5, 14)], -850, -850),
        event("elisha", vec![(12, 5, 8), (12, 6, 1)], -851, -849),
    ];
    assert_eq!(resolve_event(&events, 12, (5, 1), (5, 27)), Some(("naaman".to_string(), -850, -850)));
    assert_eq!(resolve_event(&events, 12, (6, 1), (6, 2)), Some(("elisha".to_string(), -851, -849)));
    assert_eq!(resolve_event(&events, 11, (5, 1), (5, 27)), None, "nothing attested in another book");
}

#[test]
fn ambiguity_stays_unbound() {
    let events = vec![
        event("a", vec![(1, 1, 1)], 1, 1),
        event("b", vec![(1, 1, 2)], 2, 2),
        event("c", vec![(1, 2, 1), (1, 2, 2)], 3, 3),
    ];
    assert_eq!(resolve_event(&events, 1, (1, 1), (1, 5)), None);
    // a later, stronger event lifts the tie
    assert_eq!(resolve_event(&events, 1, (1, 1), (2, 5)), Some(("c".to_string(), 3, 3)));
}

#[test]
fn creation_anchor_is_the_first_creation_row() {
    let anchors = vec![
        ("flood".to_string(), -2348, "GEN.7.11".to_string()),
        ("creation".to_string(), -4004, "GEN.1.1".to_string()),
        ("creation".to_string(), -3761, "other".to_string()),
    ];
    assert_eq!(creation_anchor(&anchors), Some((-4004, "GEN.1.1".to_string())));
    assert_eq!(creation_anchor(&anchors[..1]), None);
}
