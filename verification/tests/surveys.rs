use map_generator::years::check_polity;
use map_generator::audit::{binding_report, BindingRow, Claim};
use map_generator::eras::{bind_fall, bind_phases, circuit_provenance, route_span, Binding};
use map_generator::exports::AtlasEvent;

fn answer(id: &str, year: i32) -> Option<(String, i32)> {
    Some((id.to_string(), year))
}

fn bound(year: i32, id: &str) -> Binding {
    Binding { year, driver: Some(id.to_string()) }
}

fn unbound(year: i32) -> Binding {
    Binding { year, driver: None }
}

#[test]
fn phases_take_the_atlas_year_unless_it_would_invert_the_era() {
    let years = [-931, -900, -850];
    let answers = vec![answer("split", -930), answer("omri", -935), None];
    assert_eq!(
        bind_phases(&years, &answers),
        vec![bound(-930, "split"), unbound(-900), unbound(-850)]
    );
}

#[test]
fn a_wholly_bound_era_keeps_every_driver() {
    let years = [-1050, -1010, -970];
    let answers = vec![answer("saul", -1051), answer("david", -1011), answer("solomon", -971)];
    assert_eq!(
        bind_phases(&years, &answers),
        vec![bound(-1051, "saul"), bound(-1011, "david"), bound(-971, "solomon")]
    );
}

#[test]
fn unbinding_keeps_the_traditional_year_even_when_out_of_order() {
    // The atlas dates the first phase after the second's traditional
    // year; the second is unbound to its traditional year all the same.
    let years = [10, 20];
    let answers = vec![answer("late", 25), None];
    assert_eq!(bind_phases(&years, &answers), vec![bound(25, "late"), unbound(20)]);
}

#[test]
fn no_phases_bind_to_nothing() {
    assert!(bind_phases(&[], &[]).is_empty());
}

#[test]
fn a_fall_keeps_its_driver_only_after_the_last_phase() {
    assert_eq!(bind_fall(-722, &answer("samaria", -720), Some(-730)), bound(-720, "samaria"));
    assert_eq!(bind_fall(-722, &answer("samaria", -735), Some(-730)), unbound(-722));
    assert_eq!(bind_fall(-722, &answer("samaria", -730), Some(-730)), unbound(-722));
    assert_eq!(bind_fall(-722, &None, Some(-730)), unbound(-722));
    assert_eq!(bind_fall(-586, &answer("fall", -586), None), bound(-586, "fall"));
}

fn event(id: &str, label: &str, atts: Vec<(u8, u16, u16)>, from: i32, to: i32) -> AtlasEvent {
    AtlasEvent { id: id.to_string(), label: label.to_string(), attestations: atts, from_year: from, to_year: to }
}

fn claim(ours: &str, book: u8, from: (u16, u16), to: (u16, u16), year: i32, at_end: bool) -> Claim {
    Claim { ours: ours.to_string(), book, from, to, year, at_end }
}

#[test]
fn the_audit_reports_only_disagreements() {
    let events = vec![
        event("conquest", "the conquest of Canaan", vec![(6, 1, 1), (6, 6, 1)], -1406, -1400),
        event("siege", "the siege of Samaria", vec![(12, 17, 5), (12, 17, 6)], -725, -722),
    ];
    let claims = vec![
        claim("JOS1", 6, (1, 1), (6, 27), -1451, false),
        claim("ISRAEL-NORTH/fall", 12, (17, 1), (17, 41), -722, true),
        claim("JOS-AGREES", 6, (1, 1), (1, 9), -1406, false),
        claim("UNBOUND", 1, (1, 1), (1, 31), -4004, false),
        claim("SIEGE-START", 12, (17, 5), (17, 5), -721, false),
    ];
    assert_eq!(
        binding_report(&events, &claims),
        vec![
            BindingRow {
                ours: "JOS1".to_string(),
                atlas_event: ("conquest".to_string(), "the conquest of Canaan".to_string()),
                our_year: -1451,
                their_year: -1406,
            },
            BindingRow {
                ours: "SIEGE-START".to_string(),
                atlas_event: ("siege".to_string(), "the siege of Samaria".to_string()),
                our_year: -721,
                their_year: -725,
            },
        ]
    );
}

#[test]
fn an_ambiguous_binding_is_not_audited() {
    let events = vec![
        event("a", "one", vec![(1, 1, 1)], 10, 10),
        event("b", "two", vec![(1, 1, 2)], 20, 20),
    ];
    let claims = vec![claim("TIE", 1, (1, 1), (1, 2), 5, false)];
    assert!(binding_report(&events, &claims).is_empty());
}

#[test]
fn journeys_happen_in_time() {
    assert_eq!(route_span(-1446, Some(-1406), None), (-1446, -1406, -1405, vec![-1446, -1406]));
    // the atlas dates a one-year journey: its own end year is not later
    assert_eq!(route_span(-1446, None, Some((-1440, -1440))), (-1440, -1440, -1439, vec![-1440]));
    // an atlas span that ends later replaces the route's own
    assert_eq!(route_span(-1446, Some(-1406), Some((-1445, -1405))), (-1445, -1405, -1404, vec![-1445, -1405]));
    // arrival in 1 BC ends the span in AD 1
    assert_eq!(route_span(-5, Some(-1), None), (-5, -1, 1, vec![-5, -1]));
    // an arrival before the departure is the departure
    assert_eq!(route_span(10, Some(5), None), (10, 10, 11, vec![10]));
}

const STAND_IN: &str = "authored:traditional-identifications (approximate stand-in pending atlas C3 gazetteer)";

#[test]
fn circuits_disclose_their_sourcing() {
    assert_eq!(circuit_provenance(Some(0xabc), 3, 3), "bible-atlas@0000000000000abc");
    assert_eq!(
        circuit_provenance(Some(0xabc), 1, 12),
        format!("mixed: bible-atlas@0000000000000abc (1/12 waypoints) + {STAND_IN}")
    );
    assert_eq!(circuit_provenance(Some(0xabc), 0, 3), STAND_IN);
    assert_eq!(circuit_provenance(None, 2, 3), STAND_IN);
}

#[test]
fn polity_rows_fail_loud_with_the_row_named() {
    assert_eq!(check_polity("rome", -753, 476, &vec![4, 5]), Ok(()));
    assert_eq!(
        check_polity("rome", 476, -753, &vec![4]),
        Err("polity 'rome': era runs backward".to_string())
    );
    assert_eq!(
        check_polity("egypt", -3000, -30, &vec![4, 2, 1]),
        Err("polity 'egypt': a ring with 2 points".to_string())
    );
}
