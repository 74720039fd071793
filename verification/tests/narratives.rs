use map_generator::narratives::{plan_walk, EventRow, NarrativeRow};

fn ev(id: &str, when: Option<(i32, i32)>, place: &str, verse: &str) -> EventRow {
    EventRow {
        id: id.into(),
        label: id.into(),
        when,
        places: if place.is_empty() { vec![] } else { vec![place.into()] },
        verses: if verse.is_empty() { vec![] } else { vec![verse.into()] },
    }
}

fn narrative(legs: &[&str]) -> NarrativeRow {
    NarrativeRow {
        id: "abraham-migration".into(),
        name: "Abraham's Migration".into(),
        color: "#D97706".into(),
        legs: legs.iter().map(|l| l.to_string()).collect(),
    }
}

fn gazetteer() -> Vec<String> {
    vec!["ur-1".into(), "haran".into(), "shechem".into()]
}

/// A narrative's dated leg events become legs that span the gaps
/// between events, walked place to place.
#[test]
fn legs_span_the_gaps_between_events() {
    let events = vec![
        ev("ab_ur", Some((-2095, -2093)), "ur-1", "GEN.11.28"),
        ev("ab_haran", Some((-2092, -2091)), "haran", "GEN.12.1"),
        ev("ab_shechem", Some((-2090, -2090)), "shechem", "GEN.12.6"),
    ];
    let plan = plan_walk(&narrative(&["ab_ur", "ab_haran", "ab_shechem"]), &events, &gazetteer())
        .unwrap()
        .expect("a walk");
    assert_eq!(plan.legs.len(), 2, "three stations, two walks");
    assert_eq!(plan.legs[0].span, (-2093, -2092), "depart when Ur ends, arrive when Haran begins");
    assert_eq!(plan.legs[1].span, (-2091, -2090));
    assert_eq!((plan.legs[0].from.as_str(), plan.legs[0].to.as_str()), ("ur-1", "haran"));
    assert_eq!(plan.verses, vec!["GEN.11.28".to_string(), "GEN.12.1".to_string(), "GEN.12.6".to_string()]);
}

/// A narrative leg whose place the gazetteer cannot resolve is a
/// NAMED error — never a silently skipped station.
#[test]
fn unresolvable_places_are_named() {
    let events = vec![ev("e1", Some((-10, -10)), "ur-1", ""), ev("e2", Some((-9, -9)), "ghost-town", "")];
    let err = plan_walk(&narrative(&["e1", "e2"]), &events, &gazetteer()).unwrap_err();
    assert_eq!(err, "narrative 'abraham-migration': place 'ghost-town' not in the gazetteer");
    let err = plan_walk(&narrative(&["e1", "e9"]), &events, &gazetteer()).unwrap_err();
    assert_eq!(err, "narrative 'abraham-migration': unknown event 'e9'");
    let placeless = vec![ev("e1", Some((-10, -10)), "", "")];
    let err = plan_walk(&narrative(&["e1", "e1"]), &placeless, &gazetteer()).unwrap_err();
    assert_eq!(err, "narrative 'abraham-migration': event 'e1' names no place");
}

#[test]
fn undated_stations_borrow_their_neighbours_dates() {
    let events = vec![
        ev("a", None, "ur-1", ""),
        ev("b", Some((-20, -18)), "haran", ""),
        ev("c", None, "shechem", ""),
        ev("d", Some((-5, -4)), "ur-1", ""),
    ];
    let plan = plan_walk(&narrative(&["a", "b", "c", "d"]), &events, &gazetteer()).unwrap().unwrap();
    let spans: Vec<(i32, i32)> = plan.legs.iter().map(|l| l.span).collect();
    // a takes b's date (nearest later), c takes b's (nearest earlier)
    assert_eq!(spans, vec![(-20, -18), (-20, -18), (-18, -5)]);
    let undated = vec![ev("a", None, "ur-1", ""), ev("b", None, "haran", "")];
    assert_eq!(
        plan_walk(&narrative(&["a", "b"]), &undated, &gazetteer()).unwrap_err(),
        "narrative 'abraham-migration': no event carries a date"
    );
    assert!(plan_walk(&narrative(&["a"]), &undated, &gazetteer()).unwrap().is_none(), "one stop is no walk");
}
