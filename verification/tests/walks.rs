use map_generator::narratives::{walk_record, NarrativeRow, PlannedLeg, WalkPlan};

fn leg(from: &str, to: &str, a: i32, b: i32) -> PlannedLeg {
    PlannedLeg { from: from.to_string(), to: to.to_string(), span: (a, b) }
}

fn exodus() -> NarrativeRow {
    NarrativeRow { id: "exodus".to_string(), name: "The Exodus".to_string(), color: "#aa0000".to_string(), legs: vec![] }
}

#[test]
fn a_walk_records_its_span_and_note() {
    let w = WalkPlan { legs: vec![leg("rameses", "succoth", -1446, -1446), leg("succoth", "etham", -1446, -1445)], verses: vec![] };
    let r = walk_record(&exodus(), &w).unwrap();
    assert_eq!((r.entity.as_str(), r.name.as_str(), r.start, r.end), ("exodus", "The Exodus", -1446, -1445));
    assert_eq!(r.note, "atlas narrative, walked -1446..-1445");
}

#[test]
fn a_walk_through_year_zero_is_refused() {
    let w = WalkPlan { legs: vec![leg("a", "b", -1, 0)], verses: vec![] };
    assert_eq!(walk_record(&exodus(), &w), Err("no such year 0".to_string()));
}
