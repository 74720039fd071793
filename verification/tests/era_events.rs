use map_generator::eras::{bind_fall, bind_phases, era_events, EraChange};
use map_generator::world::TimePoint;

#[test]
fn an_eras_events_rise_shift_and_fall_with_their_date_sources() {
    let phases = bind_phases(&[-1050, -1010], &[Some(("saul-anointed".to_string(), -1051)), None]);
    let fall = bind_fall(-586, &None, Some(-1010));
    let notes = vec!["Saul anointed".to_string(), "David reigns".to_string()];
    let events = era_events(&phases, &notes, &Some((fall, "Jerusalem falls".to_string())), Some(0xab));
    assert_eq!(events.len(), 3);
    assert_eq!(events[0].at, TimePoint::year_only(-1051));
    assert_eq!(events[0].change, EraChange::Rise);
    assert_eq!(events[0].driver.as_deref(), Some("saul-anointed"));
    assert_eq!(events[0].provenance, "bible-atlas@00000000000000ab");
    assert_eq!(events[1].change, EraChange::Shift { phase: 1 });
    assert_eq!(events[1].provenance, "owner-config:ussher-tradition (pending atlas C2 export)");
    assert_eq!(events[2].change, EraChange::Fall);
    assert_eq!(events[2].at, TimePoint::year_only(-586));
    assert_eq!(events[2].note, "Jerusalem falls");
    // with no atlas, every date is the tradition's
    let bare = era_events(&phases, &notes, &None, None);
    assert_eq!(bare.len(), 2);
    assert_eq!(bare[0].provenance, "owner-config:ussher-tradition (pending atlas C2 export)");
}
