use map_generator::basemaps::{epoch_moment, IngestError};
use map_generator::world::{precedes, SnapshotId, TimePoint, World, WorldError};

fn ts(year: i32) -> TimePoint {
    TimePoint::year_only(year)
}

fn ts_day(year: i32, month: u8, day: u8) -> TimePoint {
    TimePoint { year, month: Some(month), day: Some(day) }
}

/// A world is a set of (timestamp, snapshot) pairs keyed by timestamp:
/// one world state per instant. Re-asserting the same pair is
/// idempotent; a DIFFERENT snapshot at the same instant is a
/// contradiction and is refused.
#[test]
fn one_world_state_per_instant() {
    let s1 = SnapshotId(0x11);
    let s2 = SnapshotId(0x22);
    let mut world = World::default();
    world.insert(ts(-1450), s1).unwrap();
    world.insert(ts(-1450), s1).expect("idempotent re-assertion is fine");
    let err = world.insert(ts(-1450), s2);
    assert!(matches!(err, Err(WorldError::ContradictionAt(t)) if t == ts(-1450)));
    assert_eq!(world.moments().len(), 1);
}

/// Moments order by the total order on timestamps, not by insertion,
/// and the state at a time is the latest moment at or before it.
#[test]
fn moments_are_timestamp_granular_and_derive_order() {
    let s1 = SnapshotId(0x11);
    let s2 = SnapshotId(0x22);
    let mut world = World::default();
    // Inserted out of order, on purpose.
    world.insert(ts_day(33, 4, 3), s2).unwrap();
    world.insert(ts(-1450), s1).unwrap();
    world.insert(ts_day(33, 4, 1), s1).unwrap();
    let order: Vec<TimePoint> = world.moments().iter().map(|(t, _)| *t).collect();
    assert_eq!(order, vec![ts(-1450), ts_day(33, 4, 1), ts_day(33, 4, 3)]);

    assert_eq!(world.state_at(&ts_day(33, 4, 2)), Some(s1), "between moments: the earlier holds");
    assert_eq!(world.state_at(&ts_day(33, 4, 3)), Some(s2));
    assert_eq!(world.state_at(&ts(-2000)), None, "before the first moment there is no state");
}

#[test]
fn a_refused_contradiction_leaves_the_world_unchanged() {
    let mut world = World::default();
    world.insert(ts(10), SnapshotId(1)).unwrap();
    world.insert(ts(20), SnapshotId(2)).unwrap();
    assert_eq!(world.insert(ts(10), SnapshotId(3)), Err(WorldError::ContradictionAt(ts(10))));
    assert_eq!(
        world.moments().clone(),
        vec![(ts(10), SnapshotId(1)), (ts(20), SnapshotId(2))]
    );
    assert_eq!(world.state_at(&ts(15)), Some(SnapshotId(1)));
    assert_eq!(world.state_at(&ts(20)), Some(SnapshotId(2)));
    assert_eq!(world.state_at(&ts(3000)), Some(SnapshotId(2)));
}

#[test]
fn a_year_precedes_its_own_months_and_days() {
    assert!(precedes(&ts(33), &TimePoint { year: 33, month: Some(1), day: None }));
    assert!(precedes(&TimePoint { year: 33, month: Some(4), day: None }, &ts_day(33, 4, 1)));
    assert!(precedes(&ts_day(33, 4, 1), &ts_day(33, 4, 2)));
    assert!(precedes(&ts_day(-1, 12, 31), &ts(1)));
    assert!(!precedes(&ts(33), &ts(33)));
    assert!(!precedes(&ts_day(33, 5, 1), &ts_day(33, 4, 30)));
}

#[test]
fn an_empty_world_has_no_state() {
    let world = World::default();
    assert!(world.moments().is_empty());
    assert_eq!(world.state_at(&ts(1)), None);
}

#[test]
fn epochs_stand_at_their_year_and_year_zero_is_refused() {
    assert_eq!(epoch_moment(-2000, "world_bc2000"), Ok(ts(-2000)));
    assert_eq!(epoch_moment(1880, "world_1880"), Ok(ts(1880)));
    assert_eq!(
        epoch_moment(0, "world_0"),
        Err(IngestError::BadYear("world_0".to_string(), 0))
    );
}
