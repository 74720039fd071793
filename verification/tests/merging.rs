use map_generator::merging::{merge_timelines, MergeError, TimelineParts};
use map_generator::world::TimePoint;

fn parts(bs: &[u64], rs: &[u64], es: &[(i32, &'static str)]) -> TimelineParts<&'static str, &'static str, &'static str> {
    TimelineParts {
        boundaries: bs.iter().map(|b| (*b, "b")).collect(),
        regions: rs.iter().map(|r| (*r, "r")).collect(),
        events: es.iter().map(|(y, e)| (TimePoint::year_only(*y), *e)).collect(),
    }
}

#[test]
fn merged_timelines_keep_ids_apart_and_events_in_time_order() {
    let a = parts(&[1, 5], &[2], &[(-900, "a-late"), (-1000, "a-early")]);
    let b = parts(&[3], &[4], &[(-950, "b-mid"), (-1000, "b-early")]);
    let m = merge_timelines(a, b).unwrap();
    assert_eq!(m.boundaries.iter().map(|b| b.0).collect::<Vec<_>>(), vec![1, 3, 5]);
    assert_eq!(m.regions.iter().map(|r| r.0).collect::<Vec<_>>(), vec![2, 4]);
    // one instant keeps the order the events came in: the first timeline's first
    assert_eq!(m.events.iter().map(|e| e.1).collect::<Vec<_>>(), vec!["a-early", "b-early", "b-mid", "a-late"]);
}

#[test]
fn a_shared_id_is_refused_by_name() {
    let a = parts(&[1, 5], &[2], &[]);
    assert_eq!(merge_timelines(a, parts(&[3, 5], &[], &[])).err(), Some(MergeError::DuplicateBoundary(5)));
    let a = parts(&[1], &[2], &[]);
    assert_eq!(merge_timelines(a, parts(&[3], &[2], &[])).err(), Some(MergeError::DuplicateRegion(2)));
}
