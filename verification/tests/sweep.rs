use map_generator::canon_check::FeatureId;
use map_generator::sweep::{merge_moments, overlay_moments, span_row};
use map_generator::world::TimePoint;

fn ts(year: i32) -> TimePoint {
    TimePoint::year_only(year)
}

fn ids(xs: &[u64]) -> Vec<FeatureId> {
    xs.iter().map(|x| FeatureId(*x)).collect()
}

#[test]
fn merged_rows_join_the_moments_already_there() {
    let old = vec![(ts(-1000), ids(&[10])), (ts(-900), ids(&[11]))];
    let rows = vec![span_row(-950, -920, FeatureId(20)).unwrap()];
    assert_eq!(
        merge_moments(&old, &rows),
        vec![
            (ts(-1000), ids(&[10])),
            (ts(-950), ids(&[10, 20])),
            (ts(-919), ids(&[10])),
            (ts(-900), ids(&[11])),
        ]
    );
}

#[test]
fn spans_end_the_year_after_their_last_across_the_missing_zero() {
    let rows = vec![span_row(-3, -1, FeatureId(5)).unwrap()];
    assert_eq!(rows[0].1, Some(ts(1)));
    assert_eq!(merge_moments(&[], &rows), vec![(ts(-3), ids(&[5])), (ts(1), ids(&[]))]);
}

#[test]
fn timeless_rows_join_every_moment_from_their_start() {
    let old = vec![(ts(-1500), ids(&[3, 1])), (TimePoint { year: 33, month: Some(4), day: Some(3) }, ids(&[2]))];
    let rows = vec![(ts(-4004), None, FeatureId(9))];
    assert_eq!(
        merge_moments(&old, &rows),
        vec![
            (ts(-4004), ids(&[9])),
            (ts(-1500), ids(&[1, 3, 9])),
            (TimePoint { year: 33, month: Some(4), day: Some(3) }, ids(&[2, 9])),
        ]
    );
}

#[test]
fn a_merge_with_nothing_new_keeps_the_layer() {
    let old = vec![(ts(1), ids(&[1])), (ts(2), ids(&[]))];
    assert_eq!(merge_moments(&old, &[]), old);
}

#[test]
fn timeless_features_overlay_every_moment() {
    let t = |year: i32| TimePoint { year, month: None, day: None };
    let f = |n: u64| FeatureId(n);
    // An empty layer gets one moment at t0, holding just the overlay.
    let out = overlay_moments(&[], &[f(9), f(3)], t(-4004));
    assert_eq!(out, vec![(t(-4004), vec![f(3), f(9)])]);
    // Every existing moment keeps its time and gains the overlay.
    let old = vec![(t(-2000), vec![f(1), f(5)]), (t(-1000), vec![])];
    let out = overlay_moments(&old, &[f(5), f(7)], t(-4004));
    assert_eq!(out, vec![(t(-2000), vec![f(1), f(5), f(7)]), (t(-1000), vec![f(5), f(7)])]);
    // Nothing to overlay leaves the layer as it was.
    assert_eq!(overlay_moments(&old, &[], t(-4004)), old);
}

#[test]
fn a_span_from_year_zero_is_refused() {
    assert_eq!(span_row(0, 5, FeatureId(1)), Err("no such year 0".to_string()));
    assert_eq!(span_row(-1, 0, FeatureId(1)).unwrap().1, Some(ts(1)));
}
