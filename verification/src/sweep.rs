//! Merging dated rows into a layer's moments: the union re-sweep. The
//! merged layer changes at every moment it already had and at every
//! row's beginning and (exclusive) end; at each such moment it holds
//! what the layer held then plus every row alive then — so combined
//! layers stay one state per instant, and nothing already there is
//! lost.

use vstd::prelude::*;
use crate::canon_check::FeatureId;
use crate::world::{before, lemma_before_total_order, precedes, TimePoint};
use crate::years::{spec_year_after, year_after};
use crate::text::owned;

verus! {

/// A dated row: a feature alive from `from` up to (not including)
/// `to`, or on to the open edge of knowledge.
pub open spec fn alive(row: (TimePoint, Option<TimePoint>, FeatureId), t: TimePoint) -> bool {
    &&& !before(t, row.0)
    &&& match row.1 {
        Some(to) => before(t, to),
        None => true,
    }
}

/// Moments in strictly increasing time order.
pub open spec fn times_strictly_increasing(ms: Seq<(TimePoint, Vec<FeatureId>)>) -> bool {
    forall|i: int, j: int| 0 <= i < j < ms.len() ==> before(#[trigger] ms[i].0, #[trigger] ms[j].0)
}

/// The instants the merged layer changes at.
pub open spec fn sweep_edges(old: Seq<(TimePoint, Vec<FeatureId>)>, rows: Seq<(TimePoint, Option<TimePoint>, FeatureId)>) -> Set<TimePoint> {
    Set::new(|t: TimePoint| {
        ||| exists|i: int| 0 <= i < old.len() && (#[trigger] old[i]).0 == t
        ||| exists|k: int| 0 <= k < rows.len() && ((#[trigger] rows[k]).0 == t || rows[k].1 == Some(t))
    })
}

/// What the layer held at `t`: the features of its latest moment at or
/// before `t`, none before its first.
pub open spec fn held_at(old: Seq<(TimePoint, Vec<FeatureId>)>, t: TimePoint) -> Set<FeatureId> {
    if exists|i: int| 0 <= i < old.len() && !before(t, (#[trigger] old[i]).0) {
        let i = choose|i: int| 0 <= i < old.len() && !before(t, (#[trigger] old[i]).0)
            && forall|j: int| 0 <= j < old.len() && !before(t, (#[trigger] old[j]).0) ==> j <= i;
        old[i].1@.to_set()
    } else {
        Set::empty()
    }
}

/// What the merged layer holds at `t`.
pub open spec fn merged_at(old: Seq<(TimePoint, Vec<FeatureId>)>, rows: Seq<(TimePoint, Option<TimePoint>, FeatureId)>, t: TimePoint) -> Set<FeatureId> {
    held_at(old, t).union(Set::new(|f: FeatureId| exists|k: int| 0 <= k < rows.len() && (#[trigger] rows[k]).2 == f && alive(rows[k], t)))
}

/// Feature ids in strictly increasing order: a set, listed.
pub open spec fn ids_increasing(fs: Seq<FeatureId>) -> bool {
    forall|i: int, j: int| 0 <= i < j < fs.len() ==> (#[trigger] fs[i]).0 < (#[trigger] fs[j]).0
}

fn add_time(times: &mut Vec<TimePoint>, t: TimePoint)
    requires
        forall|a: int, b: int| 0 <= a < b < old(times)@.len() ==> before(#[trigger] old(times)@[a], #[trigger] old(times)@[b]),
    ensures
        forall|a: int, b: int| 0 <= a < b < final(times)@.len() ==> before(#[trigger] final(times)@[a], #[trigger] final(times)@[b]),
        forall|x: TimePoint| #[trigger] final(times)@.contains(x) <==> old(times)@.contains(x) || x == t,
{
    proof {
        lemma_before_total_order();
    }
    let ghost s = times@;
    let mut p: usize = 0;
    while p < times.len() && precedes(&times[p], &t)
        invariant
            times@ == s,
            p <= s.len(),
            forall|j: int| 0 <= j < p ==> before(#[trigger] s[j], t),
        decreases s.len() - p,
    {
        p += 1;
    }
    if p < times.len() && times[p] == t {
        assert(s[p as int] == t);
        return;
    }
    proof {
        if p < s.len() {
            assert(!before(s[p as int], t));
            assert(s[p as int] != t);
            assert(before(t, s[p as int]));
        }
    }
    times.insert(p, t);
    proof {
        let n = times@;
        assert(n == s.insert(p as int, t));
        assert forall|a: int, b: int| 0 <= a < b < n.len() implies before(#[trigger] n[a], #[trigger] n[b]) by {
            if b < p {
            } else if a < p && b == p {
            } else if a < p {
                assert(n[b] == s[b - 1]);
            } else if a == p {
                assert(n[b] == s[b - 1]);
                if b - 1 > p {
                    assert(before(s[p as int], s[b - 1]));
                }
            } else {
                assert(n[a] == s[a - 1] && n[b] == s[b - 1]);
            }
        }
        assert forall|x: TimePoint| #[trigger] n.contains(x) <==> s.contains(x) || x == t by {
            if n.contains(x) {
                let k = choose|k: int| 0 <= k < n.len() && n[k] == x;
                if k < p {
                    assert(s[k] == x);
                } else if k > p {
                    assert(s[k - 1] == x);
                }
            }
            if s.contains(x) {
                let k = choose|k: int| 0 <= k < s.len() && s[k] == x;
                if k < p {
                    assert(n[k] == x);
                } else {
                    assert(n[k + 1] == x);
                }
            }
            if x == t {
                assert(n[p as int] == t);
            }
        }
    }
}

fn add_id(fs: &mut Vec<FeatureId>, f: FeatureId)
    requires
        ids_increasing(old(fs)@),
    ensures
        ids_increasing(final(fs)@),
        forall|x: FeatureId| #[trigger] final(fs)@.contains(x) <==> old(fs)@.contains(x) || x == f,
{
    let ghost s = fs@;
    let mut p: usize = 0;
    while p < fs.len() && fs[p].0 < f.0
        invariant
            fs@ == s,
            p <= s.len(),
            forall|j: int| 0 <= j < p ==> (#[trigger] s[j]).0 < f.0,
        decreases s.len() - p,
    {
        p += 1;
    }
    if p < fs.len() && fs[p].0 == f.0 {
        assert(s[p as int] == f);
        return;
    }
    fs.insert(p, f);
    proof {
        let n = fs@;
        assert(n == s.insert(p as int, f));
        assert forall|a: int, b: int| 0 <= a < b < n.len() implies (#[trigger] n[a]).0 < (#[trigger] n[b]).0 by {
            if b < p {
            } else if a < p && b == p {
            } else if a < p {
                assert(n[b] == s[b - 1]);
            } else if a == p {
                assert(n[b] == s[b - 1]);
                if b - 1 > p {
                    assert(s[p as int].0 < s[b - 1].0);
                }
            } else {
                assert(n[a] == s[a - 1] && n[b] == s[b - 1]);
            }
        }
        assert forall|x: FeatureId| #[trigger] n.contains(x) <==> s.contains(x) || x == f by {
            if n.contains(x) {
                let k = choose|k: int| 0 <= k < n.len() && n[k] == x;
                if k < p {
                    assert(s[k] == x);
                } else if k > p {
                    assert(s[k - 1] == x);
                }
            }
            if s.contains(x) {
                let k = choose|k: int| 0 <= k < s.len() && s[k] == x;
                if k < p {
                    assert(n[k] == x);
                } else {
                    assert(n[k + 1] == x);
                }
            }
            if x == f {
                assert(n[p as int] == f);
            }
        }
    }
}

fn is_alive(row: &(TimePoint, Option<TimePoint>, FeatureId), t: &TimePoint) -> (r: bool)
    ensures
        r == alive(*row, *t),
{
    if precedes(t, &row.0) {
        return false;
    }
    match &row.1 {
        Some(to) => precedes(t, to),
        None => true,
    }
}

/// The index of the latest old moment at or before `t`.
fn latest_at_or_before(old: &[(TimePoint, Vec<FeatureId>)], t: &TimePoint) -> (r: Option<usize>)
    requires
        times_strictly_increasing(old@),
    ensures
        match r {
            Some(i) => held_at(old@, *t) == old@[i as int].1@.to_set() && i < old@.len(),
            None => held_at(old@, *t) == Set::<FeatureId>::empty(),
        },
{
    proof {
        lemma_before_total_order();
    }
    let ghost s = old@;
    let mut i: usize = 0;
    while i < old.len() && !precedes(t, &old[i].0)
        invariant
            s == old@,
            times_strictly_increasing(s),
            i <= s.len(),
            forall|j: int| 0 <= j < i ==> !before(*t, #[trigger] s[j].0),
        decreases s.len() - i,
    {
        i += 1;
    }
    // every later moment lies after t
    assert(forall|j: int| i <= j < s.len() ==> before(*t, #[trigger] s[j].0)) by {
        assert forall|j: int| i <= j < s.len() implies before(*t, #[trigger] s[j].0) by {
            if j > i {
                assert(before(s[i as int].0, s[j].0));
            }
        }
    }
    if i == 0 {
        None
    } else {
        proof {
            let k = (i - 1) as int;
            assert(0 <= k < s.len() && !before(*t, s[k].0));
            let c = choose|c: int| 0 <= c < s.len() && !before(*t, (#[trigger] s[c]).0)
                && forall|j: int| 0 <= j < s.len() && !before(*t, (#[trigger] s[j]).0) ==> j <= c;
            assert(forall|j: int| 0 <= j < s.len() && !before(*t, (#[trigger] s[j]).0) ==> j <= k);
            assert(c <= k);
            assert(k <= c);
        }
        Some(i - 1)
    }
}

/// The merged layer's moments, in time order, each with the features
/// it holds (as an increasing id list): at every old moment and every
/// row's beginning and end, what the layer held then plus every row
/// alive then.
pub fn merge_moments(old: &[(TimePoint, Vec<FeatureId>)], rows: &[(TimePoint, Option<TimePoint>, FeatureId)]) -> (out: Vec<(TimePoint, Vec<FeatureId>)>)
    requires
        times_strictly_increasing(old@),
    ensures
        times_strictly_increasing(out@),
        forall|t: TimePoint| sweep_edges(old@, rows@).contains(t) <==> exists|m: int| 0 <= m < out@.len() && (#[trigger] out@[m]).0 == t,
        forall|m: int| 0 <= m < out@.len() ==> ids_increasing((#[trigger] out@[m]).1@)
            && out@[m].1@.to_set() == merged_at(old@, rows@, out@[m].0),
{
    let mut times: Vec<TimePoint> = Vec::new();
    let mut i: usize = 0;
    while i < old.len()
        invariant
            i <= old@.len(),
            forall|a: int, b: int| 0 <= a < b < times@.len() ==> before(#[trigger] times@[a], #[trigger] times@[b]),
            forall|x: TimePoint| #[trigger] times@.contains(x) <==> exists|j: int| 0 <= j < i && (#[trigger] old@[j]).0 == x,
        decreases old@.len() - i,
    {
        add_time(&mut times, old[i].0);
        proof {
            assert forall|x: TimePoint| #[trigger] times@.contains(x) <==> exists|j: int| 0 <= j < i + 1 && (#[trigger] old@[j]).0 == x by {
                if exists|j: int| 0 <= j < i + 1 && (#[trigger] old@[j]).0 == x {
                    let j = choose|j: int| 0 <= j < i + 1 && (#[trigger] old@[j]).0 == x;
                    if j < i {
                    }
                }
            }
        }
        i += 1;
    }
    let mut k: usize = 0;
    while k < rows.len()
        invariant
            k <= rows@.len(),
            forall|a: int, b: int| 0 <= a < b < times@.len() ==> before(#[trigger] times@[a], #[trigger] times@[b]),
            forall|x: TimePoint| #[trigger] times@.contains(x) <==> (exists|j: int| 0 <= j < old@.len() && (#[trigger] old@[j]).0 == x)
                || exists|q: int| 0 <= q < k && ((#[trigger] rows@[q]).0 == x || rows@[q].1 == Some(x)),
        decreases rows@.len() - k,
    {
        let ghost before_times = times@;
        add_time(&mut times, rows[k].0);
        match rows[k].1 {
            Some(to) => add_time(&mut times, to),
            None => {},
        }
        proof {
            assert forall|x: TimePoint| #[trigger] times@.contains(x) <==> (exists|j: int| 0 <= j < old@.len() && (#[trigger] old@[j]).0 == x)
                || exists|q: int| 0 <= q < k + 1 && ((#[trigger] rows@[q]).0 == x || rows@[q].1 == Some(x)) by {
                if exists|q: int| 0 <= q < k + 1 && ((#[trigger] rows@[q]).0 == x || rows@[q].1 == Some(x)) {
                    let q = choose|q: int| 0 <= q < k + 1 && ((#[trigger] rows@[q]).0 == x || rows@[q].1 == Some(x));
                    if q == k {
                        assert(times@.contains(x));
                    }
                }
                if times@.contains(x) && !before_times.contains(x) {
                    assert(rows@[k as int].0 == x || rows@[k as int].1 == Some(x));
                }
            }
        }
        k += 1;
    }
    let mut out: Vec<(TimePoint, Vec<FeatureId>)> = Vec::new();
    let mut m: usize = 0;
    while m < times.len()
        invariant
            times_strictly_increasing(old@),
            m <= times@.len(),
            out@.len() == m,
            forall|a: int, b: int| 0 <= a < b < times@.len() ==> before(#[trigger] times@[a], #[trigger] times@[b]),
            forall|a: int| 0 <= a < m ==> (#[trigger] out@[a]).0 == times@[a],
            forall|a: int| 0 <= a < m ==> ids_increasing((#[trigger] out@[a]).1@)
                && out@[a].1@.to_set() == merged_at(old@, rows@, out@[a].0),
        decreases times@.len() - m,
    {
        let t = times[m];
        let mut active: Vec<FeatureId> = Vec::new();
        let ghost held = held_at(old@, t);
        match latest_at_or_before(old, &t) {
            Some(li) => {
                let fs = &old[li].1;
                let mut q: usize = 0;
                while q < fs.len()
                    invariant
                        q <= fs@.len(),
                        ids_increasing(active@),
                        forall|x: FeatureId| #[trigger] active@.contains(x) <==> exists|j: int| 0 <= j < q && fs@[j] == x,
                    decreases fs@.len() - q,
                {
                    add_id(&mut active, fs[q]);
                    proof {
                        assert forall|x: FeatureId| #[trigger] active@.contains(x) <==> exists|j: int| 0 <= j < q + 1 && fs@[j] == x by {
                            if exists|j: int| 0 <= j < q + 1 && fs@[j] == x {
                                let j = choose|j: int| 0 <= j < q + 1 && fs@[j] == x;
                                if j < q {
                                    assert(exists|j: int| 0 <= j < q && fs@[j] == x);
                                }
                            }
                        }
                    }
                    q += 1;
                }
                proof {
                    assert forall|x: FeatureId| #[trigger] active@.contains(x) <==> held.contains(x) by {
                        if fs@.contains(x) {
                            let j = choose|j: int| 0 <= j < fs@.len() && fs@[j] == x;
                            assert(exists|j: int| 0 <= j < q && fs@[j] == x);
                        }
                        if active@.contains(x) {
                            let j = choose|j: int| 0 <= j < q && fs@[j] == x;
                            assert(fs@.contains(x));
                        }
                    }
                }
            },
            None => {
                assert forall|x: FeatureId| #[trigger] active@.contains(x) <==> held.contains(x) by {}
            },
        }
        let ghost base = active@;
        let mut r: usize = 0;
        while r < rows.len()
            invariant
                r <= rows@.len(),
                ids_increasing(active@),
                forall|x: FeatureId| #[trigger] active@.contains(x) <==> held.contains(x)
                    || exists|j: int| 0 <= j < r && (#[trigger] rows@[j]).2 == x && alive(rows@[j], t),
            decreases rows@.len() - r,
        {
            if is_alive(&rows[r], &t) {
                add_id(&mut active, rows[r].2);
            }
            proof {
                assert forall|x: FeatureId| #[trigger] active@.contains(x) <==> held.contains(x)
                    || exists|j: int| 0 <= j < r + 1 && (#[trigger] rows@[j]).2 == x && alive(rows@[j], t) by {
                    if exists|j: int| 0 <= j < r + 1 && (#[trigger] rows@[j]).2 == x && alive(rows@[j], t) {
                        let j = choose|j: int| 0 <= j < r + 1 && (#[trigger] rows@[j]).2 == x && alive(rows@[j], t);
                        if j == r {
                            assert(active@.contains(x));
                        }
                    }
                }
            }
            r += 1;
        }
        proof {
            assert(active@.to_set() =~= merged_at(old@, rows@, t)) by {
                assert forall|x: FeatureId| active@.to_set().contains(x) <==> merged_at(old@, rows@, t).contains(x) by {
                    assert(active@.contains(x) <==> active@.to_set().contains(x));
                }
            }
        }
        out.push((t, active));
        proof {
            assert(out@[m as int].0 == t);
        }
        m += 1;
    }
    proof {
        assert forall|t: TimePoint| sweep_edges(old@, rows@).contains(t) <==> exists|m: int| 0 <= m < out@.len() && (#[trigger] out@[m]).0 == t by {
            if sweep_edges(old@, rows@).contains(t) {
                assert(times@.contains(t));
                let a = choose|a: int| 0 <= a < times@.len() && times@[a] == t;
                assert(out@[a].0 == t);
            }
            if exists|m: int| 0 <= m < out@.len() && (#[trigger] out@[m]).0 == t {
                let a = choose|a: int| 0 <= a < out@.len() && (#[trigger] out@[a]).0 == t;
                assert(times@[a] == t);
                assert(times@.contains(t));
            }
        }
        assert forall|a: int, b: int| 0 <= a < b < out@.len() implies before(#[trigger] out@[a].0, #[trigger] out@[b].0) by {
            assert(out@[a].0 == times@[a] && out@[b].0 == times@[b]);
        }
    }
    out
}

/// A span of years as a dated row: alive from its first year up to
/// (not including) the year after its last. There is no year zero: a
/// span that starts there is refused, naming the year.
pub fn span_row(start: i32, end: i32, feature: FeatureId) -> (r: Result<(TimePoint, Option<TimePoint>, FeatureId), String>)
    requires
        end < i32::MAX,
    ensures
        start == 0 <==> r is Err,
        r is Err ==> r->Err_0@ == "no such year 0"@,
        r is Ok ==> r->Ok_0 == (TimePoint { year: start, month: None, day: None },
            Some(TimePoint { year: spec_year_after(end as int) as i32, month: None, day: None }), feature),
{
    if start == 0 {
        return Err(owned("no such year 0"));
    }
    let to = year_after(end);
    Ok((TimePoint::year_only(start), Some(TimePoint { year: to, month: None, day: None }), feature))
}

/// Merging keeps what was there: every old moment is a merged moment,
/// holding at least the features it held.
pub proof fn law_merge_keeps_the_old_moments(
    old: Seq<(TimePoint, Vec<FeatureId>)>,
    rows: Seq<(TimePoint, Option<TimePoint>, FeatureId)>,
    i: int,
)
    requires
        times_strictly_increasing(old),
        0 <= i < old.len(),
    ensures
        sweep_edges(old, rows).contains(old[i].0),
        old[i].1@.to_set().subset_of(merged_at(old, rows, old[i].0)),
{
    lemma_before_total_order();
    let t = old[i].0;
    assert(!before(t, old[i].0));
    let c = choose|c: int| 0 <= c < old.len() && !before(t, (#[trigger] old[c]).0)
        && forall|j: int| 0 <= j < old.len() && !before(t, (#[trigger] old[j]).0) ==> j <= c;
    assert forall|j: int| 0 <= j < old.len() && !before(t, (#[trigger] old[j]).0) implies j <= i by {
        if j > i {
            assert(before(old[i].0, old[j].0));
        }
    }
    assert(c == i) by {
        assert(c <= i);
        assert(i <= c);
    }
}

/// Timeless features overlaid on a layer: every moment keeps its time
/// and gains the features; a layer with no moments gets one at `t0`
/// holding just them. Nothing to overlay leaves the layer as it was.
pub fn overlay_moments(old: &[(TimePoint, Vec<FeatureId>)], fids: &[FeatureId], t0: TimePoint) -> (out: Vec<(TimePoint, Vec<FeatureId>)>)
    requires
        forall|i: int| 0 <= i < old@.len() ==> ids_increasing((#[trigger] old@[i]).1@),
    ensures
        fids@.len() == 0 ==> out@.len() == old@.len() && forall|i: int| 0 <= i < old@.len() ==> (#[trigger] out@[i]).0 == old@[i].0
            && out@[i].1@ == old@[i].1@,
        fids@.len() > 0 && old@.len() == 0 ==> out@.len() == 1 && out@[0].0 == t0
            && out@[0].1@.to_set() == fids@.to_set(),
        fids@.len() > 0 && old@.len() > 0 ==> out@.len() == old@.len() && forall|i: int| 0 <= i < old@.len() ==> (#[trigger] out@[i]).0 == old@[i].0
            && out@[i].1@.to_set() == old@[i].1@.to_set().union(fids@.to_set()),
        forall|i: int| 0 <= i < out@.len() ==> ids_increasing((#[trigger] out@[i]).1@),
{
    let mut out: Vec<(TimePoint, Vec<FeatureId>)> = Vec::new();
    if fids.len() == 0 {
        let mut i: usize = 0;
        while i < old.len()
            invariant
                forall|i: int| 0 <= i < old@.len() ==> ids_increasing((#[trigger] old@[i]).1@),
                i <= old@.len(),
                out@.len() == i,
                forall|k: int| 0 <= k < i ==> (#[trigger] out@[k]).0 == old@[k].0 && out@[k].1@ == old@[k].1@,
                forall|k: int| 0 <= k < i ==> ids_increasing((#[trigger] out@[k]).1@),
            decreases old.len() - i,
        {
            let fs = old[i].1.clone();
            proof {
                assert(fs@ =~= old@[i as int].1@);
            }
            out.push((old[i].0, fs));
            i += 1;
        }
        return out;
    }
    let mut base: Vec<(TimePoint, Vec<FeatureId>)> = Vec::new();
    if old.len() == 0 {
        base.push((t0, Vec::new()));
    } else {
        let mut i: usize = 0;
        while i < old.len()
            invariant
                forall|i: int| 0 <= i < old@.len() ==> ids_increasing((#[trigger] old@[i]).1@),
                i <= old@.len(),
                base@.len() == i,
                forall|k: int| 0 <= k < i ==> (#[trigger] base@[k]).0 == old@[k].0 && base@[k].1@ == old@[k].1@,
            decreases old.len() - i,
        {
            let fs = old[i].1.clone();
            proof {
                assert(fs@ =~= old@[i as int].1@);
            }
            base.push((old[i].0, fs));
            i += 1;
        }
    }
    let mut m: usize = 0;
    while m < base.len()
        invariant
            forall|i: int| 0 <= i < old@.len() ==> ids_increasing((#[trigger] old@[i]).1@),
            fids@.len() > 0,
            old@.len() == 0 ==> base@.len() == 1 && base@[0].0 == t0 && base@[0].1@.len() == 0,
            old@.len() > 0 ==> base@.len() == old@.len() && forall|k: int| 0 <= k < old@.len() ==> (#[trigger] base@[k]).0 == old@[k].0 && base@[k].1@ == old@[k].1@,
            m <= base@.len(),
            out@.len() == m,
            forall|k: int| 0 <= k < m ==> (#[trigger] out@[k]).0 == base@[k].0
                && out@[k].1@.to_set() == base@[k].1@.to_set().union(fids@.to_set()),
            forall|k: int| 0 <= k < m ==> ids_increasing((#[trigger] out@[k]).1@),
        decreases base.len() - m,
    {
        let mut fs = base[m].1.clone();
        proof {
            assert(fs@ =~= base@[m as int].1@);
            if old@.len() > 0 {
                assert(base@[m as int].1@ == old@[m as int].1@);
            } else {
                assert(fs@ =~= Seq::<FeatureId>::empty());
            }
        }
        let ghost start = fs@;
        let mut j: usize = 0;
        while j < fids.len()
            invariant
                j <= fids@.len(),
                ids_increasing(fs@),
                forall|x: FeatureId| #[trigger] fs@.contains(x) <==> start.contains(x) || fids@.take(j as int).contains(x),
            decreases fids.len() - j,
        {
            add_id(&mut fs, fids[j]);
            proof {
                assert(fids@.take(j as int + 1) =~= fids@.take(j as int).push(fids@[j as int]));
                assert forall|x: FeatureId| #[trigger] fs@.contains(x) <==> start.contains(x) || fids@.take(j as int + 1).contains(x) by {
                    let a = fids@.take(j as int);
                    let b = a.push(fids@[j as int]);
                    if b.contains(x) && x != fids@[j as int] {
                        let k = choose|k: int| 0 <= k < b.len() && #[trigger] b[k] == x;
                        assert(a[k] == x);
                    }
                    if a.contains(x) {
                        let k = choose|k: int| 0 <= k < a.len() && #[trigger] a[k] == x;
                        assert(b[k] == x);
                    }
                    if x == fids@[j as int] {
                        assert(b[j as int] == x);
                    }
                }
            }
            j += 1;
        }
        proof {
            assert(fids@.take(fids@.len() as int) =~= fids@);
            assert(fs@.to_set() =~= start.to_set().union(fids@.to_set()));
        }
        out.push((base[m].0, fs));
        m += 1;
    }
    out
}

} // verus!
