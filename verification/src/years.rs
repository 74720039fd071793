//! Years on a line without year zero (1 BC is followed by AD 1), and
//! the era sweep that turns dated spans into the moments a layer
//! changes at: each span's first year and the year after its last.

use vstd::prelude::*;
use crate::text::{concat2, concat3, decimal, decimal_text};

verus! {

/// What a compile pass produced.
#[derive(Clone, Debug, PartialEq)]
pub struct CompileReport {
    pub polity_eras: usize,
    pub routes: usize,
}

impl Default for CompileReport {
    fn default() -> (r: CompileReport)
        ensures
            r.polity_eras == 0,
            r.routes == 0,
    {
        CompileReport { polity_eras: 0, routes: 0 }
    }
}

/// The year after `y`, minding the missing year zero.
pub open spec fn spec_year_after(y: int) -> int {
    if y == -1 {
        1
    } else {
        y + 1
    }
}

/// The year after `y`, minding the missing year zero.
pub fn year_after(y: i32) -> (r: i32)
    requires
        y < i32::MAX,
    ensures
        r == spec_year_after(y as int),
{
    if y == -1 {
        1
    } else {
        y + 1
    }
}

/// A year's place on the gapless index line: AD 1 is 0, 1 BC is -1.
pub open spec fn spec_year_index(y: int) -> int {
    if y > 0 {
        y - 1
    } else {
        y
    }
}

/// A year's place on the gapless index line: AD 1 is 0, 1 BC is -1.
pub fn year_index(y: i32) -> (r: i32)
    ensures
        r == spec_year_index(y as int),
{
    if y > 0 {
        y - 1
    } else {
        y
    }
}

/// The year after is one step along the index line, for every real
/// (nonzero) year.
pub proof fn law_year_after_steps_once(y: int)
    requires
        y != 0,
    ensures
        spec_year_index(spec_year_after(y)) == spec_year_index(y) + 1,
        spec_year_after(y) != 0,
{
}

// --------------------------------------------------------- era sweep

/// The spans live in year `e`, by index in ascending order.
pub open spec fn live_indices(spans: Seq<(i32, i32)>, e: int) -> Seq<usize>
    decreases spans.len(),
{
    if spans.len() == 0 {
        Seq::empty()
    } else {
        let p = live_indices(spans.drop_last(), e);
        let (from, to) = spans.last();
        if from <= e && e <= to {
            p.push((spans.len() - 1) as usize)
        } else {
            p
        }
    }
}

/// A year a layer changes at: some span's first year, or the year after
/// some span's last.
pub open spec fn is_edge(spans: Seq<(i32, i32)>, e: int) -> bool {
    exists|i: int| 0 <= i < spans.len() && (spans[i].0 == e || spec_year_after(spans[i].1 as int) == e)
}

/// THE WORLD CHANGES EXACTLY AT ERA EDGES: from an edge up to (not
/// including) the next one, the same spans are live, for every real
/// (nonzero) year in between.
pub proof fn law_live_only_changes_at_edges(spans: Seq<(i32, i32)>, e: int, t: int)
    requires
        e <= t,
        t != 0,
        forall|x: int| e < x <= t ==> !is_edge(spans, x),
    ensures
        live_indices(spans, t) == live_indices(spans, e),
    decreases spans.len(),
{
    if spans.len() > 0 {
        let q = spans.drop_last();
        assert forall|x: int| e < x <= t implies !is_edge(q, x) by {
            if is_edge(q, x) {
                let i = choose|i: int| 0 <= i < q.len() && (q[i].0 == x || spec_year_after(q[i].1 as int) == x);
                assert(spans[i] == q[i]);
                assert(is_edge(spans, x));
            }
        }
        law_live_only_changes_at_edges(q, e, t);
        let (from, to) = spans.last();
        let i = spans.len() - 1;
        assert(spans[i] == (from, to));
        if from <= t && t <= to && !(from <= e && e <= to) {
            assert(is_edge(spans, from as int));
        }
        if from <= e && e <= to && !(from <= t && t <= to) {
            assert(is_edge(spans, spec_year_after(to as int)));
        }
    }
}

fn insert_edge(edges: &mut Vec<i32>, x: i32)
    requires
        forall|a: int, b: int| 0 <= a < b < old(edges)@.len() ==> old(edges)@[a] < old(edges)@[b],
    ensures
        forall|a: int, b: int| 0 <= a < b < final(edges)@.len() ==> final(edges)@[a] < final(edges)@[b],
        final(edges)@.to_set() == old(edges)@.to_set().insert(x),
{
    let mut p: usize = 0;
    while p < edges.len() && edges[p] < x
        invariant
            edges@ == old(edges)@,
            p <= edges@.len(),
            forall|j: int| 0 <= j < p ==> edges@[j] < x,
        decreases edges@.len() - p,
    {
        p += 1;
    }
    if p < edges.len() && edges[p] == x {
        assert(edges@[p as int] == x);
        assert(edges@.to_set() =~= edges@.to_set().insert(x));
        return;
    }
    let ghost before = edges@;
    edges.insert(p, x);
    proof {
        assert forall|j: int| p <= j < before.len() implies x < #[trigger] before[j] by {
            assert(before[p as int] >= x);
            if j > p {
                assert(before[p as int] < before[j]);
            }
        }
        assert forall|y: i32| edges@.contains(y) <==> before.contains(y) || y == x by {
            if edges@.contains(y) {
                let k = choose|k: int| 0 <= k < edges@.len() && edges@[k] == y;
                if k < p {
                    assert(before[k] == y);
                } else if k > p {
                    assert(before[k - 1] == y);
                }
            }
            if before.contains(y) {
                let k = choose|k: int| 0 <= k < before.len() && before[k] == y;
                if k < p {
                    assert(edges@[k] == y);
                } else {
                    assert(edges@[k + 1] == y);
                }
            }
            if y == x {
                assert(edges@[p as int] == x);
            }
        }
        assert forall|y: i32| #[trigger] edges@.to_set().contains(y) == before.to_set().insert(x).contains(y) by {
            assert(edges@.contains(y) <==> before.contains(y) || y == x);
        }
        assert(edges@.to_set() =~= before.to_set().insert(x));
    }
}

fn live_at(spans: &[(i32, i32)], e: i32) -> (out: Vec<usize>)
    ensures
        out@ == live_indices(spans@, e as int),
{
    let mut out: Vec<usize> = Vec::new();
    let mut i: usize = 0;
    while i < spans.len()
        invariant
            i <= spans@.len(),
            out@ == live_indices(spans@.take(i as int), e as int),
        decreases spans@.len() - i,
    {
        proof {
            assert(spans@.take(i + 1).drop_last() =~= spans@.take(i as int));
            assert(spans@.take(i + 1).last() == spans@[i as int]);
        }
        let (from, to) = spans[i];
        if from <= e && e <= to {
            out.push(i);
        }
        i += 1;
    }
    proof {
        assert(spans@.take(spans@.len() as int) =~= spans@);
    }
    out
}

/// The moments a layer changes at, in year order, each with the spans
/// live from then on: every span's first year and the year after its
/// last.
pub fn era_moments(spans: &[(i32, i32)]) -> (out: Vec<(i32, Vec<usize>)>)
    requires
        forall|i: int| 0 <= i < spans@.len() ==> (#[trigger] spans@[i]).1 < i32::MAX,
    ensures
        forall|a: int, b: int| 0 <= a < b < out@.len() ==> out@[a].0 < out@[b].0,
        forall|e: i32| (exists|k: int| 0 <= k < out@.len() && out@[k].0 == e) <==> is_edge(spans@, e as int),
        forall|k: int| 0 <= k < out@.len() ==> (#[trigger] out@[k]).1@ == live_indices(spans@, out@[k].0 as int),
{
    let mut edges: Vec<i32> = Vec::new();
    let mut i: usize = 0;
    while i < spans.len()
        invariant
            i <= spans@.len(),
            forall|j: int| 0 <= j < spans@.len() ==> (#[trigger] spans@[j]).1 < i32::MAX,
            forall|a: int, b: int| 0 <= a < b < edges@.len() ==> edges@[a] < edges@[b],
            forall|y: i32| edges@.contains(y) <==> is_edge(spans@.take(i as int), y as int),
        decreases spans@.len() - i,
    {
        let (from, to) = spans[i];
        let ghost before = edges@;
        insert_edge(&mut edges, from);
        let after = year_after(to);
        insert_edge(&mut edges, after);
        proof {
            assert forall|y: i32| edges@.contains(y) <==> before.contains(y) || y == from || y == after by {
                assert(edges@.to_set().contains(y) == edges@.contains(y));
                assert(before.to_set().contains(y) == before.contains(y));
            }
            assert forall|y: i32| edges@.contains(y) <==> is_edge(spans@.take(i + 1), y as int) by {
                let t1 = spans@.take(i + 1);
                assert(t1[i as int] == (from, to));
                if is_edge(t1, y as int) {
                    let j = choose|j: int| 0 <= j < t1.len() && (t1[j].0 == y || spec_year_after(t1[j].1 as int) == y);
                    if j < i {
                        assert(spans@.take(i as int)[j] == t1[j]);
                        assert(is_edge(spans@.take(i as int), y as int));
                    }
                }
                if before.contains(y) {
                    let j = choose|j: int| 0 <= j < i && (spans@.take(i as int)[j].0 == y
                        || spec_year_after(spans@.take(i as int)[j].1 as int) == y);
                    assert(t1[j] == spans@.take(i as int)[j]);
                }
            }
        }
        i += 1;
    }
    proof {
        assert(spans@.take(spans@.len() as int) =~= spans@);
    }
    let mut out: Vec<(i32, Vec<usize>)> = Vec::new();
    let mut k: usize = 0;
    while k < edges.len()
        invariant
            k <= edges@.len(),
            out@.len() == k,
            forall|a: int| 0 <= a < k ==> (#[trigger] out@[a]).0 == edges@[a],
            forall|a: int| 0 <= a < k ==> (#[trigger] out@[a]).1@ == live_indices(spans@, out@[a].0 as int),
        decreases edges@.len() - k,
    {
        let e = edges[k];
        let live = live_at(spans, e);
        out.push((e, live));
        k += 1;
    }
    proof {
        assert forall|e: i32| (exists|k: int| 0 <= k < out@.len() && out@[k].0 == e) <==> is_edge(spans@, e as int) by {
            if exists|k: int| 0 <= k < out@.len() && out@[k].0 == e {
                let k = choose|k: int| 0 <= k < out@.len() && out@[k].0 == e;
                assert(edges@[k] == e);
                assert(edges@.contains(e));
            }
            if is_edge(spans@, e as int) {
                assert(edges@.contains(e));
                let k = choose|k: int| 0 <= k < edges@.len() && edges@[k] == e;
                assert(out@[k].0 == e);
            }
        }
    }
    out
}

/// What a polity era row owes before it can stand in the Territory
/// layer: an era that does not run backward, and rings of at least
/// three points — or the offending row, named.
pub open spec fn polity_problem(id: Seq<char>, from_year: i32, to_year: i32, ring_sizes: Seq<usize>) -> Option<Seq<char>> {
    if to_year < from_year {
        Some("polity '"@ + id + "': era runs backward"@)
    } else if exists|k: int| 0 <= k < ring_sizes.len() && #[trigger] ring_sizes[k] < 3 {
        Some("polity '"@ + id + "': a ring with "@ + decimal_text(ring_sizes[first_short(ring_sizes)] as nat) + " points"@)
    } else {
        None
    }
}

/// The first ring with fewer than three points.
pub open spec fn first_short(sizes: Seq<usize>) -> int {
    choose|k: int| 0 <= k < sizes.len() && #[trigger] sizes[k] < 3 && forall|j: int| 0 <= j < k ==> sizes[j] >= 3
}

/// Check a polity era row: its era and the sizes of its rings.
pub fn check_polity(id: &str, from_year: i32, to_year: i32, ring_sizes: &Vec<usize>) -> (r: Result<(), String>)
    ensures
        match r {
            Ok(()) => polity_problem(id@, from_year, to_year, ring_sizes@) is None,
            Err(m) => polity_problem(id@, from_year, to_year, ring_sizes@) == Some(m@),
        },
{
    if to_year < from_year {
        let head = concat3("polity '", id, "': era runs backward");
        return Err(head);
    }
    let mut k: usize = 0;
    while k < ring_sizes.len()
        invariant
            !(to_year < from_year),
            k <= ring_sizes@.len(),
            forall|j: int| 0 <= j < k ==> ring_sizes@[j] >= 3,
        decreases ring_sizes.len() - k,
    {
        if ring_sizes[k] < 3 {
            let head = concat3("polity '", id, "': a ring with ");
            let n = decimal(ring_sizes[k]);
            let tail = concat2(n.as_str(), " points");
            let msg = concat2(head.as_str(), tail.as_str());
            proof {
                assert(ring_sizes@[k as int] < 3);
                assert(0 <= k < ring_sizes@.len() && ring_sizes@[k as int] < 3 && forall|j: int| 0 <= j < k ==> ring_sizes@[j] >= 3);
                let c = first_short(ring_sizes@);
                if c < k {
                    assert(ring_sizes@[c] >= 3);
                } else if c > k {
                    assert(ring_sizes@[k as int] >= 3);
                }
                assert(c == k);
                assert(msg@ =~= "polity '"@ + id@ + "': a ring with "@ + decimal_text(ring_sizes@[c] as nat) + " points"@);
            }
            return Err(msg);
        }
        k += 1;
    }
    Ok(())
}

} // verus!
