//! The scrubber's change events, derived from moment diffs per layer:
//! an entity appearing is a Rise (a way's, a Journey), a vanishing one
//! a Fall, a changed body a Shift — all in time order, layer order
//! kept among events of one moment.

use vstd::prelude::*;
use vstd::relations::{sorted_by, total_ordering};
use crate::canon::{clone_id, EntityId, LayerKind};
use crate::canon_check::{feature_of, snapshot_of, CanonIndex, FeatureId, Shape};
use crate::idmap::{lemma_seq_to_map, lemma_sorted_assoc_unique, seq_to_map, strictly_sorted, IdMap};
use crate::sorting::lemma_sorted_insert;
use crate::world::{before, lemma_before_total_order, precedes, SnapshotId, TimePoint};

verus! {

/// What happened to an entity at a moment.
#[derive(Clone, Copy, Debug, PartialEq, Eq, Structural)]
pub enum ChangeKind {
    Rise,
    Journey,
    Shift,
    Fall,
}

/// One change event.
#[derive(Debug, PartialEq)]
pub struct Change {
    pub at: TimePoint,
    pub layer: LayerKind,
    pub kind: ChangeKind,
    pub entity: EntityId,
}

impl View for Change {
    type V = (TimePoint, LayerKind, ChangeKind, Seq<char>);

    open spec fn view(&self) -> (TimePoint, LayerKind, ChangeKind, Seq<char>) {
        (self.at, self.layer, self.kind, self.entity@)
    }
}

pub open spec fn change_views(cs: Seq<Change>) -> Seq<(TimePoint, LayerKind, ChangeKind, Seq<char>)> {
    cs.map_values(|c: Change| c@)
}

fn clone_change(c: &Change) -> (r: Change)
    ensures
        r@ == c@,
{
    Change { at: c.at, layer: c.layer, kind: c.kind, entity: clone_id(&c.entity) }
}

// ------------------------------------------------------------ states

/// Who is present in the first `n` features of a snapshot, and as
/// which feature: a later feature of an entity replaces an earlier one.
pub open spec fn entity_map(ix: &CanonIndex, fs: Seq<FeatureId>, n: int) -> Map<Seq<char>, u64>
    decreases n,
{
    if n <= 0 {
        Map::empty()
    } else {
        match feature_of(ix, fs[n - 1]) {
            Some(f) => entity_map(ix, fs, n - 1).insert(f.entity@, fs[n - 1].0),
            None => entity_map(ix, fs, n - 1),
        }
    }
}

/// Who is present at a moment whose snapshot is `sid` (no one when the
/// snapshot is not stored).
pub open spec fn state_of(ix: &CanonIndex, sid: SnapshotId) -> Map<Seq<char>, u64> {
    match snapshot_of(ix, sid) {
        Some(fs) => entity_map(ix, fs, fs.len() as int),
        None => Map::empty(),
    }
}

/// A state's entries in entity order.
pub open spec fn sorted_pairs(m: Map<Seq<char>, u64>) -> Seq<(Seq<char>, u64)> {
    choose|s: Seq<(Seq<char>, u64)>| strictly_sorted(s) && seq_to_map(s) == m
}

/// Whether the feature stored under `fid` is a way.
pub open spec fn is_way(ix: &CanonIndex, fid: u64) -> bool {
    match feature_of(ix, FeatureId(fid)) {
        Some(f) => f.shape is Way,
        None => false,
    }
}

/// The entities of the first `n` present entries that are new (Rise,
/// or Journey for a way) or changed body (Shift).
pub open spec fn arrivals(
    ix: &CanonIndex,
    layer: LayerKind,
    at: TimePoint,
    prev: Map<Seq<char>, u64>,
    ps: Seq<(Seq<char>, u64)>,
    n: int,
) -> Seq<(TimePoint, LayerKind, ChangeKind, Seq<char>)>
    decreases n,
{
    if n <= 0 {
        Seq::empty()
    } else {
        let (e, fid) = ps[n - 1];
        arrivals(ix, layer, at, prev, ps, n - 1) + if !prev.contains_key(e) {
            seq![(at, layer, if is_way(ix, fid) { ChangeKind::Journey } else { ChangeKind::Rise }, e)]
        } else if prev[e] != fid {
            seq![(at, layer, ChangeKind::Shift, e)]
        } else {
            Seq::empty()
        }
    }
}

/// The entities of the first `n` earlier entries that are gone (Fall).
pub open spec fn departures(
    layer: LayerKind,
    at: TimePoint,
    ps: Seq<(Seq<char>, u64)>,
    now: Map<Seq<char>, u64>,
    n: int,
) -> Seq<(TimePoint, LayerKind, ChangeKind, Seq<char>)>
    decreases n,
{
    if n <= 0 {
        Seq::empty()
    } else {
        departures(layer, at, ps, now, n - 1) + if now.contains_key(ps[n - 1].0) {
            Seq::empty()
        } else {
            seq![(at, layer, ChangeKind::Fall, ps[n - 1].0)]
        }
    }
}

/// One moment's changes: arrivals in entity order, then departures in
/// entity order.
pub open spec fn moment_changes(
    ix: &CanonIndex,
    layer: LayerKind,
    at: TimePoint,
    prev: Map<Seq<char>, u64>,
    now: Map<Seq<char>, u64>,
) -> Seq<(TimePoint, LayerKind, ChangeKind, Seq<char>)> {
    let a = sorted_pairs(now);
    let b = sorted_pairs(prev);
    arrivals(ix, layer, at, prev, a, a.len() as int) + departures(layer, at, b, now, b.len() as int)
}

/// The state before moment `k` of a layer (no one before the first).
pub open spec fn state_before(ix: &CanonIndex, ms: Seq<(TimePoint, SnapshotId)>, k: int) -> Map<Seq<char>, u64> {
    if k <= 0 {
        Map::empty()
    } else {
        state_of(ix, ms[k - 1].1)
    }
}

/// The changes of the first `n` moments of a layer.
pub open spec fn layer_changes(ix: &CanonIndex, layer: LayerKind, ms: Seq<(TimePoint, SnapshotId)>, n: int) -> Seq<(TimePoint, LayerKind, ChangeKind, Seq<char>)>
    decreases n,
{
    if n <= 0 {
        Seq::empty()
    } else {
        layer_changes(ix, layer, ms, n - 1) + moment_changes(ix, layer, ms[n - 1].0, state_before(ix, ms, n - 1), state_of(ix, ms[n - 1].1))
    }
}

/// The changes of the first `n` layers, layer after layer.
pub open spec fn all_changes(ix: &CanonIndex, n: int) -> Seq<(TimePoint, LayerKind, ChangeKind, Seq<char>)>
    decreases n,
{
    if n <= 0 {
        Seq::empty()
    } else {
        let (layer, world) = ix.layers@[n - 1];
        all_changes(ix, n - 1) + layer_changes(ix, layer, world.entries(), world.entries().len() as int)
    }
}

/// Change `i` goes before change `j`: earlier, or as early and listed
/// first.
pub open spec fn time_first(cs: Seq<(TimePoint, LayerKind, ChangeKind, Seq<char>)>, i: int, j: int) -> bool {
    before(cs[i].0, cs[j].0) || (cs[i].0 == cs[j].0 && i <= j)
}

pub open spec fn time_order(cs: Seq<(TimePoint, LayerKind, ChangeKind, Seq<char>)>) -> spec_fn(int, int) -> bool {
    |i: int, j: int| time_first(cs, i, j)
}

/// The changes in time order, ties kept in the order listed.
pub open spec fn by_time(cs: Seq<(TimePoint, LayerKind, ChangeKind, Seq<char>)>) -> Seq<(TimePoint, LayerKind, ChangeKind, Seq<char>)> {
    Seq::new(cs.len(), |i: int| i).sort_by(time_order(cs)).map_values(|i: int| cs[i])
}

/// Every layer's changes, in time order.
pub open spec fn derived_changes(ix: &CanonIndex) -> Seq<(TimePoint, LayerKind, ChangeKind, Seq<char>)> {
    by_time(all_changes(ix, ix.layers@.len() as int))
}

proof fn lemma_sorted_pairs(m: IdMap<u64>)
    requires
        m.wf(),
    ensures
        sorted_pairs(m.to_map()) == m.pairs(),
{
    let s = sorted_pairs(m.to_map());
    assert(strictly_sorted(m.pairs()) && seq_to_map(m.pairs()) == m.to_map());
    lemma_sorted_assoc_unique(s, m.pairs());
}

proof fn lemma_time_order_total(cs: Seq<(TimePoint, LayerKind, ChangeKind, Seq<char>)>)
    ensures
        total_ordering(time_order(cs)),
{
    lemma_before_total_order();
    let r = time_order(cs);
    assert forall|x: int| #[trigger] r(x, x) by {}
    assert forall|x: int, y: int| #[trigger] r(x, y) && #[trigger] r(y, x) implies x == y by {}
    assert forall|x: int, y: int, z: int| #[trigger] r(x, y) && #[trigger] r(y, z) implies r(x, z) by {}
    assert forall|x: int, y: int| #[trigger] r(x, y) || #[trigger] r(y, x) by {}
}

// ------------------------------------------------------------ exec

impl CanonIndex {
    /// Who is present at a moment whose snapshot is `sid`.
    fn entity_state(&self, sid: SnapshotId) -> (m: IdMap<u64>)
        requires
            self.wf(),
        ensures
            m.wf(),
            m.to_map() == state_of(self, sid),
    {
        let mut m: IdMap<u64> = IdMap::new();
        match self.snapshot_index(sid) {
            None => m,
            Some(si) => {
                let fs = &self.snapshots[si].1.features;
                let mut k: usize = 0;
                while k < fs.len()
                    invariant
                        self.wf(),
                        k <= fs@.len(),
                        m.wf(),
                        m.to_map() == entity_map(self, fs@, k as int),
                    decreases fs@.len() - k,
                {
                    let fid = fs[k];
                    match self.feature_index(fid) {
                        Some(fi) => {
                            m.set(clone_id(&self.features[fi].1.entity), fid.0);
                        },
                        None => {},
                    }
                    k += 1;
                }
                m
            },
        }
    }

    fn is_way_exec(&self, fid: u64) -> (r: bool)
        requires
            self.wf(),
        ensures
            r == is_way(self, fid),
    {
        match self.feature_index(FeatureId(fid)) {
            Some(fi) => match &self.features[fi].1.shape {
                Shape::Way { .. } => true,
                _ => false,
            },
            None => false,
        }
    }

    /// Appends one moment's changes.
    fn moment_changes_exec(
        &self,
        layer: LayerKind,
        at: TimePoint,
        prev: &IdMap<u64>,
        now: &IdMap<u64>,
        out: &mut Vec<Change>,
    )
        requires
            self.wf(),
            prev.wf(),
            now.wf(),
        ensures
            change_views(final(out)@) == change_views(old(out)@) + moment_changes(self, layer, at, prev.to_map(), now.to_map()),
    {
        proof {
            lemma_sorted_pairs(*prev);
            lemma_sorted_pairs(*now);
        }
        let ghost base = change_views(out@);
        let ghost a = now.pairs();
        let ghost b = prev.pairs();
        let ghost pm = prev.to_map();
        let ghost nm = now.to_map();
        let mut i: usize = 0;
        assert(change_views(out@) =~= base + arrivals(self, layer, at, pm, a, 0));
        while i < now.entries.len()
            invariant
                self.wf(),
                prev.wf(),
                now.wf(),
                a == now.pairs(),
                pm == prev.to_map(),
                i <= a.len(),
                change_views(out@) == base + arrivals(self, layer, at, pm, a, i as int),
            decreases a.len() - i,
        {
            let ghost pre = change_views(out@);
            let e = &now.entries[i].0;
            let fid = now.entries[i].1;
            assert(a[i as int] == (e@, fid));
            match prev.get(e.0.as_str()) {
                None => {
                    let kind = if self.is_way_exec(fid) { ChangeKind::Journey } else { ChangeKind::Rise };
                    out.push(Change { at, layer, kind, entity: clone_id(e) });
                    assert(change_views(out@) =~= pre.push((at, layer, kind, e@)));
                },
                Some(old) => {
                    if *old != fid {
                        out.push(Change { at, layer, kind: ChangeKind::Shift, entity: clone_id(e) });
                        assert(change_views(out@) =~= pre.push((at, layer, ChangeKind::Shift, e@)));
                    } else {
                        assert(change_views(out@) =~= pre);
                    }
                },
            }
            assert(change_views(out@) =~= base + arrivals(self, layer, at, pm, a, i + 1));
            i += 1;
        }
        let ghost mid = change_views(out@);
        let mut j: usize = 0;
        assert(change_views(out@) =~= mid + departures(layer, at, b, nm, 0));
        while j < prev.entries.len()
            invariant
                prev.wf(),
                now.wf(),
                b == prev.pairs(),
                nm == now.to_map(),
                j <= b.len(),
                change_views(out@) == mid + departures(layer, at, b, nm, j as int),
            decreases b.len() - j,
        {
            let ghost pre = change_views(out@);
            let e = &prev.entries[j].0;
            assert(b[j as int].0 == e@);
            match now.get(e.0.as_str()) {
                None => {
                    out.push(Change { at, layer, kind: ChangeKind::Fall, entity: clone_id(e) });
                    assert(change_views(out@) =~= pre.push((at, layer, ChangeKind::Fall, e@)));
                },
                Some(_) => {
                    assert(change_views(out@) =~= pre);
                },
            }
            assert(change_views(out@) =~= mid + departures(layer, at, b, nm, j + 1));
            j += 1;
        }
    }

    /// The scrubber's change events, derived from moment diffs per
    /// layer, in time order (layer order kept among simultaneous ones).
    pub fn derive_changes(&self) -> (out: Vec<Change>)
        requires
            self.wf(),
        ensures
            change_views(out@) == derived_changes(self),
    {
        let mut all: Vec<Change> = Vec::new();
        let mut l: usize = 0;
        assert(change_views(all@) =~= all_changes(self, 0));
        while l < self.layers.len()
            invariant
                self.wf(),
                l <= self.layers@.len(),
                change_views(all@) == all_changes(self, l as int),
            decreases self.layers@.len() - l,
        {
            let layer = self.layers[l].0;
            let ms = self.layers[l].1.moments();
            let ghost es = self.layers@[l as int].1.entries();
            let ghost acc = all_changes(self, l as int);
            let mut prev: IdMap<u64> = IdMap::new();
            let mut m: usize = 0;
            assert(change_views(all@) =~= acc + layer_changes(self, layer, es, 0));
            while m < ms.len()
                invariant
                    self.wf(),
                    l < self.layers@.len(),
                    layer == self.layers@[l as int].0,
                    es == self.layers@[l as int].1.entries(),
                    ms@ == es,
                    acc == all_changes(self, l as int),
                    m <= es.len(),
                    prev.wf(),
                    prev.to_map() == state_before(self, es, m as int),
                    change_views(all@) == acc + layer_changes(self, layer, es, m as int),
                decreases es.len() - m,
            {
                let (at, sid) = ms[m];
                let now = self.entity_state(sid);
                let ghost pre = change_views(all@);
                self.moment_changes_exec(layer, at, &prev, &now, &mut all);
                assert(change_views(all@) =~= acc + layer_changes(self, layer, es, m + 1));
                prev = now;
                m += 1;
            }
            assert(change_views(all@) =~= all_changes(self, l + 1));
            l += 1;
        }
        // stable sort by time
        let ghost cs = change_views(all@);
        let ghost leq = time_order(cs);
        proof {
            lemma_time_order_total(cs);
        }
        let n = all.len();
        let mut order: Vec<usize> = Vec::new();
        let mut k: usize = 0;
        proof {
            assert(order@.map_values(|i: usize| i as int) =~= Seq::new(n as nat, |i: int| i).take(0));
        }
        while k < n
            invariant
                n == all@.len(),
                cs == change_views(all@),
                leq == time_order(cs),
                total_ordering(leq),
                k <= n,
                forall|q: int| 0 <= q < order@.len() ==> (#[trigger] order@[q]) < k,
                sorted_by(order@.map_values(|i: usize| i as int), leq),
                order@.map_values(|i: usize| i as int).to_multiset() == Seq::new(n as nat, |i: int| i).take(k as int).to_multiset(),
            decreases n - k,
        {
            let ghost ov = order@.map_values(|i: usize| i as int);
            let mut p: usize = 0;
            while p < order.len() && (precedes(&all[order[p]].at, &all[k].at) || (all[order[p]].at == all[k].at && order[p] <= k))
                invariant
                    n == all@.len(),
                    cs == change_views(all@),
                    leq == time_order(cs),
                    ov == order@.map_values(|i: usize| i as int),
                    forall|q: int| 0 <= q < order@.len() ==> (#[trigger] order@[q]) < k,
                    k < n,
                    p <= order@.len(),
                    forall|j: int| 0 <= j < p ==> leq(#[trigger] ov[j], k as int),
                decreases order@.len() - p,
            {
                assert(cs[order@[p as int] as int] == all@[order@[p as int] as int]@);
                assert(cs[k as int] == all@[k as int]@);
                assert(ov[p as int] == order@[p as int] as int);
                p += 1;
            }
            proof {
                if p < order.len() {
                    assert(cs[order@[p as int] as int] == all@[order@[p as int] as int]@);
                    assert(cs[k as int] == all@[k as int]@);
                    assert(ov[p as int] == order@[p as int] as int);
                    assert(!leq(ov[p as int], k as int));
                }
                lemma_sorted_insert(ov, k as int, p as int, leq);
            }
            order.insert(p, k);
            proof {
                let nv = order@.map_values(|i: usize| i as int);
                assert(nv =~= ov.insert(p as int, k as int));
                vstd::seq_lib::to_multiset_insert(ov, p as int, k as int);
                let idx = Seq::new(n as nat, |i: int| i);
                assert(idx.take(k + 1) =~= idx.take(k as int).push(k as int));
                vstd::seq_lib::to_multiset_build(idx.take(k as int), k as int);
            }
            k += 1;
        }
        proof {
            let idx = Seq::new(n as nat, |i: int| i);
            assert(idx.take(n as int) =~= idx);
            idx.lemma_sort_by_ensures(leq);
            vstd::seq_lib::lemma_sorted_unique(order@.map_values(|i: usize| i as int), idx.sort_by(leq), leq);
        }
        let mut out: Vec<Change> = Vec::new();
        let mut q: usize = 0;
        while q < order.len()
            invariant
                n == all@.len(),
                cs == change_views(all@),
                forall|x: int| 0 <= x < order@.len() ==> (#[trigger] order@[x]) < n,
                q <= order@.len(),
                change_views(out@) == order@.take(q as int).map_values(|i: usize| cs[i as int]),
            decreases order@.len() - q,
        {
            let c = clone_change(&all[order[q]]);
            let ghost pre = change_views(out@);
            assert(cs[order@[q as int] as int] == all@[order@[q as int] as int]@);
            out.push(c);
            assert(change_views(out@) =~= pre.push(cs[order@[q as int] as int]));
            assert(change_views(out@) =~= order@.take(q + 1).map_values(|i: usize| cs[i as int]));
            q += 1;
        }
        proof {
            assert(order@.take(order@.len() as int) =~= order@);
            let idx = Seq::new(n as nat, |i: int| i);
            assert(change_views(out@) =~= idx.sort_by(leq).map_values(|i: int| cs[i]));
        }
        out
    }
}

// ------------------------------------------------------------ between

/// The changes strictly after the earlier instant and at or before
/// the later one, in the order given.
pub open spec fn between(cs: Seq<(TimePoint, LayerKind, ChangeKind, Seq<char>)>, from: TimePoint, to: TimePoint) -> Seq<(TimePoint, LayerKind, ChangeKind, Seq<char>)> {
    let lo = if before(to, from) { to } else { from };
    let hi = if before(to, from) { from } else { to };
    cs.filter(|c: (TimePoint, LayerKind, ChangeKind, Seq<char>)| before(lo, c.0) && !before(hi, c.0))
}

/// The changes a transition from one instant to another passes: after
/// the earlier instant, up to and including the later.
pub fn changes_between(events: &[Change], from: TimePoint, to: TimePoint) -> (out: Vec<Change>)
    ensures
        change_views(out@) == between(change_views(events@), from, to),
{
    let (lo, hi) = if precedes(&to, &from) { (to, from) } else { (from, to) };
    let ghost cs = change_views(events@);
    let ghost f = |c: (TimePoint, LayerKind, ChangeKind, Seq<char>)| before(lo, c.0) && !before(hi, c.0);
    let mut out: Vec<Change> = Vec::new();
    let mut i: usize = 0;
    while i < events.len()
        invariant
            cs == change_views(events@),
            f == (|c: (TimePoint, LayerKind, ChangeKind, Seq<char>)| before(lo, c.0) && !before(hi, c.0)),
            i <= events@.len(),
            change_views(out@) == cs.take(i as int).filter(f),
        decreases events@.len() - i,
    {
        proof {
            reveal_with_fuel(Seq::<_>::filter, 1);
            assert(cs.take(i + 1).drop_last() =~= cs.take(i as int));
        }
        let ghost pre = change_views(out@);
        assert(cs[i as int] == events@[i as int]@);
        if precedes(&lo, &events[i].at) && !precedes(&hi, &events[i].at) {
            out.push(clone_change(&events[i]));
            assert(change_views(out@) =~= pre.push(cs[i as int]));
        } else {
            assert(change_views(out@) =~= pre);
        }
        i += 1;
    }
    proof {
        assert(cs.take(cs.len() as int) =~= cs);
    }
    out
}

// ------------------------------------------------ the changes tell all

/// Whether `cs` holds a change of kind `k` to entity `e`.
pub open spec fn has_change(cs: Seq<(TimePoint, LayerKind, ChangeKind, Seq<char>)>, k: ChangeKind, e: Seq<char>) -> bool {
    exists|i: int| 0 <= i < cs.len() && (#[trigger] cs[i]).2 == k && cs[i].3 == e
}

proof fn lemma_has_change_concat(a: Seq<(TimePoint, LayerKind, ChangeKind, Seq<char>)>, b: Seq<(TimePoint, LayerKind, ChangeKind, Seq<char>)>, k: ChangeKind, e: Seq<char>)
    ensures
        has_change(a + b, k, e) <==> has_change(a, k, e) || has_change(b, k, e),
{
    let c = a + b;
    if has_change(c, k, e) {
        let i = choose|i: int| 0 <= i < c.len() && (#[trigger] c[i]).2 == k && c[i].3 == e;
        if i < a.len() {
            assert(a[i] == c[i]);
        } else {
            assert(b[i - a.len()] == c[i]);
        }
    }
    if has_change(a, k, e) {
        let i = choose|i: int| 0 <= i < a.len() && (#[trigger] a[i]).2 == k && a[i].3 == e;
        assert(c[i] == a[i]);
    }
    if has_change(b, k, e) {
        let i = choose|i: int| 0 <= i < b.len() && (#[trigger] b[i]).2 == k && b[i].3 == e;
        assert(c[a.len() + i] == b[i]);
    }
}

proof fn lemma_arrivals(
    ix: &CanonIndex,
    layer: LayerKind,
    at: TimePoint,
    prev: Map<Seq<char>, u64>,
    ps: Seq<(Seq<char>, u64)>,
    n: int,
    e: Seq<char>,
)
    requires
        0 <= n <= ps.len(),
    ensures
        has_change(arrivals(ix, layer, at, prev, ps, n), ChangeKind::Rise, e)
            || has_change(arrivals(ix, layer, at, prev, ps, n), ChangeKind::Journey, e)
            <==> exists|i: int| 0 <= i < n && (#[trigger] ps[i]).0 == e && !prev.contains_key(e),
        has_change(arrivals(ix, layer, at, prev, ps, n), ChangeKind::Shift, e)
            <==> exists|i: int| 0 <= i < n && (#[trigger] ps[i]).0 == e && prev.contains_key(e) && prev[e] != ps[i].1,
        !has_change(arrivals(ix, layer, at, prev, ps, n), ChangeKind::Fall, e),
    decreases n,
{
    if n > 0 {
        lemma_arrivals(ix, layer, at, prev, ps, n - 1, e);
        let a = arrivals(ix, layer, at, prev, ps, n - 1);
        let (x, fid) = ps[n - 1];
        let t = if !prev.contains_key(x) {
            seq![(at, layer, if is_way(ix, fid) { ChangeKind::Journey } else { ChangeKind::Rise }, x)]
        } else if prev[x] != fid {
            seq![(at, layer, ChangeKind::Shift, x)]
        } else {
            Seq::empty()
        };
        assert(arrivals(ix, layer, at, prev, ps, n) == a + t);
        lemma_has_change_concat(a, t, ChangeKind::Rise, e);
        lemma_has_change_concat(a, t, ChangeKind::Journey, e);
        lemma_has_change_concat(a, t, ChangeKind::Shift, e);
        lemma_has_change_concat(a, t, ChangeKind::Fall, e);
        if t.len() > 0 {
            assert(t[0] == t[0]);
        }
        if exists|i: int| 0 <= i < n && (#[trigger] ps[i]).0 == e && !prev.contains_key(e) {
            let i = choose|i: int| 0 <= i < n && (#[trigger] ps[i]).0 == e && !prev.contains_key(e);
            if i == n - 1 {
                assert(t[0].3 == e);
            }
        }
        if exists|i: int| 0 <= i < n && (#[trigger] ps[i]).0 == e && prev.contains_key(e) && prev[e] != ps[i].1 {
            let i = choose|i: int| 0 <= i < n && (#[trigger] ps[i]).0 == e && prev.contains_key(e) && prev[e] != ps[i].1;
            if i == n - 1 {
                assert(t[0].3 == e);
            }
        }
    }
}

proof fn lemma_departures(
    layer: LayerKind,
    at: TimePoint,
    ps: Seq<(Seq<char>, u64)>,
    now: Map<Seq<char>, u64>,
    n: int,
    e: Seq<char>,
)
    requires
        0 <= n <= ps.len(),
    ensures
        has_change(departures(layer, at, ps, now, n), ChangeKind::Fall, e)
            <==> exists|i: int| 0 <= i < n && (#[trigger] ps[i]).0 == e && !now.contains_key(e),
        !has_change(departures(layer, at, ps, now, n), ChangeKind::Rise, e),
        !has_change(departures(layer, at, ps, now, n), ChangeKind::Journey, e),
        !has_change(departures(layer, at, ps, now, n), ChangeKind::Shift, e),
    decreases n,
{
    if n > 0 {
        lemma_departures(layer, at, ps, now, n - 1, e);
        let a = departures(layer, at, ps, now, n - 1);
        let t = if now.contains_key(ps[n - 1].0) {
            Seq::empty()
        } else {
            seq![(at, layer, ChangeKind::Fall, ps[n - 1].0)]
        };
        assert(departures(layer, at, ps, now, n) == a + t);
        lemma_has_change_concat(a, t, ChangeKind::Rise, e);
        lemma_has_change_concat(a, t, ChangeKind::Journey, e);
        lemma_has_change_concat(a, t, ChangeKind::Shift, e);
        lemma_has_change_concat(a, t, ChangeKind::Fall, e);
        if exists|i: int| 0 <= i < n && (#[trigger] ps[i]).0 == e && !now.contains_key(e) {
            let i = choose|i: int| 0 <= i < n && (#[trigger] ps[i]).0 == e && !now.contains_key(e);
            if i == n - 1 {
                assert(t[0].3 == e);
            }
        }
    }
}

/// The changes of a moment tell its whole difference from the moment
/// before: an entity that appears has a Rise (a Journey, for a way), one
/// that vanishes has a Fall, one whose body changed has a Shift — and
/// nothing else has any.
pub proof fn law_changes_tell_the_difference(
    ix: &CanonIndex,
    layer: LayerKind,
    at: TimePoint,
    prev: IdMap<u64>,
    now: IdMap<u64>,
    e: Seq<char>,
)
    requires
        prev.wf(),
        now.wf(),
    ensures
        ({
            let p = prev.to_map();
            let n = now.to_map();
            let cs = moment_changes(ix, layer, at, p, n);
            &&& (has_change(cs, ChangeKind::Rise, e) || has_change(cs, ChangeKind::Journey, e))
                <==> (n.contains_key(e) && !p.contains_key(e))
            &&& has_change(cs, ChangeKind::Fall, e) <==> (p.contains_key(e) && !n.contains_key(e))
            &&& has_change(cs, ChangeKind::Shift, e) <==> (p.contains_key(e) && n.contains_key(e) && p[e] != n[e])
        }),
{
    let p = prev.to_map();
    let n = now.to_map();
    lemma_sorted_pairs(prev);
    lemma_sorted_pairs(now);
    lemma_seq_to_map(prev.pairs());
    lemma_seq_to_map(now.pairs());
    let a = now.pairs();
    let b = prev.pairs();
    lemma_arrivals(ix, layer, at, p, a, a.len() as int, e);
    lemma_departures(layer, at, b, n, b.len() as int, e);
    let x = arrivals(ix, layer, at, p, a, a.len() as int);
    let y = departures(layer, at, b, n, b.len() as int);
    lemma_has_change_concat(x, y, ChangeKind::Rise, e);
    lemma_has_change_concat(x, y, ChangeKind::Journey, e);
    lemma_has_change_concat(x, y, ChangeKind::Shift, e);
    lemma_has_change_concat(x, y, ChangeKind::Fall, e);
    if n.contains_key(e) {
        let i = choose|i: int| 0 <= i < a.len() && (#[trigger] a[i]).0 == e;
        assert(n[a[i].0] == a[i].1);
    }
    if exists|i: int| 0 <= i < a.len() && (#[trigger] a[i]).0 == e && p.contains_key(e) && p[e] != a[i].1 {
        let i = choose|i: int| 0 <= i < a.len() && (#[trigger] a[i]).0 == e && p.contains_key(e) && p[e] != a[i].1;
        assert(n[a[i].0] == a[i].1);
    }
    if p.contains_key(e) {
        let i = choose|i: int| 0 <= i < b.len() && (#[trigger] b[i]).0 == e;
    }
}

} // verus!
