//! The canon's references and their fail-loud validator. Identity is
//! content: borders, features and snapshots are stored under their
//! content ids, layers hold worlds of moments, and every law of the
//! canon is checked — closed references, legs that run forward in
//! time, and no two territorial claims on the same ground at one
//! moment. (Whether two areas' rings overlap is a question for the
//! geometry; the validator is handed the overlapping pairs.)

use vstd::prelude::*;
use crate::canon::{clone_id, EntityId, LayerKind, Witness};
use crate::world::{before, precedes, SnapshotId, TimePoint, World};

verus! {

/// The content id of a border.
#[derive(Clone, Copy, Debug, PartialEq, Eq, Structural)]
pub struct BorderId(pub u64);

/// The content id of a feature.
#[derive(Clone, Copy, Debug, PartialEq, Eq, Structural)]
pub struct FeatureId(pub u64);

/// One leg of a journey as the canon references it: the border walked
/// and the span of time it was walked over.
#[derive(Clone, Copy, Debug, PartialEq, Eq, Structural)]
pub struct LegSpan {
    pub border: BorderId,
    pub from: TimePoint,
    pub to: TimePoint,
}

/// What a feature references, by kind.
#[derive(Debug)]
pub enum Shape {
    /// Rings and holes by border id, each set in id order.
    Area { rings: Vec<BorderId>, holes: Vec<BorderId> },
    /// A journey's legs, in walking order.
    Way { legs: Vec<LegSpan> },
    /// A named point: it references no border.
    Point,
}

/// One state of one layer's world: a set of features, in id order.
#[derive(Clone, Debug, PartialEq)]
pub struct Snapshot {
    pub features: Vec<FeatureId>,
}

/// A feature's entity, its display name and its references.
#[derive(Debug)]
pub struct FeatureRefs {
    pub entity: EntityId,
    pub name: String,
    pub shape: Shape,
}

/// The canon's references: the border ids held, the features and the
/// snapshots by id (each list in increasing id order, one entry per
/// id, each snapshot's features a set in id order), the layers' worlds
/// in layer order, and the witness each feature stands on, by id.
#[derive(Debug)]
pub struct CanonIndex {
    pub borders: Vec<BorderId>,
    pub features: Vec<(FeatureId, FeatureRefs)>,
    pub snapshots: Vec<(SnapshotId, Snapshot)>,
    pub layers: Vec<(LayerKind, World)>,
    pub witnesses: Vec<(FeatureId, Witness)>,
}

/// A law of the canon, broken.
#[derive(Clone, Debug, PartialEq)]
pub enum CanonViolation {
    UnresolvedSnapshot { layer: LayerKind, at: TimePoint, snapshot: SnapshotId },
    UnresolvedFeature { layer: LayerKind, snapshot: SnapshotId, feature: FeatureId },
    UnresolvedBorder { feature: FeatureId, border: BorderId },
    /// Two territorial claims on the same ground at the same moment.
    TerritorialOverlap { at: TimePoint, a: EntityId, b: EntityId },
    /// A leg whose span runs backward in time.
    BackwardLeg { feature: FeatureId, index: usize },
}

pub enum ViolationView {
    UnresolvedSnapshot { layer: LayerKind, at: TimePoint, snapshot: SnapshotId },
    UnresolvedFeature { layer: LayerKind, snapshot: SnapshotId, feature: FeatureId },
    UnresolvedBorder { feature: FeatureId, border: BorderId },
    TerritorialOverlap { at: TimePoint, a: Seq<char>, b: Seq<char> },
    BackwardLeg { feature: FeatureId, index: usize },
}

impl View for CanonViolation {
    type V = ViolationView;

    open spec fn view(&self) -> ViolationView {
        match self {
            CanonViolation::UnresolvedSnapshot { layer, at, snapshot } => ViolationView::UnresolvedSnapshot {
                layer: *layer,
                at: *at,
                snapshot: *snapshot,
            },
            CanonViolation::UnresolvedFeature { layer, snapshot, feature } => ViolationView::UnresolvedFeature {
                layer: *layer,
                snapshot: *snapshot,
                feature: *feature,
            },
            CanonViolation::UnresolvedBorder { feature, border } => ViolationView::UnresolvedBorder {
                feature: *feature,
                border: *border,
            },
            CanonViolation::TerritorialOverlap { at, a, b } => ViolationView::TerritorialOverlap {
                at: *at,
                a: a@,
                b: b@,
            },
            CanonViolation::BackwardLeg { feature, index } => ViolationView::BackwardLeg {
                feature: *feature,
                index: *index,
            },
        }
    }
}

pub open spec fn violation_views(v: Seq<CanonViolation>) -> Seq<ViolationView> {
    v.map_values(|x: CanonViolation| x@)
}

impl CanonIndex {
    /// One entry per id, in increasing id order.
    pub open spec fn wf(&self) -> bool {
        &&& forall|i: int, j: int| 0 <= i < j < self.borders@.len() ==> (#[trigger] self.borders@[i]).0 < (#[trigger] self.borders@[j]).0
        &&& forall|i: int, j: int| 0 <= i < j < self.features@.len() ==> (#[trigger] self.features@[i]).0.0 < (#[trigger] self.features@[j]).0.0
        &&& forall|i: int, j: int| 0 <= i < j < self.snapshots@.len() ==> (#[trigger] self.snapshots@[i]).0.0 < (#[trigger] self.snapshots@[j]).0.0
        &&& forall|l: int| 0 <= l < self.layers@.len() ==> (#[trigger] self.layers@[l]).1.wf()
        &&& forall|i: int, j: int| 0 <= i < j < self.witnesses@.len() ==> (#[trigger] self.witnesses@[i]).0.0 < (#[trigger] self.witnesses@[j]).0.0
    }
}

// ------------------------------------------------------------ lookups

/// The feature stored under `fid`, if any.
pub open spec fn feature_of(ix: &CanonIndex, fid: FeatureId) -> Option<&FeatureRefs> {
    if exists|i: int| 0 <= i < ix.features@.len() && (#[trigger] ix.features@[i]).0 == fid {
        Some(&ix.features@[choose|i: int| 0 <= i < ix.features@.len() && (#[trigger] ix.features@[i]).0 == fid].1)
    } else {
        None
    }
}

/// The feature set of the snapshot stored under `sid`, if any.
pub open spec fn snapshot_of(ix: &CanonIndex, sid: SnapshotId) -> Option<Seq<FeatureId>> {
    if exists|i: int| 0 <= i < ix.snapshots@.len() && (#[trigger] ix.snapshots@[i]).0 == sid {
        Some(ix.snapshots@[choose|i: int| 0 <= i < ix.snapshots@.len() && (#[trigger] ix.snapshots@[i]).0 == sid].1.features@)
    } else {
        None
    }
}

// ------------------------------------------------- what the laws say

/// The snapshot's features that the store lacks.
pub open spec fn unresolved_in(ix: &CanonIndex, layer: LayerKind, sid: SnapshotId, fs: Seq<FeatureId>, n: int) -> Seq<ViolationView>
    decreases n,
{
    if n <= 0 {
        Seq::empty()
    } else {
        unresolved_in(ix, layer, sid, fs, n - 1) + if feature_of(ix, fs[n - 1]) is None {
            seq![ViolationView::UnresolvedFeature { layer, snapshot: sid, feature: fs[n - 1] }]
        } else {
            Seq::empty()
        }
    }
}

/// The snapshot's features that the store holds, in snapshot order.
pub open spec fn resolved_in(ix: &CanonIndex, fs: Seq<FeatureId>, n: int) -> Seq<FeatureId>
    decreases n,
{
    if n <= 0 {
        Seq::empty()
    } else {
        resolved_in(ix, fs, n - 1) + if feature_of(ix, fs[n - 1]) is Some {
            seq![fs[n - 1]]
        } else {
            Seq::empty()
        }
    }
}

/// The snapshot's areas, with their entities, in snapshot order.
pub open spec fn areas_in(ix: &CanonIndex, fs: Seq<FeatureId>, n: int) -> Seq<(FeatureId, Seq<char>)>
    decreases n,
{
    if n <= 0 {
        Seq::empty()
    } else {
        areas_in(ix, fs, n - 1) + match feature_of(ix, fs[n - 1]) {
            Some(f) => if f.shape is Area {
                seq![(fs[n - 1], f.entity@)]
            } else {
                Seq::empty()
            },
            None => Seq::empty(),
        }
    }
}

/// Whether the geometry says the two features' areas overlap.
pub open spec fn overlapping(ov: Seq<(FeatureId, FeatureId)>, x: FeatureId, y: FeatureId) -> bool {
    ov.contains((x, y)) || ov.contains((y, x))
}

/// Area `i` against the areas after it, up to `n`.
pub open spec fn overlaps_with(areas: Seq<(FeatureId, Seq<char>)>, ov: Seq<(FeatureId, FeatureId)>, at: TimePoint, i: int, n: int) -> Seq<ViolationView>
    decreases n - i,
{
    if n <= i + 1 {
        Seq::empty()
    } else {
        overlaps_with(areas, ov, at, i, n - 1) + if overlapping(ov, areas[i].0, areas[n - 1].0) {
            seq![ViolationView::TerritorialOverlap { at, a: areas[i].1, b: areas[n - 1].1 }]
        } else {
            Seq::empty()
        }
    }
}

/// Every pair of areas whose first member is among the first `m`.
pub open spec fn overlaps_upto(areas: Seq<(FeatureId, Seq<char>)>, ov: Seq<(FeatureId, FeatureId)>, at: TimePoint, m: int) -> Seq<ViolationView>
    decreases m,
{
    if m <= 0 {
        Seq::empty()
    } else {
        overlaps_upto(areas, ov, at, m - 1) + overlaps_with(areas, ov, at, m - 1, areas.len() as int)
    }
}

/// What one moment of a layer breaks.
pub open spec fn moment_violations(ix: &CanonIndex, layer: LayerKind, at: TimePoint, sid: SnapshotId, ov: Seq<(FeatureId, FeatureId)>) -> Seq<ViolationView> {
    match snapshot_of(ix, sid) {
        None => seq![ViolationView::UnresolvedSnapshot { layer, at, snapshot: sid }],
        Some(fs) => unresolved_in(ix, layer, sid, fs, fs.len() as int) + if layer == LayerKind::Territory {
            let a = areas_in(ix, fs, fs.len() as int);
            overlaps_upto(a, ov, at, a.len() as int)
        } else {
            Seq::empty()
        },
    }
}

/// What the first `n` moments of a layer break.
pub open spec fn world_violations(ix: &CanonIndex, layer: LayerKind, ms: Seq<(TimePoint, SnapshotId)>, ov: Seq<(FeatureId, FeatureId)>, n: int) -> Seq<ViolationView>
    decreases n,
{
    if n <= 0 {
        Seq::empty()
    } else {
        world_violations(ix, layer, ms, ov, n - 1) + moment_violations(ix, layer, ms[n - 1].0, ms[n - 1].1, ov)
    }
}

/// What the first `n` layers break, moment by moment.
pub open spec fn layers_violations(ix: &CanonIndex, ov: Seq<(FeatureId, FeatureId)>, n: int) -> Seq<ViolationView>
    decreases n,
{
    if n <= 0 {
        Seq::empty()
    } else {
        let (layer, world) = ix.layers@[n - 1];
        layers_violations(ix, ov, n - 1) + world_violations(ix, layer, world.entries(), ov, world.entries().len() as int)
    }
}

/// Some moment of some layer shows `fid` in a stored snapshot.
pub open spec fn referenced(ix: &CanonIndex, fid: FeatureId) -> bool {
    exists|l: int, m: int| #[trigger] shows(ix, l, m, fid)
}

/// Moment `m` of layer `l` shows `fid` in a stored snapshot.
pub open spec fn shows(ix: &CanonIndex, l: int, m: int, fid: FeatureId) -> bool {
    &&& 0 <= l < ix.layers@.len()
    &&& 0 <= m < ix.layers@[l].1.entries().len()
    &&& snapshot_of(ix, ix.layers@[l].1.entries()[m].1) matches Some(fs)
    &&& fs.contains(fid)
}

/// The border ids a feature references: rings then holes, or each
/// leg's border.
pub open spec fn border_refs(f: &FeatureRefs) -> Seq<BorderId> {
    match f.shape {
        Shape::Area { rings, holes } => rings@ + holes@,
        Shape::Way { legs } => legs@.map_values(|l: LegSpan| l.border),
        Shape::Point => Seq::empty(),
    }
}

/// The first `n` of a feature's border references that the store lacks.
pub open spec fn missing_borders(ix: &CanonIndex, fid: FeatureId, bs: Seq<BorderId>, n: int) -> Seq<ViolationView>
    decreases n,
{
    if n <= 0 {
        Seq::empty()
    } else {
        missing_borders(ix, fid, bs, n - 1) + if ix.borders@.contains(bs[n - 1]) {
            Seq::empty()
        } else {
            seq![ViolationView::UnresolvedBorder { feature: fid, border: bs[n - 1] }]
        }
    }
}

/// The first `n` legs that run backward in time.
pub open spec fn backward_legs(fid: FeatureId, legs: Seq<LegSpan>, n: int) -> Seq<ViolationView>
    decreases n,
{
    if n <= 0 {
        Seq::empty()
    } else {
        backward_legs(fid, legs, n - 1) + if before(legs[n - 1].to, legs[n - 1].from) {
            seq![ViolationView::BackwardLeg { feature: fid, index: (n - 1) as usize }]
        } else {
            Seq::empty()
        }
    }
}

/// What one referenced feature breaks.
pub open spec fn feature_violations(ix: &CanonIndex, fid: FeatureId, f: &FeatureRefs) -> Seq<ViolationView> {
    let bs = border_refs(f);
    missing_borders(ix, fid, bs, bs.len() as int) + match f.shape {
        Shape::Way { legs } => backward_legs(fid, legs@, legs@.len() as int),
        _ => Seq::empty(),
    }
}

/// What the first `n` stored features break, those referenced only.
pub open spec fn seen_violations(ix: &CanonIndex, n: int) -> Seq<ViolationView>
    decreases n,
{
    if n <= 0 {
        Seq::empty()
    } else {
        seen_violations(ix, n - 1) + if referenced(ix, ix.features@[n - 1].0) {
            feature_violations(ix, ix.features@[n - 1].0, &ix.features@[n - 1].1)
        } else {
            Seq::empty()
        }
    }
}

/// Every broken law, in the order the canon is walked: layers in
/// order, moments in time order, then each referenced feature once, in
/// id order.
pub open spec fn canon_violations(ix: &CanonIndex, ov: Seq<(FeatureId, FeatureId)>) -> Seq<ViolationView> {
    layers_violations(ix, ov, ix.layers@.len() as int) + seen_violations(ix, ix.features@.len() as int)
}

// ---------------------------------------------------- the validator

pub(crate) proof fn lemma_resolved_in(ix: &CanonIndex, fs: Seq<FeatureId>, n: int)
    requires
        0 <= n <= fs.len(),
    ensures
        forall|f: FeatureId| #[trigger] resolved_in(ix, fs, n).contains(f)
            <==> (feature_of(ix, f) is Some && exists|k: int| 0 <= k < n && fs[k] == f),
    decreases n,
{
    if n > 0 {
        lemma_resolved_in(ix, fs, n - 1);
        let prev = resolved_in(ix, fs, n - 1);
        let tail = if feature_of(ix, fs[n - 1]) is Some { seq![fs[n - 1]] } else { Seq::<FeatureId>::empty() };
        assert forall|f: FeatureId| #[trigger] resolved_in(ix, fs, n).contains(f)
            <==> (feature_of(ix, f) is Some && exists|k: int| 0 <= k < n && fs[k] == f) by {
            let all = resolved_in(ix, fs, n);
            assert(all == prev + tail);
            if all.contains(f) {
                let q = choose|q: int| 0 <= q < all.len() && all[q] == f;
                if q < prev.len() {
                    assert(prev[q] == f);
                    assert(prev.contains(f));
                    let k = choose|k: int| 0 <= k < n - 1 && fs[k] == f;
                    assert(0 <= k < n && fs[k] == f);
                } else {
                    assert(tail[q - prev.len()] == f);
                    assert(fs[n - 1] == f);
                }
            }
            if feature_of(ix, f) is Some && exists|k: int| 0 <= k < n && fs[k] == f {
                let k = choose|k: int| 0 <= k < n && fs[k] == f;
                if k < n - 1 {
                    assert(prev.contains(f));
                    let q = choose|q: int| 0 <= q < prev.len() && prev[q] == f;
                    assert(all[q] == f);
                } else {
                    assert(all[prev.len() as int] == f);
                }
            }
        }
    }
}

impl CanonIndex {
    pub(crate) fn snapshot_index(&self, sid: SnapshotId) -> (r: Option<usize>)
        requires
            self.wf(),
        ensures
            match r {
                Some(i) => i < self.snapshots@.len() && self.snapshots@[i as int].0 == sid
                    && snapshot_of(self, sid) == Some(self.snapshots@[i as int].1.features@),
                None => snapshot_of(self, sid) is None,
            },
    {
        let mut i: usize = 0;
        while i < self.snapshots.len()
            invariant
                self.wf(),
                i <= self.snapshots@.len(),
                forall|j: int| 0 <= j < i ==> (#[trigger] self.snapshots@[j]).0 != sid,
            decreases self.snapshots@.len() - i,
        {
            if self.snapshots[i].0 == sid {
                proof {
                    let c = choose|c: int| 0 <= c < self.snapshots@.len() && (#[trigger] self.snapshots@[c]).0 == sid;
                    if c < i {
                    } else if c > i {
                        assert(self.snapshots@[i as int].0.0 < self.snapshots@[c].0.0);
                    }
                }
                return Some(i);
            }
            i += 1;
        }
        None
    }

    pub(crate) fn feature_index(&self, fid: FeatureId) -> (r: Option<usize>)
        requires
            self.wf(),
        ensures
            match r {
                Some(i) => i < self.features@.len() && self.features@[i as int].0 == fid
                    && feature_of(self, fid) == Some(&self.features@[i as int].1),
                None => feature_of(self, fid) is None,
            },
    {
        let mut i: usize = 0;
        while i < self.features.len()
            invariant
                self.wf(),
                i <= self.features@.len(),
                forall|j: int| 0 <= j < i ==> (#[trigger] self.features@[j]).0 != fid,
            decreases self.features@.len() - i,
        {
            if self.features[i].0 == fid {
                proof {
                    let c = choose|c: int| 0 <= c < self.features@.len() && (#[trigger] self.features@[c]).0 == fid;
                    if c < i {
                    } else if c > i {
                        assert(self.features@[i as int].0.0 < self.features@[c].0.0);
                    }
                }
                return Some(i);
            }
            i += 1;
        }
        None
    }

    pub(crate) fn border_present(&self, b: BorderId) -> (r: bool)
        ensures
            r == self.borders@.contains(b),
    {
        let mut i: usize = 0;
        while i < self.borders.len()
            invariant
                i <= self.borders@.len(),
                forall|j: int| 0 <= j < i ==> self.borders@[j] != b,
            decreases self.borders@.len() - i,
        {
            if self.borders[i] == b {
                assert(self.borders@[i as int] == b);
                return true;
            }
            i += 1;
        }
        false
    }
}

fn pair_listed(ov: &[(FeatureId, FeatureId)], x: FeatureId, y: FeatureId) -> (r: bool)
    ensures
        r == ov@.contains((x, y)),
{
    let mut i: usize = 0;
    while i < ov.len()
        invariant
            i <= ov@.len(),
            forall|j: int| 0 <= j < i ==> ov@[j] != (x, y),
        decreases ov@.len() - i,
    {
        let p = ov[i];
        if p.0 == x && p.1 == y {
            assert(ov@[i as int] == (x, y));
            return true;
        }
        i += 1;
    }
    false
}

fn overlap_listed(ov: &[(FeatureId, FeatureId)], x: FeatureId, y: FeatureId) -> (r: bool)
    ensures
        r == overlapping(ov@, x, y),
{
    pair_listed(ov, x, y) || pair_listed(ov, y, x)
}

impl CanonIndex {
    /// Every pair of the moment's areas that the geometry says overlap.
    fn check_overlaps(
        &self,
        areas: &Vec<(FeatureId, usize)>,
        Ghost(sa): Ghost<Seq<(FeatureId, Seq<char>)>>,
        ov: &[(FeatureId, FeatureId)],
        at: TimePoint,
        out: &mut Vec<CanonViolation>,
    )
        requires
            sa.len() == areas@.len(),
            forall|q: int| 0 <= q < areas@.len() ==> (#[trigger] areas@[q]).1 < self.features@.len()
                && sa[q] == (areas@[q].0, self.features@[areas@[q].1 as int].1.entity@),
        ensures
            violation_views(final(out)@) == violation_views(old(out)@) + overlaps_upto(sa, ov@, at, sa.len() as int),
    {
        let ghost base = violation_views(out@);
        let n = areas.len();
        let mut i: usize = 0;
        while i < n
            invariant
                n == areas@.len(),
                sa.len() == n,
                forall|q: int| 0 <= q < areas@.len() ==> (#[trigger] areas@[q]).1 < self.features@.len()
                    && sa[q] == (areas@[q].0, self.features@[areas@[q].1 as int].1.entity@),
                i <= n,
                violation_views(out@) == base + overlaps_upto(sa, ov@, at, i as int),
            decreases n - i,
        {
            let ghost mid = violation_views(out@);
            let mut j: usize = i + 1;
            assert(overlaps_with(sa, ov@, at, i as int, j as int) == Seq::<ViolationView>::empty());
            assert(mid + overlaps_with(sa, ov@, at, i as int, j as int) =~= mid);
            while j < n
                invariant
                    n == areas@.len(),
                    sa.len() == n,
                    forall|q: int| 0 <= q < areas@.len() ==> (#[trigger] areas@[q]).1 < self.features@.len()
                        && sa[q] == (areas@[q].0, self.features@[areas@[q].1 as int].1.entity@),
                    i < n,
                    i + 1 <= j <= n,
                    violation_views(out@) == mid + overlaps_with(sa, ov@, at, i as int, j as int),
                decreases n - j,
            {
                let ghost pre = violation_views(out@);
                let (fa, ia) = areas[i];
                let (fb, ib) = areas[j];
                assert(sa[i as int] == (areas@[i as int].0, self.features@[areas@[i as int].1 as int].1.entity@));
                assert(sa[j as int] == (areas@[j as int].0, self.features@[areas@[j as int].1 as int].1.entity@));
                if overlap_listed(ov, fa, fb) {
                    let a = clone_id(&self.features[ia].1.entity);
                    let b = clone_id(&self.features[ib].1.entity);
                    out.push(CanonViolation::TerritorialOverlap { at, a, b });
                    assert(violation_views(out@) =~= pre.push(ViolationView::TerritorialOverlap { at, a: sa[i as int].1, b: sa[j as int].1 }));
                } else {
                    assert(violation_views(out@) =~= pre);
                }
                assert(violation_views(out@) =~= mid + overlaps_with(sa, ov@, at, i as int, j + 1));
                j += 1;
            }
            assert(violation_views(out@) =~= base + overlaps_upto(sa, ov@, at, i + 1));
            i += 1;
        }
    }

    /// What one moment breaks; the features it resolves are seen.
    fn check_moment(
        &self,
        layer: LayerKind,
        at: TimePoint,
        sid: SnapshotId,
        ov: &[(FeatureId, FeatureId)],
        out: &mut Vec<CanonViolation>,
        seen: &mut Vec<FeatureId>,
    )
        requires
            self.wf(),
        ensures
            violation_views(final(out)@) == violation_views(old(out)@) + moment_violations(self, layer, at, sid, ov@),
            final(seen)@ == old(seen)@ + match snapshot_of(self, sid) {
                Some(fs) => resolved_in(self, fs, fs.len() as int),
                None => Seq::<FeatureId>::empty(),
            },
    {
        let ghost base = violation_views(out@);
        let ghost seen0 = seen@;
        match self.snapshot_index(sid) {
            None => {
                out.push(CanonViolation::UnresolvedSnapshot { layer, at, snapshot: sid });
                assert(violation_views(out@) =~= base + moment_violations(self, layer, at, sid, ov@));
                assert(seen@ =~= seen0 + Seq::<FeatureId>::empty());
            },
            Some(si) => {
                let fs = &self.snapshots[si].1.features;
                let ghost fv = fs@;
                let mut areas: Vec<(FeatureId, usize)> = Vec::new();
                let mut k: usize = 0;
                assert(violation_views(out@) =~= base + unresolved_in(self, layer, sid, fv, 0));
                assert(seen@ =~= seen0 + resolved_in(self, fv, 0));
                while k < fs.len()
                    invariant
                        self.wf(),
                        fv == fs@,
                        k <= fv.len(),
                        violation_views(out@) == base + unresolved_in(self, layer, sid, fv, k as int),
                        seen@ == seen0 + resolved_in(self, fv, k as int),
                        areas@.len() == areas_in(self, fv, k as int).len(),
                        forall|q: int| 0 <= q < areas@.len() ==> (#[trigger] areas@[q]).1 < self.features@.len()
                            && areas_in(self, fv, k as int)[q] == (areas@[q].0, self.features@[areas@[q].1 as int].1.entity@),
                    decreases fv.len() - k,
                {
                    let fid = fs[k];
                    let ghost out_pre = violation_views(out@);
                    let ghost seen_pre = seen@;
                    let ghost areas_pre = areas@;
                    match self.feature_index(fid) {
                        None => {
                            out.push(CanonViolation::UnresolvedFeature { layer, snapshot: sid, feature: fid });
                            assert(violation_views(out@) =~= out_pre.push(ViolationView::UnresolvedFeature { layer, snapshot: sid, feature: fid }));
                            assert(seen@ =~= seen0 + resolved_in(self, fv, k + 1));
                        },
                        Some(fi) => {
                            seen.push(fid);
                            let is_area = match &self.features[fi].1.shape {
                                Shape::Area { .. } => true,
                                _ => false,
                            };
                            if is_area {
                                areas.push((fid, fi));
                            }
                            assert(violation_views(out@) =~= out_pre);
                            assert(seen@ =~= seen0 + resolved_in(self, fv, k + 1));
                        },
                    }
                    assert(violation_views(out@) =~= base + unresolved_in(self, layer, sid, fv, k + 1));
                    assert forall|q: int| 0 <= q < areas@.len() implies (#[trigger] areas@[q]).1 < self.features@.len()
                        && areas_in(self, fv, k + 1)[q] == (areas@[q].0, self.features@[areas@[q].1 as int].1.entity@) by {
                        if q < areas_pre.len() {
                            assert(areas@[q] == areas_pre[q]);
                        }
                    }
                    k += 1;
                }
                assert(fv.len() == fs@.len());
                if layer == LayerKind::Territory {
                    let ghost sa = areas_in(self, fv, fv.len() as int);
                    self.check_overlaps(&areas, Ghost(sa), ov, at, out);
                } else {
                    assert(violation_views(out@) =~= violation_views(out@) + Seq::<ViolationView>::empty());
                }
            },
        }
    }
}

/// Moment `m` of layer `l` comes before moment `m0` of layer `l0`, and
/// shows `fid`.
pub open spec fn seen_before(ix: &CanonIndex, l0: int, m0: int, fid: FeatureId) -> bool {
    exists|l: int, m: int| #[trigger] shows(ix, l, m, fid) && (l < l0 || (l == l0 && m < m0))
}

fn border_refs_of(f: &FeatureRefs) -> (bs: Vec<BorderId>)
    ensures
        bs@ == border_refs(f),
{
    let mut bs: Vec<BorderId> = Vec::new();
    match &f.shape {
        Shape::Area { rings, holes } => {
            let mut i: usize = 0;
            while i < rings.len()
                invariant
                    i <= rings@.len(),
                    bs@ == rings@.take(i as int),
                decreases rings@.len() - i,
            {
                bs.push(rings[i]);
                assert(bs@ =~= rings@.take(i + 1));
                i += 1;
            }
            assert(rings@.take(rings@.len() as int) =~= rings@);
            let mut j: usize = 0;
            assert(bs@ =~= rings@ + holes@.take(0));
            while j < holes.len()
                invariant
                    j <= holes@.len(),
                    bs@ == rings@ + holes@.take(j as int),
                decreases holes@.len() - j,
            {
                bs.push(holes[j]);
                assert(bs@ =~= rings@ + holes@.take(j + 1));
                j += 1;
            }
            assert(holes@.take(holes@.len() as int) =~= holes@);
        },
        Shape::Way { legs } => {
            let mut i: usize = 0;
            while i < legs.len()
                invariant
                    i <= legs@.len(),
                    bs@ == legs@.take(i as int).map_values(|l: LegSpan| l.border),
                decreases legs@.len() - i,
            {
                bs.push(legs[i].border);
                assert(bs@ =~= legs@.take(i + 1).map_values(|l: LegSpan| l.border));
                i += 1;
            }
            assert(legs@.take(legs@.len() as int) =~= legs@);
        },
        Shape::Point => {
            assert(bs@ =~= Seq::<BorderId>::empty());
        },
    }
    bs
}

fn listed(v: &Vec<FeatureId>, f: FeatureId) -> (r: bool)
    ensures
        r == v@.contains(f),
{
    let mut i: usize = 0;
    while i < v.len()
        invariant
            i <= v@.len(),
            forall|j: int| 0 <= j < i ==> v@[j] != f,
        decreases v@.len() - i,
    {
        if v[i] == f {
            assert(v@[i as int] == f);
            return true;
        }
        i += 1;
    }
    false
}

impl CanonIndex {
    /// What one stored feature breaks: missing borders, backward legs.
    fn check_feature(&self, k: usize, out: &mut Vec<CanonViolation>)
        requires
            k < self.features@.len(),
        ensures
            violation_views(final(out)@) == violation_views(old(out)@)
                + feature_violations(self, self.features@[k as int].0, &self.features@[k as int].1),
    {
        let ghost base = violation_views(out@);
        let fid = self.features[k].0;
        let f = &self.features[k].1;
        let bs = border_refs_of(f);
        let mut i: usize = 0;
        assert(violation_views(out@) =~= base + missing_borders(self, fid, bs@, 0));
        while i < bs.len()
            invariant
                i <= bs@.len(),
                violation_views(out@) == base + missing_borders(self, fid, bs@, i as int),
            decreases bs@.len() - i,
        {
            let ghost pre = violation_views(out@);
            if !self.border_present(bs[i]) {
                out.push(CanonViolation::UnresolvedBorder { feature: fid, border: bs[i] });
                assert(violation_views(out@) =~= pre.push(ViolationView::UnresolvedBorder { feature: fid, border: bs@[i as int] }));
            }
            assert(violation_views(out@) =~= base + missing_borders(self, fid, bs@, i + 1));
            i += 1;
        }
        let ghost mid = violation_views(out@);
        match &f.shape {
            Shape::Way { legs } => {
                let mut j: usize = 0;
                assert(violation_views(out@) =~= mid + backward_legs(fid, legs@, 0));
                while j < legs.len()
                    invariant
                        j <= legs@.len(),
                        violation_views(out@) == mid + backward_legs(fid, legs@, j as int),
                    decreases legs@.len() - j,
                {
                    let ghost pre = violation_views(out@);
                    if precedes(&legs[j].to, &legs[j].from) {
                        out.push(CanonViolation::BackwardLeg { feature: fid, index: j });
                        assert(violation_views(out@) =~= pre.push(ViolationView::BackwardLeg { feature: fid, index: j }));
                    }
                    assert(violation_views(out@) =~= mid + backward_legs(fid, legs@, j + 1));
                    j += 1;
                }
            },
            _ => {
                assert(violation_views(out@) =~= mid + Seq::<ViolationView>::empty());
            },
        }
    }

    /// Every law, checked; an empty list is a lawful canon. `overlaps`
    /// lists the pairs of features whose areas the geometry finds
    /// overlapping (in either order); shared edges and shared corners
    /// are not overlap.
    pub fn validate(&self, overlaps: &[(FeatureId, FeatureId)]) -> (v: Vec<CanonViolation>)
        requires
            self.wf(),
        ensures
            violation_views(v@) == canon_violations(self, overlaps@),
    {
        let ghost ov = overlaps@;
        let mut out: Vec<CanonViolation> = Vec::new();
        let mut seen: Vec<FeatureId> = Vec::new();
        let mut l: usize = 0;
        assert(violation_views(out@) =~= layers_violations(self, ov, 0));
        while l < self.layers.len()
            invariant
                self.wf(),
                ov == overlaps@,
                l <= self.layers@.len(),
                violation_views(out@) == layers_violations(self, ov, l as int),
                forall|f: FeatureId| #[trigger] seen@.contains(f) <==> (feature_of(self, f) is Some && seen_before(self, l as int, 0, f)),
            decreases self.layers@.len() - l,
        {
            let layer = self.layers[l].0;
            let ms = self.layers[l].1.moments();
            let ghost es = self.layers@[l as int].1.entries();
            let ghost lv = layers_violations(self, ov, l as int);
            let mut m: usize = 0;
            assert(violation_views(out@) =~= lv + world_violations(self, layer, es, ov, 0));
            assert forall|f: FeatureId| #[trigger] seen@.contains(f) <==> (feature_of(self, f) is Some && seen_before(self, l as int, m as int, f)) by {
                if seen_before(self, l as int, 0, f) {
                    let (l2, m2) = choose|l2: int, m2: int| #[trigger] shows(self, l2, m2, f) && (l2 < l || (l2 == l && m2 < 0));
                    assert(shows(self, l2, m2, f) && (l2 < l || (l2 == l && m2 < m)));
                }
                if seen_before(self, l as int, m as int, f) {
                    let (l2, m2) = choose|l2: int, m2: int| #[trigger] shows(self, l2, m2, f) && (l2 < l || (l2 == l && m2 < m));
                    assert(shows(self, l2, m2, f) && (l2 < l || (l2 == l && m2 < 0)));
                }
            }
            while m < ms.len()
                invariant
                    self.wf(),
                    ov == overlaps@,
                    l < self.layers@.len(),
                    layer == self.layers@[l as int].0,
                    es == self.layers@[l as int].1.entries(),
                    ms@ == es,
                    lv == layers_violations(self, ov, l as int),
                    m <= es.len(),
                    violation_views(out@) == lv + world_violations(self, layer, es, ov, m as int),
                    forall|f: FeatureId| #[trigger] seen@.contains(f) <==> (feature_of(self, f) is Some && seen_before(self, l as int, m as int, f)),
                decreases es.len() - m,
            {
                let (at, sid) = ms[m];
                let ghost seen0 = seen@;
                self.check_moment(layer, at, sid, overlaps, &mut out, &mut seen);
                proof {
                    assert(violation_views(out@) =~= lv + world_violations(self, layer, es, ov, m + 1));
                    assert forall|f: FeatureId| #[trigger] seen@.contains(f) <==> (feature_of(self, f) is Some && seen_before(self, l as int, m + 1, f)) by {
                        match snapshot_of(self, sid) {
                            Some(fs) => {
                                lemma_resolved_in(self, fs, fs.len() as int);
                                let extra = resolved_in(self, fs, fs.len() as int);
                                assert(seen@ == seen0 + extra);
                                assert(seen@.contains(f) <==> seen0.contains(f) || extra.contains(f)) by {
                                    if seen@.contains(f) {
                                        let q = choose|q: int| 0 <= q < seen@.len() && seen@[q] == f;
                                        if q < seen0.len() {
                                            assert(seen0[q] == f);
                                        } else {
                                            assert(extra[q - seen0.len()] == f);
                                        }
                                    }
                                    if seen0.contains(f) {
                                        let q = choose|q: int| 0 <= q < seen0.len() && seen0[q] == f;
                                        assert(seen@[q] == f);
                                    }
                                    if extra.contains(f) {
                                        let q = choose|q: int| 0 <= q < extra.len() && extra[q] == f;
                                        assert(seen@[seen0.len() + q] == f);
                                    }
                                }
                                assert(shows(self, l as int, m as int, f) <==> fs.contains(f));
                                assert(fs.contains(f) <==> exists|k: int| 0 <= k < fs.len() && fs[k] == f);
                                if seen_before(self, l as int, m + 1, f) {
                                    let (l2, m2) = choose|l2: int, m2: int| #[trigger] shows(self, l2, m2, f) && (l2 < l || (l2 == l && m2 < m + 1));
                                    if !(l2 < l || (l2 == l && m2 < m)) {
                                        assert(l2 == l && m2 == m);
                                    }
                                }
                                if seen_before(self, l as int, m as int, f) {
                                    let (l2, m2) = choose|l2: int, m2: int| #[trigger] shows(self, l2, m2, f) && (l2 < l || (l2 == l && m2 < m));
                                    assert(shows(self, l2, m2, f) && (l2 < l || (l2 == l && m2 < m + 1)));
                                }
                                if shows(self, l as int, m as int, f) {
                                    assert(seen_before(self, l as int, m + 1, f));
                                }
                            },
                            None => {
                                assert(seen@ =~= seen0);
                                assert(!shows(self, l as int, m as int, f));
                                if seen_before(self, l as int, m + 1, f) {
                                    let (l2, m2) = choose|l2: int, m2: int| #[trigger] shows(self, l2, m2, f) && (l2 < l || (l2 == l && m2 < m + 1));
                                    if !(l2 < l || (l2 == l && m2 < m)) {
                                        assert(l2 == l && m2 == m);
                                    }
                                }
                                if seen_before(self, l as int, m as int, f) {
                                    let (l2, m2) = choose|l2: int, m2: int| #[trigger] shows(self, l2, m2, f) && (l2 < l || (l2 == l && m2 < m));
                                    assert(shows(self, l2, m2, f) && (l2 < l || (l2 == l && m2 < m + 1)));
                                }
                            },
                        }
                    }
                }
                m += 1;
            }
            proof {
                assert(layers_violations(self, ov, l + 1) == lv + world_violations(self, layer, es, ov, es.len() as int));
                assert forall|f: FeatureId| #[trigger] seen@.contains(f) <==> (feature_of(self, f) is Some && seen_before(self, l + 1, 0, f)) by {
                    if seen_before(self, l + 1, 0, f) {
                        let (l2, m2) = choose|l2: int, m2: int| #[trigger] shows(self, l2, m2, f) && (l2 < l + 1 || (l2 == l + 1 && m2 < 0));
                        assert(shows(self, l2, m2, f) && (l2 < l || (l2 == l && m2 < m)));
                    }
                    if seen_before(self, l as int, m as int, f) {
                        let (l2, m2) = choose|l2: int, m2: int| #[trigger] shows(self, l2, m2, f) && (l2 < l || (l2 == l && m2 < m));
                        assert(shows(self, l2, m2, f) && (l2 < l + 1 || (l2 == l + 1 && m2 < 0)));
                    }
                }
            }
            l += 1;
        }
        let ghost all_layers = violation_views(out@);
        proof {
            assert forall|f: FeatureId| #[trigger] seen@.contains(f) <==> (feature_of(self, f) is Some && referenced(self, f)) by {
                if seen_before(self, l as int, 0, f) {
                    let (l2, m2) = choose|l2: int, m2: int| #[trigger] shows(self, l2, m2, f) && (l2 < l || (l2 == l && m2 < 0));
                    assert(shows(self, l2, m2, f));
                }
                if referenced(self, f) {
                    let (l2, m2) = choose|l2: int, m2: int| #[trigger] shows(self, l2, m2, f);
                    assert(shows(self, l2, m2, f) && (l2 < l || (l2 == l && m2 < 0)));
                }
            }
        }
        let mut k: usize = 0;
        assert(violation_views(out@) =~= all_layers + seen_violations(self, 0));
        while k < self.features.len()
            invariant
                self.wf(),
                k <= self.features@.len(),
                violation_views(out@) == all_layers + seen_violations(self, k as int),
                forall|f: FeatureId| #[trigger] seen@.contains(f) <==> (feature_of(self, f) is Some && referenced(self, f)),
            decreases self.features@.len() - k,
        {
            let ghost pre = violation_views(out@);
            let fid = self.features[k].0;
            proof {
                assert(exists|i: int| 0 <= i < self.features@.len() && (#[trigger] self.features@[i]).0 == fid) by {
                    assert(self.features@[k as int].0 == fid);
                }
            }
            if listed(&seen, fid) {
                self.check_feature(k, &mut out);
            } else {
                assert(violation_views(out@) =~= pre + Seq::<ViolationView>::empty());
            }
            assert(violation_views(out@) =~= all_layers + seen_violations(self, k + 1));
            k += 1;
        }
        out
    }
}

// ------------------------------------------- an empty list is lawful

/// No two of the areas overlap.
pub open spec fn no_overlap(areas: Seq<(FeatureId, Seq<char>)>, ov: Seq<(FeatureId, FeatureId)>) -> bool {
    forall|i: int, j: int| 0 <= i < j < areas.len() ==> !overlapping(ov, #[trigger] areas[i].0, #[trigger] areas[j].0)
}

/// A moment's laws: its snapshot is stored, every feature of it is
/// stored, and in Territory no two of its areas overlap.
pub open spec fn moment_lawful(ix: &CanonIndex, layer: LayerKind, sid: SnapshotId, ov: Seq<(FeatureId, FeatureId)>) -> bool {
    match snapshot_of(ix, sid) {
        None => false,
        Some(fs) => {
            &&& forall|k: int| 0 <= k < fs.len() ==> feature_of(ix, #[trigger] fs[k]) is Some
            &&& layer == LayerKind::Territory ==> no_overlap(areas_in(ix, fs, fs.len() as int), ov)
        },
    }
}

/// A referenced feature's laws: its borders are stored, and a way's
/// legs run forward in time.
pub open spec fn feature_lawful(ix: &CanonIndex, f: &FeatureRefs) -> bool {
    &&& forall|k: int| 0 <= k < border_refs(f).len() ==> ix.borders@.contains(#[trigger] border_refs(f)[k])
    &&& match f.shape {
        Shape::Way { legs } => forall|k: int| 0 <= k < legs@.len() ==> !before((#[trigger] legs@[k]).to, legs@[k].from),
        _ => true,
    }
}

/// Every law of the canon holds.
pub open spec fn canon_lawful(ix: &CanonIndex, ov: Seq<(FeatureId, FeatureId)>) -> bool {
    &&& forall|l: int, m: int| 0 <= l < ix.layers@.len() && 0 <= m < ix.layers@[l].1.entries().len()
        ==> #[trigger] moment_lawful(ix, ix.layers@[l].0, ix.layers@[l].1.entries()[m].1, ov)
    &&& forall|k: int| 0 <= k < ix.features@.len() && #[trigger] referenced(ix, ix.features@[k].0)
        ==> feature_lawful(ix, &ix.features@[k].1)
}

proof fn lemma_unresolved_empty(ix: &CanonIndex, layer: LayerKind, sid: SnapshotId, fs: Seq<FeatureId>, n: int)
    requires
        0 <= n <= fs.len(),
    ensures
        unresolved_in(ix, layer, sid, fs, n).len() == 0 <==> forall|k: int| 0 <= k < n ==> feature_of(ix, #[trigger] fs[k]) is Some,
    decreases n,
{
    if n > 0 {
        lemma_unresolved_empty(ix, layer, sid, fs, n - 1);
    }
}

proof fn lemma_overlaps_with_empty(areas: Seq<(FeatureId, Seq<char>)>, ov: Seq<(FeatureId, FeatureId)>, at: TimePoint, i: int, n: int)
    requires
        0 <= i,
        n <= areas.len(),
    ensures
        overlaps_with(areas, ov, at, i, n).len() == 0 <==> forall|j: int| i < j < n ==> !overlapping(ov, areas[i].0, #[trigger] areas[j].0),
    decreases n - i,
{
    if n > i + 1 {
        lemma_overlaps_with_empty(areas, ov, at, i, n - 1);
    }
}

proof fn lemma_overlaps_upto_empty(areas: Seq<(FeatureId, Seq<char>)>, ov: Seq<(FeatureId, FeatureId)>, at: TimePoint, m: int)
    requires
        0 <= m <= areas.len(),
    ensures
        overlaps_upto(areas, ov, at, m).len() == 0 <==> forall|i: int, j: int| 0 <= i < m && i < j < areas.len()
            ==> !overlapping(ov, #[trigger] areas[i].0, #[trigger] areas[j].0),
    decreases m,
{
    if m > 0 {
        lemma_overlaps_upto_empty(areas, ov, at, m - 1);
        lemma_overlaps_with_empty(areas, ov, at, m - 1, areas.len() as int);
        if overlaps_upto(areas, ov, at, m).len() == 0 {
            assert forall|i: int, j: int| 0 <= i < m && i < j < areas.len() implies !overlapping(ov, #[trigger] areas[i].0, #[trigger] areas[j].0) by {
                if i < m - 1 {
                } else {
                    assert(!overlapping(ov, areas[m - 1].0, areas[j].0));
                }
            }
        }
    }
}

proof fn lemma_moment_empty(ix: &CanonIndex, layer: LayerKind, at: TimePoint, sid: SnapshotId, ov: Seq<(FeatureId, FeatureId)>)
    ensures
        moment_violations(ix, layer, at, sid, ov).len() == 0 <==> moment_lawful(ix, layer, sid, ov),
{
    match snapshot_of(ix, sid) {
        None => {},
        Some(fs) => {
            lemma_unresolved_empty(ix, layer, sid, fs, fs.len() as int);
            let a = areas_in(ix, fs, fs.len() as int);
            lemma_overlaps_upto_empty(a, ov, at, a.len() as int);
        },
    }
}

proof fn lemma_world_empty(ix: &CanonIndex, layer: LayerKind, ms: Seq<(TimePoint, SnapshotId)>, ov: Seq<(FeatureId, FeatureId)>, n: int)
    requires
        0 <= n <= ms.len(),
    ensures
        world_violations(ix, layer, ms, ov, n).len() == 0 <==> forall|m: int| 0 <= m < n ==> #[trigger] moment_lawful(ix, layer, ms[m].1, ov),
    decreases n,
{
    if n > 0 {
        lemma_world_empty(ix, layer, ms, ov, n - 1);
        lemma_moment_empty(ix, layer, ms[n - 1].0, ms[n - 1].1, ov);
    }
}

proof fn lemma_layers_empty(ix: &CanonIndex, ov: Seq<(FeatureId, FeatureId)>, n: int)
    requires
        0 <= n <= ix.layers@.len(),
    ensures
        layers_violations(ix, ov, n).len() == 0 <==> forall|l: int, m: int| 0 <= l < n && 0 <= m < ix.layers@[l].1.entries().len()
            ==> #[trigger] moment_lawful(ix, ix.layers@[l].0, ix.layers@[l].1.entries()[m].1, ov),
    decreases n,
{
    if n > 0 {
        lemma_layers_empty(ix, ov, n - 1);
        let (layer, world) = ix.layers@[n - 1];
        lemma_world_empty(ix, layer, world.entries(), ov, world.entries().len() as int);
        if layers_violations(ix, ov, n).len() == 0 {
            assert forall|l: int, m: int| 0 <= l < n && 0 <= m < ix.layers@[l].1.entries().len()
                implies #[trigger] moment_lawful(ix, ix.layers@[l].0, ix.layers@[l].1.entries()[m].1, ov) by {
                if l == n - 1 {
                    assert(moment_lawful(ix, layer, world.entries()[m].1, ov));
                }
            }
        }
        if forall|l: int, m: int| 0 <= l < n && 0 <= m < ix.layers@[l].1.entries().len()
            ==> #[trigger] moment_lawful(ix, ix.layers@[l].0, ix.layers@[l].1.entries()[m].1, ov) {
            assert forall|m: int| 0 <= m < world.entries().len() implies #[trigger] moment_lawful(ix, layer, world.entries()[m].1, ov) by {
                assert(moment_lawful(ix, ix.layers@[n - 1].0, ix.layers@[n - 1].1.entries()[m].1, ov));
            }
        }
    }
}

proof fn lemma_missing_empty(ix: &CanonIndex, fid: FeatureId, bs: Seq<BorderId>, n: int)
    requires
        0 <= n <= bs.len(),
    ensures
        missing_borders(ix, fid, bs, n).len() == 0 <==> forall|k: int| 0 <= k < n ==> ix.borders@.contains(#[trigger] bs[k]),
    decreases n,
{
    if n > 0 {
        lemma_missing_empty(ix, fid, bs, n - 1);
    }
}

proof fn lemma_backward_empty(fid: FeatureId, legs: Seq<LegSpan>, n: int)
    requires
        0 <= n <= legs.len(),
    ensures
        backward_legs(fid, legs, n).len() == 0 <==> forall|k: int| 0 <= k < n ==> !before((#[trigger] legs[k]).to, legs[k].from),
    decreases n,
{
    if n > 0 {
        lemma_backward_empty(fid, legs, n - 1);
    }
}

proof fn lemma_feature_empty(ix: &CanonIndex, fid: FeatureId, f: &FeatureRefs)
    ensures
        feature_violations(ix, fid, f).len() == 0 <==> feature_lawful(ix, f),
{
    let bs = border_refs(f);
    lemma_missing_empty(ix, fid, bs, bs.len() as int);
    match f.shape {
        Shape::Way { legs } => {
            lemma_backward_empty(fid, legs@, legs@.len() as int);
        },
        _ => {},
    }
}

proof fn lemma_seen_empty(ix: &CanonIndex, n: int)
    requires
        0 <= n <= ix.features@.len(),
    ensures
        seen_violations(ix, n).len() == 0 <==> forall|k: int| 0 <= k < n && #[trigger] referenced(ix, ix.features@[k].0)
            ==> feature_lawful(ix, &ix.features@[k].1),
    decreases n,
{
    if n > 0 {
        lemma_seen_empty(ix, n - 1);
        lemma_feature_empty(ix, ix.features@[n - 1].0, &ix.features@[n - 1].1);
    }
}

/// An empty list is a lawful canon, and a lawful canon validates to an
/// empty list: every moment's snapshot and every snapshot's feature is
/// stored, every border a referenced feature names is stored, every
/// leg runs forward in time, and no two territorial claims of one
/// moment overlap.
pub proof fn law_empty_means_lawful(ix: &CanonIndex, ov: Seq<(FeatureId, FeatureId)>)
    ensures
        canon_violations(ix, ov).len() == 0 <==> canon_lawful(ix, ov),
{
    lemma_layers_empty(ix, ov, ix.layers@.len() as int);
    lemma_seen_empty(ix, ix.features@.len() as int);
}

} // verus!
