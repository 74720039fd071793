//! Selecting from the canon at a time: the features a layer holds at
//! an instant, and the listing of entities alive then that callers
//! pick pieces from.

use vstd::prelude::*;
use crate::canon::{clone_id, EntityId, LayerKind, Witness};
use crate::canon_check::{feature_of, resolved_in, snapshot_of, CanonIndex, FeatureId};
use crate::persist::{spec_witness_name, witness_name};
use crate::text::{owned, str_equal};
use crate::world::{state_at_spec, TimePoint};

verus! {

/// The first layer of kind `kind` among the first `n`.
pub open spec fn first_layer(ix: &CanonIndex, kind: LayerKind, n: int) -> Option<int>
    decreases n,
{
    if n <= 0 {
        None
    } else {
        match first_layer(ix, kind, n - 1) {
            Some(l) => Some(l),
            None => if ix.layers@[n - 1].0 == kind {
                Some(n - 1)
            } else {
                None
            },
        }
    }
}

/// The stored features layer `kind` holds at `t`, in snapshot order:
/// its state at `t` is the latest moment at or before it.
pub open spec fn active_at(ix: &CanonIndex, kind: LayerKind, t: TimePoint) -> Seq<FeatureId> {
    match first_layer(ix, kind, ix.layers@.len() as int) {
        None => Seq::empty(),
        Some(l) => match state_at_spec(ix.layers@[l].1@, t) {
            None => Seq::empty(),
            Some(sid) => match snapshot_of(ix, sid) {
                Some(fs) => resolved_in(ix, fs, fs.len() as int),
                None => Seq::empty(),
            },
        },
    }
}

proof fn lemma_first_layer(ix: &CanonIndex, kind: LayerKind, n: int)
    requires
        0 <= n <= ix.layers@.len(),
    ensures
        match first_layer(ix, kind, n) {
            Some(l) => 0 <= l < n && ix.layers@[l].0 == kind && forall|j: int| 0 <= j < l ==> ix.layers@[j].0 != kind,
            None => forall|j: int| 0 <= j < n ==> ix.layers@[j].0 != kind,
        },
    decreases n,
{
    if n > 0 {
        lemma_first_layer(ix, kind, n - 1);
    }
}

impl CanonIndex {
    fn layer_of(&self, kind: LayerKind) -> (r: Option<usize>)
        ensures
            match r {
                Some(l) => l < self.layers@.len() && first_layer(self, kind, self.layers@.len() as int) == Some(l as int),
                None => first_layer(self, kind, self.layers@.len() as int) is None,
            },
    {
        let mut l: usize = 0;
        while l < self.layers.len()
            invariant
                l <= self.layers@.len(),
                first_layer(self, kind, l as int) is None,
            decreases self.layers@.len() - l,
        {
            if self.layers[l].0 == kind {
                proof {
                    lemma_first_layer(self, kind, self.layers@.len() as int);
                    lemma_first_layer(self, kind, l + 1);
                    lemma_first_layer_stable(self, kind, l + 1, self.layers@.len() as int);
                }
                return Some(l);
            }
            l += 1;
        }
        None
    }

    /// The features active at `t` in one layer, in deterministic order.
    pub fn active(&self, kind: LayerKind, t: &TimePoint) -> (r: Vec<FeatureId>)
        requires
            self.wf(),
        ensures
            r@ == active_at(self, kind, *t),
    {
        let l = match self.layer_of(kind) {
            Some(l) => l,
            None => return Vec::new(),
        };
        let sid = match self.layers[l].1.state_at(t) {
            Some(sid) => sid,
            None => return Vec::new(),
        };
        let si = match self.snapshot_index(sid) {
            Some(si) => si,
            None => return Vec::new(),
        };
        let fs = &self.snapshots[si].1.features;
        let mut out: Vec<FeatureId> = Vec::new();
        let mut k: usize = 0;
        assert(out@ =~= resolved_in(self, fs@, 0));
        while k < fs.len()
            invariant
                self.wf(),
                k <= fs@.len(),
                out@ == resolved_in(self, fs@, k as int),
            decreases fs@.len() - k,
        {
            match self.feature_index(fs[k]) {
                Some(_) => {
                    out.push(fs[k]);
                },
                None => {},
            }
            assert(out@ =~= resolved_in(self, fs@, k + 1));
            k += 1;
        }
        out
    }
}

proof fn lemma_first_layer_stable(ix: &CanonIndex, kind: LayerKind, m: int, n: int)
    requires
        0 <= m <= n,
        first_layer(ix, kind, m) is Some,
    ensures
        first_layer(ix, kind, n) == first_layer(ix, kind, m),
    decreases n - m,
{
    if n > m {
        lemma_first_layer_stable(ix, kind, m, n - 1);
    }
}

// ------------------------------------------------------------ listing

/// The witness a feature stands on, if its provenance is recorded.
pub open spec fn witness_of(ix: &CanonIndex, fid: FeatureId) -> Option<Witness> {
    if exists|i: int| 0 <= i < ix.witnesses@.len() && (#[trigger] ix.witnesses@[i]).0 == fid {
        Some(ix.witnesses@[choose|i: int| 0 <= i < ix.witnesses@.len() && (#[trigger] ix.witnesses@[i]).0 == fid].1)
    } else {
        None
    }
}

/// The layers a listing walks, in order, with the kind each lists as.
pub open spec fn listing_layer(k: int) -> (LayerKind, Seq<char>) {
    if k == 0 {
        (LayerKind::Territory, "territory"@)
    } else if k == 1 {
        (LayerKind::ScriptureClaims, "scripture-claim"@)
    } else if k == 2 {
        (LayerKind::Journeys, "journey"@)
    } else if k == 3 {
        (LayerKind::Water, "water"@)
    } else if k == 4 {
        (LayerKind::Relief, "relief"@)
    } else {
        (LayerKind::Background, "background"@)
    }
}

/// The active features of the first `k` listed layers, each with its
/// layer's kind, in walking order.
pub open spec fn walked(ix: &CanonIndex, t: TimePoint, k: int) -> Seq<(FeatureId, Seq<char>)>
    decreases k,
{
    if k <= 0 {
        Seq::empty()
    } else {
        let (kind, kind_name) = listing_layer(k - 1);
        walked(ix, t, k - 1) + active_at(ix, kind, t).map_values(|f: FeatureId| (f, kind_name))
    }
}

/// The entity of a walked (stored) feature.
pub open spec fn entity_of(ix: &CanonIndex, fid: FeatureId) -> Seq<char> {
    match feature_of(ix, fid) {
        Some(f) => f.entity@,
        None => Seq::empty(),
    }
}

/// One listing row: entity, name, kind, and witness (or "unknown").
pub open spec fn listing_row(ix: &CanonIndex, x: (FeatureId, Seq<char>)) -> (Seq<char>, Seq<char>, Seq<char>, Seq<char>) {
    let f = feature_of(ix, x.0)->Some_0;
    (
        f.entity@,
        f.name@,
        x.1,
        match witness_of(ix, x.0) {
            Some(w) => spec_witness_name(w),
            None => "unknown"@,
        },
    )
}

/// The rows of the first `n` walked features: each entity once, where
/// it is first met.
pub open spec fn listing(ix: &CanonIndex, xs: Seq<(FeatureId, Seq<char>)>, n: int) -> Seq<(Seq<char>, Seq<char>, Seq<char>, Seq<char>)>
    decreases n,
{
    if n <= 0 {
        Seq::empty()
    } else {
        let first_met = forall|j: int| 0 <= j < n - 1 ==> entity_of(ix, (#[trigger] xs[j]).0) != entity_of(ix, xs[n - 1].0);
        listing(ix, xs, n - 1) + if first_met {
            seq![listing_row(ix, xs[n - 1])]
        } else {
            Seq::empty()
        }
    }
}

/// The entities alive at `t`, with name, kind and witness.
pub open spec fn entities_listing(ix: &CanonIndex, t: TimePoint) -> Seq<(Seq<char>, Seq<char>, Seq<char>, Seq<char>)> {
    let xs = walked(ix, t, 6);
    listing(ix, xs, xs.len() as int)
}

/// The entities of the first `n` walked features.
pub open spec fn met_entities(ix: &CanonIndex, xs: Seq<(FeatureId, Seq<char>)>, n: int) -> Set<Seq<char>> {
    Set::new(|x: Seq<char>| exists|i: int| 0 <= i < n && entity_of(ix, (#[trigger] xs[i]).0) == x)
}

/// The entities listed so far.
pub open spec fn seen_set(seen: Seq<EntityId>) -> Set<Seq<char>> {
    Set::new(|x: Seq<char>| exists|q: int| 0 <= q < seen.len() && (#[trigger] seen[q])@ == x)
}

pub open spec fn row_views(rows: Seq<(EntityId, String, &'static str, &'static str)>) -> Seq<(Seq<char>, Seq<char>, Seq<char>, Seq<char>)> {
    rows.map_values(|r: (EntityId, String, &'static str, &'static str)| (r.0@, r.1@, r.2@, r.3@))
}

fn listing_layer_exec(k: usize) -> (r: (LayerKind, &'static str))
    requires
        k < 6,
    ensures
        r.0 == listing_layer(k as int).0,
        r.1@ == listing_layer(k as int).1,
{
    proof {
        reveal_strlit("territory");
        reveal_strlit("scripture-claim");
        reveal_strlit("journey");
        reveal_strlit("water");
        reveal_strlit("relief");
        reveal_strlit("background");
    }
    if k == 0 {
        (LayerKind::Territory, "territory")
    } else if k == 1 {
        (LayerKind::ScriptureClaims, "scripture-claim")
    } else if k == 2 {
        (LayerKind::Journeys, "journey")
    } else if k == 3 {
        (LayerKind::Water, "water")
    } else if k == 4 {
        (LayerKind::Relief, "relief")
    } else {
        (LayerKind::Background, "background")
    }
}


/// A listing reads only the walked features up to where it stops.
proof fn lemma_listing_prefix(ix: &CanonIndex, a: Seq<(FeatureId, Seq<char>)>, b: Seq<(FeatureId, Seq<char>)>, n: int)
    requires
        0 <= n <= a.len(),
        n <= b.len(),
        a.take(n) == b.take(n),
    ensures
        listing(ix, a, n) == listing(ix, b, n),
    decreases n,
{
    if n > 0 {
        assert(a.take(n - 1) =~= a.take(n).take(n - 1));
        assert(b.take(n - 1) =~= b.take(n).take(n - 1));
        lemma_listing_prefix(ix, a, b, n - 1);
        assert(a[n - 1] == a.take(n)[n - 1]);
        assert(b[n - 1] == b.take(n)[n - 1]);
        assert forall|j: int| 0 <= j < n - 1 implies a[j] == b[j] by {
            assert(a[j] == a.take(n)[j]);
            assert(b[j] == b.take(n)[j]);
        }
    }
}

/// Active features are stored features.
proof fn lemma_active_stored(ix: &CanonIndex, kind: LayerKind, t: TimePoint)
    ensures
        forall|i: int| 0 <= i < active_at(ix, kind, t).len() ==> feature_of(ix, #[trigger] active_at(ix, kind, t)[i]) is Some,
{
    match first_layer(ix, kind, ix.layers@.len() as int) {
        None => {},
        Some(l) => match state_at_spec(ix.layers@[l].1@, t) {
            None => {},
            Some(sid) => match snapshot_of(ix, sid) {
                Some(fs) => {
                    crate::canon_check::lemma_resolved_in(ix, fs, fs.len() as int);
                    let r = resolved_in(ix, fs, fs.len() as int);
                    assert forall|i: int| 0 <= i < r.len() implies feature_of(ix, #[trigger] r[i]) is Some by {
                        assert(r.contains(r[i]));
                    }
                },
                None => {},
            },
        },
    }
}

fn in_seen(seen: &Vec<EntityId>, e: &EntityId) -> (r: bool)
    ensures
        r == exists|q: int| 0 <= q < seen@.len() && (#[trigger] seen@[q])@ == e@,
{
    let mut i: usize = 0;
    while i < seen.len()
        invariant
            i <= seen@.len(),
            forall|q: int| 0 <= q < i ==> (#[trigger] seen@[q])@ != e@,
        decreases seen@.len() - i,
    {
        if str_equal(seen[i].0.as_str(), e.0.as_str()) {
            assert(seen@[i as int]@ == e@);
            return true;
        }
        i += 1;
    }
    false
}

impl CanonIndex {
    fn witness_index(&self, fid: FeatureId) -> (r: Option<usize>)
        requires
            self.wf(),
        ensures
            match r {
                Some(i) => i < self.witnesses@.len() && witness_of(self, fid) == Some(self.witnesses@[i as int].1),
                None => witness_of(self, fid) is None,
            },
    {
        let mut i: usize = 0;
        while i < self.witnesses.len()
            invariant
                self.wf(),
                i <= self.witnesses@.len(),
                forall|j: int| 0 <= j < i ==> (#[trigger] self.witnesses@[j]).0 != fid,
            decreases self.witnesses@.len() - i,
        {
            if self.witnesses[i].0 == fid {
                proof {
                    let c = choose|c: int| 0 <= c < self.witnesses@.len() && (#[trigger] self.witnesses@[c]).0 == fid;
                    if c > i {
                        assert(self.witnesses@[i as int].0.0 < self.witnesses@[c].0.0);
                    }
                }
                return Some(i);
            }
            i += 1;
        }
        None
    }

    /// The entities alive at `t`, with kind and witness — the listing
    /// callers pick pieces from: layers in listing order, each entity
    /// once, where it is first met.
    pub fn entities_at(&self, t: &TimePoint) -> (rows: Vec<(EntityId, String, &'static str, &'static str)>)
        requires
            self.wf(),
        ensures
            row_views(rows@) == entities_listing(self, *t),
    {
        let ghost all = walked(self, *t, 6);
        let mut rows: Vec<(EntityId, String, &'static str, &'static str)> = Vec::new();
        let mut seen: Vec<EntityId> = Vec::new();
        let mut k: usize = 0;
        assert(row_views(rows@) =~= listing(self, walked(self, *t, 0), 0));
        while k < 6
            invariant
                self.wf(),
                k <= 6,
                all == walked(self, *t, 6),
                row_views(rows@) == listing(self, walked(self, *t, k as int), walked(self, *t, k as int).len() as int),
                seen_set(seen@) == met_entities(self, walked(self, *t, k as int), walked(self, *t, k as int).len() as int),
                forall|j: int| 0 <= j < walked(self, *t, k as int).len() ==> feature_of(self, (#[trigger] walked(self, *t, k as int)[j]).0) is Some,
            decreases 6 - k,
        {
            let (kind, kind_name) = listing_layer_exec(k);
            let ids = self.active(kind, t);
            let ghost prefix = walked(self, *t, k as int);
            let ghost layer_xs = active_at(self, kind, *t).map_values(|f: FeatureId| (f, kind_name@));
            let ghost xs = prefix + layer_xs;
            assert(walked(self, *t, k + 1) == xs);
            proof {
                assert(xs.take(prefix.len() as int) =~= prefix);
                assert(prefix.take(prefix.len() as int) =~= prefix);
                lemma_listing_prefix(self, prefix, xs, prefix.len() as int);
                lemma_active_stored(self, kind, *t);
            }
            let mut j: usize = 0;
            while j < ids.len()
                invariant
                    self.wf(),
                    k < 6,
                    ids@ == active_at(self, kind, *t),
                    xs == prefix + layer_xs,
                    layer_xs == active_at(self, kind, *t).map_values(|f: FeatureId| (f, kind_name@)),
                    kind_name@ == listing_layer(k as int).1,
                    j <= ids@.len(),
                    row_views(rows@) == listing(self, xs, prefix.len() + j),
                    seen_set(seen@) == met_entities(self, xs, prefix.len() + j),
                    forall|i: int| 0 <= i < xs.len() ==> feature_of(self, (#[trigger] xs[i]).0) is Some,
                decreases ids@.len() - j,
            {
                let fid = ids[j];
                let ghost n: int = prefix.len() + j;
                assert(xs[n as int] == (fid, kind_name@));
                let ghost pre_rows = row_views(rows@);
                let ghost pre_seen = seen@;
                match self.feature_index(fid) {
                    Some(fi) => {
                        let e = &self.features[fi].1.entity;
                        assert(entity_of(self, fid) == e@);
                        let met = in_seen(&seen, e);
                        if !met {
                            let w: &'static str = match self.witness_index(fid) {
                                Some(wi) => witness_name(&self.witnesses[wi].1),
                                None => "unknown",
                            };
                            proof {
                                reveal_strlit("unknown");
                            }
                            let name = owned(self.features[fi].1.name.as_str());
                            rows.push((clone_id(e), name, kind_name, w));
                            seen.push(clone_id(e));
                            proof {
                                assert(listing_row(self, xs[n as int]) == (e@, self.features@[fi as int].1.name@, kind_name@, w@));
                                assert(row_views(rows@) =~= pre_rows.push(listing_row(self, xs[n as int])));
                                assert forall|i: int| 0 <= i < n implies entity_of(self, (#[trigger] xs[i]).0) != entity_of(self, xs[n as int].0) by {
                                    if entity_of(self, xs[i].0) == e@ {
                                        assert(met_entities(self, xs, n).contains(e@));
                                        assert(seen_set(pre_seen).contains(e@));
                                    }
                                }
                            }
                        } else {
                            proof {
                                assert(seen_set(seen@).contains(e@));
                                assert(met_entities(self, xs, n).contains(e@));
                                let i = choose|i: int| 0 <= i < n && entity_of(self, (#[trigger] xs[i]).0) == e@;
                                assert(row_views(rows@) =~= pre_rows + Seq::<(Seq<char>, Seq<char>, Seq<char>, Seq<char>)>::empty());
                            }
                        }
                        proof {
                            assert(row_views(rows@) == listing(self, xs, n + 1));
                            assert forall|x: Seq<char>| seen_set(seen@).contains(x)
                                <==> met_entities(self, xs, n + 1).contains(x) by {
                                if exists|i: int| 0 <= i < n + 1 && entity_of(self, (#[trigger] xs[i]).0) == x {
                                    let i = choose|i: int| 0 <= i < n + 1 && entity_of(self, (#[trigger] xs[i]).0) == x;
                                    if i == n {
                                        if met {
                                            assert(seen_set(pre_seen).contains(e@));
                                            let q = choose|q: int| 0 <= q < pre_seen.len() && (#[trigger] pre_seen[q])@ == e@;
                                            assert(seen@[q]@ == x);
                                        } else {
                                            assert(seen@[pre_seen.len() as int]@ == x);
                                        }
                                    } else {
                                        assert(met_entities(self, xs, n).contains(x));
                                        assert(seen_set(pre_seen).contains(x));
                                        let q = choose|q: int| 0 <= q < pre_seen.len() && (#[trigger] pre_seen[q])@ == x;
                                        assert(seen@[q]@ == x);
                                    }
                                }
                                if exists|q: int| 0 <= q < seen@.len() && (#[trigger] seen@[q])@ == x {
                                    let q = choose|q: int| 0 <= q < seen@.len() && (#[trigger] seen@[q])@ == x;
                                    if q < pre_seen.len() {
                                        assert(pre_seen[q] == seen@[q]);
                                        assert(seen_set(pre_seen).contains(x));
                                        assert(met_entities(self, xs, n).contains(x));
                                        let i = choose|i: int| 0 <= i < n && entity_of(self, (#[trigger] xs[i]).0) == x;
                                        assert(0 <= i < n + 1);
                                    } else {
                                        assert(entity_of(self, xs[n as int].0) == x);
                                    }
                                }
                            }
                            assert(seen_set(seen@) =~= met_entities(self, xs, n + 1));
                        }
                    },
                    None => {
                        proof {
                            assert(feature_of(self, xs[n as int].0) is Some);
                        }
                    },
                }
                j += 1;
            }
            proof {
                assert(xs.len() == prefix.len() + ids@.len());
            }
            k += 1;
        }
        proof {
            assert(walked(self, *t, 6) == all);
        }
        rows
    }
}

/// Which kinds of content a render asks for.
#[derive(Clone, Copy, Debug, PartialEq, Eq, Structural)]
pub struct LayerSet {
    pub geometry: bool,
    pub topography: bool,
    pub relief: bool,
    pub journeys: bool,
}

/// The canon layers a request asks for, in drawing order: geometry is
/// the background, the territories and Scripture's claims; topography
/// the waters; then relief and the journeys.
pub open spec fn spec_layers_wanted(bits: LayerSet) -> Seq<LayerKind> {
    (if bits.geometry { seq![LayerKind::Background, LayerKind::Territory, LayerKind::ScriptureClaims] } else { Seq::empty() })
        + (if bits.topography { seq![LayerKind::Water] } else { Seq::empty() })
        + (if bits.relief { seq![LayerKind::Relief] } else { Seq::empty() })
        + (if bits.journeys { seq![LayerKind::Journeys] } else { Seq::empty() })
}

/// Which canon layers a request asks for.
pub fn layers_wanted(bits: LayerSet) -> (out: Vec<LayerKind>)
    ensures
        out@ == spec_layers_wanted(bits),
{
    let mut out: Vec<LayerKind> = Vec::new();
    if bits.geometry {
        out.push(LayerKind::Background);
        out.push(LayerKind::Territory);
        out.push(LayerKind::ScriptureClaims);
    }
    if bits.topography {
        out.push(LayerKind::Water);
    }
    if bits.relief {
        out.push(LayerKind::Relief);
    }
    if bits.journeys {
        out.push(LayerKind::Journeys);
    }
    proof {
        assert(out@ =~= spec_layers_wanted(bits));
    }
    out
}

/// The source a witness speaks as.
pub open spec fn spec_witness_source(w: Witness) -> Seq<char> {
    match w {
        Witness::Atlas => "witness:atlas"@,
        Witness::Authored => "witness:authored"@,
        Witness::Basemap => "witness:basemap"@,
        Witness::NaturalEarth => "witness:natural-earth"@,
    }
}

/// The source a witness speaks as.
pub fn witness_source(w: Witness) -> (s: &'static str)
    ensures
        s@ == spec_witness_source(w),
{
    match w {
        Witness::Atlas => "witness:atlas",
        Witness::Authored => "witness:authored",
        Witness::Basemap => "witness:basemap",
        Witness::NaturalEarth => "witness:natural-earth",
    }
}

/// The sources a feature stands on: its witness's, and Scripture's too
/// when the atlas or an author witnesses it; none without a witness.
pub open spec fn spec_sources_of(w: Option<Witness>) -> Seq<Seq<char>> {
    match w {
        None => Seq::empty(),
        Some(w) => if w == Witness::Atlas || w == Witness::Authored {
            seq!["scripture"@, spec_witness_source(w)]
        } else {
            seq![spec_witness_source(w)]
        },
    }
}

impl CanonIndex {
    /// The sources a feature stands on, in order ("scripture" sorts
    /// before every "witness:" source).
    pub fn sources_of(&self, fid: FeatureId) -> (out: Vec<&'static str>)
        requires
            self.wf(),
        ensures
            out@.map_values(|s: &'static str| s@) == spec_sources_of(witness_of(self, fid)),
    {
        let mut out: Vec<&'static str> = Vec::new();
        match self.witness_index(fid) {
            None => {},
            Some(i) => {
                let w = self.witnesses[i].1;
                match w {
                    Witness::Atlas | Witness::Authored => {
                        out.push("scripture");
                    },
                    _ => {},
                }
                out.push(witness_source(w));
            },
        }
        proof {
            assert(out@.map_values(|s: &'static str| s@) =~= spec_sources_of(witness_of(self, fid)));
        }
        out
    }
}

// -------------------------------------------------------------- laws

/// THE LISTING NAMES EACH LAYER'S KIND: the six layers are walked in
/// their order, each listed under its own kind's name — territory,
/// scripture-claim, journey, water, relief, background.
pub proof fn law_listing_kind_names(k: int)
    requires
        0 <= k < 6,
    ensures
        k == 0 ==> listing_layer(k).0 == LayerKind::Territory,
        k == 1 ==> listing_layer(k).0 == LayerKind::ScriptureClaims,
        k == 2 ==> listing_layer(k).0 == LayerKind::Journeys,
        k == 3 ==> listing_layer(k).0 == LayerKind::Water,
        k == 4 ==> listing_layer(k).0 == LayerKind::Relief,
        k == 5 ==> listing_layer(k).0 == LayerKind::Background,
        listing_layer(k).1 == (match listing_layer(k).0 {
            LayerKind::Territory => "territory"@,
            LayerKind::ScriptureClaims => "scripture-claim"@,
            LayerKind::Journeys => "journey"@,
            LayerKind::Water => "water"@,
            LayerKind::Relief => "relief"@,
            LayerKind::Background => "background"@,
        }),
{
}

/// Every walked feature is active in a walked layer, and carries that
/// layer's listing name.
proof fn lemma_walked_from(ix: &CanonIndex, t: TimePoint, k: int)
    requires
        0 <= k <= 6,
    ensures
        forall|j: int| 0 <= j < walked(ix, t, k).len() ==> exists|m: int| 0 <= m < k
            && (#[trigger] walked(ix, t, k)[j]).1 == listing_layer(m).1
            && active_at(ix, listing_layer(m).0, t).contains(walked(ix, t, k)[j].0),
    decreases k,
{
    if k > 0 {
        lemma_walked_from(ix, t, k - 1);
        let prev = walked(ix, t, k - 1);
        let (kind, name) = listing_layer(k - 1);
        let act = active_at(ix, kind, t);
        let more = act.map_values(|f: FeatureId| (f, name));
        let w = walked(ix, t, k);
        assert(w == prev + more);
        assert forall|j: int| 0 <= j < w.len() implies exists|m: int| 0 <= m < k
            && (#[trigger] w[j]).1 == listing_layer(m).1
            && active_at(ix, listing_layer(m).0, t).contains(w[j].0) by {
            if j < prev.len() {
                assert(w[j] == prev[j]);
                let m = choose|m: int| 0 <= m < k - 1 && (#[trigger] prev[j]).1 == listing_layer(m).1
                    && active_at(ix, listing_layer(m).0, t).contains(prev[j].0);
                assert(0 <= m < k);
            } else {
                let q = j - prev.len();
                assert(w[j] == more[q]);
                assert(more[q] == (act[q], name));
                assert(act.contains(act[q]));
                assert(listing_layer(k - 1).1 == w[j].1);
            }
        }
    }
}

/// Every listed row is the row of some walked feature.
proof fn lemma_listing_rows(ix: &CanonIndex, xs: Seq<(FeatureId, Seq<char>)>, n: int)
    requires
        0 <= n <= xs.len(),
    ensures
        forall|i: int| 0 <= i < listing(ix, xs, n).len() ==> exists|j: int| 0 <= j < n
            && (#[trigger] listing(ix, xs, n)[i]) == listing_row(ix, xs[j]),
    decreases n,
{
    if n > 0 {
        lemma_listing_rows(ix, xs, n - 1);
        let prev = listing(ix, xs, n - 1);
        let cur = listing(ix, xs, n);
        assert forall|i: int| 0 <= i < cur.len() implies exists|j: int| 0 <= j < n
            && (#[trigger] cur[i]) == listing_row(ix, xs[j]) by {
            if i < prev.len() {
                assert(cur[i] == prev[i]);
                let j = choose|j: int| 0 <= j < n - 1 && (#[trigger] prev[i]) == listing_row(ix, xs[j]);
                assert(0 <= j < n);
            } else {
                assert(cur[i] == listing_row(ix, xs[n - 1]));
            }
        }
    }
}

/// A LISTED ROW NAMES THE LAYER IT WAS FOUND IN: every row of the
/// entities alive at `t` is the entity and name of a feature active at
/// `t` in some layer, listed under that layer's kind name — a water
/// body as "water", relief as "relief".
pub proof fn law_listing_rows_name_their_layer(ix: &CanonIndex, t: TimePoint, i: int)
    requires
        0 <= i < entities_listing(ix, t).len(),
    ensures
        exists|layer: LayerKind, f: FeatureId| #[trigger] active_at(ix, layer, t).contains(f) && ({
            let row = entities_listing(ix, t)[i];
            &&& row.0 == feature_of(ix, f)->Some_0.entity@
            &&& row.1 == feature_of(ix, f)->Some_0.name@
            &&& row.2 == (match layer {
                LayerKind::Territory => "territory"@,
                LayerKind::ScriptureClaims => "scripture-claim"@,
                LayerKind::Journeys => "journey"@,
                LayerKind::Water => "water"@,
                LayerKind::Relief => "relief"@,
                LayerKind::Background => "background"@,
            })
        }),
{
    let xs = walked(ix, t, 6);
    lemma_listing_rows(ix, xs, xs.len() as int);
    lemma_walked_from(ix, t, 6);
    let rows = entities_listing(ix, t);
    assert(rows[i] == listing(ix, xs, xs.len() as int)[i]);
    let j = choose|j: int| 0 <= j < xs.len() && (#[trigger] listing(ix, xs, xs.len() as int)[i]) == listing_row(ix, xs[j]);
    let m = choose|m: int| 0 <= m < 6 && (#[trigger] xs[j]).1 == listing_layer(m).1
        && active_at(ix, listing_layer(m).0, t).contains(xs[j].0);
    law_listing_kind_names(m);
    let layer = listing_layer(m).0;
    let f = xs[j].0;
    assert(active_at(ix, layer, t).contains(f));
}

/// SCRIPTURE STANDS ONLY BEHIND THE ATLAS OR AN AUTHOR: a feature's
/// sources hold "scripture" exactly when its witness is the atlas or an
/// author; they always end in its own witness's source, and a feature
/// with no recorded witness stands on nothing.
pub proof fn law_scripture_only_behind_atlas_or_author(ix: &CanonIndex, fid: FeatureId)
    ensures
        spec_sources_of(witness_of(ix, fid)).contains("scripture"@) <==> (witness_of(ix, fid) == Some(Witness::Atlas)
            || witness_of(ix, fid) == Some(Witness::Authored)),
        witness_of(ix, fid) is None ==> spec_sources_of(witness_of(ix, fid)).len() == 0,
        witness_of(ix, fid) matches Some(w) ==> spec_sources_of(witness_of(ix, fid)).len() > 0
            && spec_sources_of(witness_of(ix, fid)).last() == (match w {
            Witness::Atlas => "witness:atlas"@,
            Witness::Authored => "witness:authored"@,
            Witness::Basemap => "witness:basemap"@,
            Witness::NaturalEarth => "witness:natural-earth"@,
        }),
{
    reveal_strlit("scripture");
    reveal_strlit("witness:atlas");
    reveal_strlit("witness:authored");
    reveal_strlit("witness:basemap");
    reveal_strlit("witness:natural-earth");
    let src = spec_sources_of(witness_of(ix, fid));
    match witness_of(ix, fid) {
        None => {},
        Some(w) => {
            let ws = spec_witness_source(w);
            assert(ws.len() > 1 && ws[1] == 'i');
            assert("scripture"@[1] == 'c');
            assert(ws != "scripture"@);
            if w == Witness::Atlas || w == Witness::Authored {
                assert(src[0] == "scripture"@);
            } else {
                assert(src =~= seq![ws]);
                if src.contains("scripture"@) {
                    let q = choose|q: int| 0 <= q < src.len() && src[q] == "scripture"@;
                    assert(q == 0);
                }
            }
        },
    }
}

} // verus!
