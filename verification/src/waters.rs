//! The waters as explorable regions: every cleaned ring of a water
//! dataset is a shore in its own right; same-named features (a lake in
//! two pieces) merge into one multi-part region; and the sea is the
//! whole sphere minus the land, its holes the land's outer coasts.

use vstd::prelude::*;
use crate::basemaps::{IngestError, ParseError};
use crate::quantize::QPoint;
use crate::registry::{insert_names, merge_name, names_sorted};
use crate::timeline::{
    clean_exec, cleaned, copy_parse_error, kept_holes, lemma_filter_step, lemma_insert_names, parse_error_view,
    FeatureRings, PolygonRings,
};

verus! {

/// One water dataset, read and quantized: the label its anonymous
/// features carry, and whether its feature with the most vertices is
/// dropped (the ocean file's stitched envelope, degenerate on a
/// sphere).
#[derive(Debug)]
pub struct WaterInput {
    pub label_for_unnamed: String,
    pub features: Result<Vec<FeatureRings>, ParseError>,
    pub skip_largest_feature: bool,
}

/// One part of a water region: its first surviving ring as the cycle,
/// the rest as holes; each ring a shore of its own.
#[derive(Clone, Debug)]
pub struct ShorePart {
    pub cycle: Vec<QPoint>,
    pub holes: Vec<Vec<QPoint>>,
}

/// A water region: its name and parts.
#[derive(Clone, Debug)]
pub struct WaterRegion {
    pub name: String,
    pub parts: Vec<ShorePart>,
}

/// A part as contracts speak of it: all its rings, cycle first.
pub open spec fn shore_rings(p: ShorePart) -> Seq<Seq<QPoint>> {
    seq![p.cycle@] + p.holes@.map_values(|h: Vec<QPoint>| h@)
}

pub open spec fn region_view(r: WaterRegion) -> (Seq<char>, Seq<Seq<Seq<QPoint>>>) {
    (r.name@, r.parts@.map_values(|p: ShorePart| shore_rings(p)))
}

/// How many vertices a list of rings holds.
pub open spec fn rings_vertices(hs: Seq<Vec<QPoint>>) -> nat
    decreases hs.len(),
{
    if hs.len() == 0 {
        0
    } else {
        rings_vertices(hs.drop_last()) + hs.last()@.len()
    }
}

/// How many vertices a list of polygons holds, outer rings and holes.
pub open spec fn polys_vertices(ps: Seq<PolygonRings>) -> nat
    decreases ps.len(),
{
    if ps.len() == 0 {
        0
    } else {
        polys_vertices(ps.drop_last()) + ps.last().outer@.len() + rings_vertices(ps.last().holes@)
    }
}

/// A feature's vertex count.
pub open spec fn vertex_count(f: FeatureRings) -> nat {
    polys_vertices(f.polygons@)
}

/// Among the first `n` features, the one with the most vertices, the
/// last of equals.
pub open spec fn largest_upto(fs: Seq<FeatureRings>, n: int) -> int
    decreases n,
{
    if n <= 1 {
        0
    } else {
        let best = largest_upto(fs, n - 1);
        if vertex_count(fs[n - 1]) >= vertex_count(fs[best]) {
            n - 1
        } else {
            best
        }
    }
}

/// The features a dataset contributes.
pub open spec fn kept_features(fs: Seq<FeatureRings>, skip_largest: bool) -> Seq<FeatureRings> {
    if skip_largest && fs.len() > 0 {
        fs.remove(largest_upto(fs, fs.len() as int))
    } else {
        fs
    }
}

/// A polygon's surviving rings, cleaned: its outer ring, then its holes.
pub open spec fn surviving(p: PolygonRings) -> Seq<Seq<QPoint>> {
    (match cleaned(p.outer@) {
        Some(o) => seq![o],
        None => Seq::empty(),
    }) + kept_holes(p.holes@)
}

/// The named parts of a feature's polygons: one per polygon with a
/// surviving ring.
pub open spec fn poly_parts(ps: Seq<PolygonRings>, name: Seq<char>) -> Seq<(Seq<char>, Seq<Seq<QPoint>>)>
    decreases ps.len(),
{
    if ps.len() == 0 {
        Seq::empty()
    } else {
        let s = surviving(ps.last());
        poly_parts(ps.drop_last(), name) + if s.len() > 0 { seq![(name, s)] } else { Seq::empty() }
    }
}

/// The named parts of a list of features; anonymous ones take the
/// dataset's label.
pub open spec fn feature_parts(fs: Seq<FeatureRings>, label: Seq<char>) -> Seq<(Seq<char>, Seq<Seq<QPoint>>)>
    decreases fs.len(),
{
    if fs.len() == 0 {
        Seq::empty()
    } else {
        let name = match fs.last().name {
            Some(n) => n@,
            None => label,
        };
        feature_parts(fs.drop_last(), label) + poly_parts(fs.last().polygons@, name)
    }
}

/// A dataset's features, if read.
pub open spec fn water_features(w: WaterInput) -> Seq<FeatureRings> {
    match w.features {
        Ok(fs) => fs@,
        Err(_) => Seq::empty(),
    }
}

/// The named parts of the first `k` datasets, in order.
pub open spec fn water_parts(ws: Seq<WaterInput>, k: int) -> Seq<(Seq<char>, Seq<Seq<QPoint>>)>
    decreases k,
{
    if k <= 0 {
        Seq::empty()
    } else {
        let w = ws[k - 1];
        water_parts(ws, k - 1) + feature_parts(kept_features(water_features(w), w.skip_largest_feature), w.label_for_unnamed@)
    }
}

/// The water regions: every name in string order, with its parts in
/// the order the datasets gave them.
pub open spec fn water_regions(parts: Seq<(Seq<char>, Seq<Seq<QPoint>>)>) -> Seq<(Seq<char>, Seq<Seq<Seq<QPoint>>>)> {
    insert_names(Seq::empty(), parts.map_values(|x: (Seq<char>, Seq<Seq<QPoint>>)| x.0)).map_values(
        |n: Seq<char>| (n, parts.filter(|x: (Seq<char>, Seq<Seq<QPoint>>)| x.0 == n).map_values(|x: (Seq<char>, Seq<Seq<QPoint>>)| x.1)),
    )
}

/// Every dataset's features fit the machine's counters.
pub open spec fn waters_fit(ws: Seq<WaterInput>) -> bool {
    forall|k: int, i: int| 0 <= k < ws.len() && 0 <= i < water_features(ws[k]).len() ==> vertex_count(
        #[trigger] water_features(ws[k])[i],
    ) <= usize::MAX
}

proof fn lemma_rings_vertices_mono(hs: Seq<Vec<QPoint>>, j: int)
    requires
        0 <= j <= hs.len(),
    ensures
        rings_vertices(hs.take(j)) <= rings_vertices(hs),
    decreases hs.len() - j,
{
    if j < hs.len() {
        lemma_rings_vertices_mono(hs, j + 1);
        assert(hs.take(j + 1).drop_last() =~= hs.take(j));
    } else {
        assert(hs.take(j) =~= hs);
    }
}

proof fn lemma_polys_vertices_mono(ps: Seq<PolygonRings>, j: int)
    requires
        0 <= j <= ps.len(),
    ensures
        polys_vertices(ps.take(j)) <= polys_vertices(ps),
    decreases ps.len() - j,
{
    if j < ps.len() {
        lemma_polys_vertices_mono(ps, j + 1);
        assert(ps.take(j + 1).drop_last() =~= ps.take(j));
    } else {
        assert(ps.take(j) =~= ps);
    }
}

/// A feature's vertex count, counted.
fn vertices_of(f: &FeatureRings) -> (n: usize)
    requires
        vertex_count(*f) <= usize::MAX,
    ensures
        n == vertex_count(*f),
{
    let ps = &f.polygons;
    let mut n: usize = 0;
    let mut j: usize = 0;
    while j < ps.len()
        invariant
            ps == &f.polygons,
            vertex_count(*f) <= usize::MAX,
            j <= ps@.len(),
            n == polys_vertices(ps@.take(j as int)),
        decreases ps.len() - j,
    {
        let p = &ps[j];
        proof {
            assert(ps@.take(j as int + 1).drop_last() =~= ps@.take(j as int));
            lemma_polys_vertices_mono(ps@, j as int + 1);
            lemma_rings_vertices_mono(p.holes@, 0);
        }
        let mut m: usize = p.outer.len();
        let mut h: usize = 0;
        while h < p.holes.len()
            invariant
                p == &ps@[j as int],
                h <= p.holes@.len(),
                m == p.outer@.len() + rings_vertices(p.holes@.take(h as int)),
                n + p.outer@.len() + rings_vertices(p.holes@) <= usize::MAX,
                n == polys_vertices(ps@.take(j as int)),
            decreases p.holes.len() - h,
        {
            proof {
                assert(p.holes@.take(h as int + 1).drop_last() =~= p.holes@.take(h as int));
                lemma_rings_vertices_mono(p.holes@, h as int + 1);
            }
            m = m + p.holes[h].len();
            h += 1;
        }
        proof {
            assert(p.holes@.take(p.holes@.len() as int) =~= p.holes@);
        }
        n = n + m;
        j += 1;
    }
    proof {
        assert(ps@.take(ps@.len() as int) =~= ps@);
    }
    n
}

/// The feature with the most vertices, the last of equals.
fn largest(fs: &Vec<FeatureRings>) -> (i: usize)
    requires
        fs@.len() > 0,
        forall|k: int| 0 <= k < fs@.len() ==> vertex_count(#[trigger] fs@[k]) <= usize::MAX,
    ensures
        i == largest_upto(fs@, fs@.len() as int),
        i < fs@.len(),
{
    let mut best: usize = 0;
    let mut best_count = vertices_of(&fs[0]);
    let mut k: usize = 1;
    while k < fs.len()
        invariant
            forall|k: int| 0 <= k < fs@.len() ==> vertex_count(#[trigger] fs@[k]) <= usize::MAX,
            1 <= k <= fs@.len(),
            best == largest_upto(fs@, k as int),
            best < k,
            best_count == vertex_count(fs@[best as int]),
        decreases fs.len() - k,
    {
        let c = vertices_of(&fs[k]);
        if c >= best_count {
            best = k;
            best_count = c;
        }
        k += 1;
    }
    best
}

/// A polygon's surviving rings, cleaned.
fn surviving_exec(p: &PolygonRings) -> (out: Vec<Vec<QPoint>>)
    ensures
        out@.map_values(|r: Vec<QPoint>| r@) == surviving(*p),
{
    let mut out: Vec<Vec<QPoint>> = Vec::new();
    match clean_exec(&p.outer) {
        Some(o) => {
            out.push(o);
        },
        None => {},
    }
    let ghost head = out@.map_values(|r: Vec<QPoint>| r@);
    proof {
        assert(head == match cleaned(p.outer@) {
            Some(o) => seq![o],
            None => Seq::<Seq<QPoint>>::empty(),
        });
    }
    let mut h: usize = 0;
    while h < p.holes.len()
        invariant
            h <= p.holes@.len(),
            out@.map_values(|r: Vec<QPoint>| r@) == head + kept_holes(p.holes@.take(h as int)),
        decreases p.holes.len() - h,
    {
        proof {
            assert(p.holes@.take(h as int + 1).drop_last() =~= p.holes@.take(h as int));
            assert(p.holes@.take(h as int + 1).last() == p.holes@[h as int]);
        }
        match clean_exec(&p.holes[h]) {
            Some(c) => {
                let ghost before = out@.map_values(|r: Vec<QPoint>| r@);
                out.push(c);
                proof {
                    assert(out@.map_values(|r: Vec<QPoint>| r@) =~= before.push(c@));
                    assert(head + kept_holes(p.holes@.take(h as int + 1)) =~= (head + kept_holes(p.holes@.take(h as int))).push(c@));
                }
            },
            None => {},
        }
        h += 1;
    }
    proof {
        assert(p.holes@.take(p.holes@.len() as int) =~= p.holes@);
    }
    out
}

pub open spec fn part_views(ps: Seq<(String, Vec<Vec<QPoint>>)>) -> Seq<(Seq<char>, Seq<Seq<QPoint>>)> {
    ps.map_values(|x: (String, Vec<Vec<QPoint>>)| (x.0@, x.1@.map_values(|r: Vec<QPoint>| r@)))
}

/// The named parts of a dataset's kept features, appended to `out`.
fn collect_parts(fs: &Vec<FeatureRings>, skip: Option<usize>, label: &str, out: &mut Vec<(String, Vec<Vec<QPoint>>)>)
    requires
        skip matches Some(x) ==> x < fs@.len(),
    ensures
        part_views(final(out)@) == part_views(old(out)@) + feature_parts(
            match skip {
                Some(x) => fs@.remove(x as int),
                None => fs@,
            },
            label@,
        ),
{
    let ghost base = part_views(out@);
    let ghost kept_of = |i: int| match skip {
        Some(x) => if (x as int) < i { fs@.take(i).remove(x as int) } else { fs@.take(i) },
        None => fs@.take(i),
    };
    let mut i: usize = 0;
    while i < fs.len()
        invariant
            skip matches Some(x) ==> x < fs@.len(),
            kept_of == (|i: int| match skip {
                Some(x) => if (x as int) < i { fs@.take(i).remove(x as int) } else { fs@.take(i) },
                None => fs@.take(i),
            }),
            i <= fs@.len(),
            part_views(out@) == base + feature_parts(kept_of(i as int), label@),
        decreases fs.len() - i,
    {
        let f = &fs[i];
        let skipped = match skip {
            Some(x) => x == i,
            None => false,
        };
        if skipped {
            proof {
                assert(fs@.take(i as int + 1).remove(i as int) =~= fs@.take(i as int));
                assert(kept_of(i as int + 1) == kept_of(i as int));
            }
        } else {
            proof {
                match skip {
                    Some(x) => {
                        if (x as int) < i {
                            assert(fs@.take(i as int + 1).remove(x as int) =~= fs@.take(i as int).remove(x as int).push(fs@[i as int]));
                        } else {
                            assert(fs@.take(i as int + 1) =~= fs@.take(i as int).push(fs@[i as int]));
                        }
                    },
                    None => {
                        assert(fs@.take(i as int + 1) =~= fs@.take(i as int).push(fs@[i as int]));
                    },
                }
                assert(kept_of(i as int + 1) == kept_of(i as int).push(fs@[i as int]));
                assert(kept_of(i as int).push(fs@[i as int]).drop_last() =~= kept_of(i as int));
            }
            let name = match &f.name {
                Some(n) => n.clone(),
                None => crate::text::owned(label),
            };
            let ghost nv = name@;
            let ghost mid = part_views(out@);
            let mut j: usize = 0;
            while j < f.polygons.len()
                invariant
                    f == &fs@[i as int],
                    nv == name@,
                    j <= f.polygons@.len(),
                    part_views(out@) == mid + poly_parts(f.polygons@.take(j as int), nv),
                decreases f.polygons.len() - j,
            {
                proof {
                    assert(f.polygons@.take(j as int + 1).drop_last() =~= f.polygons@.take(j as int));
                    assert(f.polygons@.take(j as int + 1).last() == f.polygons@[j as int]);
                }
                let rings = surviving_exec(&f.polygons[j]);
                if rings.len() > 0 {
                    let ghost before = out@;
                    out.push((name.clone(), rings));
                    proof {
                        assert(part_views(out@) =~= part_views(before).push((nv, surviving(f.polygons@[j as int]))));
                        assert(mid + poly_parts(f.polygons@.take(j as int + 1), nv) =~= (mid + poly_parts(f.polygons@.take(j as int), nv)).push((nv, surviving(f.polygons@[j as int]))));
                    }
                } else {
                    proof {
                        assert(poly_parts(f.polygons@.take(j as int + 1), nv) =~= poly_parts(f.polygons@.take(j as int), nv));
                    }
                }
                j += 1;
            }
            proof {
                assert(f.polygons@.take(f.polygons@.len() as int) =~= f.polygons@);
                assert(nv == match f.name {
                    Some(n) => n@,
                    None => label@,
                });
            }
        }
        i += 1;
    }
    proof {
        assert(fs@.take(fs@.len() as int) =~= fs@);
        match skip {
            Some(x) => {
                assert(kept_of(fs@.len() as int) == fs@.remove(x as int));
            },
            None => {},
        }
    }
}

proof fn lemma_poly_parts_nonempty(ps: Seq<PolygonRings>, name: Seq<char>)
    ensures
        forall|t: int| 0 <= t < poly_parts(ps, name).len() ==> (#[trigger] poly_parts(ps, name)[t]).1.len() > 0,
    decreases ps.len(),
{
    if ps.len() > 0 {
        lemma_poly_parts_nonempty(ps.drop_last(), name);
        let a = poly_parts(ps.drop_last(), name);
        let b = poly_parts(ps, name);
        assert forall|t: int| 0 <= t < b.len() implies (#[trigger] b[t]).1.len() > 0 by {
            if t < a.len() {
                assert(b[t] == a[t]);
            }
        }
    }
}

proof fn lemma_feature_parts_nonempty(fs: Seq<FeatureRings>, label: Seq<char>)
    ensures
        forall|t: int| 0 <= t < feature_parts(fs, label).len() ==> (#[trigger] feature_parts(fs, label)[t]).1.len() > 0,
    decreases fs.len(),
{
    if fs.len() > 0 {
        lemma_feature_parts_nonempty(fs.drop_last(), label);
        let name = match fs.last().name {
            Some(n) => n@,
            None => label,
        };
        lemma_poly_parts_nonempty(fs.last().polygons@, name);
        let a = feature_parts(fs.drop_last(), label);
        let c = poly_parts(fs.last().polygons@, name);
        let b = feature_parts(fs, label);
        assert forall|t: int| 0 <= t < b.len() implies (#[trigger] b[t]).1.len() > 0 by {
            if t < a.len() {
                assert(b[t] == a[t]);
            } else {
                assert(b[t] == c[t - a.len()]);
            }
        }
    }
}

proof fn lemma_water_parts_nonempty(ws: Seq<WaterInput>, k: int)
    ensures
        forall|t: int| 0 <= t < water_parts(ws, k).len() ==> (#[trigger] water_parts(ws, k)[t]).1.len() > 0,
    decreases k,
{
    if k > 0 {
        lemma_water_parts_nonempty(ws, k - 1);
        let w = ws[k - 1];
        let fs = kept_features(water_features(w), w.skip_largest_feature);
        lemma_feature_parts_nonempty(fs, w.label_for_unnamed@);
        let a = water_parts(ws, k - 1);
        let c = feature_parts(fs, w.label_for_unnamed@);
        let b = water_parts(ws, k);
        assert forall|t: int| 0 <= t < b.len() implies (#[trigger] b[t]).1.len() > 0 by {
            if t < a.len() {
                assert(b[t] == a[t]);
            } else {
                assert(b[t] == c[t - a.len()]);
            }
        }
    }
}

/// The first unreadable dataset, by position.
pub open spec fn unreadable_waters(ws: Seq<WaterInput>) -> Seq<int> {
    crate::timeline::indices_where(ws.len() as int, |k: int| ws[k].features is Err)
}

/// A part's rings, cloned into a part: the first ring is the cycle.
fn shore_part(rings: &Vec<Vec<QPoint>>) -> (p: ShorePart)
    requires
        rings@.len() > 0,
    ensures
        shore_rings(p) == rings@.map_values(|r: Vec<QPoint>| r@),
{
    let cycle = rings[0].clone();
    let mut holes: Vec<Vec<QPoint>> = Vec::new();
    let mut h: usize = 1;
    while h < rings.len()
        invariant
            1 <= h <= rings@.len(),
            holes@.map_values(|r: Vec<QPoint>| r@) == rings@.map_values(|r: Vec<QPoint>| r@).subrange(1, h as int),
        decreases rings.len() - h,
    {
        let r = rings[h].clone();
        let ghost before = holes@.map_values(|r: Vec<QPoint>| r@);
        holes.push(r);
        proof {
            assert(r@ == rings@[h as int]@);
            assert(holes@.map_values(|r: Vec<QPoint>| r@) =~= before.push(r@));
            assert(rings@.map_values(|r: Vec<QPoint>| r@).subrange(1, h as int + 1) =~= before.push(rings@[h as int]@));
        }
        h += 1;
    }
    let p = ShorePart { cycle, holes };
    proof {
        assert(cycle@ == rings@[0]@);
        assert(shore_rings(p) =~= rings@.map_values(|r: Vec<QPoint>| r@));
    }
    p
}

/// Ingest water bodies as first-class regions. Same-named features (a
/// lake in two pieces) merge into one multi-part region; a dataset may
/// drop its feature with the most vertices; the first unreadable
/// dataset refuses the ingest, under its label.
pub fn ingest_water(waters: &Vec<WaterInput>) -> (r: Result<Vec<WaterRegion>, IngestError>)
    requires
        waters_fit(waters@),
    ensures
        unreadable_waters(waters@).len() > 0 ==> ({
            let k = unreadable_waters(waters@)[0];
            &&& r matches Err(IngestError::Parse(l, e))
            &&& l@ == waters@[k].label_for_unnamed@
            &&& waters@[k].features matches Err(e0)
            &&& parse_error_view(e) == parse_error_view(e0)
        }),
        unreadable_waters(waters@).len() == 0 ==> (r matches Ok(regions) && regions@.map_values(|x: WaterRegion| region_view(x))
            == water_regions(water_parts(waters@, waters@.len() as int))),
{
    let ghost ws = waters@;
    let ghost bad = |k: int| ws[k].features is Err;
    let mut parts: Vec<(String, Vec<Vec<QPoint>>)> = Vec::new();
    let mut k: usize = 0;
    while k < waters.len()
        invariant
            ws == waters@,
            waters_fit(ws),
            bad == (|k: int| ws[k].features is Err),
            k <= ws.len(),
            crate::timeline::indices_where(k as int, bad).len() == 0,
            part_views(parts@) == water_parts(ws, k as int),
        decreases waters.len() - k,
    {
        let w = &waters[k];
        let fs = match &w.features {
            Err(e) => {
                proof {
                    assert(crate::timeline::indices_where(k as int + 1, bad) =~= seq![k as int]);
                    crate::timeline::lemma_indices_where_prefix(k as int + 1, ws.len() as int, bad);
                    assert(unreadable_waters(ws)[0] == crate::timeline::indices_where(k as int + 1, bad)[0]);
                }
                return Err(IngestError::Parse(w.label_for_unnamed.clone(), copy_parse_error(e)));
            },
            Ok(fs) => fs,
        };
        assert(fs@ == water_features(ws[k as int]));
        let skip = if w.skip_largest_feature && fs.len() > 0 {
            proof {
                assert forall|i: int| 0 <= i < fs@.len() implies vertex_count(#[trigger] fs@[i]) <= usize::MAX by {
                    assert(vertex_count(water_features(ws[k as int])[i]) <= usize::MAX);
                }
            }
            Some(largest(fs))
        } else {
            None
        };
        collect_parts(fs, skip, w.label_for_unnamed.as_str(), &mut parts);
        proof {
            assert(match skip {
                Some(x) => fs@.remove(x as int),
                None => fs@,
            } == kept_features(water_features(ws[k as int]), w.skip_largest_feature));
            assert(part_views(parts@) == water_parts(ws, k as int + 1));
        }
        k += 1;
    }
    proof {
        assert(unreadable_waters(ws) == crate::timeline::indices_where(k as int, bad));
    }
    // the names, in string order
    let ghost pv = part_views(parts@);
    let ghost pn = pv.map_values(|x: (Seq<char>, Seq<Seq<QPoint>>)| x.0);
    let mut names: Vec<String> = Vec::new();
    let mut q: usize = 0;
    while q < parts.len()
        invariant
            pv == part_views(parts@),
            pn == pv.map_values(|x: (Seq<char>, Seq<Seq<QPoint>>)| x.0),
            q <= parts@.len(),
            names@.map_values(|n: String| n@) == insert_names(Seq::empty(), pn.take(q as int)),
        decreases parts.len() - q,
    {
        proof {
            lemma_insert_names(Seq::empty(), pn.take(q as int));
            assert(pn.take(q as int + 1).drop_last() =~= pn.take(q as int));
            assert(pn.take(q as int + 1).last() == parts@[q as int].0@);
        }
        merge_name(&mut names, parts[q].0.as_str());
        q += 1;
    }
    proof {
        assert(pn.take(parts@.len() as int) =~= pn);
    }
    let ghost ns = insert_names(Seq::empty(), pn);
    let ghost want = water_regions(pv);
    proof {
        lemma_water_parts_nonempty(ws, ws.len() as int);
    }
    let mut regions: Vec<WaterRegion> = Vec::new();
    let mut i: usize = 0;
    while i < names.len()
        invariant
            pv == part_views(parts@),
            pn == pv.map_values(|x: (Seq<char>, Seq<Seq<QPoint>>)| x.0),
            ns == insert_names(Seq::empty(), pn),
            names@.map_values(|n: String| n@) == ns,
            want == water_regions(pv),
            forall|t: int| 0 <= t < pv.len() ==> (#[trigger] pv[t]).1.len() > 0,
            i <= names@.len(),
            regions@.map_values(|x: WaterRegion| region_view(x)) == want.take(i as int),
        decreases names.len() - i,
    {
        let n = names[i].as_str();
        let ghost pred = |x: (Seq<char>, Seq<Seq<QPoint>>)| x.0 == n@;
        let ghost second = |x: (Seq<char>, Seq<Seq<QPoint>>)| x.1;
        let mut rparts: Vec<ShorePart> = Vec::new();
        let mut t: usize = 0;
        while t < parts.len()
            invariant
                pv == part_views(parts@),
                forall|t: int| 0 <= t < pv.len() ==> (#[trigger] pv[t]).1.len() > 0,
                pred == (|x: (Seq<char>, Seq<Seq<QPoint>>)| x.0 == n@),
                second == (|x: (Seq<char>, Seq<Seq<QPoint>>)| x.1),
                t <= parts@.len(),
                rparts@.map_values(|p: ShorePart| shore_rings(p)) == pv.take(t as int).filter(pred).map_values(second),
            decreases parts.len() - t,
        {
            proof {
                lemma_filter_step(pv, t as int, pred);
            }
            if crate::text::str_equal(parts[t].0.as_str(), n) {
                assert(pv[t as int].1.len() > 0);
                let sp = shore_part(&parts[t].1);
                let ghost before = rparts@.map_values(|p: ShorePart| shore_rings(p));
                rparts.push(sp);
                proof {
                    assert(rparts@.map_values(|p: ShorePart| shore_rings(p)) =~= before.push(pv[t as int].1));
                    assert(pred(pv[t as int]));
                }
            } else {
                proof {
                    assert(!pred(pv[t as int]));
                }
            }
            t += 1;
        }
        proof {
            assert(pv.take(parts@.len() as int) =~= pv);
        }
        let name = names[i].clone();
        let ghost before = regions@.map_values(|x: WaterRegion| region_view(x));
        regions.push(WaterRegion { name, parts: rparts });
        proof {
            assert(n@ == ns[i as int]);
            assert(pred =~= (|x: (Seq<char>, Seq<Seq<QPoint>>)| x.0 == ns[i as int]));
            assert(want[i as int] == (ns[i as int], pv.filter(pred).map_values(second)));
            assert(regions@.map_values(|x: WaterRegion| region_view(x)) =~= before.push(region_view(regions@[before.len() as int])));
            assert(regions@.map_values(|x: WaterRegion| region_view(x)) =~= want.take(i as int + 1));
        }
        i += 1;
    }
    proof {
        assert(want.take(names@.len() as int) =~= want);
    }
    Ok(regions)
}

/// The land's outer rings, cleaned, in order: the coasts the sea holds
/// as holes and the dry land as parts. The land's own holes are inland
/// matters.
pub open spec fn coasts(fs: Seq<FeatureRings>) -> Seq<Seq<QPoint>>
    decreases fs.len(),
{
    if fs.len() == 0 {
        Seq::empty()
    } else {
        coasts(fs.drop_last()) + outer_coasts(fs.last().polygons@)
    }
}

pub open spec fn outer_coasts(ps: Seq<PolygonRings>) -> Seq<Seq<QPoint>>
    decreases ps.len(),
{
    if ps.len() == 0 {
        Seq::empty()
    } else {
        outer_coasts(ps.drop_last()) + match cleaned(ps.last().outer@) {
            Some(o) => seq![o],
            None => Seq::empty(),
        }
    }
}

/// The ocean, built the spherically honest way: the whole sphere minus
/// the land. The land's coasts, each a shore: the sea's holes and the
/// dry land's parts. Unreadable land refuses, under the label "land".
pub fn ingest_ocean(land: &Result<Vec<FeatureRings>, ParseError>) -> (r: Result<Vec<Vec<QPoint>>, IngestError>)
    ensures
        match land {
            Err(e0) => r matches Err(IngestError::Parse(l, e)) && l@ == "land"@ && parse_error_view(e) == parse_error_view(*e0),
            Ok(fs) => r matches Ok(cs) && cs@.map_values(|c: Vec<QPoint>| c@) == coasts(fs@),
        },
{
    let fs = match land {
        Err(e) => return Err(IngestError::Parse(crate::text::owned("land"), copy_parse_error(e))),
        Ok(fs) => fs,
    };
    let mut out: Vec<Vec<QPoint>> = Vec::new();
    let mut i: usize = 0;
    while i < fs.len()
        invariant
            i <= fs@.len(),
            out@.map_values(|c: Vec<QPoint>| c@) == coasts(fs@.take(i as int)),
        decreases fs.len() - i,
    {
        let f = &fs[i];
        proof {
            assert(fs@.take(i as int + 1).drop_last() =~= fs@.take(i as int));
            assert(fs@.take(i as int + 1).last() == *f);
        }
        let ghost base = out@.map_values(|c: Vec<QPoint>| c@);
        let mut j: usize = 0;
        while j < f.polygons.len()
            invariant
                j <= f.polygons@.len(),
                out@.map_values(|c: Vec<QPoint>| c@) == base + outer_coasts(f.polygons@.take(j as int)),
            decreases f.polygons.len() - j,
        {
            proof {
                assert(f.polygons@.take(j as int + 1).drop_last() =~= f.polygons@.take(j as int));
                assert(f.polygons@.take(j as int + 1).last() == f.polygons@[j as int]);
            }
            match clean_exec(&f.polygons[j].outer) {
                Some(o) => {
                    let ghost before = out@.map_values(|c: Vec<QPoint>| c@);
                    out.push(o);
                    proof {
                        assert(out@.map_values(|c: Vec<QPoint>| c@) =~= before.push(o@));
                        assert(base + outer_coasts(f.polygons@.take(j as int + 1)) =~= (base + outer_coasts(f.polygons@.take(j as int))).push(o@));
                    }
                },
                None => {
                    proof {
                        assert(outer_coasts(f.polygons@.take(j as int + 1)) =~= outer_coasts(f.polygons@.take(j as int)));
                    }
                },
            }
            j += 1;
        }
        proof {
            assert(f.polygons@.take(f.polygons@.len() as int) =~= f.polygons@);
        }
        i += 1;
    }
    proof {
        assert(fs@.take(fs@.len() as int) =~= fs@);
        reveal_strlit("land");
    }
    Ok(out)
}

} // verus!
