//! Shared-arc extraction. Sources give each region its own closed
//! outline, duplicating every shared border; the core stores each
//! border stretch ONCE. Sharing is found where it actually exists —
//! exact quantized-vertex agreement — and stretches whose vertices do
//! not agree stay private to their ring.
//!
//! The fidelity law rests on one guarantee, proved here: every input
//! ring is exactly the concatenation of its extracted arcs, read from
//! some phase (`law_fidelity`).

use vstd::prelude::*;
use crate::quantize::{
    canonical_rotation, is_least_rotation, is_rotation_of, least_rotation, lemma_least_rotation_unique,
    lemma_seq_le_trans, lemma_seq_lt_total, qle, qpoint_less, rotate, seq_equal, seq_le, seq_less, seq_lt,
    QPoint,
};

verus! {

/// How a ring walks one stored arc.
#[derive(Clone, Copy, Debug, PartialEq, Eq, Structural)]
pub enum ArcDir {
    Forward,
    Reverse,
}

#[derive(Clone, Debug, PartialEq)]
pub struct Extraction {
    /// Canonical arc polylines. An arc that closes on itself (a ring
    /// wholly one arc) repeats its first point at the end, so cycle
    /// continuity holds by the same end-meets-start rule as open arcs.
    pub arcs: Vec<Vec<QPoint>>,
    /// Per input ring, in input order: the ordered walk of arcs whose
    /// oriented concatenation reproduces the ring.
    pub cycles: Vec<Vec<(usize, ArcDir)>>,
}

impl Extraction {
    pub open spec fn arcs_view(&self) -> Seq<Seq<QPoint>> {
        self.arcs@.map_values(|a: Vec<QPoint>| a@)
    }

    pub open spec fn cycles_view(&self) -> Seq<Seq<(usize, ArcDir)>> {
        self.cycles@.map_values(|c: Vec<(usize, ArcDir)>| c@)
    }
}

/// The point sequences of a slice of rings.
pub open spec fn ring_views(rings: Seq<Vec<QPoint>>) -> Seq<Seq<QPoint>> {
    rings.map_values(|v: Vec<QPoint>| v@)
}

// ------------------------------------------------ the specification

/// An undirected edge, its endpoints in point order.
pub open spec fn edge_key(a: QPoint, b: QPoint) -> (QPoint, QPoint) {
    if qle(a, b) {
        (a, b)
    } else {
        (b, a)
    }
}

/// The `i`-th edge of a closed ring: from vertex `i` to the next.
pub open spec fn edge_at(ring: Seq<QPoint>, i: int) -> (QPoint, QPoint) {
    edge_key(ring[i], ring[(i + 1) % (ring.len() as int)])
}

pub open spec fn ring_has_edge(ring: Seq<QPoint>, key: (QPoint, QPoint)) -> bool {
    exists|i: int| 0 <= i < ring.len() && edge_at(ring, i) == key
}

/// Exactly the same rings use both edges.
pub open spec fn same_users(rings: Seq<Seq<QPoint>>, k1: (QPoint, QPoint), k2: (QPoint, QPoint)) -> bool {
    forall|q: int| 0 <= q < rings.len() ==> ring_has_edge(rings[q], k1) == ring_has_edge(rings[q], k2)
}

/// A junction: a vertex where the sharing situation changes.
pub open spec fn is_junction(rings: Seq<Seq<QPoint>>, r: int, i: int) -> bool {
    let ring = rings[r];
    let n = ring.len() as int;
    !same_users(rings, edge_at(ring, if i == 0 { n - 1 } else { i - 1 }), edge_at(ring, i))
}

pub open spec fn junctions_below(rings: Seq<Seq<QPoint>>, r: int, m: int) -> Seq<int>
    decreases m,
{
    if m <= 0 {
        Seq::empty()
    } else if is_junction(rings, r, m - 1) {
        junctions_below(rings, r, m - 1).push(m - 1)
    } else {
        junctions_below(rings, r, m - 1)
    }
}

/// The junctions of ring `r`, in increasing order.
pub open spec fn junctions(rings: Seq<Seq<QPoint>>, r: int) -> Seq<int> {
    junctions_below(rings, r, rings[r].len() as int)
}

/// The vertices from junction `s` to junction `e`, both included,
/// wrapping around the ring (all the way round when `s == e`).
pub open spec fn walk(ring: Seq<QPoint>, s: int, e: int) -> Seq<QPoint> {
    if s < e {
        ring.subrange(s, e + 1)
    } else {
        ring.subrange(s, ring.len() as int) + ring.subrange(0, e + 1)
    }
}

/// Canonical form of an open walk: the lesser of the walk and its
/// reverse, so both sharers land on the same arc.
pub open spec fn open_arc(w: Seq<QPoint>) -> (Seq<QPoint>, ArcDir) {
    if seq_le(w, w.reverse()) {
        (w, ArcDir::Forward)
    } else {
        (w.reverse(), ArcDir::Reverse)
    }
}

/// Canonical form of a ring that is one arc: least over every phase
/// and both directions, closed by repeating its first point.
pub open spec fn closed_arc(ring: Seq<QPoint>) -> (Seq<QPoint>, ArcDir) {
    let f = least_rotation(ring);
    let b = least_rotation(ring.reverse());
    if seq_le(f, b) {
        (f.push(f[0]), ArcDir::Forward)
    } else {
        (b.push(b[0]), ArcDir::Reverse)
    }
}

/// The canonical arcs of ring `r`, in walk order from its first junction.
pub open spec fn ring_arcs(rings: Seq<Seq<QPoint>>, r: int) -> Seq<(Seq<QPoint>, ArcDir)> {
    let js = junctions(rings, r);
    if js.len() == 0 {
        seq![closed_arc(rings[r])]
    } else {
        Seq::new((js.len()) as nat, |j: int| open_arc(walk(rings[r], js[j], js[(j + 1) % (js.len() as int)])))
    }
}

/// Every canonical arc of rings `0..r`, in order, repeats included.
pub open spec fn arcs_through(rings: Seq<Seq<QPoint>>, r: int) -> Seq<Seq<QPoint>>
    decreases r,
{
    if r <= 0 {
        Seq::empty()
    } else {
        arcs_through(rings, r - 1) + ring_arcs(rings, r - 1).map_values(|p: (Seq<QPoint>, ArcDir)| p.0)
    }
}

/// The first occurrence of each element, in order.
pub open spec fn first_occurrences<A>(s: Seq<A>) -> Seq<A>
    decreases s.len(),
{
    if s.len() == 0 {
        s
    } else {
        let d = first_occurrences(s.drop_last());
        if d.contains(s.last()) {
            d
        } else {
            d.push(s.last())
        }
    }
}

/// The stored arcs: every canonical arc once, in order of first use.
pub open spec fn spec_arcs(rings: Seq<Seq<QPoint>>) -> Seq<Seq<QPoint>> {
    first_occurrences(arcs_through(rings, rings.len() as int))
}

/// `cycle` references, arc by arc, exactly the canonical arcs `pieces`.
pub open spec fn cycle_matches(arcs: Seq<Seq<QPoint>>, cycle: Seq<(usize, ArcDir)>, pieces: Seq<(Seq<QPoint>, ArcDir)>) -> bool {
    &&& cycle.len() == pieces.len()
    &&& forall|j: int| 0 <= j < cycle.len() ==> {
        &&& (#[trigger] cycle[j]).0 < arcs.len()
        &&& arcs[cycle[j].0 as int] == pieces[j].0
        &&& cycle[j].1 == pieces[j].1
    }
}

/// Everything `extract` promises of its result.
pub open spec fn extracted_from(ext: Extraction, rings: Seq<Seq<QPoint>>) -> bool {
    &&& ext.arcs_view() == spec_arcs(rings)
    &&& ext.cycles@.len() == rings.len()
    &&& forall|r: int| 0 <= r < rings.len() ==> cycle_matches(ext.arcs_view(), #[trigger] ext.cycles_view()[r], ring_arcs(rings, r))
}

/// What a ring takes from one arc: its oriented points minus the
/// trailing junction (owned by the next arc).
pub open spec fn arc_share(arc: Seq<QPoint>, dir: ArcDir) -> Seq<QPoint> {
    match dir {
        ArcDir::Forward => arc.take(arc.len() - 1),
        ArcDir::Reverse => arc.skip(1).reverse(),
    }
}

/// The ring a cycle of arc references spells out.
pub open spec fn rebuild(arcs: Seq<Seq<QPoint>>, cycle: Seq<(usize, ArcDir)>) -> Seq<QPoint>
    decreases cycle.len(),
{
    if cycle.len() == 0 {
        Seq::empty()
    } else {
        rebuild(arcs, cycle.drop_last()) + arc_share(arcs[cycle.last().0 as int], cycle.last().1)
    }
}

/// The concatenation of a sequence of point runs.
pub open spec fn concat_all(parts: Seq<Seq<QPoint>>) -> Seq<QPoint>
    decreases parts.len(),
{
    if parts.len() == 0 {
        Seq::empty()
    } else {
        concat_all(parts.drop_last()) + parts.last()
    }
}

// ------------------------------------------------------------ lemmas

proof fn lemma_first_occurrences_props<A>(s: Seq<A>)
    ensures
        first_occurrences(s).no_duplicates(),
        forall|x: A| first_occurrences(s).contains(x) <==> s.contains(x),
    decreases s.len(),
{
    if s.len() > 0 {
        lemma_first_occurrences_props(s.drop_last());
        let d = first_occurrences(s.drop_last());
        assert forall|x: A| s.contains(x) implies first_occurrences(s).contains(x) by {
            let i = choose|i: int| 0 <= i < s.len() && s[i] == x;
            if i < s.len() - 1 {
                assert(s.drop_last()[i] == x);
                assert(s.drop_last().contains(x));
                assert(d.contains(x));
                let j = choose|j: int| 0 <= j < d.len() && d[j] == x;
                if !d.contains(s.last()) {
                    assert(d.push(s.last())[j] == x);
                }
            } else {
                if !d.contains(x) {
                    assert(d.push(s.last())[d.len() as int] == x);
                }
            }
        }
        assert forall|x: A| first_occurrences(s).contains(x) implies s.contains(x) by {
            if d.contains(x) {
                assert(s.drop_last().contains(x));
                let i = choose|i: int| 0 <= i < s.drop_last().len() && s.drop_last()[i] == x;
                assert(s.drop_last()[i] == s[i]);
            } else {
                assert(s[s.len() - 1] == x);
            }
        }
    }
}

proof fn lemma_junctions_below(rings: Seq<Seq<QPoint>>, r: int, m: int)
    ensures
        forall|a: int| 0 <= a < junctions_below(rings, r, m).len() ==> 0 <= #[trigger] junctions_below(rings, r, m)[a] < m,
        forall|a: int, b: int| 0 <= a < b < junctions_below(rings, r, m).len()
            ==> junctions_below(rings, r, m)[a] < junctions_below(rings, r, m)[b],
    decreases m,
{
    if m > 0 {
        lemma_junctions_below(rings, r, m - 1);
        let p = junctions_below(rings, r, m - 1);
        let q = junctions_below(rings, r, m);
        if is_junction(rings, r, m - 1) {
            assert(q == p.push(m - 1));
            assert forall|a: int| 0 <= a < q.len() implies 0 <= #[trigger] q[a] < m by {
                if a < p.len() {
                    assert(q[a] == p[a]);
                }
            }
            assert forall|a: int, b: int| 0 <= a < b < q.len() implies q[a] < q[b] by {
                assert(q[a] == p[a]);
                if b < p.len() {
                    assert(q[b] == p[b]);
                }
            }
        } else {
            assert(q == p);
        }
    }
}

/// Index form of `rotate`.
proof fn lemma_rotate_index(x: Seq<QPoint>, k: int, i: int)
    requires
        0 <= k <= x.len(),
        0 <= i < x.len(),
    ensures
        rotate(x, k).len() == x.len(),
        rotate(x, k)[i] == (if k + i < x.len() { x[k + i] } else { x[k + i - x.len()] }),
{
}

proof fn lemma_rotate_once(x: Seq<QPoint>, t: int)
    requires
        0 <= t < x.len(),
    ensures
        rotate(rotate(x, t), 1) == rotate(x, if t + 1 < x.len() { t + 1 } else { 0 }),
{
    let n = x.len() as int;
    let u = if t + 1 < n { t + 1 } else { 0 };
    let y = rotate(x, t);
    assert forall|i: int| 0 <= i < n implies rotate(y, 1)[i] == rotate(x, u)[i] by {
        lemma_rotate_index(y, 1, i);
        lemma_rotate_index(x, u, i);
        if 1 + i < n {
            lemma_rotate_index(x, t, 1 + i);
        } else {
            lemma_rotate_index(x, t, 0);
        }
    }
    assert(rotate(y, 1) =~= rotate(x, u));
}

proof fn lemma_rotate_reverse(x: Seq<QPoint>, u: int)
    requires
        0 <= u < x.len(),
    ensures
        rotate(x, u).reverse() == rotate(x.reverse(), if u == 0 { 0 } else { x.len() - u }),
{
    let n = x.len() as int;
    let v = if u == 0 { 0 } else { n - u };
    assert forall|i: int| 0 <= i < n implies rotate(x, u).reverse()[i] == rotate(x.reverse(), v)[i] by {
        lemma_rotate_index(x, u, n - 1 - i);
        lemma_rotate_index(x.reverse(), v, i);
    }
    assert(rotate(x, u).reverse() =~= rotate(x.reverse(), v));
}

spec fn best_phase(s: Seq<QPoint>, k: int) -> int
    decreases k,
{
    if k <= 0 {
        0
    } else {
        let b = best_phase(s, k - 1);
        if seq_lt(rotate(s, k), rotate(s, b)) {
            k
        } else {
            b
        }
    }
}

proof fn lemma_best_phase(s: Seq<QPoint>, k: int)
    requires
        0 <= k < s.len(),
    ensures
        0 <= best_phase(s, k) <= k,
        forall|j: int| 0 <= j <= k ==> seq_le(rotate(s, best_phase(s, k)), #[trigger] rotate(s, j)),
    decreases k,
{
    if k > 0 {
        lemma_best_phase(s, k - 1);
        let b = best_phase(s, k - 1);
        if seq_lt(rotate(s, k), rotate(s, b)) {
            assert forall|j: int| 0 <= j <= k implies seq_le(rotate(s, k), #[trigger] rotate(s, j)) by {
                if j < k {
                    lemma_seq_le_trans(rotate(s, k), rotate(s, b), rotate(s, j));
                }
            }
        } else {
            lemma_seq_lt_total(rotate(s, k), rotate(s, b));
        }
    }
}

/// Every ring has a least phase.
pub proof fn lemma_least_rotation_exists(s: Seq<QPoint>)
    ensures
        is_least_rotation(s, least_rotation(s)),
{
    if s.len() == 0 {
        assert(is_least_rotation(s, s));
    } else {
        lemma_best_phase(s, s.len() - 1);
        let t = rotate(s, best_phase(s, s.len() - 1));
        assert(is_least_rotation(s, t));
    }
}

/// The share a ring takes of one of its own open arcs is its walk
/// minus the last vertex, whichever way the arc is stored.
proof fn lemma_open_share(w: Seq<QPoint>)
    requires
        w.len() >= 1,
    ensures
        arc_share(open_arc(w).0, open_arc(w).1) == w.take(w.len() - 1),
{
    if !seq_le(w, w.reverse()) {
        let n = w.len() as int;
        assert forall|i: int| 0 <= i < n - 1 implies w.reverse().skip(1).reverse()[i] == w[i] by {
        }
        assert(w.reverse().skip(1).reverse() =~= w.take(n - 1));
    }
}

/// The share of a closed arc is a phase of its ring.
proof fn lemma_closed_share(ring: Seq<QPoint>)
    requires
        ring.len() >= 1,
    ensures
        is_rotation_of(arc_share(closed_arc(ring).0, closed_arc(ring).1), ring),
{
    let n = ring.len() as int;
    lemma_least_rotation_exists(ring);
    lemma_least_rotation_exists(ring.reverse());
    let f = least_rotation(ring);
    let b = least_rotation(ring.reverse());
    if seq_le(f, b) {
        let k = choose|k: int| 0 <= k < n && f == #[trigger] rotate(ring, k);
        assert(f.push(f[0]).take(n) =~= f);
        assert(ring == rotate(ring, k) ==> true);
    } else {
        let rv = ring.reverse();
        let t = choose|t: int| 0 <= t < n && b == #[trigger] rotate(rv, t);
        lemma_rotate_index(rv, t, 0);
        assert(b.push(b[0]).skip(1) =~= rotate(b, 1));
        lemma_rotate_once(rv, t);
        let u = if t + 1 < n { t + 1 } else { 0 };
        lemma_rotate_reverse(rv, u);
        assert(rv.reverse() =~= ring);
        let v = if u == 0 { 0 } else { n - u };
        assert(rotate(b, 1).reverse() == rotate(ring, v));
    }
}

/// The walks between consecutive junctions, each minus its last
/// vertex, concatenate to the ring read from its first junction.
proof fn lemma_walks_concat(ring: Seq<QPoint>, js: Seq<int>, m: int)
    requires
        js.len() >= 1,
        0 <= m < js.len(),
        forall|a: int| 0 <= a < js.len() ==> 0 <= #[trigger] js[a] < ring.len(),
        forall|a: int, b: int| 0 <= a < b < js.len() ==> js[a] < js[b],
    ensures
        ({
            let shares = Seq::new((m) as nat, |j: int| {
                let w = walk(ring, js[j], js[(j + 1) % (js.len() as int)]);
                w.take(w.len() - 1)
            });
            concat_all(shares) == ring.subrange(js[0], js[m])
        }),
    decreases m,
{
    let k = js.len() as int;
    let shares = Seq::new((m) as nat, |j: int| {
        let w = walk(ring, js[j], js[(j + 1) % k]);
        w.take(w.len() - 1)
    });
    if m == 0 {
        assert(ring.subrange(js[0], js[0]) =~= Seq::<QPoint>::empty());
    } else {
        lemma_walks_concat(ring, js, m - 1);
        let prev = Seq::new((m - 1) as nat, |j: int| {
            let w = walk(ring, js[j], js[(j + 1) % k]);
            w.take(w.len() - 1)
        });
        assert(shares.drop_last() =~= prev);
        vstd::arithmetic::div_mod::lemma_small_mod(m as nat, k as nat);
        assert((m - 1 + 1) % k == m);
        let w = walk(ring, js[m - 1], js[m]);
        assert(w.take(w.len() - 1) =~= ring.subrange(js[m - 1], js[m]));
        assert(ring.subrange(js[0], js[m - 1]) + ring.subrange(js[m - 1], js[m]) =~= ring.subrange(js[0], js[m]));
    }
}

proof fn lemma_rebuild_prefix(arcs: Seq<Seq<QPoint>>, cycle: Seq<(usize, ArcDir)>, pieces: Seq<(Seq<QPoint>, ArcDir)>, m: int)
    requires
        cycle_matches(arcs, cycle, pieces),
        0 <= m <= cycle.len(),
    ensures
        rebuild(arcs, cycle.take(m)) == concat_all(Seq::new((m) as nat, |j: int| arc_share(pieces[j].0, pieces[j].1))),
    decreases m,
{
    let s = Seq::new((m) as nat, |j: int| arc_share(pieces[j].0, pieces[j].1));
    if m > 0 {
        lemma_rebuild_prefix(arcs, cycle, pieces, m - 1);
        assert(cycle.take(m).drop_last() =~= cycle.take(m - 1));
        assert(s.drop_last() =~= Seq::new((m - 1) as nat, |j: int| arc_share(pieces[j].0, pieces[j].1)));
        let c = cycle.take(m).last();
        assert(c == cycle[m - 1]);
    } else {
        assert(cycle.take(0) =~= Seq::<(usize, ArcDir)>::empty());
    }
}

/// A ring that is all one arc rebuilds to a phase of itself.
proof fn lemma_rebuild_closed(arcs: Seq<Seq<QPoint>>, cycle: Seq<(usize, ArcDir)>, ring: Seq<QPoint>)
    requires
        ring.len() >= 1,
        cycle_matches(arcs, cycle, seq![closed_arc(ring)]),
    ensures
        cycle_well_formed(arcs, cycle),
        is_rotation_of(rebuild(arcs, cycle), ring),
{
    let pieces = seq![closed_arc(ring)];
    lemma_rebuild_prefix(arcs, cycle, pieces, 1);
    assert(cycle.take(1) =~= cycle);
    let shares = Seq::new(1, |j: int| arc_share(pieces[j].0, pieces[j].1));
    lemma_closed_share(ring);
    assert(shares.drop_last() =~= Seq::<Seq<QPoint>>::empty());
    assert(Seq::<QPoint>::empty() + shares[0] =~= shares[0]);
    lemma_least_rotation_exists(ring);
    lemma_least_rotation_exists(ring.reverse());
    assert(pieces[0] == closed_arc(ring));
    assert(arcs[cycle[0].0 as int] == closed_arc(ring).0);
    assert(shares.last() == arc_share(closed_arc(ring).0, closed_arc(ring).1));
    assert(concat_all(shares) == concat_all(shares.drop_last()) + shares.last());
    assert(concat_all(shares) =~= arc_share(closed_arc(ring).0, closed_arc(ring).1));
}

/// Ring `ring`'s share of its `j`-th open arc: the walk from junction
/// `j` to the next, minus its last vertex.
spec fn walk_share(ring: Seq<QPoint>, js: Seq<int>, j: int) -> Seq<QPoint> {
    let w = walk(ring, js[j], js[(j + 1) % (js.len() as int)]);
    w.take(w.len() - 1)
}

proof fn lemma_open_shares(arcs: Seq<Seq<QPoint>>, cycle: Seq<(usize, ArcDir)>, ring: Seq<QPoint>, js: Seq<int>)
    requires
        js.len() >= 1,
        forall|a: int| 0 <= a < js.len() ==> 0 <= #[trigger] js[a] < ring.len(),
        cycle_matches(arcs, cycle, Seq::new(js.len(), |j: int| open_arc(walk(ring, js[j], js[(j + 1) % (js.len() as int)])))),
    ensures
        cycle_well_formed(arcs, cycle),
        rebuild(arcs, cycle) == concat_all(Seq::new(js.len(), |j: int| walk_share(ring, js, j))),
{
    let k = js.len() as int;
    let pieces = Seq::new(js.len(), |j: int| open_arc(walk(ring, js[j], js[(j + 1) % k])));
    lemma_rebuild_prefix(arcs, cycle, pieces, k);
    assert(cycle.take(k) =~= cycle);
    let shares = Seq::new(k as nat, |j: int| arc_share(pieces[j].0, pieces[j].1));
    let walks = Seq::new(js.len(), |j: int| walk_share(ring, js, j));
    assert forall|j: int| 0 <= j < k implies shares[j] == walks[j] by {
        let w = walk(ring, js[j], js[(j + 1) % k]);
        lemma_open_share(w);
    }
    assert(shares =~= walks);
    assert forall|j: int| 0 <= j < cycle.len() implies arcs[(#[trigger] cycle[j]).0 as int].len() >= 1 by {
        let w = walk(ring, js[j], js[(j + 1) % k]);
        assert(arcs[cycle[j].0 as int] == pieces[j].0);
        assert(w.len() >= 1);
    }
}

/// A ring with junctions rebuilds to itself read from its first junction.
#[verifier::rlimit(30)]
proof fn lemma_rebuild_open(arcs: Seq<Seq<QPoint>>, cycle: Seq<(usize, ArcDir)>, ring: Seq<QPoint>, js: Seq<int>)
    requires
        js.len() >= 1,
        forall|a: int| 0 <= a < js.len() ==> 0 <= #[trigger] js[a] < ring.len(),
        forall|a: int, b: int| 0 <= a < b < js.len() ==> js[a] < js[b],
        cycle_matches(arcs, cycle, Seq::new(js.len(), |j: int| open_arc(walk(ring, js[j], js[(j + 1) % (js.len() as int)])))),
    ensures
        cycle_well_formed(arcs, cycle),
        rebuild(arcs, cycle) == rotate(ring, js[0]),
{
    let k = js.len() as int;
    let n = ring.len() as int;
    lemma_open_shares(arcs, cycle, ring, js);
    let walks = Seq::new(js.len(), |j: int| walk_share(ring, js, j));
    lemma_walks_concat(ring, js, k - 1);
    let prefix = Seq::new((k - 1) as nat, |j: int| {
        let w = walk(ring, js[j], js[(j + 1) % k]);
        w.take(w.len() - 1)
    });
    assert(walks.drop_last() =~= prefix);
    assert(concat_all(walks) == concat_all(prefix) + walks.last());
    vstd::arithmetic::div_mod::lemma_mod_self_0(k);
    assert((k - 1 + 1) % k == 0);
    let last = walk(ring, js[k - 1], js[0]);
    assert(walks.last() == last.take(last.len() - 1));
    if k == 1 {
        assert(last.take(last.len() - 1) =~= ring.subrange(js[0], n) + ring.subrange(0, js[0]));
        assert(ring.subrange(js[0], js[0]) + last.take(last.len() - 1) =~= rotate(ring, js[0]));
    } else {
        assert(js[0] < js[k - 1]);
        assert(last.take(last.len() - 1) =~= ring.subrange(js[k - 1], n) + ring.subrange(0, js[0]));
        assert(ring.subrange(js[0], js[k - 1]) + (ring.subrange(js[k - 1], n) + ring.subrange(0, js[0]))
            =~= rotate(ring, js[0]));
    }
}

/// THE FIDELITY LAW: every input ring is exactly the concatenation of
/// its extracted arcs, read from some phase — what came out is what
/// went in. It also shows every cycle is one `reconstruct_ring` accepts.
pub proof fn law_fidelity(ext: Extraction, rings: Seq<Seq<QPoint>>, r: int)
    requires
        extracted_from(ext, rings),
        forall|q: int| 0 <= q < rings.len() ==> (#[trigger] rings[q]).len() > 0,
        0 <= r < rings.len(),
    ensures
        cycle_well_formed(ext.arcs_view(), ext.cycles_view()[r]),
        is_rotation_of(rebuild(ext.arcs_view(), ext.cycles_view()[r]), rings[r]),
{
    let arcs = ext.arcs_view();
    let cycle = ext.cycles_view()[r];
    let ring = rings[r];
    let n = ring.len() as int;
    assert(cycle_matches(arcs, cycle, ring_arcs(rings, r)));
    let js = junctions(rings, r);
    lemma_junctions_below(rings, r, n);
    if js.len() == 0 {
        lemma_rebuild_closed(arcs, cycle, ring);
    } else {
        lemma_rebuild_open(arcs, cycle, ring, js);
        assert(0 <= js[0] < n);
    }
}

proof fn lemma_arcs_through_contains(rings: Seq<Seq<QPoint>>, r: int, x: Seq<QPoint>)
    requires
        0 <= r <= rings.len(),
        arcs_through(rings, r).contains(x),
    ensures
        exists|q: int, j: int| 0 <= q < r && 0 <= j < ring_arcs(rings, q).len() && (#[trigger] ring_arcs(rings, q)[j]).0 == x,
    decreases r,
{
    if r > 0 {
        let prev = arcs_through(rings, r - 1);
        let last = ring_arcs(rings, r - 1).map_values(|p: (Seq<QPoint>, ArcDir)| p.0);
        let i = choose|i: int| 0 <= i < arcs_through(rings, r).len() && arcs_through(rings, r)[i] == x;
        if i < prev.len() {
            assert(prev[i] == x);
            lemma_arcs_through_contains(rings, r - 1, x);
        } else {
            let j = i - prev.len();
            assert(last[j] == x);
            assert(ring_arcs(rings, r - 1)[j].0 == x);
        }
    }
}

/// Some ring's cycle walks arc `a`.
pub open spec fn arc_walked(ext: Extraction, rings: Seq<Seq<QPoint>>, a: int) -> bool {
    exists|r: int, j: int| 0 <= r < rings.len() && 0 <= j < ext.cycles_view()[r].len() && (#[trigger] ext.cycles_view()[r][j]).0 == a
}

/// EACH BORDER STRETCH IS STORED ONCE: no arc appears twice among the
/// extracted arcs (so two rings walking the same stretch reference the
/// same arc), and every stored arc is walked by some ring.
pub proof fn law_arcs_stored_once(ext: Extraction, rings: Seq<Seq<QPoint>>)
    requires
        extracted_from(ext, rings),
    ensures
        ext.arcs_view().no_duplicates(),
        forall|a: int| 0 <= a < ext.arcs_view().len() ==> #[trigger] arc_walked(ext, rings, a),
{
    let arcs = ext.arcs_view();
    let all = arcs_through(rings, rings.len() as int);
    lemma_first_occurrences_props(all);
    assert forall|a: int| 0 <= a < arcs.len() implies #[trigger] arc_walked(ext, rings, a) by {
        assert(arcs.contains(arcs[a]));
        lemma_arcs_through_contains(rings, rings.len() as int, arcs[a]);
        let (q, j) = choose|q: int, j: int| 0 <= q < rings.len() && 0 <= j < ring_arcs(rings, q).len() && (#[trigger] ring_arcs(rings, q)[j]).0 == arcs[a];
        let cycle = ext.cycles_view()[q];
        assert(cycle_matches(arcs, cycle, ring_arcs(rings, q)));
        assert(cycle[j].0 < arcs.len() && arcs[cycle[j].0 as int] == arcs[a]);
        assert(cycle[j].0 == a);
    }
}

/// The shape `reconstruct_ring` needs: every referenced arc exists and
/// holds at least its starting vertex.
pub open spec fn cycle_well_formed(arcs: Seq<Seq<QPoint>>, cycle: Seq<(usize, ArcDir)>) -> bool {
    forall|j: int| 0 <= j < cycle.len() ==> {
        &&& (#[trigger] cycle[j]).0 < arcs.len()
        &&& arcs[cycle[j].0 as int].len() >= 1
    }
}

// ------------------------------------------------------- execution

fn edge_key_of(a: QPoint, b: QPoint) -> (k: (QPoint, QPoint))
    ensures
        k == edge_key(a, b),
{
    if qpoint_less(a, b) || a == b {
        (a, b)
    } else {
        (b, a)
    }
}

fn edge_of(ring: &Vec<QPoint>, i: usize) -> (k: (QPoint, QPoint))
    requires
        i < ring.len(),
    ensures
        k == edge_at(ring@, i as int),
{
    let n = ring.len();
    let next = if i + 1 < n { i + 1 } else { 0 };
    proof {
        if i + 1 < n {
            vstd::arithmetic::div_mod::lemma_small_mod((i + 1) as nat, n as nat);
        } else {
            vstd::arithmetic::div_mod::lemma_mod_self_0(n as int);
        }
    }
    edge_key_of(ring[i], ring[next])
}

fn has_edge(ring: &Vec<QPoint>, key: (QPoint, QPoint)) -> (r: bool)
    ensures
        r == ring_has_edge(ring@, key),
{
    let mut i: usize = 0;
    while i < ring.len()
        invariant
            i <= ring.len(),
            forall|j: int| 0 <= j < i ==> edge_at(ring@, j) != key,
        decreases ring.len() - i,
    {
        let k = edge_of(ring, i);
        if k.0 == key.0 && k.1 == key.1 {
            return true;
        }
        i += 1;
    }
    false
}

fn same_users_exec(rings: &[Vec<QPoint>], k1: (QPoint, QPoint), k2: (QPoint, QPoint)) -> (r: bool)
    ensures
        r == same_users(ring_views(rings@), k1, k2),
{
    let mut q: usize = 0;
    while q < rings.len()
        invariant
            q <= rings.len(),
            forall|p: int| 0 <= p < q ==> ring_has_edge(ring_views(rings@)[p], k1) == ring_has_edge(ring_views(rings@)[p], k2),
        decreases rings.len() - q,
    {
        if has_edge(&rings[q], k1) != has_edge(&rings[q], k2) {
            assert(ring_views(rings@)[q as int] == rings@[q as int]@);
            return false;
        }
        q += 1;
    }
    true
}

/// The junctions of ring `r`, increasing.
fn junction_list(rings: &[Vec<QPoint>], r: usize) -> (js: Vec<usize>)
    requires
        r < rings.len(),
        rings@[r as int]@.len() > 0,
    ensures
        js@.len() == junctions(ring_views(rings@), r as int).len(),
        forall|a: int| 0 <= a < js@.len() ==> js@[a] as int == junctions(ring_views(rings@), r as int)[a],
{
    let ghost rv = ring_views(rings@);
    let ring = &rings[r];
    let n = ring.len();
    assert(rv[r as int] == ring@);
    let mut js: Vec<usize> = Vec::new();
    let mut i: usize = 0;
    while i < n
        invariant
            rv == ring_views(rings@),
            rv[r as int] == ring@,
            n == ring@.len(),
            n > 0,
            r < rings.len(),
            i <= n,
            js@.len() == junctions_below(rv, r as int, i as int).len(),
            forall|a: int| 0 <= a < js@.len() ==> js@[a] as int == junctions_below(rv, r as int, i as int)[a],
        decreases n - i,
    {
        let prev = if i == 0 { n - 1 } else { i - 1 };
        let k_prev = edge_of(ring, prev);
        let k_cur = edge_of(ring, i);
        if !same_users_exec(rings, k_prev, k_cur) {
            js.push(i);
        }
        i += 1;
    }
    js
}

fn reversed(v: &Vec<QPoint>) -> (out: Vec<QPoint>)
    ensures
        out@ == v@.reverse(),
{
    let mut out: Vec<QPoint> = Vec::new();
    let mut i: usize = v.len();
    while i > 0
        invariant
            i <= v.len(),
            out@ == v@.subrange(i as int, v.len() as int).reverse(),
        decreases i,
    {
        i -= 1;
        out.push(v[i]);
        assert(out@ =~= v@.subrange(i as int, v.len() as int).reverse());
    }
    assert(v@.subrange(0, v.len() as int) == v@);
    out
}

fn walk_exec(ring: &Vec<QPoint>, s: usize, e: usize) -> (out: Vec<QPoint>)
    requires
        s < ring.len(),
        e < ring.len(),
    ensures
        out@ == walk(ring@, s as int, e as int),
{
    let mut out: Vec<QPoint> = Vec::new();
    if s < e {
        let mut i = s;
        while i <= e
            invariant
                s <= i <= e + 1,
                e < ring.len(),
                out@ == ring@.subrange(s as int, i as int),
            decreases e + 1 - i,
        {
            out.push(ring[i]);
            i += 1;
            assert(out@ =~= ring@.subrange(s as int, i as int));
        }
    } else {
        let mut i = s;
        while i < ring.len()
            invariant
                s <= i <= ring.len(),
                out@ == ring@.subrange(s as int, i as int),
            decreases ring.len() - i,
        {
            out.push(ring[i]);
            i += 1;
            assert(out@ =~= ring@.subrange(s as int, i as int));
        }
        let mut j: usize = 0;
        while j <= e
            invariant
                j <= e + 1,
                e < ring.len(),
                out@ == ring@.subrange(s as int, ring.len() as int) + ring@.subrange(0, j as int),
            decreases e + 1 - j,
        {
            out.push(ring[j]);
            j += 1;
            assert(out@ =~= ring@.subrange(s as int, ring.len() as int) + ring@.subrange(0, j as int));
        }
    }
    out
}

fn open_arc_exec(walked: Vec<QPoint>) -> (out: (Vec<QPoint>, ArcDir))
    ensures
        (out.0@, out.1) == open_arc(walked@),
{
    let rev = reversed(&walked);
    if seq_less(&walked, &rev) || seq_equal(&walked, &rev) {
        (walked, ArcDir::Forward)
    } else {
        (rev, ArcDir::Reverse)
    }
}

fn closed_arc_exec(ring: &Vec<QPoint>) -> (out: (Vec<QPoint>, ArcDir))
    requires
        ring.len() > 0,
    ensures
        (out.0@, out.1) == closed_arc(ring@),
{
    let forward = canonical_rotation(ring.as_slice());
    let rev = reversed(ring);
    let backward = canonical_rotation(rev.as_slice());
    proof {
        lemma_least_rotation_unique(ring@, forward@);
        lemma_least_rotation_unique(ring@.reverse(), backward@);
    }
    let (mut closed, dir) = if seq_less(&forward, &backward) || seq_equal(&forward, &backward) {
        (forward, ArcDir::Forward)
    } else {
        (backward, ArcDir::Reverse)
    };
    let first = closed[0];
    closed.push(first);
    (closed, dir)
}

/// The index of `canonical` among the stored arcs, storing it first
/// when it is new.
fn intern(arcs: &mut Vec<Vec<QPoint>>, canonical: Vec<QPoint>, Ghost(seen): Ghost<Seq<Seq<QPoint>>>) -> (id: usize)
    requires
        old(arcs)@.map_values(|a: Vec<QPoint>| a@) == first_occurrences(seen),
    ensures
        final(arcs)@.map_values(|a: Vec<QPoint>| a@) == first_occurrences(seen.push(canonical@)),
        id < final(arcs)@.len(),
        final(arcs)@[id as int]@ == canonical@,
        final(arcs)@.len() >= old(arcs)@.len(),
        forall|i: int| 0 <= i < old(arcs)@.len() ==> final(arcs)@[i] == old(arcs)@[i],
{
    let ghost before = arcs@.map_values(|a: Vec<QPoint>| a@);
    assert(seen.push(canonical@).drop_last() == seen);
    let mut i: usize = 0;
    while i < arcs.len()
        invariant
            before == arcs@.map_values(|a: Vec<QPoint>| a@),
            before == first_occurrences(seen),
            i <= arcs.len(),
            forall|j: int| 0 <= j < i ==> arcs@[j]@ != canonical@,
        decreases arcs.len() - i,
    {
        if seq_equal(&arcs[i], &canonical) {
            assert(before[i as int] == canonical@);
            assert(before.contains(canonical@));
            assert(first_occurrences(seen.push(canonical@)) == first_occurrences(seen)) by {
                assert(seen.push(canonical@).drop_last() == seen);
                assert(seen.push(canonical@).last() == canonical@);
            }
            return i;
        }
        i += 1;
    }
    assert(!before.contains(canonical@)) by {
        if before.contains(canonical@) {
            let j = choose|j: int| 0 <= j < before.len() && before[j] == canonical@;
            assert(arcs@[j]@ == canonical@);
        }
    }
    let id = arcs.len();
    arcs.push(canonical);
    assert(arcs@.map_values(|a: Vec<QPoint>| a@) =~= before.push(arcs@[id as int]@));
    assert(seen.push(arcs@[id as int]@).last() == arcs@[id as int]@);
    id
}

/// Split every ring into maximal runs of edges with identical user
/// sets, then deduplicate runs by canonical polyline.
pub fn extract(rings: &[Vec<QPoint>]) -> (out: Extraction)
    requires
        forall|q: int| 0 <= q < rings@.len() ==> (#[trigger] rings@[q])@.len() > 0,
    ensures
        extracted_from(out, ring_views(rings@)),
{
    let ghost rv = ring_views(rings@);
    let mut arcs: Vec<Vec<QPoint>> = Vec::new();
    let mut cycles: Vec<Vec<(usize, ArcDir)>> = Vec::new();
    let mut r: usize = 0;
    while r < rings.len()
        invariant
            rv == ring_views(rings@),
            forall|q: int| 0 <= q < rings@.len() ==> (#[trigger] rings@[q])@.len() > 0,
            r <= rings.len(),
            arcs@.map_values(|a: Vec<QPoint>| a@) == first_occurrences(arcs_through(rv, r as int)),
            cycles@.len() == r,
            forall|q: int| 0 <= q < r ==> cycle_matches(arcs@.map_values(|a: Vec<QPoint>| a@), #[trigger] cycles@[q]@, ring_arcs(rv, q)),
        decreases rings.len() - r,
    {
        let ring = &rings[r];
        assert(rv[r as int] == ring@);
        let js = junction_list(rings, r);
        let ghost pieces = ring_arcs(rv, r as int);
        let ghost base = arcs_through(rv, r as int);
        let mut cycle: Vec<(usize, ArcDir)> = Vec::new();
        proof {
            lemma_junctions_below(rv, r as int, ring@.len() as int);
        }
        if js.len() == 0 {
            let (closed, dir) = closed_arc_exec(ring);
            let ghost old_arcs = arcs@;
            let id = intern(&mut arcs, closed, Ghost(base));
            cycle.push((id, dir));
            proof {
                assert(pieces == seq![closed_arc(rv[r as int])]);
                assert(pieces.map_values(|p: (Seq<QPoint>, ArcDir)| p.0) =~= seq![closed@]);
                assert(base + seq![closed@] == base.push(closed@));
                assert forall|q: int| 0 <= q < r implies cycle_matches(arcs@.map_values(|a: Vec<QPoint>| a@), #[trigger] cycles@[q]@, ring_arcs(rv, q)) by {
                    let c = cycles@[q]@;
                    assert forall|j: int| 0 <= j < c.len() implies (#[trigger] c[j]).0 < arcs@.map_values(|a: Vec<QPoint>| a@).len()
                        && arcs@.map_values(|a: Vec<QPoint>| a@)[c[j].0 as int] == ring_arcs(rv, q)[j].0 by {
                        assert(old_arcs.map_values(|a: Vec<QPoint>| a@)[c[j].0 as int] == ring_arcs(rv, q)[j].0);
                    }
                }
            }
        } else {
            let k = js.len();
            let mut j: usize = 0;
            while j < k
                invariant
                    rv == ring_views(rings@),
                    forall|q: int| 0 <= q < rings@.len() ==> (#[trigger] rings@[q])@.len() > 0,
                    r < rings.len(),
                    rv[r as int] == ring@,
                    k == js@.len(),
                    k >= 1,
                    js@.len() == junctions(rv, r as int).len(),
                    forall|a: int| 0 <= a < js@.len() ==> js@[a] as int == junctions(rv, r as int)[a],
                    forall|a: int| 0 <= a < junctions(rv, r as int).len() ==> 0 <= #[trigger] junctions(rv, r as int)[a] < ring@.len(),
                    pieces == ring_arcs(rv, r as int),
                    base == arcs_through(rv, r as int),
                    j <= k,
                    arcs@.map_values(|a: Vec<QPoint>| a@) == first_occurrences(base + pieces.take(j as int).map_values(|p: (Seq<QPoint>, ArcDir)| p.0)),
                    cycles@.len() == r,
                    forall|q: int| 0 <= q < r ==> cycle_matches(arcs@.map_values(|a: Vec<QPoint>| a@), #[trigger] cycles@[q]@, ring_arcs(rv, q)),
                    cycle_matches(arcs@.map_values(|a: Vec<QPoint>| a@), cycle@, pieces.take(j as int)),
                decreases k - j,
            {
                let s = js[j];
                let next = if j + 1 < k { j + 1 } else { 0 };
                let e = js[next];
                proof {
                    if j + 1 < k {
                        vstd::arithmetic::div_mod::lemma_small_mod((j + 1) as nat, k as nat);
                    } else {
                        vstd::arithmetic::div_mod::lemma_mod_self_0(k as int);
                    }
                }
                let walked = walk_exec(ring, s, e);
                let (canonical, dir) = open_arc_exec(walked);
                assert(pieces[j as int] == (canonical@, dir));
                let ghost old_arcs = arcs@;
                let ghost seen = base + pieces.take(j as int).map_values(|p: (Seq<QPoint>, ArcDir)| p.0);
                let id = intern(&mut arcs, canonical, Ghost(seen));
                cycle.push((id, dir));
                proof {
                    assert(pieces.take(j + 1).map_values(|p: (Seq<QPoint>, ArcDir)| p.0)
                        =~= pieces.take(j as int).map_values(|p: (Seq<QPoint>, ArcDir)| p.0).push(pieces[j as int].0));
                    assert(base + pieces.take(j + 1).map_values(|p: (Seq<QPoint>, ArcDir)| p.0) =~= seen.push(canonical@));
                    let av = arcs@.map_values(|a: Vec<QPoint>| a@);
                    let ov = old_arcs.map_values(|a: Vec<QPoint>| a@);
                    assert forall|q: int| 0 <= q < r implies cycle_matches(av, #[trigger] cycles@[q]@, ring_arcs(rv, q)) by {
                        let c = cycles@[q]@;
                        assert forall|i: int| 0 <= i < c.len() implies (#[trigger] c[i]).0 < av.len()
                            && av[c[i].0 as int] == ring_arcs(rv, q)[i].0 by {
                            assert(ov[c[i].0 as int] == ring_arcs(rv, q)[i].0);
                        }
                    }
                    let pt = pieces.take(j + 1);
                    assert forall|i: int| 0 <= i < cycle@.len() implies (#[trigger] cycle@[i]).0 < av.len()
                        && av[cycle@[i].0 as int] == pt[i].0 && cycle@[i].1 == pt[i].1 by {
                        if i < j {
                            assert(ov[cycle@[i].0 as int] == pieces.take(j as int)[i].0);
                        }
                    }
                }
                j += 1;
            }
            proof {
                assert(pieces.len() == k);
                assert(pieces.take(k as int) =~= pieces);
            }
        }
        proof {
            assert(arcs_through(rv, r + 1) == base + pieces.map_values(|p: (Seq<QPoint>, ArcDir)| p.0));
            if js.len() > 0 {
                assert(pieces.take(js.len() as int) =~= pieces);
            }
        }
        cycles.push(cycle);
        proof {
            assert forall|q: int| 0 <= q < r + 1 implies cycle_matches(arcs@.map_values(|a: Vec<QPoint>| a@), #[trigger] cycles@[q]@, ring_arcs(rv, q)) by {
            }
        }
        r += 1;
    }
    let out = Extraction { arcs, cycles };
    proof {
        assert(out.arcs_view() == first_occurrences(arcs_through(rv, rv.len() as int)));
        assert forall|q: int| 0 <= q < rv.len() implies cycle_matches(out.arcs_view(), #[trigger] out.cycles_view()[q], ring_arcs(rv, q)) by {
            assert(out.cycles_view()[q] == out.cycles@[q]@);
        }
    }
    out
}

/// The fidelity witness: rebuild a ring from its cycle. Each arc
/// contributes its oriented points minus the trailing junction (owned
/// by the next arc).
pub fn reconstruct_ring(ext: &Extraction, ring: usize) -> (out: Vec<QPoint>)
    requires
        ring < ext.cycles@.len(),
        cycle_well_formed(ext.arcs_view(), ext.cycles_view()[ring as int]),
    ensures
        out@ == rebuild(ext.arcs_view(), ext.cycles_view()[ring as int]),
{
    let cycle = &ext.cycles[ring];
    let ghost cv = ext.cycles_view()[ring as int];
    let ghost av = ext.arcs_view();
    assert(cv == cycle@);
    let mut out: Vec<QPoint> = Vec::new();
    let mut j: usize = 0;
    while j < cycle.len()
        invariant
            cv == cycle@,
            av == ext.arcs_view(),
            cycle_well_formed(av, cv),
            j <= cycle.len(),
            out@ == rebuild(av, cv.take(j as int)),
        decreases cycle.len() - j,
    {
        let (arc, dir) = cycle[j];
        let pts = &ext.arcs[arc];
        assert(av[arc as int] == pts@);
        assert(pts@.len() >= 1);
        let ghost before = out@;
        match dir {
            ArcDir::Forward => {
                let mut i: usize = 0;
                while i + 1 < pts.len()
                    invariant
                        pts@.len() >= 1,
                        i + 1 <= pts.len(),
                        out@ == before + pts@.take(i as int),
                    decreases pts.len() - i,
                {
                    out.push(pts[i]);
                    i += 1;
                    assert(out@ =~= before + pts@.take(i as int));
                }
            },
            ArcDir::Reverse => {
                let mut i: usize = pts.len();
                while i > 1
                    invariant
                        pts@.len() >= 1,
                        1 <= i <= pts.len(),
                        out@ == before + pts@.subrange(i as int, pts@.len() as int).reverse(),
                    decreases i,
                {
                    i -= 1;
                    out.push(pts[i]);
                    assert(out@ =~= before + pts@.subrange(i as int, pts@.len() as int).reverse());
                }
                assert(pts@.subrange(1, pts@.len() as int) == pts@.skip(1));
            },
        }
        proof {
            assert(cv.take(j + 1).drop_last() =~= cv.take(j as int));
            assert(cv.take(j + 1).last() == cv[j as int]);
        }
        j += 1;
    }
    assert(cv.take(cv.len() as int) =~= cv);
    out
}

} // verus!
