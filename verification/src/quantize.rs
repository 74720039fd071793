//! Quantized grid points and the canonical forms built on them: the
//! exact-integer matching method of shared-arc extraction.
//!
//! Coordinates snap to a 1e-7-degree grid before they reach this
//! module (the floating-point snap is the caller's); from here on,
//! vertices agree exactly as integers and every comparison is exact.

use vstd::prelude::*;

verus! {

/// A grid point: quantized (lon, lat) in 1e-7-degree units. Ordered
/// by longitude, then latitude.
#[derive(Clone, Copy, Debug, PartialEq, Eq, Structural, PartialOrd, Ord, Hash)]
pub struct QPoint {
    pub lon: i64,
    pub lat: i64,
}

/// The order of grid points: longitude first, then latitude.
pub open spec fn qlt(a: QPoint, b: QPoint) -> bool {
    a.lon < b.lon || (a.lon == b.lon && a.lat < b.lat)
}

pub open spec fn qle(a: QPoint, b: QPoint) -> bool {
    qlt(a, b) || a == b
}

/// Is `a` before `b`?
pub fn qpoint_less(a: QPoint, b: QPoint) -> (r: bool)
    ensures
        r == qlt(a, b),
{
    a.lon < b.lon || (a.lon == b.lon && a.lat < b.lat)
}

/// Lexicographic order on point sequences, a proper prefix first
/// (the order of `Vec<QPoint>`).
pub open spec fn seq_lt(a: Seq<QPoint>, b: Seq<QPoint>) -> bool
    decreases a.len(),
{
    if b.len() == 0 {
        false
    } else if a.len() == 0 {
        true
    } else if qlt(a[0], b[0]) {
        true
    } else if a[0] == b[0] {
        seq_lt(a.drop_first(), b.drop_first())
    } else {
        false
    }
}

pub open spec fn seq_le(a: Seq<QPoint>, b: Seq<QPoint>) -> bool {
    seq_lt(a, b) || a == b
}

pub proof fn lemma_seq_lt_irreflexive(a: Seq<QPoint>)
    ensures
        !seq_lt(a, a),
    decreases a.len(),
{
    if a.len() > 0 {
        lemma_seq_lt_irreflexive(a.drop_first());
    }
}

pub proof fn lemma_seq_lt_trans(a: Seq<QPoint>, b: Seq<QPoint>, c: Seq<QPoint>)
    requires
        seq_lt(a, b),
        seq_lt(b, c),
    ensures
        seq_lt(a, c),
    decreases a.len(),
{
    if a.len() > 0 && b.len() > 0 && c.len() > 0 && a[0] == b[0] && b[0] == c[0] {
        lemma_seq_lt_trans(a.drop_first(), b.drop_first(), c.drop_first());
    }
}

pub proof fn lemma_seq_lt_total(a: Seq<QPoint>, b: Seq<QPoint>)
    ensures
        seq_lt(a, b) || seq_lt(b, a) || a == b,
    decreases a.len(),
{
    if a.len() > 0 && b.len() > 0 {
        if a[0] == b[0] {
            lemma_seq_lt_total(a.drop_first(), b.drop_first());
            if a.drop_first() == b.drop_first() {
                assert(a == seq![a[0]] + a.drop_first());
                assert(b == seq![b[0]] + b.drop_first());
            }
        }
    } else if a.len() == 0 && b.len() == 0 {
        assert(a == b);
    }
}

pub proof fn lemma_seq_lt_asym(a: Seq<QPoint>, b: Seq<QPoint>)
    requires
        seq_lt(a, b),
    ensures
        !seq_lt(b, a),
        a != b,
{
    if seq_lt(b, a) {
        lemma_seq_lt_trans(a, b, a);
    }
    lemma_seq_lt_irreflexive(a);
}

pub proof fn lemma_seq_le_trans(a: Seq<QPoint>, b: Seq<QPoint>, c: Seq<QPoint>)
    requires
        seq_le(a, b),
        seq_le(b, c),
    ensures
        seq_le(a, c),
{
    if seq_lt(a, b) && seq_lt(b, c) {
        lemma_seq_lt_trans(a, b, c);
    }
}

/// Is `a` before `b` lexicographically?
pub fn seq_less(a: &Vec<QPoint>, b: &Vec<QPoint>) -> (r: bool)
    ensures
        r == seq_lt(a@, b@),
{
    let mut i: usize = 0;
    assert(a@.skip(0) == a@ && b@.skip(0) == b@);
    while i < a.len() && i < b.len()
        invariant
            i <= a.len(),
            i <= b.len(),
            seq_lt(a@, b@) == seq_lt(a@.skip(i as int), b@.skip(i as int)),
        decreases a.len() - i,
    {
        if qpoint_less(a[i], b[i]) {
            return true;
        }
        if a[i] != b[i] {
            return false;
        }
        assert(a@.skip(i as int).drop_first() == a@.skip(i + 1));
        assert(b@.skip(i as int).drop_first() == b@.skip(i + 1));
        i += 1;
    }
    i < b.len()
}

/// Element-wise equality of two point sequences.
pub fn seq_equal(a: &Vec<QPoint>, b: &Vec<QPoint>) -> (r: bool)
    ensures
        r == (a@ == b@),
{
    if a.len() != b.len() {
        return false;
    }
    let mut i: usize = 0;
    while i < a.len()
        invariant
            a.len() == b.len(),
            i <= a.len(),
            forall|k: int| 0 <= k < i ==> a@[k] == b@[k],
        decreases a.len() - i,
    {
        if a[i] != b[i] {
            return false;
        }
        i += 1;
    }
    assert(a@ =~= b@);
    true
}

// -------------------------------------------------------- rotations

/// `s` read from index `k`, wrapping around.
pub open spec fn rotate(s: Seq<QPoint>, k: int) -> Seq<QPoint> {
    s.subrange(k, s.len() as int) + s.subrange(0, k)
}

/// `t` is `s` read from some phase.
pub open spec fn is_rotation_of(t: Seq<QPoint>, s: Seq<QPoint>) -> bool {
    (s.len() == 0 && t == s) || exists|k: int| 0 <= k < s.len() && t == #[trigger] rotate(s, k)
}

/// `t` is the lexicographically least phase of `s`.
pub open spec fn is_least_rotation(s: Seq<QPoint>, t: Seq<QPoint>) -> bool {
    &&& is_rotation_of(t, s)
    &&& forall|k: int| 0 <= k < s.len() ==> seq_le(t, #[trigger] rotate(s, k))
}

/// The least phase of `s`.
pub open spec fn least_rotation(s: Seq<QPoint>) -> Seq<QPoint> {
    choose|t: Seq<QPoint>| is_least_rotation(s, t)
}

/// The least phase is unique, so `least_rotation` names it.
pub proof fn lemma_least_rotation_unique(s: Seq<QPoint>, t: Seq<QPoint>)
    requires
        is_least_rotation(s, t),
    ensures
        least_rotation(s) == t,
{
    let u = least_rotation(s);
    assert(is_least_rotation(s, u));
    if s.len() == 0 {
    } else {
        let kt = choose|k: int| 0 <= k < s.len() && t == #[trigger] rotate(s, k);
        let ku = choose|k: int| 0 <= k < s.len() && u == #[trigger] rotate(s, k);
        assert(seq_le(t, rotate(s, ku)));
        assert(seq_le(u, rotate(s, kt)));
        if t != u {
            lemma_seq_lt_asym(t, u);
        }
    }
}

/// A vector holding the points of `s`.
pub fn points_of(s: &[QPoint]) -> (out: Vec<QPoint>)
    ensures
        out@ == s@,
{
    let mut out: Vec<QPoint> = Vec::new();
    let mut i: usize = 0;
    while i < s.len()
        invariant
            i <= s.len(),
            out@ == s@.take(i as int),
        decreases s.len() - i,
    {
        out.push(s[i]);
        i += 1;
        assert(out@ =~= s@.take(i as int));
    }
    assert(s@.take(s.len() as int) == s@);
    out
}

/// `s` read from phase `k`.
pub fn rotation(s: &Vec<QPoint>, k: usize) -> (out: Vec<QPoint>)
    requires
        k <= s.len(),
    ensures
        out@ == rotate(s@, k as int),
{
    let mut out: Vec<QPoint> = Vec::new();
    let mut i: usize = k;
    while i < s.len()
        invariant
            k <= i <= s.len(),
            out@ == s@.subrange(k as int, i as int),
        decreases s.len() - i,
    {
        out.push(s[i]);
        i += 1;
        assert(out@ =~= s@.subrange(k as int, i as int));
    }
    let mut j: usize = 0;
    while j < k
        invariant
            j <= k <= s.len(),
            out@ == s@.subrange(k as int, s.len() as int) + s@.subrange(0, j as int),
        decreases k - j,
    {
        out.push(s[j]);
        j += 1;
        assert(out@ =~= s@.subrange(k as int, s.len() as int) + s@.subrange(0, j as int));
    }
    out
}

/// Rotate a ring to its lexicographically least phase — the canonical
/// form under which two traversals of the same ring compare equal.
pub fn canonical_rotation(pts: &[QPoint]) -> (out: Vec<QPoint>)
    ensures
        is_least_rotation(pts@, out@),
{
    let v: Vec<QPoint> = points_of(pts);
    if v.len() == 0 {
        return v;
    }
    let mut best: Vec<QPoint> = rotation(&v, 0);
    let ghost mut best_k: int = 0;
    let mut k: usize = 1;
    proof {
        lemma_seq_lt_irreflexive(best@);
    }
    while k < v.len()
        invariant
            v@ == pts@,
            1 <= k <= v.len(),
            0 <= best_k < v.len(),
            best@ == rotate(v@, best_k),
            forall|j: int| 0 <= j < k ==> seq_le(best@, #[trigger] rotate(v@, j)),
        decreases v.len() - k,
    {
        let cand = rotation(&v, k);
        if seq_less(&cand, &best) {
            proof {
                assert forall|j: int| 0 <= j < k + 1 implies seq_le(cand@, #[trigger] rotate(v@, j)) by {
                    if j < k {
                        lemma_seq_le_trans(cand@, best@, rotate(v@, j));
                    }
                }
                best_k = k as int;
            }
            best = cand;
        } else {
            proof {
                lemma_seq_lt_total(cand@, best@);
            }
        }
        k += 1;
    }
    best
}

// ---------------------------------------------------- ring cleaning

/// `s` with every run of equal consecutive points collapsed to one.
pub open spec fn collapse_repeats(s: Seq<QPoint>) -> Seq<QPoint>
    decreases s.len(),
{
    if s.len() == 0 {
        s
    } else {
        let d = collapse_repeats(s.drop_last());
        if d.len() > 0 && d.last() == s.last() {
            d
        } else {
            d.push(s.last())
        }
    }
}

/// `s` with trailing repeats of its first point dropped (rings leave
/// closure implicit).
pub open spec fn drop_closing(s: Seq<QPoint>) -> Seq<QPoint>
    decreases s.len(),
{
    if s.len() > 1 && s[0] == s.last() {
        drop_closing(s.drop_last())
    } else {
        s
    }
}

/// Normalize a quantized source ring: consecutive duplicates
/// collapse, and the closing repeat of the first point (the input
/// convention) is dropped. `None` for rings degenerate after cleaning
/// (fewer than three points).
pub fn clean_ring(src: &[QPoint]) -> (out: Option<Vec<QPoint>>)
    ensures
        ({
            let c = drop_closing(collapse_repeats(src@));
            match out {
                Some(v) => c.len() >= 3 && v@ == c,
                None => c.len() < 3,
            }
        }),
{
    let mut pts: Vec<QPoint> = Vec::new();
    let mut i: usize = 0;
    while i < src.len()
        invariant
            i <= src.len(),
            pts@ == collapse_repeats(src@.take(i as int)),
        decreases src.len() - i,
    {
        let q = src[i];
        assert(src@.take(i + 1).drop_last() == src@.take(i as int));
        if pts.len() == 0 || pts[pts.len() - 1] != q {
            pts.push(q);
        }
        i += 1;
    }
    assert(src@.take(src.len() as int) == src@);
    while pts.len() > 1 && pts[0] == pts[pts.len() - 1]
        invariant
            drop_closing(pts@) == drop_closing(collapse_repeats(src@)),
        decreases pts.len(),
    {
        let ghost before = pts@;
        pts.pop();
        assert(pts@ == before.drop_last());
    }
    assert(drop_closing(pts@) == pts@);
    if pts.len() < 3 {
        None
    } else {
        Some(pts)
    }
}

} // verus!
