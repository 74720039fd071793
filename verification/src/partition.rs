//! The sphere partition's combinatorial skeleton: canonical edges
//! stored once, each with two half-edges, and the structural laws of
//! the half-edge structure — every twin pairs back, every cycle links
//! forward and back within one face, every edge separates two faces.

use vstd::prelude::*;
use vstd::relations::{sorted_by, total_ordering};
use crate::fnv::{be_bytes, fnv_bytes, law_fnv_streams, Fnv, FNV_OFFSET};
use crate::sorting::lemma_sorted_insert;
use crate::text::{chars_of, concat2, contains_text, decimal, decimal_text, has_text, owned, string_views, strip_prefix, concat3};

verus! {

/// What a face IS, semantically. Metadata never affects topology.
#[derive(Clone, Copy, Debug, PartialEq, Eq, Structural, PartialOrd, Ord)]
pub enum FaceKind {
    LandClaim,
    Sea,
    Lake,
    Background,
}

/// One canonical undirected edge: a single minor great-circle arc
/// between two canonical vertices, stored exactly once.
#[derive(Clone, Debug)]
pub struct PEdge {
    pub a: usize,
    pub b: usize,
    /// half-edge a→b and its twin b→a.
    pub half_ab: usize,
    pub half_ba: usize,
    /// river attribute: this border IS a river (style strokes it).
    pub river: bool,
    /// the witnesses whose geometry this edge carries.
    pub provenance: Vec<String>,
}

/// One side of an edge, walking its face's boundary.
#[derive(Clone, Debug)]
pub struct PHalf {
    pub origin: usize,
    pub edge: usize,
    pub twin: usize,
    pub next: usize,
    pub prev: usize,
    pub face: usize,
}

/// Every twin and successor a half-edge names is a half-edge.
pub open spec fn links_in_range(h: Seq<PHalf>) -> bool {
    forall|i: int| 0 <= i < h.len() ==> (#[trigger] h[i]).twin < h.len() && h[i].next < h.len()
}

/// `"half {i}{what}"`.
pub open spec fn half_msg(i: int, what: Seq<char>) -> Seq<char> {
    "half "@ + decimal_text(i as nat) + what
}

/// The message when `cond` fails, else nothing.
pub open spec fn unless(cond: bool, msg: Seq<char>) -> Seq<Seq<char>> {
    if cond {
        Seq::empty()
    } else {
        seq![msg]
    }
}

/// What is wrong with half-edge `i`, in the order the laws are checked.
pub open spec fn half_report(h: Seq<PHalf>, i: int) -> Seq<Seq<char>> {
    let x = h[i];
    unless(h[x.twin as int].twin == i, half_msg(i, ": twin(twin) != self"@))
        + unless(h[x.next as int].prev == i, half_msg(i, ": prev(next) != self"@))
        + unless(h[x.next as int].face == x.face, half_msg(i, ": next crosses faces"@))
        + unless(
        h[x.next as int].origin == h[x.twin as int].origin,
        half_msg(i, ": next does not continue at destination"@),
    ) + unless(h[x.twin as int].face != x.face, half_msg(i, ": edge with the same face on both sides"@))
}

/// The reports of the first `n` half-edges.
pub open spec fn halves_report(h: Seq<PHalf>, n: int) -> Seq<Seq<char>>
    decreases n,
{
    if n <= 0 {
        Seq::empty()
    } else {
        halves_report(h, n - 1) + half_report(h, n - 1)
    }
}

/// The zero-length edges among the first `n`.
pub open spec fn edges_report(e: Seq<PEdge>, n: int) -> Seq<Seq<char>>
    decreases n,
{
    if n <= 0 {
        Seq::empty()
    } else {
        edges_report(e, n - 1) + unless(
            e[n - 1].a != e[n - 1].b,
            "edge "@ + decimal_text((n - 1) as nat) + ": zero-length"@,
        )
    }
}

/// Every structural violation, half-edges first, then edges.
pub open spec fn structural_report(h: Seq<PHalf>, e: Seq<PEdge>) -> Seq<Seq<char>> {
    halves_report(h, h.len() as int) + edges_report(e, e.len() as int)
}

/// The half-edge laws at one half-edge.
pub open spec fn half_lawful(h: Seq<PHalf>, i: int) -> bool {
    let x = h[i];
    &&& h[x.twin as int].twin == i
    &&& h[x.next as int].prev == i
    &&& h[x.next as int].face == x.face
    &&& h[x.next as int].origin == h[x.twin as int].origin
    &&& h[x.twin as int].face != x.face
}

/// The whole structure lawful: every half-edge, and no edge from a
/// vertex to itself.
pub open spec fn structure_lawful(h: Seq<PHalf>, e: Seq<PEdge>) -> bool {
    &&& forall|i: int| 0 <= i < h.len() ==> #[trigger] half_lawful(h, i)
    &&& forall|k: int| 0 <= k < e.len() ==> (#[trigger] e[k]).a != e[k].b
}

fn push_half_msg(out: &mut Vec<String>, i: usize, what: &str)
    ensures
        string_views(final(out)@) == string_views(old(out)@).push(half_msg(i as int, what@)),
{
    let d = decimal(i);
    let m = concat3("half ", d.as_str(), what);
    proof {
        reveal_strlit("half ");
    }
    out.push(m);
    assert(string_views(out@) =~= string_views(old(out)@).push(half_msg(i as int, what@)));
}

/// Appends what is wrong with half-edge `i`.
fn report_half(halves: &[PHalf], i: usize, out: &mut Vec<String>)
    requires
        links_in_range(halves@),
        i < halves@.len(),
    ensures
        string_views(final(out)@) == string_views(old(out)@) + half_report(halves@, i as int),
{
    let ghost h = halves@;
    let x = &halves[i];
    let ghost base = string_views(out@);
    assert(base == string_views(old(out)@));
    let tw = &halves[x.twin];
    let nx = &halves[x.next];
    if tw.twin != i {
        push_half_msg(out, i, ": twin(twin) != self");
    }
    let ghost s1 = string_views(out@);
    if nx.prev != i {
        push_half_msg(out, i, ": prev(next) != self");
    }
    let ghost s2 = string_views(out@);
    if nx.face != x.face {
        push_half_msg(out, i, ": next crosses faces");
    }
    let ghost s3 = string_views(out@);
    if nx.origin != tw.origin {
        push_half_msg(out, i, ": next does not continue at destination");
    }
    let ghost s4 = string_views(out@);
    if tw.face == x.face {
        push_half_msg(out, i, ": edge with the same face on both sides");
    }
    proof {
        reveal_strlit(": twin(twin) != self");
        reveal_strlit(": prev(next) != self");
        reveal_strlit(": next crosses faces");
        reveal_strlit(": next does not continue at destination");
        reveal_strlit(": edge with the same face on both sides");
        let xs = h[i as int];
        assert(s1 == base + unless(h[xs.twin as int].twin == i, half_msg(i as int, ": twin(twin) != self"@)));
        assert(s2 == s1 + unless(h[xs.next as int].prev == i, half_msg(i as int, ": prev(next) != self"@)));
        assert(s3 == s2 + unless(h[xs.next as int].face == xs.face, half_msg(i as int, ": next crosses faces"@)));
        assert(s4 == s3 + unless(
            h[xs.next as int].origin == h[xs.twin as int].origin,
            half_msg(i as int, ": next does not continue at destination"@),
        ));
        assert(string_views(out@) == s4 + unless(
            h[xs.twin as int].face != xs.face,
            half_msg(i as int, ": edge with the same face on both sides"@),
        ));
        assert(string_views(out@) =~= string_views(old(out)@) + half_report(h, i as int));
    }
}

/// The structural laws of the half-edge structure, checked: one
/// message per broken law, naming the half-edge or edge. Empty means
/// lawful (the face areas and the completeness sum are checked on the
/// geometry itself).
pub fn structural_violations(halves: &[PHalf], edges: &[PEdge]) -> (out: Vec<String>)
    requires
        links_in_range(halves@),
    ensures
        string_views(out@) == structural_report(halves@, edges@),
{
    let ghost h = halves@;
    let mut out: Vec<String> = Vec::new();
    let mut i: usize = 0;
    while i < halves.len()
        invariant
            h == halves@,
            links_in_range(h),
            0 <= i <= h.len(),
            string_views(out@) == halves_report(h, i as int),
        decreases h.len() - i,
    {
        report_half(halves, i, &mut out);
        assert(halves_report(h, i + 1) == halves_report(h, i as int) + half_report(h, i as int));
        i = i + 1;
    }
    let ghost hr = string_views(out@);
    let mut k: usize = 0;
    while k < edges.len()
        invariant
            0 <= k <= edges@.len(),
            string_views(out@) == hr + edges_report(edges@, k as int),
        decreases edges@.len() - k,
    {
        let ghost before = string_views(out@);
        if edges[k].a == edges[k].b {
            let d = decimal(k);
            let m = concat3("edge ", d.as_str(), ": zero-length");
            out.push(m);
            proof {
                reveal_strlit("edge ");
                reveal_strlit(": zero-length");
            }
            assert(string_views(out@) =~= before.push("edge "@ + decimal_text(k as nat) + ": zero-length"@));
        }
        assert(string_views(out@) =~= hr + edges_report(edges@, k + 1));
        k = k + 1;
    }
    out
}

proof fn lemma_halves_report_empty(h: Seq<PHalf>, n: int)
    requires
        0 <= n <= h.len(),
        links_in_range(h),
    ensures
        halves_report(h, n).len() == 0 <==> forall|i: int| 0 <= i < n ==> #[trigger] half_lawful(h, i),
    decreases n,
{
    if n > 0 {
        lemma_halves_report_empty(h, n - 1);
        let r = half_report(h, n - 1);
        assert(r.len() == 0 <==> half_lawful(h, n - 1));
        if halves_report(h, n).len() == 0 {
            assert forall|i: int| 0 <= i < n implies #[trigger] half_lawful(h, i) by {
                if i < n - 1 {
                    assert(halves_report(h, n - 1).len() == 0);
                }
            }
        }
    }
}

proof fn lemma_edges_report_empty(e: Seq<PEdge>, n: int)
    requires
        0 <= n <= e.len(),
    ensures
        edges_report(e, n).len() == 0 <==> forall|k: int| 0 <= k < n ==> (#[trigger] e[k]).a != e[k].b,
    decreases n,
{
    if n > 0 {
        lemma_edges_report_empty(e, n - 1);
    }
}

/// An empty report means a lawful structure, and a lawful structure
/// reports nothing.
pub proof fn law_empty_report_is_lawful(h: Seq<PHalf>, e: Seq<PEdge>)
    requires
        links_in_range(h),
    ensures
        structural_report(h, e).len() == 0 <==> structure_lawful(h, e),
{
    lemma_halves_report_empty(h, h.len() as int);
    lemma_edges_report_empty(e, e.len() as int);
}

/// In a lawful structure every edge has exactly two sides: twinning is
/// an involution without fixed points, and the two sides lie in
/// different faces.
pub proof fn law_every_edge_has_two_sides(h: Seq<PHalf>, e: Seq<PEdge>, i: int)
    requires
        links_in_range(h),
        structure_lawful(h, e),
        0 <= i < h.len(),
    ensures
        h[h[i].twin as int].twin == i,
        h[i].twin != i,
        h[h[i].twin as int].face != h[i].face,
{
    assert(half_lawful(h, i));
}

/// In a lawful structure each half-edge's successor starts where the
/// half-edge ends and stays in its face, and steps back to it.
pub proof fn law_cycles_close_within_faces(h: Seq<PHalf>, e: Seq<PEdge>, i: int)
    requires
        links_in_range(h),
        structure_lawful(h, e),
        0 <= i < h.len(),
    ensures
        h[h[i].next as int].prev == i,
        h[h[i].next as int].face == h[i].face,
        h[h[i].next as int].origin == h[h[i].twin as int].origin,
{
    assert(half_lawful(h, i));
}

/// A face's boundary cycles as vertex rings: each half-edge of a cycle
/// by its origin vertex, in cycle order (the closing vertex is not
/// repeated).
pub fn face_cycle_vertices(halves: &[PHalf], cycles: &[Vec<usize>]) -> (r: Vec<Vec<usize>>)
    requires
        forall|k: int, j: int| 0 <= k < cycles@.len() && 0 <= j < cycles@[k]@.len() ==> #[trigger] cycles@[k]@[j] < halves@.len(),
    ensures
        r@.len() == cycles@.len(),
        forall|k: int| 0 <= k < cycles@.len() ==> (#[trigger] r@[k])@ == cycles@[k]@.map_values(|h: usize| halves@[h as int].origin),
{
    let mut r: Vec<Vec<usize>> = Vec::new();
    let mut k: usize = 0;
    while k < cycles.len()
        invariant
            k <= cycles@.len(),
            r@.len() == k,
            forall|a: int, j: int| 0 <= a < cycles@.len() && 0 <= j < cycles@[a]@.len() ==> #[trigger] cycles@[a]@[j] < halves@.len(),
            forall|a: int| 0 <= a < k ==> (#[trigger] r@[a])@ == cycles@[a]@.map_values(|h: usize| halves@[h as int].origin),
        decreases cycles@.len() - k,
    {
        let cy = &cycles[k];
        let mut ring: Vec<usize> = Vec::new();
        let mut j: usize = 0;
        while j < cy.len()
            invariant
                j <= cy@.len(),
                cy@ == cycles@[k as int]@,
                k < cycles@.len(),
                forall|a: int, q: int| 0 <= a < cycles@.len() && 0 <= q < cycles@[a]@.len() ==> #[trigger] cycles@[a]@[q] < halves@.len(),
                ring@ == cy@.take(j as int).map_values(|h: usize| halves@[h as int].origin),
            decreases cy@.len() - j,
        {
            assert(cycles@[k as int]@[j as int] < halves@.len());
            ring.push(halves[cy[j]].origin);
            assert(ring@ =~= cy@.take(j + 1).map_values(|h: usize| halves@[h as int].origin));
            j += 1;
        }
        assert(cy@.take(cy@.len() as int) =~= cy@);
        r.push(ring);
        k += 1;
    }
    r
}

// ------------------------------------------------------ canon naming

/// Who a face is: its first claimant, or `face-{index}` when unclaimed.
pub open spec fn face_who(claims: Seq<Seq<char>>, index: int) -> Seq<char> {
    if claims.len() > 0 {
        claims[0]
    } else {
        "face-"@ + decimal_text(index as nat)
    }
}

/// A face's display name by kind.
pub open spec fn face_name(kind: FaceKind, who: Seq<char>) -> Seq<char> {
    match kind {
        FaceKind::Sea => "the Great Sea (partition)"@,
        _ => who + " (partition)"@,
    }
}

/// A face's canon identity: the entity `partition:{who}` and its name.
/// The background face is no feature and has none.
pub fn face_identity(kind: FaceKind, claims: &[String], index: usize) -> (r: Option<(String, String)>)
    ensures
        kind == FaceKind::Background ==> r is None,
        kind != FaceKind::Background ==> (r matches Some((e, n)) && e@ == "partition:"@ + face_who(string_views(claims@), index as int)
            && n@ == face_name(kind, face_who(string_views(claims@), index as int))),
{
    proof {
        reveal_strlit("face-");
        reveal_strlit("partition:");
        reveal_strlit(" (partition)");
        reveal_strlit("the Great Sea (partition)");
    }
    if kind == FaceKind::Background {
        return None;
    }
    let who = if claims.len() > 0 {
        owned(claims[0].as_str())
    } else {
        let d = decimal(index);
        concat2("face-", d.as_str())
    };
    assert(who@ == face_who(string_views(claims@), index as int));
    let entity = concat2("partition:", who.as_str());
    let name = match kind {
        FaceKind::Sea => owned("the Great Sea (partition)"),
        _ => concat2(who.as_str(), " (partition)"),
    };
    Some((entity, name))
}

/// A river path's canon identity: the Jordan's paths are one entity,
/// every other river's another; the name carries the path's id.
pub fn river_identity(id: &str) -> (r: (String, String))
    ensures
        r.0@ == (if id@.len() >= 6 && id@.take(6) == "jordan"@ { "partition:jordan"@ } else { "partition:rivers"@ }),
        r.1@ == id@ + " (river)"@,
{
    proof {
        reveal_strlit("jordan");
    }
    let cs = chars_of(id);
    let entity = match strip_prefix(&cs, "jordan") {
        Some(_) => owned("partition:jordan"),
        None => owned("partition:rivers"),
    };
    (entity, concat2(id, " (river)"))
}

/// The sea witnesses' ids: the first is the Great Sea, the rest numbered.
pub open spec fn sea_id(i: int) -> Seq<char> {
    if i == 0 {
        "great-sea"@
    } else {
        "great-sea-"@ + decimal_text(i as nat)
    }
}

pub fn sea_witness_id(i: usize) -> (r: String)
    ensures
        r@ == sea_id(i as int),
{
    if i == 0 {
        owned("great-sea")
    } else {
        let d = decimal(i);
        concat2("great-sea-", d.as_str())
    }
}

/// How many of the first `n` names mention the Jordan (`jordan`) or
/// do not (`!jordan`).
pub open spec fn count_runs(names: Seq<Seq<char>>, n: int, jordan: bool) -> nat
    decreases n,
{
    if n <= 0 {
        0
    } else {
        count_runs(names, n - 1, jordan) + if contains_text(names[n - 1], "Jordan"@) == jordan { 1nat } else { 0nat }
    }
}

/// The id of the `k`-th river run: `jordan-{n}` for the n-th run of a
/// river named for the Jordan, `river-{n}` for the n-th of the others.
pub open spec fn run_id(names: Seq<Seq<char>>, k: int) -> Seq<char> {
    if contains_text(names[k], "Jordan"@) {
        "jordan-"@ + decimal_text(count_runs(names, k + 1, true))
    } else {
        "river-"@ + decimal_text(count_runs(names, k + 1, false))
    }
}

proof fn lemma_count_runs_bound(names: Seq<Seq<char>>, n: int, jordan: bool)
    requires
        0 <= n,
    ensures
        count_runs(names, n, jordan) <= n,
    decreases n,
{
    if n > 0 {
        lemma_count_runs_bound(names, n - 1, jordan);
    }
}

/// Each river run's witness id, in run order, from the names of the
/// rivers the runs belong to.
pub fn river_run_ids(names: &[String]) -> (ids: Vec<String>)
    ensures
        ids@.len() == names@.len(),
        forall|k: int| 0 <= k < names@.len() ==> (#[trigger] ids@[k])@ == run_id(string_views(names@), k),
{
    let ghost nv = string_views(names@);
    let mut ids: Vec<String> = Vec::new();
    let mut jordan_n: usize = 0;
    let mut river_n: usize = 0;
    let mut k: usize = 0;
    while k < names.len()
        invariant
            nv == string_views(names@),
            k <= names@.len(),
            ids@.len() == k,
            jordan_n == count_runs(nv, k as int, true),
            river_n == count_runs(nv, k as int, false),
            forall|q: int| 0 <= q < k ==> (#[trigger] ids@[q])@ == run_id(nv, q),
        decreases names@.len() - k,
    {
        proof {
            lemma_count_runs_bound(nv, k as int, true);
            lemma_count_runs_bound(nv, k as int, false);
            reveal_strlit("Jordan");
        }
        let cs = chars_of(names[k].as_str());
        assert(nv[k as int] == names@[k as int]@);
        let id = if has_text(&cs, "Jordan") {
            jordan_n = jordan_n + 1;
            let d = decimal(jordan_n);
            concat2("jordan-", d.as_str())
        } else {
            river_n = river_n + 1;
            let d = decimal(river_n);
            concat2("river-", d.as_str())
        };
        ids.push(id);
        k += 1;
    }
    ids
}

// ------------------------------------------------- geometric identity

/// A vertex's canonical key: its three quantized coordinates, each
/// compared as the big-endian bytes of its two's-complement `i64` —
/// that is, as the `u64` of the same bits.
pub open spec fn vertex_key(c: (i64, i64, i64)) -> (u64, u64, u64) {
    (c.0 as u64, c.1 as u64, c.2 as u64)
}

/// The keys of a vertex list.
pub open spec fn vertex_keys(cs: Seq<(i64, i64, i64)>) -> Seq<(u64, u64, u64)> {
    cs.map_values(|c: (i64, i64, i64)| vertex_key(c))
}

/// Byte order on keys: first coordinate first.
pub open spec fn key_lt(a: (u64, u64, u64), b: (u64, u64, u64)) -> bool {
    ||| a.0 < b.0
    ||| a.0 == b.0 && a.1 < b.1
    ||| a.0 == b.0 && a.1 == b.1 && a.2 < b.2
}

pub open spec fn key_order() -> spec_fn((u64, u64, u64), (u64, u64, u64)) -> bool {
    |a: (u64, u64, u64), b: (u64, u64, u64)| key_lt(a, b) || a == b
}

/// A key's 24 bytes.
pub open spec fn key_bytes(k: (u64, u64, u64)) -> Seq<u8> {
    be_bytes(k.0) + be_bytes(k.1) + be_bytes(k.2)
}

/// The keys' bytes, in sequence.
pub open spec fn keys_stream(ks: Seq<(u64, u64, u64)>) -> Seq<u8>
    decreases ks.len(),
{
    if ks.len() == 0 {
        Seq::empty()
    } else {
        keys_stream(ks.drop_last()) + key_bytes(ks.last())
    }
}

/// Vertex `j` comes before vertex `i` in canonical order: by key, and
/// among equal keys by position.
pub open spec fn comes_before(ks: Seq<(u64, u64, u64)>, j: int, i: int) -> bool {
    key_lt(ks[j], ks[i]) || (ks[j] == ks[i] && j < i)
}

/// How many of the first `n` vertices come before vertex `i`.
pub open spec fn count_before(ks: Seq<(u64, u64, u64)>, i: int, n: int) -> nat
    decreases n,
{
    if n <= 0 {
        0
    } else {
        count_before(ks, i, n - 1) + if comes_before(ks, n - 1, i) {
            1nat
        } else {
            0nat
        }
    }
}

/// A vertex's place in canonical order.
pub open spec fn rank(ks: Seq<(u64, u64, u64)>, i: int) -> nat {
    count_before(ks, i, ks.len() as int)
}

/// An edge by the canonical ranks of its ends, smaller first, and its
/// river attribute.
pub open spec fn edge_entry(ks: Seq<(u64, u64, u64)>, e: PEdge) -> (usize, usize, bool) {
    let x = rank(ks, e.a as int);
    let y = rank(ks, e.b as int);
    if x <= y {
        (x as usize, y as usize, e.river)
    } else {
        (y as usize, x as usize, e.river)
    }
}

/// Tuple order on edge entries (`false` before `true`).
pub open spec fn entry_le(a: (usize, usize, bool), b: (usize, usize, bool)) -> bool {
    ||| a.0 < b.0
    ||| a.0 == b.0 && a.1 < b.1
    ||| a.0 == b.0 && a.1 == b.1 && (!a.2 || b.2)
}

pub open spec fn entry_order() -> spec_fn((usize, usize, bool), (usize, usize, bool)) -> bool {
    |a: (usize, usize, bool), b: (usize, usize, bool)| entry_le(a, b)
}

/// An entry's bytes: three big-endian `u64`s.
pub open spec fn entry_bytes(e: (usize, usize, bool)) -> Seq<u8> {
    be_bytes(e.0 as u64) + be_bytes(e.1 as u64) + be_bytes(if e.2 { 1u64 } else { 0u64 })
}

/// The entries' bytes, in sequence.
pub open spec fn entries_stream(es: Seq<(usize, usize, bool)>) -> Seq<u8>
    decreases es.len(),
{
    if es.len() == 0 {
        Seq::empty()
    } else {
        entries_stream(es.drop_last()) + entry_bytes(es.last())
    }
}

/// The edges' entries, in edge order.
pub open spec fn edge_entries(ks: Seq<(u64, u64, u64)>, es: Seq<PEdge>) -> Seq<(usize, usize, bool)> {
    es.map_values(|e: PEdge| edge_entry(ks, e))
}

/// Every edge joins vertices of the list.
pub open spec fn ends_in_range(es: Seq<PEdge>, n: int) -> bool {
    forall|k: int| 0 <= k < es.len() ==> (#[trigger] es[k]).a < n && es[k].b < n
}

/// The content hash of the canonical geometry: FNV-1a over the vertex
/// keys in key order, then over the edges' rank entries in tuple order.
pub open spec fn geometry_hash_spec(cs: Seq<(i64, i64, i64)>, es: Seq<PEdge>) -> u64 {
    let ks = vertex_keys(cs);
    fnv_bytes(
        FNV_OFFSET,
        keys_stream(ks.sort_by(key_order())) + entries_stream(edge_entries(ks, es).sort_by(entry_order())),
    )
}

proof fn lemma_key_order_total()
    ensures
        total_ordering(key_order()),
{
}

proof fn lemma_entry_order_total()
    ensures
        total_ordering(entry_order()),
{
}

proof fn lemma_count_before_bound(ks: Seq<(u64, u64, u64)>, i: int, n: int)
    requires
        0 <= n,
    ensures
        count_before(ks, i, n) <= n,
    decreases n,
{
    if n > 0 {
        lemma_count_before_bound(ks, i, n - 1);
    }
}

fn key_less(a: (u64, u64, u64), b: (u64, u64, u64)) -> (r: bool)
    ensures
        r == key_lt(a, b),
{
    a.0 < b.0 || (a.0 == b.0 && a.1 < b.1) || (a.0 == b.0 && a.1 == b.1 && a.2 < b.2)
}

fn key_same(a: (u64, u64, u64), b: (u64, u64, u64)) -> (r: bool)
    ensures
        r == (a == b),
{
    a.0 == b.0 && a.1 == b.1 && a.2 == b.2
}

fn entry_less_eq(a: (usize, usize, bool), b: (usize, usize, bool)) -> (r: bool)
    ensures
        r == entry_le(a, b),
{
    a.0 < b.0 || (a.0 == b.0 && a.1 < b.1) || (a.0 == b.0 && a.1 == b.1 && (!a.2 || b.2))
}

fn sort_keys(ks: &Vec<(u64, u64, u64)>) -> (out: Vec<(u64, u64, u64)>)
    ensures
        out@ == ks@.sort_by(key_order()),
{
    let ghost leq = key_order();
    proof {
        lemma_key_order_total();
    }
    let mut out: Vec<(u64, u64, u64)> = Vec::new();
    assert(out@ =~= ks@.take(0));
    let mut k: usize = 0;
    while k < ks.len()
        invariant
            leq == key_order(),
            total_ordering(leq),
            k <= ks.len(),
            sorted_by(out@, leq),
            out@.to_multiset() == ks@.take(k as int).to_multiset(),
        decreases ks.len() - k,
    {
        let x = ks[k];
        let mut p: usize = 0;
        while p < out.len() && (key_less(out[p], x) || key_same(out[p], x))
            invariant
                leq == key_order(),
                p <= out.len(),
                forall|j: int| 0 <= j < p ==> leq(#[trigger] out@[j], x),
            decreases out.len() - p,
        {
            p += 1;
        }
        proof {
            lemma_sorted_insert(out@, x, p as int, leq);
            vstd::seq_lib::to_multiset_insert(out@, p as int, x);
            assert(ks@.take(k + 1) =~= ks@.take(k as int).push(x));
            vstd::seq_lib::to_multiset_build(ks@.take(k as int), x);
        }
        out.insert(p, x);
        k += 1;
    }
    proof {
        assert(ks@.take(ks@.len() as int) =~= ks@);
        ks@.lemma_sort_by_ensures(leq);
        vstd::seq_lib::lemma_sorted_unique(out@, ks@.sort_by(leq), leq);
    }
    out
}

fn sort_entries(es: &Vec<(usize, usize, bool)>) -> (out: Vec<(usize, usize, bool)>)
    ensures
        out@ == es@.sort_by(entry_order()),
{
    let ghost leq = entry_order();
    proof {
        lemma_entry_order_total();
    }
    let mut out: Vec<(usize, usize, bool)> = Vec::new();
    assert(out@ =~= es@.take(0));
    let mut k: usize = 0;
    while k < es.len()
        invariant
            leq == entry_order(),
            total_ordering(leq),
            k <= es.len(),
            sorted_by(out@, leq),
            out@.to_multiset() == es@.take(k as int).to_multiset(),
        decreases es.len() - k,
    {
        let x = es[k];
        let mut p: usize = 0;
        while p < out.len() && entry_less_eq(out[p], x)
            invariant
                leq == entry_order(),
                p <= out.len(),
                forall|j: int| 0 <= j < p ==> leq(#[trigger] out@[j], x),
            decreases out.len() - p,
        {
            p += 1;
        }
        proof {
            lemma_sorted_insert(out@, x, p as int, leq);
            vstd::seq_lib::to_multiset_insert(out@, p as int, x);
            assert(es@.take(k + 1) =~= es@.take(k as int).push(x));
            vstd::seq_lib::to_multiset_build(es@.take(k as int), x);
        }
        out.insert(p, x);
        k += 1;
    }
    proof {
        assert(es@.take(es@.len() as int) =~= es@);
        es@.lemma_sort_by_ensures(leq);
        vstd::seq_lib::lemma_sorted_unique(out@, es@.sort_by(leq), leq);
    }
    out
}

/// Every vertex's canonical rank.
fn ranks_of(ks: &Vec<(u64, u64, u64)>) -> (r: Vec<usize>)
    ensures
        r@.len() == ks@.len(),
        forall|i: int| 0 <= i < ks@.len() ==> #[trigger] r@[i] == rank(ks@, i),
{
    let n = ks.len();
    let mut r: Vec<usize> = Vec::new();
    let mut i: usize = 0;
    while i < n
        invariant
            n == ks@.len(),
            i <= n,
            r@.len() == i,
            forall|x: int| 0 <= x < i ==> #[trigger] r@[x] == rank(ks@, x),
        decreases n - i,
    {
        let mut c: usize = 0;
        let mut j: usize = 0;
        while j < n
            invariant
                n == ks@.len(),
                i < n,
                j <= n,
                c == count_before(ks@, i as int, j as int),
            decreases n - j,
        {
            proof {
                lemma_count_before_bound(ks@, i as int, j as int);
            }
            if key_less(ks[j], ks[i]) || (key_same(ks[j], ks[i]) && j < i) {
                c = c + 1;
            }
            j += 1;
        }
        r.push(c);
        i += 1;
    }
    r
}

/// The content hash of the canonical geometry, from each vertex's
/// quantized coordinates and the edges between them: independent of
/// how the vertices and edges happen to be numbered (see the law
/// below), carrying no styles and no claims.
pub fn geometry_hash(coords: &[(i64, i64, i64)], edges: &[PEdge]) -> (h: u64)
    requires
        ends_in_range(edges@, coords@.len() as int),
    ensures
        h == geometry_hash_spec(coords@, edges@),
{
    let ghost ksv = vertex_keys(coords@);
    let mut keys: Vec<(u64, u64, u64)> = Vec::new();
    let mut i: usize = 0;
    while i < coords.len()
        invariant
            i <= coords@.len(),
            ksv == vertex_keys(coords@),
            keys@ == ksv.take(i as int),
        decreases coords@.len() - i,
    {
        let c = coords[i];
        keys.push((c.0 as u64, c.1 as u64, c.2 as u64));
        assert(keys@ =~= ksv.take(i + 1));
        i += 1;
    }
    assert(keys@ =~= ksv);
    let rank_of = ranks_of(&keys);
    let mut entries: Vec<(usize, usize, bool)> = Vec::new();
    let ghost ev = edge_entries(ksv, edges@);
    let mut k: usize = 0;
    while k < edges.len()
        invariant
            k <= edges@.len(),
            keys@ == ksv,
            ev == edge_entries(ksv, edges@),
            ends_in_range(edges@, coords@.len() as int),
            ksv.len() == coords@.len(),
            rank_of@.len() == ksv.len(),
            forall|x: int| 0 <= x < ksv.len() ==> #[trigger] rank_of@[x] == rank(ksv, x),
            entries@ == ev.take(k as int),
        decreases edges@.len() - k,
    {
        let e = &edges[k];
        let x = rank_of[e.a];
        let y = rank_of[e.b];
        let entry = if x <= y { (x, y, e.river) } else { (y, x, e.river) };
        entries.push(entry);
        assert(entries@ =~= ev.take(k + 1));
        k += 1;
    }
    assert(entries@ =~= ev);
    let sorted_keys = sort_keys(&keys);
    let sorted_entries = sort_entries(&entries);
    let mut h = Fnv::new();
    let mut a: usize = 0;
    while a < sorted_keys.len()
        invariant
            a <= sorted_keys@.len(),
            h@ == fnv_bytes(FNV_OFFSET, keys_stream(sorted_keys@.take(a as int))),
        decreases sorted_keys@.len() - a,
    {
        let kk = sorted_keys[a];
        let ghost h0 = h@;
        h.u64(kk.0);
        h.u64(kk.1);
        h.u64(kk.2);
        proof {
            law_fnv_streams(h0, be_bytes(kk.0), be_bytes(kk.1));
            law_fnv_streams(h0, be_bytes(kk.0) + be_bytes(kk.1), be_bytes(kk.2));
            let pre = keys_stream(sorted_keys@.take(a as int));
            law_fnv_streams(FNV_OFFSET, pre, key_bytes(kk));
            assert(sorted_keys@.take(a + 1).drop_last() =~= sorted_keys@.take(a as int));
        }
        a += 1;
    }
    assert(sorted_keys@.take(sorted_keys@.len() as int) =~= sorted_keys@);
    let ghost vs = keys_stream(sorted_keys@);
    let mut b: usize = 0;
    while b < sorted_entries.len()
        invariant
            b <= sorted_entries@.len(),
            h@ == fnv_bytes(FNV_OFFSET, vs + entries_stream(sorted_entries@.take(b as int))),
        decreases sorted_entries@.len() - b,
    {
        let en = sorted_entries[b];
        let ghost h0 = h@;
        h.u64(en.0 as u64);
        h.u64(en.1 as u64);
        let r: u64 = if en.2 { 1 } else { 0 };
        h.u64(r);
        proof {
            law_fnv_streams(h0, be_bytes(en.0 as u64), be_bytes(en.1 as u64));
            law_fnv_streams(h0, be_bytes(en.0 as u64) + be_bytes(en.1 as u64), be_bytes(r));
            let pre = vs + entries_stream(sorted_entries@.take(b as int));
            law_fnv_streams(FNV_OFFSET, pre, entry_bytes(en));
            assert(sorted_entries@.take(b + 1).drop_last() =~= sorted_entries@.take(b as int));
            assert(vs + entries_stream(sorted_entries@.take(b + 1)) =~= pre + entry_bytes(en));
        }
        b += 1;
    }
    assert(sorted_entries@.take(sorted_entries@.len() as int) =~= sorted_entries@);
    h.finish()
}

// ------------------------------------------- identity is geometric

/// An edge by the keys of its ends, smaller key first, and its river
/// attribute: the edge as geometry, whatever the numbering.
pub open spec fn key_edge(ks: Seq<(u64, u64, u64)>, e: PEdge) -> ((u64, u64, u64), (u64, u64, u64), bool) {
    let ka = ks[e.a as int];
    let kb = ks[e.b as int];
    if key_lt(kb, ka) {
        (kb, ka, e.river)
    } else {
        (ka, kb, e.river)
    }
}

/// The edges as geometry.
pub open spec fn key_edges(ks: Seq<(u64, u64, u64)>, es: Seq<PEdge>) -> Seq<((u64, u64, u64), (u64, u64, u64), bool)> {
    es.map_values(|e: PEdge| key_edge(ks, e))
}

/// How many keys of `ks` lie before `k`.
spec fn count_lt(ks: Seq<(u64, u64, u64)>, k: (u64, u64, u64)) -> nat
    decreases ks.len(),
{
    if ks.len() == 0 {
        0
    } else {
        count_lt(ks.drop_last(), k) + if key_lt(ks.last(), k) {
            1nat
        } else {
            0nat
        }
    }
}

/// The rank entry of an edge given by keys.
spec fn entry_of_keys(ks: Seq<(u64, u64, u64)>, t: ((u64, u64, u64), (u64, u64, u64), bool)) -> (usize, usize, bool) {
    (count_lt(ks, t.0) as usize, count_lt(ks, t.1) as usize, t.2)
}

/// Equal multisets stay equal under any map.
proof fn lemma_map_multiset<A, B>(s1: Seq<A>, s2: Seq<A>, f: spec_fn(A) -> B)
    requires
        s1.to_multiset() == s2.to_multiset(),
    ensures
        s1.map_values(f).to_multiset() == s2.map_values(f).to_multiset(),
    decreases s1.len(),
{
    broadcast use vstd::seq_lib::group_to_multiset_ensures;
    broadcast use vstd::multiset::group_multiset_axioms;
    if s1.len() == 0 {
        assert(s1.to_multiset().len() == 0);
        assert(s2.to_multiset().len() == s2.len());
        assert(s2.len() == 0);
        assert(s1.map_values(f) =~= Seq::<B>::empty());
        assert(s2.map_values(f) =~= Seq::<B>::empty());
    } else {
        let x = s1.last();
        let s1p = s1.drop_last();
        assert(s1 =~= s1p.push(x));
        assert(s1.to_multiset() == s1p.to_multiset().insert(x));
        assert(s1.to_multiset().count(x) > 0);
        assert(s2.contains(x));
        let i = choose|i: int| 0 <= i < s2.len() && s2[i] == x;
        let s2p = s2.remove(i);
        assert(s2p.to_multiset() == s2.to_multiset().remove(x));
        assert(s1p.to_multiset() =~= s2p.to_multiset());
        lemma_map_multiset(s1p, s2p, f);
        let m1 = s1.map_values(f);
        let m2 = s2.map_values(f);
        assert(m1 =~= s1p.map_values(f).push(f(x)));
        assert(m1.to_multiset() == s1p.map_values(f).to_multiset().insert(f(x)));
        assert(m2.remove(i) =~= s2p.map_values(f));
        assert(m2[i] == f(x));
        assert(m2.remove(i).to_multiset() == m2.to_multiset().remove(f(x)));
        assert(m2.to_multiset().count(f(x)) > 0);
        assert(m2.to_multiset() =~= m2.to_multiset().remove(f(x)).insert(f(x)));
    }
}

/// Counting keys before `k` is counting `true`s in the comparison map.
proof fn lemma_count_lt_multiset(ks: Seq<(u64, u64, u64)>, k: (u64, u64, u64))
    ensures
        count_lt(ks, k) == ks.map_values(|x: (u64, u64, u64)| key_lt(x, k)).to_multiset().count(true),
    decreases ks.len(),
{
    broadcast use vstd::seq_lib::group_to_multiset_ensures;
    broadcast use vstd::multiset::group_multiset_axioms;
    let p = |x: (u64, u64, u64)| key_lt(x, k);
    if ks.len() == 0 {
        assert(ks.map_values(p) =~= Seq::<bool>::empty());
    } else {
        lemma_count_lt_multiset(ks.drop_last(), k);
        assert(ks.map_values(p) =~= ks.drop_last().map_values(p).push(p(ks.last())));
    }
}

/// Keys with equal multisets count alike below every key.
proof fn lemma_count_lt_invariant(ks1: Seq<(u64, u64, u64)>, ks2: Seq<(u64, u64, u64)>, k: (u64, u64, u64))
    requires
        ks1.to_multiset() == ks2.to_multiset(),
    ensures
        count_lt(ks1, k) == count_lt(ks2, k),
{
    let p = |x: (u64, u64, u64)| key_lt(x, k);
    lemma_map_multiset(ks1, ks2, p);
    lemma_count_lt_multiset(ks1, k);
    lemma_count_lt_multiset(ks2, k);
}

/// Without repeated keys, a vertex's rank counts the keys below its own.
proof fn lemma_rank_counts_below(ks: Seq<(u64, u64, u64)>, i: int, n: int)
    requires
        ks.no_duplicates(),
        0 <= i < ks.len(),
        0 <= n <= ks.len(),
    ensures
        count_before(ks, i, n) == count_lt(ks.take(n), ks[i]),
    decreases n,
{
    if n > 0 {
        lemma_rank_counts_below(ks, i, n - 1);
        assert(ks.take(n).drop_last() =~= ks.take(n - 1));
        if ks[n - 1] == ks[i] {
            assert(n - 1 == i);
        }
    }
}

/// A key of `ks` below `b` counts strictly fewer keys below it.
proof fn lemma_count_lt_monotone(ks: Seq<(u64, u64, u64)>, a: (u64, u64, u64), b: (u64, u64, u64))
    requires
        key_lt(a, b),
    ensures
        count_lt(ks, a) + (if ks.contains(a) { 1int } else { 0int }) <= count_lt(ks, b),
    decreases ks.len(),
{
    if ks.len() > 0 {
        let p = ks.drop_last();
        lemma_count_lt_monotone(p, a, b);
        let x = ks.last();
        assert(ks.contains(a) <==> p.contains(a) || x == a) by {
            if ks.contains(a) {
                let j = choose|j: int| 0 <= j < ks.len() && ks[j] == a;
                if j < ks.len() - 1 {
                    assert(p[j] == a);
                }
            }
            if p.contains(a) {
                let j = choose|j: int| 0 <= j < p.len() && p[j] == a;
                assert(ks[j] == a);
            }
            if x == a {
                assert(ks[ks.len() - 1] == a);
            }
        }
    }
}

/// Without repeated keys, an edge's rank entry is the entry of its
/// key edge.
proof fn lemma_entry_by_keys(ks: Seq<(u64, u64, u64)>, e: PEdge)
    requires
        ks.no_duplicates(),
        e.a < ks.len(),
        e.b < ks.len(),
    ensures
        edge_entry(ks, e) == entry_of_keys(ks, key_edge(ks, e)),
{
    let ka = ks[e.a as int];
    let kb = ks[e.b as int];
    lemma_rank_counts_below(ks, e.a as int, ks.len() as int);
    lemma_rank_counts_below(ks, e.b as int, ks.len() as int);
    assert(ks.take(ks.len() as int) =~= ks);
    assert(ks.contains(ka));
    assert(ks.contains(kb));
    if key_lt(kb, ka) {
        lemma_count_lt_monotone(ks, kb, ka);
    } else if key_lt(ka, kb) {
        lemma_count_lt_monotone(ks, ka, kb);
    } else {
        assert(ka == kb);
    }
}

/// Distinct keys with one set have one multiset.
proof fn lemma_same_keys_same_multiset(ks1: Seq<(u64, u64, u64)>, ks2: Seq<(u64, u64, u64)>)
    requires
        ks1.no_duplicates(),
        ks2.no_duplicates(),
        ks1.to_set() == ks2.to_set(),
    ensures
        ks1.to_multiset() == ks2.to_multiset(),
{
    broadcast use vstd::seq_lib::group_to_multiset_ensures;
    ks1.lemma_multiset_has_no_duplicates();
    ks2.lemma_multiset_has_no_duplicates();
    assert forall|x: (u64, u64, u64)| ks1.to_multiset().count(x) == ks2.to_multiset().count(x) by {
        assert(ks1.contains(x) <==> ks1.to_set().contains(x));
        assert(ks2.contains(x) <==> ks2.to_set().contains(x));
        if ks1.contains(x) {
            assert(ks1.to_multiset().contains(x));
            assert(ks2.to_multiset().contains(x));
        } else {
            assert(ks1.to_multiset().count(x) == 0);
            assert(ks2.to_multiset().count(x) == 0);
        }
    }
    assert(ks1.to_multiset() =~= ks2.to_multiset());
}

/// The hash is the geometry's, not the numbering's: two vertex lists
/// with the same distinct points, and two edge lists joining the same
/// pairs of points (with the same river attributes, as many times
/// each), hash alike — however either list is ordered.
pub proof fn law_geometry_hash_is_geometric(
    cs1: Seq<(i64, i64, i64)>,
    es1: Seq<PEdge>,
    cs2: Seq<(i64, i64, i64)>,
    es2: Seq<PEdge>,
)
    requires
        ends_in_range(es1, cs1.len() as int),
        ends_in_range(es2, cs2.len() as int),
        vertex_keys(cs1).no_duplicates(),
        vertex_keys(cs2).no_duplicates(),
        vertex_keys(cs1).to_set() == vertex_keys(cs2).to_set(),
        key_edges(vertex_keys(cs1), es1).to_multiset() == key_edges(vertex_keys(cs2), es2).to_multiset(),
    ensures
        geometry_hash_spec(cs1, es1) == geometry_hash_spec(cs2, es2),
{
    let ks1 = vertex_keys(cs1);
    let ks2 = vertex_keys(cs2);
    lemma_same_keys_same_multiset(ks1, ks2);
    lemma_key_order_total();
    lemma_entry_order_total();
    ks1.lemma_sort_by_ensures(key_order());
    ks2.lemma_sort_by_ensures(key_order());
    vstd::seq_lib::lemma_sorted_unique(ks1.sort_by(key_order()), ks2.sort_by(key_order()), key_order());
    // the rank entries are the key edges' entries, alike for both lists
    let f1 = |t: ((u64, u64, u64), (u64, u64, u64), bool)| entry_of_keys(ks1, t);
    let f2 = |t: ((u64, u64, u64), (u64, u64, u64), bool)| entry_of_keys(ks2, t);
    assert forall|t: ((u64, u64, u64), (u64, u64, u64), bool)| #[trigger] f1(t) == f2(t) by {
        lemma_count_lt_invariant(ks1, ks2, t.0);
        lemma_count_lt_invariant(ks1, ks2, t.1);
    }
    assert(f1 =~= f2);
    assert(edge_entries(ks1, es1) =~= key_edges(ks1, es1).map_values(f1)) by {
        assert forall|k: int| 0 <= k < es1.len() implies #[trigger] edge_entries(ks1, es1)[k] == key_edges(ks1, es1).map_values(f1)[k] by {
            lemma_entry_by_keys(ks1, es1[k]);
        }
    }
    assert(edge_entries(ks2, es2) =~= key_edges(ks2, es2).map_values(f2)) by {
        assert forall|k: int| 0 <= k < es2.len() implies #[trigger] edge_entries(ks2, es2)[k] == key_edges(ks2, es2).map_values(f2)[k] by {
            lemma_entry_by_keys(ks2, es2[k]);
        }
    }
    lemma_map_multiset(key_edges(ks1, es1), key_edges(ks2, es2), f1);
    let v1 = edge_entries(ks1, es1);
    let v2 = edge_entries(ks2, es2);
    v1.lemma_sort_by_ensures(entry_order());
    v2.lemma_sort_by_ensures(entry_order());
    vstd::seq_lib::lemma_sorted_unique(v1.sort_by(entry_order()), v2.sort_by(entry_order()), entry_order());
}

} // verus!
