//! Rivers on the partition's borders: the maximal chains of
//! river-attributed edges, walked edge by edge from vertex to vertex,
//! each edge walked once. Chains start at river ends (vertices with a
//! single river edge) before anywhere else, so an open river is walked
//! from one of its ends.

use vstd::prelude::*;
use crate::partition::{ends_in_range, PEdge};

verus! {

/// The river edges at `v` among the first `n` edges, in edge order (an
/// edge from `v` to itself is met at both its ends).
pub open spec fn incident(es: Seq<PEdge>, v: usize, n: int) -> Seq<usize>
    decreases n,
{
    if n <= 0 {
        Seq::empty()
    } else {
        let e = es[n - 1];
        incident(es, v, n - 1) + (if e.river && e.a == v { seq![(n - 1) as usize] } else { Seq::empty() }) + (if e.river
            && e.b == v { seq![(n - 1) as usize] } else { Seq::empty() })
    }
}

/// The river edges at `v`.
pub open spec fn river_edges_at(es: Seq<PEdge>, v: usize) -> Seq<usize> {
    incident(es, v, es.len() as int)
}

/// The far end of edge `e` walked from `v`.
pub open spec fn far_end(e: PEdge, v: usize) -> usize {
    if e.a == v {
        e.b
    } else {
        e.a
    }
}

/// How many edges are not walked yet.
pub open spec fn unwalked(used: Seq<bool>) -> nat
    decreases used.len(),
{
    if used.len() == 0 {
        0
    } else {
        unwalked(used.drop_last()) + if used.last() {
            0nat
        } else {
            1nat
        }
    }
}

pub proof fn lemma_unwalked_update(used: Seq<bool>, e: int)
    requires
        0 <= e < used.len(),
        !used[e],
    ensures
        unwalked(used.update(e, true)) + 1 == unwalked(used),
    decreases used.len(),
{
    let u = used.update(e, true);
    if e == used.len() - 1 {
        assert(u.drop_last() =~= used.drop_last());
    } else {
        lemma_unwalked_update(used.drop_last(), e);
        assert(u.drop_last() =~= used.drop_last().update(e, true));
    }
}

/// The first edge of `adj`, from position `k` on, not walked yet.
pub open spec fn first_unwalked(adj: Seq<usize>, used: Seq<bool>, k: int) -> Option<usize>
    decreases adj.len() - k,
{
    if k < 0 || k >= adj.len() {
        None
    } else if adj[k] < used.len() && !used[adj[k] as int] {
        Some(adj[k])
    } else {
        first_unwalked(adj, used, k + 1)
    }
}

/// Walking on from `v` along edge `e`: the walked marks after, and the
/// vertices reached — at each vertex the walk takes the first river
/// edge there not walked yet, and ends where there is none.
pub open spec fn walk(es: Seq<PEdge>, used: Seq<bool>, v: usize, e: usize) -> (Seq<bool>, Seq<usize>)
    decreases unwalked(used),
{
    if e >= used.len() || used[e as int] {
        (used, Seq::empty())
    } else {
        let u = used.update(e as int, true);
        let w = far_end(es[e as int], v);
        proof {
            lemma_unwalked_update(used, e as int);
        }
        match first_unwalked(river_edges_at(es, w), u, 0) {
            None => (u, seq![w]),
            Some(nx) => {
                let r = walk(es, u, w, nx);
                (r.0, seq![w] + r.1)
            },
        }
    }
}

/// The chains begun at `s` from its `j`-th river edge on.
pub open spec fn from_start(es: Seq<PEdge>, s: usize, j: int, used: Seq<bool>, chains: Seq<Seq<usize>>) -> (Seq<bool>, Seq<Seq<usize>>)
    decreases river_edges_at(es, s).len() - j,
{
    let adj = river_edges_at(es, s);
    if j < 0 || j >= adj.len() {
        (used, chains)
    } else {
        let e0 = adj[j];
        if e0 < used.len() && !used[e0 as int] {
            let r = walk(es, used, s, e0);
            from_start(es, s, j + 1, r.0, chains.push(seq![s] + r.1))
        } else {
            from_start(es, s, j + 1, used, chains)
        }
    }
}

/// The chains begun at the starts from the `i`-th on.
pub open spec fn from_starts(es: Seq<PEdge>, starts: Seq<usize>, i: int, used: Seq<bool>, chains: Seq<Seq<usize>>) -> (Seq<bool>, Seq<Seq<usize>>)
    decreases starts.len() - i,
{
    if i < 0 || i >= starts.len() {
        (used, chains)
    } else {
        let r = from_start(es, starts[i], 0, used, chains);
        from_starts(es, starts, i + 1, r.0, r.1)
    }
}

/// The vertices below `n` with `want` river edges (`Some(1)`), or with
/// any (`None`), in increasing order.
pub open spec fn vertices_with(es: Seq<PEdge>, n: int, want: Option<nat>) -> Seq<usize>
    decreases n,
{
    if n <= 0 {
        Seq::empty()
    } else {
        let d = river_edges_at(es, (n - 1) as usize).len();
        let keep = match want {
            Some(k) => d == k,
            None => d > 0,
        };
        vertices_with(es, n - 1, want) + if keep {
            seq![(n - 1) as usize]
        } else {
            Seq::empty()
        }
    }
}

/// Where chains may begin: river ends first, then every river vertex.
pub open spec fn chain_starts(es: Seq<PEdge>, n_vertices: int) -> Seq<usize> {
    vertices_with(es, n_vertices, Some(1)) + vertices_with(es, n_vertices, None)
}

/// The river chains as vertex paths.
pub open spec fn river_chains_spec(es: Seq<PEdge>, n_vertices: int) -> Seq<Seq<usize>> {
    from_starts(es, chain_starts(es, n_vertices), 0, Seq::new(es.len(), |i: int| false), Seq::empty()).1
}

pub open spec fn chain_views(cs: Seq<Vec<usize>>) -> Seq<Seq<usize>> {
    cs.map_values(|c: Vec<usize>| c@)
}

/// The first not-yet-walked edge of `adj`.
fn first_unwalked_exec(adj: &Vec<usize>, used: &Vec<bool>) -> (r: Option<usize>)
    ensures
        r == first_unwalked(adj@, used@, 0),
{
    let mut k: usize = 0;
    while k < adj.len()
        invariant
            k <= adj@.len(),
            first_unwalked(adj@, used@, 0) == first_unwalked(adj@, used@, k as int),
        decreases adj@.len() - k,
    {
        let x = adj[k];
        if x < used.len() && !used[x] {
            return Some(x);
        }
        k += 1;
    }
    None
}

/// Walks on from `s` along `e0`, marking edges walked; returns the
/// vertices reached after `s`.
fn walk_exec(edges: &[PEdge], adj: &Vec<Vec<usize>>, used: &mut Vec<bool>, s: usize, e0: usize) -> (path: Vec<usize>)
    requires
        e0 < old(used)@.len(),
        !old(used)@[e0 as int],
        old(used)@.len() == edges@.len(),
        ends_in_range(edges@, adj@.len() as int),
        forall|v: int| 0 <= v < adj@.len() ==> (#[trigger] adj@[v])@ == river_edges_at(edges@, v as usize),
    ensures
        final(used)@ == walk(edges@, old(used)@, s, e0).0,
        final(used)@.len() == edges@.len(),
        path@ == walk(edges@, old(used)@, s, e0).1,
{
    let ghost target = walk(edges@, used@, s, e0);
    let mut path: Vec<usize> = Vec::new();
    let mut v = s;
    let mut e = e0;
    loop
        invariant_except_break
            e < used@.len(),
            !used@[e as int],
            path@ + walk(edges@, used@, v, e).1 == target.1,
            walk(edges@, used@, v, e).0 == target.0,
        invariant
            used@.len() == edges@.len(),
            ends_in_range(edges@, adj@.len() as int),
            forall|x: int| 0 <= x < adj@.len() ==> (#[trigger] adj@[x])@ == river_edges_at(edges@, x as usize),
        ensures
            path@ == target.1,
            used@ == target.0,
        decreases unwalked(used@),
    {
        let ghost u0 = used@;
        proof {
            lemma_unwalked_update(u0, e as int);
        }
        used.set(e, true);
        let ed = &edges[e];
        assert(ed.a < adj@.len() && ed.b < adj@.len());
        let w = if ed.a == v { ed.b } else { ed.a };
        path.push(w);
        let nx = first_unwalked_exec(&adj[w], used);
        assert(adj@[w as int]@ == river_edges_at(edges@, w));
        match nx {
            None => {
                assert(path@ =~= target.1);
                break;
            },
            Some(n) => {
                proof {
                    let r = walk(edges@, used@, w, n);
                    assert(walk(edges@, u0, v, e) == (r.0, seq![w] + r.1));
                    assert(path@ + r.1 =~= (path@.drop_last() + (seq![w] + r.1)));
                    lemma_first_unwalked_is_unwalked(adj@[w as int]@, used@, 0);
                }
                v = w;
                e = n;
            },
        }
    }
    path
}

proof fn lemma_first_unwalked_is_unwalked(adj: Seq<usize>, used: Seq<bool>, k: int)
    ensures
        first_unwalked(adj, used, k) matches Some(x) ==> x < used.len() && !used[x as int],
    decreases adj.len() - k,
{
    if 0 <= k < adj.len() {
        lemma_first_unwalked_is_unwalked(adj, used, k + 1);
    }
}

fn vertices_with_exec(adj: &Vec<Vec<usize>>, want: Option<usize>, Ghost(es): Ghost<Seq<PEdge>>) -> (r: Vec<usize>)
    requires
        forall|v: int| 0 <= v < adj@.len() ==> (#[trigger] adj@[v])@ == river_edges_at(es, v as usize),
    ensures
        r@ == vertices_with(es, adj@.len() as int, match want {
            Some(k) => Some(k as nat),
            None => None,
        }),
{
    let ghost wv = match want {
        Some(k) => Some(k as nat),
        None => None::<nat>,
    };
    let mut r: Vec<usize> = Vec::new();
    let mut v: usize = 0;
    while v < adj.len()
        invariant
            v <= adj@.len(),
            forall|x: int| 0 <= x < adj@.len() ==> (#[trigger] adj@[x])@ == river_edges_at(es, x as usize),
            wv == (match want {
                Some(k) => Some(k as nat),
                None => None::<nat>,
            }),
            r@ == vertices_with(es, v as int, wv),
        decreases adj@.len() - v,
    {
        let d = adj[v].len();
        assert(d == river_edges_at(es, v).len());
        let keep = match want {
            Some(k) => d == k,
            None => d > 0,
        };
        if keep {
            r.push(v);
        }
        assert(r@ =~= vertices_with(es, v + 1, wv));
        v += 1;
    }
    r
}

/// Maximal chains of river-attributed edges, as vertex paths: from
/// each river end, then from every river vertex, each river edge there
/// not walked yet begins a chain that walks on, edge by edge, until it
/// reaches a vertex with no river edge left.
pub fn river_chains(n_vertices: usize, edges: &[PEdge]) -> (chains: Vec<Vec<usize>>)
    requires
        ends_in_range(edges@, n_vertices as int),
    ensures
        chain_views(chains@) == river_chains_spec(edges@, n_vertices as int),
{
    // the river edges at each vertex
    let mut adj: Vec<Vec<usize>> = Vec::new();
    let mut v: usize = 0;
    while v < n_vertices
        invariant
            v <= n_vertices,
            adj@.len() == v,
            forall|x: int| 0 <= x < v ==> (#[trigger] adj@[x])@ == incident(edges@, x as usize, 0),
        decreases n_vertices - v,
    {
        adj.push(Vec::new());
        v += 1;
    }
    let mut k: usize = 0;
    while k < edges.len()
        invariant
            k <= edges@.len(),
            adj@.len() == n_vertices,
            ends_in_range(edges@, n_vertices as int),
            forall|x: int| 0 <= x < n_vertices ==> (#[trigger] adj@[x])@ == incident(edges@, x as usize, k as int),
        decreases edges@.len() - k,
    {
        let e = &edges[k];
        let ghost before = adj@;
        if e.river {
            adj[e.a].push(k);
            adj[e.b].push(k);
        }
        proof {
            assert forall|x: int| 0 <= x < n_vertices implies (#[trigger] adj@[x])@ == incident(edges@, x as usize, k + 1) by {
                assert(before[x]@ == incident(edges@, x as usize, k as int));
                let ed = edges@[k as int];
                if ed.river {
                    if x == ed.a && x == ed.b {
                        assert(adj@[x]@ =~= before[x]@.push(k).push(k));
                    } else if x == ed.a {
                        assert(adj@[x]@ =~= before[x]@.push(k));
                    } else if x == ed.b {
                        assert(adj@[x]@ =~= before[x]@.push(k));
                    } else {
                        assert(adj@[x] == before[x]);
                    }
                } else {
                    assert(adj@[x] == before[x]);
                }
                assert(incident(edges@, x as usize, k + 1) =~= incident(edges@, x as usize, k as int) + (if ed.river && ed.a == x as usize { seq![k as usize] } else { Seq::empty() }) + (if ed.river && ed.b == x as usize { seq![k as usize] } else { Seq::empty() }));
            }
        }
        k += 1;
    }
    // where chains may begin
    let ends = vertices_with_exec(&adj, Some(1), Ghost(edges@));
    let all = vertices_with_exec(&adj, None, Ghost(edges@));
    let mut starts: Vec<usize> = ends;
    let mut q: usize = 0;
    let ghost e1 = starts@;
    while q < all.len()
        invariant
            q <= all@.len(),
            starts@ == e1 + all@.take(q as int),
        decreases all@.len() - q,
    {
        starts.push(all[q]);
        assert(starts@ =~= e1 + all@.take(q + 1));
        q += 1;
    }
    assert(all@.take(all@.len() as int) =~= all@);
    assert(starts@ == chain_starts(edges@, n_vertices as int));
    // walk
    let mut used: Vec<bool> = Vec::new();
    let mut z: usize = 0;
    while z < edges.len()
        invariant
            z <= edges@.len(),
            used@ == Seq::new(z as nat, |i: int| false),
        decreases edges@.len() - z,
    {
        used.push(false);
        assert(used@ =~= Seq::new((z + 1) as nat, |i: int| false));
        z += 1;
    }
    let ghost target = river_chains_spec(edges@, n_vertices as int);
    let mut chains: Vec<Vec<usize>> = Vec::new();
    let mut i: usize = 0;
    assert(chain_views(chains@) =~= Seq::<Seq<usize>>::empty());
    while i < starts.len()
        invariant
            i <= starts@.len(),
            starts@ == chain_starts(edges@, n_vertices as int),
            used@.len() == edges@.len(),
            adj@.len() == n_vertices,
            ends_in_range(edges@, n_vertices as int),
            forall|x: int| 0 <= x < adj@.len() ==> (#[trigger] adj@[x])@ == river_edges_at(edges@, x as usize),
            from_starts(edges@, starts@, i as int, used@, chain_views(chains@)).1 == target,
            target == river_chains_spec(edges@, n_vertices as int),
        decreases starts@.len() - i,
    {
        let s = starts[i];
        let ghost u_i = used@;
        let ghost c_i = chain_views(chains@);
        assert(s < n_vertices) by {
            lemma_starts_in_range(edges@, n_vertices as int);
        }
        let adj_s = &adj[s];
        assert(adj_s@ == river_edges_at(edges@, s));
        let mut j: usize = 0;
        while j < adj_s.len()
            invariant
                j <= adj_s@.len(),
                adj_s@ == river_edges_at(edges@, s),
                used@.len() == edges@.len(),
                adj@.len() == n_vertices,
                ends_in_range(edges@, n_vertices as int),
                forall|x: int| 0 <= x < adj@.len() ==> (#[trigger] adj@[x])@ == river_edges_at(edges@, x as usize),
                from_start(edges@, s, j as int, used@, chain_views(chains@)) == from_start(edges@, s, 0, u_i, c_i),
            decreases adj_s@.len() - j,
        {
            let e0 = adj_s[j];
            if e0 < used.len() && !used[e0] {
                let ghost u0 = used@;
                let ghost c0 = chain_views(chains@);
                let tail = walk_exec(edges, &adj, &mut used, s, e0);
                let mut chain: Vec<usize> = Vec::new();
                chain.push(s);
                let mut t: usize = 0;
                while t < tail.len()
                    invariant
                        t <= tail@.len(),
                        chain@ == seq![s] + tail@.take(t as int),
                    decreases tail@.len() - t,
                {
                    chain.push(tail[t]);
                    assert(chain@ =~= seq![s] + tail@.take(t + 1));
                    t += 1;
                }
                assert(tail@.take(tail@.len() as int) =~= tail@);
                chains.push(chain);
                assert(chain_views(chains@) =~= c0.push(seq![s] + walk(edges@, u0, s, e0).1));
            }
            j += 1;
        }
        proof {
            assert(from_starts(edges@, starts@, i as int, u_i, c_i) == from_starts(edges@, starts@, i + 1, used@, chain_views(chains@)));
        }
        i += 1;
    }
    chains
}

proof fn lemma_vertices_below(es: Seq<PEdge>, n: int, want: Option<nat>)
    requires
        0 <= n,
    ensures
        forall|k: int| 0 <= k < vertices_with(es, n, want).len() ==> (#[trigger] vertices_with(es, n, want)[k]) < n,
    decreases n,
{
    if n > 0 {
        lemma_vertices_below(es, n - 1, want);
        let p = vertices_with(es, n - 1, want);
        let all = vertices_with(es, n, want);
        assert forall|k: int| 0 <= k < all.len() implies (#[trigger] all[k]) < n by {
            if k < p.len() {
                assert(all[k] == p[k]);
            } else {
                assert(all[k] == (n - 1) as usize);
            }
        }
    }
}

proof fn lemma_starts_in_range(es: Seq<PEdge>, n: int)
    requires
        0 <= n,
    ensures
        forall|k: int| 0 <= k < chain_starts(es, n).len() ==> (#[trigger] chain_starts(es, n)[k]) < n,
{
    lemma_vertices_below(es, n, Some(1));
    lemma_vertices_below(es, n, None);
    let a = vertices_with(es, n, Some(1));
    let b = vertices_with(es, n, None);
    assert forall|k: int| 0 <= k < chain_starts(es, n).len() implies (#[trigger] chain_starts(es, n)[k]) < n by {
        if k < a.len() {
            assert(chain_starts(es, n)[k] == a[k]);
        } else {
            assert(chain_starts(es, n)[k] == b[k - a.len()]);
        }
    }
}

// ------------------------------------------------ every river is walked

/// The walked marks are exactly the river edges.
pub open spec fn marks_river(es: Seq<PEdge>, used: Seq<bool>) -> bool {
    &&& used.len() == es.len()
    &&& forall|x: int| 0 <= x < used.len() ==> (#[trigger] used[x] ==> es[x].river)
}

/// `b` keeps every mark of `a`.
pub open spec fn keeps(a: Seq<bool>, b: Seq<bool>) -> bool {
    &&& b.len() == a.len()
    &&& forall|x: int| 0 <= x < a.len() && #[trigger] a[x] ==> b[x]
}

proof fn lemma_incident_river(es: Seq<PEdge>, v: usize, n: int)
    requires
        0 <= n <= es.len(),
        es.len() <= usize::MAX,
    ensures
        forall|k: int| 0 <= k < incident(es, v, n).len() ==> (#[trigger] incident(es, v, n)[k]) < n
            && es[incident(es, v, n)[k] as int].river
            && (es[incident(es, v, n)[k] as int].a == v || es[incident(es, v, n)[k] as int].b == v),
        forall|e: int| 0 <= e < n && es[e].river && (es[e].a == v || es[e].b == v) ==> #[trigger] incident(es, v, n).contains(e as usize),
    decreases n,
{
    if n > 0 {
        lemma_incident_river(es, v, n - 1);
        let p = incident(es, v, n - 1);
        let ed = es[n - 1];
        let t1: Seq<usize> = if ed.river && ed.a == v { seq![(n - 1) as usize] } else { Seq::empty() };
        let t2: Seq<usize> = if ed.river && ed.b == v { seq![(n - 1) as usize] } else { Seq::empty() };
        let all = incident(es, v, n);
        assert(all == p + t1 + t2);
        assert forall|k: int| 0 <= k < all.len() implies (#[trigger] all[k]) < n && es[all[k] as int].river
            && (es[all[k] as int].a == v || es[all[k] as int].b == v) by {
            if k < p.len() {
                assert(all[k] == p[k]);
            } else if k < p.len() + t1.len() {
                assert(all[k] == t1[k - p.len()]);
            } else {
                assert(all[k] == t2[k - p.len() - t1.len()]);
            }
        }
        assert forall|e: int| 0 <= e < n && es[e].river && (es[e].a == v || es[e].b == v) implies #[trigger] all.contains(e as usize) by {
            if e < n - 1 {
                assert(p.contains(e as usize));
                let k = choose|k: int| 0 <= k < p.len() && p[k] == e as usize;
                assert(all[k] == p[k]);
            } else if ed.a == v {
                assert(all[p.len() as int] == e as usize);
            } else {
                assert(all[(p.len() + t1.len()) as int] == e as usize);
            }
        }
    }
}

proof fn lemma_first_unwalked_river(es: Seq<PEdge>, w: usize, used: Seq<bool>, k: int)
    requires
        es.len() <= usize::MAX,
    ensures
        first_unwalked(river_edges_at(es, w), used, k) matches Some(x) ==> x < used.len() && !used[x as int]
            && x < es.len() && es[x as int].river,
    decreases river_edges_at(es, w).len() - k,
{
    lemma_incident_river(es, w, es.len() as int);
    if 0 <= k < river_edges_at(es, w).len() {
        lemma_first_unwalked_river(es, w, used, k + 1);
    }
}

proof fn lemma_walk_marks(es: Seq<PEdge>, used: Seq<bool>, v: usize, e: usize)
    requires
        es.len() <= usize::MAX,
        marks_river(es, used),
        e < used.len() && !used[e as int] ==> es[e as int].river,
    ensures
        marks_river(es, walk(es, used, v, e).0),
        keeps(used, walk(es, used, v, e).0),
        e < used.len() ==> walk(es, used, v, e).0[e as int],
    decreases unwalked(used),
{
    if e < used.len() && !used[e as int] {
        let u = used.update(e as int, true);
        let w = far_end(es[e as int], v);
        lemma_unwalked_update(used, e as int);
        lemma_first_unwalked_river(es, w, u, 0);
        assert(marks_river(es, u)) by {
            assert forall|x: int| 0 <= x < u.len() implies (#[trigger] u[x] ==> es[x].river) by {
                if x != e {
                    assert(u[x] == used[x]);
                }
            }
        }
        assert(keeps(used, u)) by {
            assert forall|x: int| 0 <= x < used.len() && #[trigger] used[x] implies u[x] by {}
        }
        assert(walk(es, used, v, e) == match first_unwalked(river_edges_at(es, w), u, 0) {
            None => (u, seq![w]),
            Some(nx) => {
                let r = walk(es, u, w, nx);
                (r.0, seq![w] + r.1)
            },
        });
        match first_unwalked(river_edges_at(es, w), u, 0) {
            None => {},
            Some(nx) => {
                lemma_walk_marks(es, u, w, nx);
                let r = walk(es, u, w, nx).0;
                assert(keeps(used, r)) by {
                    assert forall|x: int| 0 <= x < used.len() && #[trigger] used[x] implies r[x] by {
                        assert(u[x]);
                    }
                }
                assert(u[e as int]);
            },
        }
    }
}

proof fn lemma_from_start_marks(es: Seq<PEdge>, s: usize, j: int, used: Seq<bool>, chains: Seq<Seq<usize>>)
    requires
        es.len() <= usize::MAX,
        marks_river(es, used),
        0 <= j,
    ensures
        marks_river(es, from_start(es, s, j, used, chains).0),
        keeps(used, from_start(es, s, j, used, chains).0),
        forall|k: int| j <= k < river_edges_at(es, s).len() ==> from_start(es, s, j, used, chains).0[#[trigger] river_edges_at(es, s)[k] as int],
    decreases river_edges_at(es, s).len() - j,
{
    let adj = river_edges_at(es, s);
    lemma_incident_river(es, s, es.len() as int);
    if j < adj.len() {
        let e0 = adj[j];
        if e0 < used.len() && !used[e0 as int] {
            lemma_walk_marks(es, used, s, e0);
            let r = walk(es, used, s, e0);
            lemma_from_start_marks(es, s, j + 1, r.0, chains.push(seq![s] + r.1));
        } else {
            lemma_from_start_marks(es, s, j + 1, used, chains);
        }
    }
}

proof fn lemma_from_starts_marks(es: Seq<PEdge>, starts: Seq<usize>, i: int, used: Seq<bool>, chains: Seq<Seq<usize>>)
    requires
        es.len() <= usize::MAX,
        marks_river(es, used),
        0 <= i,
    ensures
        marks_river(es, from_starts(es, starts, i, used, chains).0),
        keeps(used, from_starts(es, starts, i, used, chains).0),
        forall|q: int, k: int| i <= q < starts.len() && 0 <= k < river_edges_at(es, starts[q]).len()
            ==> from_starts(es, starts, i, used, chains).0[#[trigger] river_edges_at(es, #[trigger] starts[q])[k] as int],
    decreases starts.len() - i,
{
    if i < starts.len() {
        lemma_from_start_marks(es, starts[i], 0, used, chains);
        let r = from_start(es, starts[i], 0, used, chains);
        lemma_from_starts_marks(es, starts, i + 1, r.0, r.1);
        lemma_incident_river(es, starts[i], es.len() as int);
    }
}

proof fn lemma_river_vertex_starts(es: Seq<PEdge>, n: int, v: usize)
    requires
        0 <= v < n,
        river_edges_at(es, v).len() > 0,
    ensures
        vertices_with(es, n, None).contains(v),
    decreases n,
{
    if v < n - 1 {
        lemma_river_vertex_starts(es, n - 1, v);
        let p = vertices_with(es, n - 1, None);
        let k = choose|k: int| 0 <= k < p.len() && p[k] == v;
        assert(vertices_with(es, n, None)[k] == v);
    } else {
        assert(vertices_with(es, n, None)[vertices_with(es, n - 1, None).len() as int] == v);
    }
}

/// The walk covers the rivers exactly: when it is done, the edges
/// walked are precisely the river edges — every river edge lies on a
/// chain, and no other edge does.
pub proof fn law_every_river_edge_is_walked(es: Seq<PEdge>, n_vertices: int, e: int)
    requires
        es.len() <= usize::MAX,
        ends_in_range(es, n_vertices),
        0 <= e < es.len(),
    ensures
        from_starts(es, chain_starts(es, n_vertices), 0, Seq::new(es.len(), |i: int| false), Seq::empty()).0[e]
            <==> es[e].river,
{
    let init = Seq::new(es.len(), |i: int| false);
    let starts = chain_starts(es, n_vertices);
    lemma_from_starts_marks(es, starts, 0, init, Seq::empty());
    let done = from_starts(es, starts, 0, init, Seq::empty()).0;
    if es[e].river {
        let a = es[e].a;
        lemma_incident_river(es, a, es.len() as int);
        assert(river_edges_at(es, a).contains(e as usize));
        lemma_river_vertex_starts(es, n_vertices, a);
        let b = vertices_with(es, n_vertices, None);
        let k = choose|k: int| 0 <= k < b.len() && b[k] == a;
        let ends = vertices_with(es, n_vertices, Some(1));
        assert(starts[ends.len() + k] == a);
        let j = choose|j: int| 0 <= j < river_edges_at(es, a).len() && river_edges_at(es, a)[j] == e as usize;
        assert(done[river_edges_at(es, starts[ends.len() + k])[j] as int]);
    }
}

// ------------------------------------------- rivers end at the water

/// Splitting a polyline at the water, point flags `inside` in order:
/// the runs finished and the run under way after the first `n` points.
/// A run outside the water reaches back one point to touch the shore
/// where it leaves the water, and forward one where it enters it.
pub open spec fn clip_state(inside: Seq<bool>, n: int) -> (Seq<Seq<usize>>, Seq<usize>)
    decreases n,
{
    if n <= 0 {
        (Seq::empty(), Seq::empty())
    } else {
        let (runs, cur) = clip_state(inside, n - 1);
        let i = n - 1;
        if !inside[i] {
            let cur1 = if cur.len() == 0 && i > 0 && inside[i - 1] { cur.push((i - 1) as usize) } else { cur };
            (runs, cur1.push(i as usize))
        } else if cur.len() > 0 {
            (runs.push(cur.push(i as usize)), Seq::empty())
        } else {
            (runs, Seq::empty())
        }
    }
}

/// The runs of a polyline outside the water, as point indices.
pub open spec fn outside_runs(inside: Seq<bool>) -> Seq<Seq<usize>> {
    let (runs, cur) = clip_state(inside, inside.len() as int);
    if cur.len() > 0 {
        runs.push(cur)
    } else {
        runs
    }
}

/// The polyline's runs outside the water, as point indices; `inside`
/// says for each point whether it lies in some water ring.
pub fn outside_runs_of(inside: &[bool]) -> (runs: Vec<Vec<usize>>)
    requires
        inside@.len() < usize::MAX,
    ensures
        chain_views(runs@) == outside_runs(inside@),
{
    let mut runs: Vec<Vec<usize>> = Vec::new();
    let mut cur: Vec<usize> = Vec::new();
    let mut i: usize = 0;
    while i < inside.len()
        invariant
            inside@.len() < usize::MAX,
            i <= inside@.len(),
            (chain_views(runs@), cur@) == clip_state(inside@, i as int),
        decreases inside@.len() - i,
    {
        let ghost r0 = chain_views(runs@);
        let ghost c0 = cur@;
        if !inside[i] {
            if cur.len() == 0 && i > 0 && inside[i - 1] {
                cur.push(i - 1);
            }
            cur.push(i);
        } else if cur.len() > 0 {
            cur.push(i);
            let mut done: Vec<usize> = Vec::new();
            std::mem::swap(&mut cur, &mut done);
            runs.push(done);
            assert(chain_views(runs@) =~= r0.push(c0.push(i as usize)));
        }
        assert((chain_views(runs@), cur@) == clip_state(inside@, i + 1));
        i += 1;
    }
    if cur.len() > 0 {
        let ghost r0 = chain_views(runs@);
        let ghost c0 = cur@;
        runs.push(cur);
        assert(chain_views(runs@) =~= r0.push(c0));
    }
    runs
}

/// Each run is a stretch of consecutive points of which all but the
/// first and the last lie outside the water, and which holds at least
/// one point outside.
pub open spec fn run_lawful(inside: Seq<bool>, r: Seq<usize>) -> bool {
    &&& r.len() > 0
    &&& forall|k: int| 0 <= k < r.len() ==> (#[trigger] r[k]) < inside.len()
    &&& forall|k: int| 0 < k < r.len() ==> #[trigger] r[k] == r[k - 1] + 1
    &&& forall|k: int| 0 < k < r.len() - 1 ==> !inside[#[trigger] r[k] as int]
    &&& exists|k: int| 0 <= k < r.len() && !inside[#[trigger] r[k] as int]
}

proof fn lemma_clip_state(inside: Seq<bool>, n: int)
    requires
        0 <= n <= inside.len(),
        inside.len() < usize::MAX,
    ensures
        forall|q: int| 0 <= q < clip_state(inside, n).0.len() ==> run_lawful(inside, #[trigger] clip_state(inside, n).0[q]),
        clip_state(inside, n).1.len() > 0 ==> {
            let c = clip_state(inside, n).1;
            &&& forall|k: int| 0 <= k < c.len() ==> (#[trigger] c[k]) < inside.len()
            &&& forall|k: int| 0 < k < c.len() ==> #[trigger] c[k] == c[k - 1] + 1
            &&& forall|k: int| 0 < k < c.len() ==> !inside[#[trigger] c[k] as int]
            &&& !inside[c[c.len() - 1] as int]
            &&& c[c.len() - 1] == n - 1
        },
    decreases n,
{
    if n > 0 {
        lemma_clip_state(inside, n - 1);
        let (runs, cur) = clip_state(inside, n - 1);
        let i = n - 1;
        if !inside[i] {
            let cur1 = if cur.len() == 0 && i > 0 && inside[i - 1] { cur.push((i - 1) as usize) } else { cur };
            let c = cur1.push(i as usize);
            assert(clip_state(inside, n).1 == c);
            assert forall|k: int| 0 < k < c.len() implies #[trigger] c[k] == c[k - 1] + 1 by {
                if k == c.len() - 1 {
                    if cur.len() > 0 {
                        assert(c[k - 1] == cur[cur.len() - 1]);
                    }
                } else {
                    assert(c[k] == cur1[k] && c[k - 1] == cur1[k - 1]);
                }
            }
            assert forall|k: int| 0 < k < c.len() implies !inside[#[trigger] c[k] as int] by {
                if k < c.len() - 1 {
                    assert(c[k] == cur1[k]);
                    assert(cur.len() > 0);
                    assert(cur1[k] == cur[k]);
                }
            }
        } else if cur.len() > 0 {
            let r = cur.push(i as usize);
            assert(clip_state(inside, n).0 == runs.push(r));
            assert(run_lawful(inside, r)) by {
                assert forall|k: int| 0 < k < r.len() implies #[trigger] r[k] == r[k - 1] + 1 by {
                    if k < r.len() - 1 {
                        assert(r[k] == cur[k] && r[k - 1] == cur[k - 1]);
                    }
                }
                assert forall|k: int| 0 < k < r.len() - 1 implies !inside[#[trigger] r[k] as int] by {
                    assert(r[k] == cur[k]);
                }
                assert(r[cur.len() - 1] == cur[cur.len() - 1]);
            }
            assert forall|q: int| 0 <= q < clip_state(inside, n).0.len() implies run_lawful(inside, #[trigger] clip_state(inside, n).0[q]) by {
                if q < runs.len() {
                    assert(clip_state(inside, n).0[q] == runs[q]);
                }
            }
        }
    }
}

/// Rivers end at the water: every run is a stretch of consecutive
/// points outside the water but for its ends, which may touch the shore.
pub proof fn law_runs_stay_out_of_the_water(inside: Seq<bool>, q: int)
    requires
        inside.len() < usize::MAX,
        0 <= q < outside_runs(inside).len(),
    ensures
        run_lawful(inside, outside_runs(inside)[q]),
{
    lemma_clip_state(inside, inside.len() as int);
    let (runs, cur) = clip_state(inside, inside.len() as int);
    if cur.len() > 0 && q == runs.len() {
        assert(outside_runs(inside)[q] == cur);
        assert(!inside[cur[cur.len() - 1] as int]);
    } else {
        assert(outside_runs(inside)[q] == runs[q]);
    }
}

} // verus!
