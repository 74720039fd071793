//! The territory palette: eight colour slots handed out greedily over
//! the shared-border graph, most-connected territory first, so that
//! touching territories wear different colours and all eight slots see
//! use.

use vstd::prelude::*;
use vstd::relations::{sorted_by, total_ordering};
use crate::sorting::lemma_sorted_insert;
use crate::canon::{clone_id, EntityId};
use crate::idmap::{lemma_seq_to_map, IdMap};
use crate::text::{
    chars_lt, lemma_chars_lt_asym, lemma_chars_lt_irreflexive, lemma_chars_lt_total, lemma_chars_lt_trans, str_equal,
    str_less,
};

verus! {

// --------------------------------------------------------- the model

/// The ids `id` touches.
pub open spec fn neighbours(adj: Map<Seq<char>, Set<Seq<char>>>, id: Seq<char>) -> Set<Seq<char>> {
    if adj.contains_key(id) {
        adj[id]
    } else {
        Set::empty()
    }
}

/// How many territories `id` touches.
pub open spec fn degree(adj: Map<Seq<char>, Set<Seq<char>>>, id: Seq<char>) -> nat {
    neighbours(adj, id).len()
}

/// `a` is coloured no later than `b`: more neighbours first, then id
/// order.
pub open spec fn colour_first(adj: Map<Seq<char>, Set<Seq<char>>>, a: Seq<char>, b: Seq<char>) -> bool {
    ||| degree(adj, a) > degree(adj, b)
    ||| degree(adj, a) == degree(adj, b) && (chars_lt(a, b) || a == b)
}

/// The colouring order as a relation.
pub open spec fn colour_order(adj: Map<Seq<char>, Set<Seq<char>>>) -> spec_fn(Seq<char>, Seq<char>) -> bool {
    |a: Seq<char>, b: Seq<char>| colour_first(adj, a, b)
}

/// The territory `n` wears slot `s`.
pub open spec fn wears(slots: Map<Seq<char>, int>, s: int) -> spec_fn(Seq<char>) -> bool {
    |n: Seq<char>| slots.contains_key(n) && slots[n] == s
}

/// The members of `nbrs` already wearing slot `s`.
pub open spec fn wearers(slots: Map<Seq<char>, int>, nbrs: Set<Seq<char>>, s: int) -> Set<Seq<char>> {
    nbrs.filter(wears(slots, s))
}

/// How many of `nbrs` already wear slot `s`.
pub open spec fn wear(slots: Map<Seq<char>, int>, nbrs: Set<Seq<char>>, s: int) -> nat {
    wearers(slots, nbrs, s).len()
}

/// The wear of each of the eight slots among `nbrs`.
pub open spec fn wear_counts(slots: Map<Seq<char>, int>, nbrs: Set<Seq<char>>) -> Seq<int> {
    Seq::new(8, |s: int| wear(slots, nbrs, s) as int)
}

/// Among the slots below `k` that no neighbour wears, the one least
/// used overall, ties to the lower slot; -1 when every one is worn.
pub open spec fn least_free(w: Seq<int>, used: Seq<int>, k: int) -> int
    decreases k,
{
    if k <= 0 {
        -1
    } else {
        let b = least_free(w, used, k - 1);
        if w[k - 1] == 0 && (b == -1 || used[k - 1] < used[b]) {
            k - 1
        } else {
            b
        }
    }
}

/// Among the slots below `k`, the one neighbours wear least, ties to
/// the lower slot.
pub open spec fn least_worn(w: Seq<int>, k: int) -> int
    decreases k,
{
    if k <= 1 {
        0
    } else {
        let b = least_worn(w, k - 1);
        if w[k - 1] < w[b] {
            k - 1
        } else {
            b
        }
    }
}

/// The slot a territory with neighbours `nbrs` takes: among the slots
/// no neighbour wears, the least used overall; if its neighbours wear
/// all eight, the one they wear least.
pub open spec fn slot_for(slots: Map<Seq<char>, int>, used: Seq<int>, nbrs: Set<Seq<char>>) -> int {
    pick(wear_counts(slots, nbrs), used)
}

/// The slot taken given the neighbours' wear `w` of each slot and the
/// global use `used` of each.
pub open spec fn pick(w: Seq<int>, used: Seq<int>) -> int {
    let f = least_free(w, used, 8);
    if f >= 0 {
        f
    } else {
        least_worn(w, 8)
    }
}

/// The greedy pass over `order`: the slot of every territory coloured
/// so far, and how often each slot has been handed out.
pub open spec fn greedy(order: Seq<Seq<char>>, adj: Map<Seq<char>, Set<Seq<char>>>) -> (Map<Seq<char>, int>, Seq<int>)
    decreases order.len(),
{
    if order.len() == 0 {
        (Map::empty(), Seq::new(8, |s: int| 0int))
    } else {
        let (slots, used) = greedy(order.drop_last(), adj);
        let id = order.last();
        let s = slot_for(slots, used, neighbours(adj, id));
        (slots.insert(id, s), used.update(s, used[s] + 1))
    }
}

/// The palette slot of every territory in `ids`.
pub open spec fn colouring(ids: Seq<Seq<char>>, adj: Map<Seq<char>, Set<Seq<char>>>) -> Map<Seq<char>, int> {
    greedy(ids.sort_by(colour_order(adj)), adj).0
}

/// Touching is mutual and no territory touches itself.
pub open spec fn touch_graph(adj: Map<Seq<char>, Set<Seq<char>>>) -> bool {
    &&& forall|a: Seq<char>| #[trigger] adj.contains_key(a) ==> adj[a].finite() && !adj[a].contains(a)
    &&& forall|a: Seq<char>, b: Seq<char>| #[trigger] neighbours(adj, a).contains(b) ==> neighbours(adj, b).contains(a)
}

// ------------------------------------------------------------ lemmas

pub proof fn lemma_colour_order_total(adj: Map<Seq<char>, Set<Seq<char>>>)
    ensures
        total_ordering(colour_order(adj)),
{
    let r = colour_order(adj);
    assert forall|x: Seq<char>| #[trigger] r(x, x) by {}
    assert forall|x: Seq<char>, y: Seq<char>| #[trigger] r(x, y) && #[trigger] r(y, x) implies x == y by {
        if x != y {
            lemma_chars_lt_asym(x, y);
        }
    }
    assert forall|x: Seq<char>, y: Seq<char>, z: Seq<char>| #[trigger] r(x, y) && #[trigger] r(y, z) implies r(x, z) by {
        if degree(adj, x) == degree(adj, y) && degree(adj, y) == degree(adj, z) {
            if chars_lt(x, y) && chars_lt(y, z) {
                lemma_chars_lt_trans(x, y, z);
            }
        }
    }
    assert forall|x: Seq<char>, y: Seq<char>| #[trigger] r(x, y) || #[trigger] r(y, x) by {
        lemma_chars_lt_total(x, y);
    }
}

proof fn lemma_least_free(w: Seq<int>, used: Seq<int>, k: int)
    requires
        0 <= k,
    ensures
        -1 <= least_free(w, used, k) < k,
        least_free(w, used, k) >= 0 ==> w[least_free(w, used, k)] == 0,
        (exists|s: int| 0 <= s < k && w[s] == 0) ==> least_free(w, used, k) >= 0,
    decreases k,
{
    if k > 0 {
        lemma_least_free(w, used, k - 1);
        if exists|s: int| 0 <= s < k && w[s] == 0 {
            let s = choose|s: int| 0 <= s < k && w[s] == 0;
            if s < k - 1 {
                assert(least_free(w, used, k - 1) >= 0);
            }
        }
    }
}

proof fn lemma_least_worn(w: Seq<int>, k: int)
    requires
        1 <= k,
    ensures
        0 <= least_worn(w, k) < k,
    decreases k,
{
    if k > 1 {
        lemma_least_worn(w, k - 1);
    }
}

/// The slot taken is one of the eight.
proof fn lemma_slot_for_range(slots: Map<Seq<char>, int>, used: Seq<int>, nbrs: Set<Seq<char>>)
    ensures
        0 <= slot_for(slots, used, nbrs) < 8,
{
    lemma_least_free(wear_counts(slots, nbrs), used, 8);
    lemma_least_worn(wear_counts(slots, nbrs), 8);
}

/// A finite set holding nothing has size zero, and one of size zero
/// holds nothing.
proof fn lemma_empty_len<A>(s: Set<A>, x: A)
    requires
        s.finite(),
        s.len() == 0,
    ensures
        !s.contains(x),
{
    if s.contains(x) {
        assert(s.remove(x).len() == s.len() - 1);
    }
}

/// Pigeonholes: fewer than eight neighbours cannot wear all eight slots.
proof fn lemma_free_slot_exists(slots: Map<Seq<char>, int>, nbrs: Set<Seq<char>>)
    requires
        nbrs.finite(),
        nbrs.len() < 8,
    ensures
        exists|s: int| 0 <= s < 8 && wear(slots, nbrs, s) == 0,
{
    if forall|s: int| 0 <= s < 8 ==> wear(slots, nbrs, s) != 0 {
        lemma_worn_below(slots, nbrs, 8);
        let w8 = nbrs.filter(|n: Seq<char>| slots.contains_key(n) && 0 <= slots[n] < 8);
        vstd::set_lib::lemma_len_subset(w8, nbrs);
    }
}

/// If every slot below `k` is worn, at least `k` neighbours wear a slot
/// below `k`.
proof fn lemma_worn_below(slots: Map<Seq<char>, int>, nbrs: Set<Seq<char>>, k: int)
    requires
        nbrs.finite(),
        0 <= k,
        forall|s: int| 0 <= s < k ==> wear(slots, nbrs, s) != 0,
    ensures
        nbrs.filter(|n: Seq<char>| slots.contains_key(n) && 0 <= slots[n] < k).finite(),
        nbrs.filter(|n: Seq<char>| slots.contains_key(n) && 0 <= slots[n] < k).len() >= k,
    decreases k,
{
    let wk = nbrs.filter(|n: Seq<char>| slots.contains_key(n) && 0 <= slots[n] < k);
    if k > 0 {
        lemma_worn_below(slots, nbrs, k - 1);
        let prev = nbrs.filter(|n: Seq<char>| slots.contains_key(n) && 0 <= slots[n] < k - 1);
        let top = wearers(slots, nbrs, k - 1);
        assert(wk =~= prev + top);
        assert(prev.disjoint(top));
        assert(top.finite() && prev.finite());
        vstd::set_lib::lemma_set_disjoint_lens(prev, top);
        assert(wear(slots, nbrs, k - 1) != 0);
        assert(top.len() >= 1);
        assert(wk.len() == prev.len() + top.len());
    }
}

/// What the greedy pass has coloured, and that every slot is one of
/// the eight.
proof fn lemma_greedy_shape(order: Seq<Seq<char>>, adj: Map<Seq<char>, Set<Seq<char>>>)
    ensures
        greedy(order, adj).1.len() == 8,
        forall|k: Seq<char>| greedy(order, adj).0.contains_key(k) <==> order.contains(k),
        forall|k: Seq<char>| #[trigger] greedy(order, adj).0.contains_key(k) ==> 0 <= greedy(order, adj).0[k] < 8,
    decreases order.len(),
{
    if order.len() > 0 {
        let p = order.drop_last();
        lemma_greedy_shape(p, adj);
        let slots = greedy(p, adj).0;
        let used = greedy(p, adj).1;
        lemma_slot_for_range(slots, used, neighbours(adj, order.last()));
        assert forall|k: Seq<char>| greedy(order, adj).0.contains_key(k) <==> order.contains(k) by {
            if order.contains(k) && k != order.last() {
                let i = choose|i: int| 0 <= i < order.len() && order[i] == k;
                assert(p[i] == k);
            }
            if p.contains(k) {
                let i = choose|i: int| 0 <= i < p.len() && p[i] == k;
                assert(order[i] == k);
            }
            if k == order.last() {
                assert(order[order.len() - 1] == k);
            }
        }
    }
}

/// Coloured in colouring order, a territory with fewer than eight
/// neighbours never takes the slot of a touching territory coloured
/// before it.
proof fn lemma_greedy_separates(order: Seq<Seq<char>>, adj: Map<Seq<char>, Set<Seq<char>>>)
    requires
        sorted_by(order, colour_order(adj)),
        touch_graph(adj),
    ensures
        forall|x: Seq<char>, y: Seq<char>|
            #[trigger] greedy(order, adj).0.contains_key(x) && #[trigger] greedy(order, adj).0.contains_key(y)
            && neighbours(adj, x).contains(y) && (degree(adj, x) < 8 || degree(adj, y) < 8)
            ==> greedy(order, adj).0[x] != greedy(order, adj).0[y],
    decreases order.len(),
{
    if order.len() > 0 {
        let p = order.drop_last();
        assert(sorted_by(p, colour_order(adj))) by {
            assert forall|i: int, j: int| 0 <= i < j < p.len() implies #[trigger] colour_order(adj)(p[i], p[j]) by {
                assert(p[i] == order[i] && p[j] == order[j]);
            }
        }
        lemma_greedy_separates(p, adj);
        lemma_greedy_shape(p, adj);
        let slots = greedy(p, adj).0;
        let used = greedy(p, adj).1;
        let v = order.last();
        let nv = neighbours(adj, v);
        let pick = slot_for(slots, used, nv);
        let out = greedy(order, adj).0;
        assert(out == slots.insert(v, pick));
        // every territory coloured before `v` has at least its degree
        assert forall|y: Seq<char>| #[trigger] slots.contains_key(y) implies degree(adj, y) >= degree(adj, v) by {
            assert(p.contains(y));
            let i = choose|i: int| 0 <= i < p.len() && p[i] == y;
            assert(order[i] == y);
            assert(colour_order(adj)(order[i], order[order.len() - 1]));
        }
        // with fewer than eight neighbours, `v` takes a slot none of them wears
        assert forall|y: Seq<char>| slots.contains_key(y) && y != v && nv.contains(y) && degree(adj, v) < 8
            implies slots[y] != pick by {
            assert(adj.contains_key(v));
            lemma_free_slot_exists(slots, nv);
            let w = wear_counts(slots, nv);
            let s = choose|s: int| 0 <= s < 8 && wear(slots, nv, s) == 0;
            assert(w[s] == 0);
            lemma_least_free(w, used, 8);
            assert(pick == least_free(w, used, 8));
            let f = wearers(slots, nv, pick);
            assert(w[pick] == 0);
            assert(f.len() == 0);
            lemma_empty_len(f, y);
        }
        assert forall|x: Seq<char>, y: Seq<char>|
            #[trigger] out.contains_key(x) && #[trigger] out.contains_key(y)
            && neighbours(adj, x).contains(y) && (degree(adj, x) < 8 || degree(adj, y) < 8)
            implies out[x] != out[y] by {
            if x == v && y != v {
                assert(slots.contains_key(y));
            } else if y == v && x != v {
                assert(slots.contains_key(x));
                assert(nv.contains(x));
            } else if x == v && y == v {
                assert(adj.contains_key(v));
            } else {
                assert(slots.contains_key(x) && slots.contains_key(y));
            }
        }
    }
}


// ----------------------------------------------------- the graph type

/// Ids in strictly increasing string order.
pub open spec fn ids_increasing(s: Seq<Seq<char>>) -> bool {
    forall|i: int, j: int| 0 <= i < j < s.len() ==> chars_lt(s[i], s[j])
}

/// The ids one territory touches, in id order.
pub struct Neighbours {
    set: IdMap<()>,
}

impl View for Neighbours {
    type V = Seq<Seq<char>>;

    closed spec fn view(&self) -> Seq<Seq<char>> {
        self.set.pairs().map_values(|p: (Seq<char>, ())| p.0)
    }
}

/// Who touches whom: for every territory, the ids it shares a border
/// with.
pub struct Adjacency {
    touches: IdMap<Neighbours>,
}

impl View for Adjacency {
    type V = Map<Seq<char>, Set<Seq<char>>>;

    closed spec fn view(&self) -> Map<Seq<char>, Set<Seq<char>>> {
        self.touches.to_map().map_values(|ns: Seq<Seq<char>>| ns.to_set())
    }
}

/// A strictly increasing list holds no id twice, and its ids number
/// as its entries do; so do those satisfying any test.
proof fn lemma_increasing_filter_len(ks: Seq<Seq<char>>, p: spec_fn(Seq<char>) -> bool)
    requires
        ids_increasing(ks),
    ensures
        ks.to_set().finite(),
        ks.to_set().filter(p).len() == ks.filter(p).len(),
        ks.to_set().len() == ks.len(),
    decreases ks.len(),
{
    reveal_with_fuel(Seq::<_>::filter, 1);
    vstd::seq_lib::seq_to_set_is_finite(ks);
    if ks.len() > 0 {
        let q = ks.drop_last();
        assert(ids_increasing(q)) by {
            assert forall|i: int, j: int| 0 <= i < j < q.len() implies chars_lt(q[i], q[j]) by {
                assert(q[i] == ks[i] && q[j] == ks[j]);
            }
        }
        lemma_increasing_filter_len(q, p);
        let x = ks.last();
        assert(!q.to_set().contains(x)) by {
            if q.contains(x) {
                let i = choose|i: int| 0 <= i < q.len() && q[i] == x;
                assert(chars_lt(ks[i], ks[ks.len() - 1]));
                lemma_chars_lt_irreflexive(x);
            }
        }
        assert(ks.to_set() =~= q.to_set().insert(x)) by {
            assert forall|y: Seq<char>| ks.contains(y) <==> q.contains(y) || y == x by {
                if ks.contains(y) {
                    let i = choose|i: int| 0 <= i < ks.len() && ks[i] == y;
                    if i < ks.len() - 1 {
                        assert(q[i] == y);
                    }
                }
                if q.contains(y) {
                    let i = choose|i: int| 0 <= i < q.len() && q[i] == y;
                    assert(ks[i] == y);
                }
                if y == x {
                    assert(ks[ks.len() - 1] == y);
                }
            }
        }
        if p(x) {
            assert(ks.to_set().filter(p) =~= q.to_set().filter(p).insert(x));
        } else {
            assert(ks.to_set().filter(p) =~= q.to_set().filter(p));
        }
    } else {
        assert(ks.to_set().filter(p) =~= Set::<Seq<char>>::empty());
        assert(ks.to_set() =~= Set::<Seq<char>>::empty());
    }
}

impl Neighbours {
    proof fn lemma_view(&self)
        ensures
            self.set.wf() <==> ids_increasing(self@),
            self@.len() == self.set.entries@.len(),
            self.set.wf() ==> forall|k: Seq<char>| self.set.to_map().contains_key(k) <==> self@.contains(k),
    {
        let ps = self.set.pairs();
        assert(self@.len() == ps.len());
        assert(ids_increasing(self@) ==> self.set.wf()) by {
            if ids_increasing(self@) {
                assert forall|i: int, j: int| 0 <= i < j < ps.len() implies chars_lt(ps[i].0, ps[j].0) by {
                    assert(self@[i] == ps[i].0 && self@[j] == ps[j].0);
                }
            }
        }
        assert(self.set.wf() ==> ids_increasing(self@)) by {
            if self.set.wf() {
                assert forall|i: int, j: int| 0 <= i < j < self@.len() implies chars_lt(self@[i], self@[j]) by {
                    assert(self@[i] == ps[i].0 && self@[j] == ps[j].0);
                }
            }
        }
        if self.set.wf() {
            lemma_seq_to_map(ps);
            assert forall|k: Seq<char>| self.set.to_map().contains_key(k) <==> self@.contains(k) by {
                if self.set.to_map().contains_key(k) {
                    let i = choose|i: int| 0 <= i < ps.len() && (#[trigger] ps[i]).0 == k;
                    assert(self@[i] == k);
                }
                if self@.contains(k) {
                    let i = choose|i: int| 0 <= i < self@.len() && self@[i] == k;
                    assert(ps[i].0 == k);
                }
            }
        }
    }
}

impl Adjacency {
    /// Every neighbour list is in strictly increasing id order.
    pub closed spec fn wf(&self) -> bool {
        &&& self.touches.wf()
        &&& forall|k: Seq<char>| #[trigger] self.touches.to_map().contains_key(k) ==> ids_increasing(self.touches.to_map()[k])
    }

    /// The graph with no territories.
    pub fn new() -> (a: Adjacency)
        ensures
            a.wf(),
            a@ == Map::<Seq<char>, Set<Seq<char>>>::empty(),
    {
        let a = Adjacency { touches: IdMap::new() };
        assert(a@ =~= Map::<Seq<char>, Set<Seq<char>>>::empty());
        a
    }

    /// Record that `a` touches `b` (one direction; call twice for a
    /// shared border).
    pub fn touch(&mut self, a: &EntityId, b: &EntityId)
        requires
            old(self).wf(),
        ensures
            final(self).wf(),
            final(self)@ == old(self)@.insert(a@, neighbours(old(self)@, a@).insert(b@)),
    {
        let ghost before = self.touches.to_map();
        let mut ns = match self.touches.take(a.0.as_str()) {
            Some(n) => n,
            None => Neighbours { set: IdMap::new() },
        };
        proof {
            ns.lemma_view();
            if before.contains_key(a@) {
                assert(ns@ == before[a@]);
                assert(ids_increasing(before[a@]));
            } else {
                assert(ns@ =~= Seq::<Seq<char>>::empty());
            }
        }
        let ghost old_ns = ns@;
        ns.set.set(clone_id(b), ());
        proof {
            ns.lemma_view();
            assert(ns@.to_set() =~= old_ns.to_set().insert(b@)) by {
                assert forall|k: Seq<char>| ns@.contains(k) <==> old_ns.contains(k) || k == b@ by {}
            }
        }
        self.touches.set(clone_id(a), ns);
        proof {
            let m = self.touches.to_map();
            assert forall|k: Seq<char>| #[trigger] m.contains_key(k) implies ids_increasing(m[k]) by {
                if k != a@ {
                    assert(before.contains_key(k) && m[k] == before[k]);
                }
            }
            let old_view = before.map_values(|ns: Seq<Seq<char>>| ns.to_set());
            if before.contains_key(a@) {
                assert(old_view[a@] == old_ns.to_set());
            } else {
                assert(old_ns.to_set() =~= Set::<Seq<char>>::empty());
            }
            assert(self@ =~= old_view.insert(a@, neighbours(old_view, a@).insert(b@)));
        }
    }

    /// How many territories `id` touches.
    fn degree_of(&self, id: &EntityId) -> (d: usize)
        requires
            self.wf(),
        ensures
            d == degree(self@, id@),
    {
        proof {
            lemma_seq_to_map(self.touches.pairs());
        }
        match self.touches.find(id.0.as_str()) {
            Ok(i) => {
                let ns = &self.touches.entries[i].1;
                proof {
                    let ps = self.touches.pairs();
                    assert(ps[i as int] == (id@, ns@));
                    assert(self.touches.to_map()[id@] == ns@);
                    assert(ids_increasing(ns@));
                    ns.lemma_view();
                    lemma_increasing_filter_len(ns@, |k: Seq<char>| true);
                    assert(neighbours(self@, id@) == ns@.to_set());
                }
                ns.set.entries.len()
            },
            Err(_) => {
                assert(neighbours(self@, id@) =~= Set::<Seq<char>>::empty());
                0
            },
        }
    }
}


// ------------------------------------------------------- execution

/// Ids as their characters.
pub open spec fn id_views(ids: Seq<EntityId>) -> Seq<Seq<char>> {
    ids.map_values(|e: EntityId| e@)
}

/// Slot numbers as integers.
pub open spec fn as_slots(m: Map<Seq<char>, usize>) -> Map<Seq<char>, int> {
    m.map_values(|v: usize| v as int)
}

/// Counts as integers.
pub open spec fn ints(v: Seq<usize>) -> Seq<int> {
    v.map_values(|x: usize| x as int)
}

fn colour_first_exec(da: usize, a: &EntityId, db: usize, b: &EntityId) -> (r: bool)
    ensures
        r == (da > db || (da == db && (chars_lt(a@, b@) || a@ == b@))),
{
    da > db || (da == db && (str_less(a.0.as_str(), b.0.as_str()) || str_equal(a.0.as_str(), b.0.as_str())))
}

/// `ids` in colouring order.
fn colouring_order(ids: &[EntityId], adj: &Adjacency) -> (order: Vec<EntityId>)
    requires
        adj.wf(),
    ensures
        id_views(order@) == id_views(ids@).sort_by(colour_order(adj@)),
{
    let ghost leq = colour_order(adj@);
    let ghost iv = id_views(ids@);
    proof {
        lemma_colour_order_total(adj@);
    }
    let mut keyed: Vec<(usize, EntityId)> = Vec::new();
    proof {
        assert(keyed@.map_values(|e: (usize, EntityId)| e.1@) =~= iv.take(0));
    }
    let mut k: usize = 0;
    while k < ids.len()
        invariant
            adj.wf(),
            leq == colour_order(adj@),
            iv == id_views(ids@),
            total_ordering(leq),
            k <= ids.len(),
            forall|j: int| 0 <= j < keyed@.len() ==> (#[trigger] keyed@[j]).0 == degree(adj@, keyed@[j].1@),
            sorted_by(keyed@.map_values(|e: (usize, EntityId)| e.1@), leq),
            keyed@.map_values(|e: (usize, EntityId)| e.1@).to_multiset() == iv.take(k as int).to_multiset(),
        decreases ids.len() - k,
    {
        let ghost kv = keyed@.map_values(|e: (usize, EntityId)| e.1@);
        let d = adj.degree_of(&ids[k]);
        let ghost x = ids@[k as int]@;
        let mut p: usize = 0;
        while p < keyed.len() && colour_first_exec(keyed[p].0, &keyed[p].1, d, &ids[k])
            invariant
                adj.wf(),
                leq == colour_order(adj@),
                kv == keyed@.map_values(|e: (usize, EntityId)| e.1@),
                forall|j: int| 0 <= j < keyed@.len() ==> (#[trigger] keyed@[j]).0 == degree(adj@, keyed@[j].1@),
                d == degree(adj@, x),
                k < ids.len(),
                x == ids@[k as int]@,
                p <= keyed.len(),
                forall|j: int| 0 <= j < p ==> leq(#[trigger] kv[j], x),
            decreases keyed.len() - p,
        {
            assert(kv[p as int] == keyed@[p as int].1@);
            p += 1;
        }
        proof {
            if p < keyed.len() {
                assert(kv[p as int] == keyed@[p as int].1@);
            }
            lemma_sorted_insert(kv, x, p as int, leq);
        }
        keyed.insert(p, (d, clone_id(&ids[k])));
        proof {
            let nv = keyed@.map_values(|e: (usize, EntityId)| e.1@);
            assert(nv =~= kv.insert(p as int, x));
            vstd::seq_lib::to_multiset_insert(kv, p as int, x);
            assert(iv.take(k + 1) =~= iv.take(k as int).push(x));
            vstd::seq_lib::to_multiset_build(iv.take(k as int), x);
        }
        k += 1;
    }
    let mut order: Vec<EntityId> = Vec::new();
    let mut j: usize = 0;
    while j < keyed.len()
        invariant
            j <= keyed@.len(),
            id_views(order@) == keyed@.map_values(|e: (usize, EntityId)| e.1@).take(j as int),
        decreases keyed.len() - j,
    {
        let ghost o0 = order@;
        let c = clone_id(&keyed[j].1);
        assert(c@ == keyed@[j as int].1@);
        order.push(c);
        proof {
            assert(id_views(order@) =~= id_views(o0).push(c@));
            assert(id_views(order@) =~= keyed@.map_values(|e: (usize, EntityId)| e.1@).take(j + 1));
        }
        j += 1;
    }
    proof {
        let kv = keyed@.map_values(|e: (usize, EntityId)| e.1@);
        assert(kv.take(kv.len() as int) =~= kv);
        assert(iv.take(iv.len() as int) =~= iv);
        iv.lemma_sort_by_ensures(leq);
        vstd::seq_lib::lemma_sorted_unique(kv, iv.sort_by(leq), leq);
    }
    order
}

/// How many of `id`'s neighbours wear each slot.
fn wear_of(adj: &Adjacency, slots: &IdMap<usize>, id: &EntityId) -> (w: Vec<usize>)
    requires
        adj.wf(),
        slots.wf(),
        forall|k: Seq<char>| #[trigger] slots.to_map().contains_key(k) ==> slots.to_map()[k] < 8,
    ensures
        w@.len() == 8,
        ints(w@) == wear_counts(as_slots(slots.to_map()), neighbours(adj@, id@)),
{
    let ghost sl = as_slots(slots.to_map());
    let mut w: Vec<usize> = Vec::new();
    while w.len() < 8
        invariant
            w@.len() <= 8,
            forall|s: int| 0 <= s < w@.len() ==> w@[s] == 0,
        decreases 8 - w@.len(),
    {
        w.push(0);
    }
    proof {
        lemma_seq_to_map(adj.touches.pairs());
    }
    match adj.touches.find(id.0.as_str()) {
        Ok(i) => {
            let ns = &adj.touches.entries[i].1;
            let ghost ks = ns@;
            proof {
                let ps = adj.touches.pairs();
                assert(ps[i as int] == (id@, ns@));
                assert(adj.touches.to_map()[id@] == ns@);
                assert(ids_increasing(ks));
                ns.lemma_view();
                assert(neighbours(adj@, id@) == ks.to_set());
            }
            let mut j: usize = 0;
            while j < ns.set.entries.len()
                invariant
                    slots.wf(),
                    sl == as_slots(slots.to_map()),
                    forall|k: Seq<char>| #[trigger] slots.to_map().contains_key(k) ==> slots.to_map()[k] < 8,
                    ks == ns@,
                    ks.len() == ns.set.entries@.len(),
                    j <= ks.len(),
                    w@.len() == 8,
                    forall|s: int| 0 <= s < 8 ==> (#[trigger] w@[s]) == ks.take(j as int).filter(wears(sl, s)).len(),
                    forall|s: int| 0 <= s < 8 ==> (#[trigger] w@[s]) <= j,
                decreases ks.len() - j,
            {
                let n = &ns.set.entries[j].0;
                assert(n@ == ks[j as int]);
                let ghost w0 = w@;
                proof {
                    reveal_with_fuel(Seq::<_>::filter, 1);
                    assert(ks.take(j + 1).drop_last() =~= ks.take(j as int));
                    assert(ks.take(j + 1).last() == n@);
                }
                match slots.get(n.0.as_str()) {
                    Some(v) => {
                        let s = *v;
                        let c = w[s];
                        w.set(s, c + 1);
                        proof {
                            assert(sl.contains_key(n@) && sl[n@] == s as int);
                            assert forall|t: int| 0 <= t < 8 implies (#[trigger] w@[t]) == ks.take(j + 1).filter(wears(sl, t)).len() by {
                                if t != s {
                                    assert(w@[t] == w0[t]);
                                    assert(!wears(sl, t)(n@));
                                } else {
                                    assert(wears(sl, t)(n@));
                                }
                            }
                        }
                    },
                    None => {
                        proof {
                            assert(!sl.contains_key(n@));
                            assert forall|t: int| 0 <= t < 8 implies (#[trigger] w@[t]) == ks.take(j + 1).filter(wears(sl, t)).len() by {
                                assert(!wears(sl, t)(n@));
                            }
                        }
                    },
                }
                j += 1;
            }
            proof {
                assert(ks.take(ks.len() as int) =~= ks);
                assert forall|s: int| 0 <= s < 8 implies ints(w@)[s] == wear_counts(sl, neighbours(adj@, id@))[s] by {
                    lemma_increasing_filter_len(ks, wears(sl, s));
                }
                assert(ints(w@) =~= wear_counts(sl, neighbours(adj@, id@)));
            }
        },
        Err(_) => {
            proof {
                assert forall|s: int| 0 <= s < 8 implies ints(w@)[s] == wear_counts(sl, neighbours(adj@, id@))[s] by {
                    assert(neighbours(adj@, id@) =~= Set::<Seq<char>>::empty());
                    assert(wearers(sl, neighbours(adj@, id@), s) =~= Set::<Seq<char>>::empty());
                }
                assert(ints(w@) =~= wear_counts(sl, neighbours(adj@, id@)));
            }
        },
    }
    w
}

/// The slot `pick` chooses, given wear and use per slot.
fn pick_slot(w: &Vec<usize>, used: &Vec<usize>) -> (r: usize)
    requires
        w@.len() == 8,
        used@.len() == 8,
    ensures
        r == pick(ints(w@), ints(used@)),
        r < 8,
{
    let ghost wi = ints(w@);
    let ghost ui = ints(used@);
    let mut best: usize = 8;
    let mut s: usize = 0;
    while s < 8
        invariant
            w@.len() == 8,
            used@.len() == 8,
            wi == ints(w@),
            ui == ints(used@),
            s <= 8,
            best <= 8,
            best < 8 ==> best < s,
            (if best == 8 { -1 } else { best as int }) == least_free(wi, ui, s as int),
        decreases 8 - s,
    {
        if w[s] == 0 && (best == 8 || used[s] < used[best]) {
            best = s;
        }
        s += 1;
    }
    if best < 8 {
        proof {
            lemma_least_free(wi, ui, 8);
        }
        return best;
    }
    let mut b: usize = 0;
    let mut t: usize = 1;
    while t < 8
        invariant
            w@.len() == 8,
            wi == ints(w@),
            1 <= t <= 8,
            b < t,
            b as int == least_worn(wi, t as int),
        decreases 8 - t,
    {
        if w[t] < w[b] {
            b = t;
        }
        t += 1;
    }
    b
}

/// THE GREEDY PALETTE PASS: territories in colouring order (most
/// neighbours first, then id order) each take, among the slots no
/// neighbour wears, the one least used so far; if its neighbours wear
/// all eight, the one they wear least.
pub fn color_shared_border_graph(ids: &[EntityId], adj: &Adjacency) -> (out: IdMap<usize>)
    requires
        adj.wf(),
    ensures
        out.wf(),
        as_slots(out.to_map()) == colouring(id_views(ids@), adj@),
{
    let order = colouring_order(ids, adj);
    let ghost ov = id_views(order@);
    let mut slots: IdMap<usize> = IdMap::new();
    let mut used: Vec<usize> = Vec::new();
    while used.len() < 8
        invariant
            used@.len() <= 8,
            forall|s: int| 0 <= s < used@.len() ==> used@[s] == 0,
        decreases 8 - used@.len(),
    {
        used.push(0);
    }
    proof {
        assert(as_slots(slots.to_map()) =~= greedy(ov.take(0), adj@).0);
        assert(ints(used@) =~= greedy(ov.take(0), adj@).1);
    }
    let mut t: usize = 0;
    while t < order.len()
        invariant
            adj.wf(),
            slots.wf(),
            ov == id_views(order@),
            used@.len() == 8,
            t <= order@.len(),
            as_slots(slots.to_map()) == greedy(ov.take(t as int), adj@).0,
            ints(used@) == greedy(ov.take(t as int), adj@).1,
            forall|s: int| 0 <= s < 8 ==> (#[trigger] used@[s]) <= t,
            forall|k: Seq<char>| #[trigger] slots.to_map().contains_key(k) ==> slots.to_map()[k] < 8,
        decreases order@.len() - t,
    {
        let id = &order[t];
        let ghost sl = as_slots(slots.to_map());
        let ghost prev = ov.take(t as int);
        let w = wear_of(adj, &slots, id);
        let p = pick_slot(&w, &used);
        let ghost u0 = used@;
        let ghost s0 = slots.to_map();
        let c = used[p];
        used.set(p, c + 1);
        slots.set(clone_id(id), p);
        proof {
            let next = ov.take(t + 1);
            assert(next.drop_last() =~= prev);
            assert(next.last() == id@);
            assert(p == slot_for(sl, ints(u0), neighbours(adj@, id@)));
            assert(as_slots(slots.to_map()) =~= sl.insert(id@, p as int));
            assert(ints(used@) =~= ints(u0).update(p as int, ints(u0)[p as int] + 1));
            assert forall|k: Seq<char>| #[trigger] slots.to_map().contains_key(k) implies slots.to_map()[k] < 8 by {
                if k != id@ {
                    assert(s0.contains_key(k));
                }
            }
        }
        t += 1;
    }
    proof {
        assert(ov.take(ov.len() as int) =~= ov);
    }
    slots
}

// -------------------------------------------------------------- laws

/// Every territory handed in gets a slot, nothing else does, and every
/// slot is one of the eight.
pub proof fn law_palette_total(ids: Seq<Seq<char>>, adj: Map<Seq<char>, Set<Seq<char>>>)
    ensures
        forall|k: Seq<char>| colouring(ids, adj).contains_key(k) <==> ids.contains(k),
        forall|k: Seq<char>| #[trigger] colouring(ids, adj).contains_key(k) ==> 0 <= colouring(ids, adj)[k] < 8,
{
    let order = ids.sort_by(colour_order(adj));
    lemma_colour_order_total(adj);
    ids.lemma_sort_by_ensures(colour_order(adj));
    lemma_greedy_shape(order, adj);
    assert forall|k: Seq<char>| order.contains(k) <==> ids.contains(k) by {
        vstd::seq_lib::to_multiset_contains(ids, k);
        vstd::seq_lib::to_multiset_contains(order, k);
    }
}

/// The colouring is a function of the graph and of which territories
/// are handed in, not of the order they are handed in.
pub proof fn law_palette_ignores_order(ids1: Seq<Seq<char>>, ids2: Seq<Seq<char>>, adj: Map<Seq<char>, Set<Seq<char>>>)
    requires
        ids1.to_multiset() == ids2.to_multiset(),
    ensures
        colouring(ids1, adj) == colouring(ids2, adj),
{
    lemma_colour_order_total(adj);
    ids1.lemma_sort_by_ensures(colour_order(adj));
    ids2.lemma_sort_by_ensures(colour_order(adj));
    vstd::seq_lib::lemma_sorted_unique(ids1.sort_by(colour_order(adj)), ids2.sort_by(colour_order(adj)), colour_order(adj));
}

/// TOUCHING TERRITORIES NEVER MATCH: two touching territories, one of
/// which touches fewer than eight others, wear different slots.
pub proof fn law_touching_never_match(ids: Seq<Seq<char>>, adj: Map<Seq<char>, Set<Seq<char>>>, a: Seq<char>, b: Seq<char>)
    requires
        touch_graph(adj),
        ids.contains(a),
        ids.contains(b),
        neighbours(adj, a).contains(b),
        degree(adj, a) < 8 || degree(adj, b) < 8,
    ensures
        colouring(ids, adj)[a] != colouring(ids, adj)[b],
{
    let order = ids.sort_by(colour_order(adj));
    lemma_colour_order_total(adj);
    ids.lemma_sort_by_ensures(colour_order(adj));
    law_palette_total(ids, adj);
    lemma_greedy_separates(order, adj);
    assert(colouring(ids, adj).contains_key(a) && colouring(ids, adj).contains_key(b));
}

} // verus!
