//! What the registry promises across calls: a declaration is read back
//! in one hop, `observe` writes no reason but `SameId`, and an entity's
//! contents never depend on the order its testimonies arrive in.

use vstd::prelude::*;
use crate::registry::{
    after_declare, after_observe, insert_by_key, insert_name, lemma_kind_rank_injective, lemma_prefix_not_after,
    lemma_wkey_lt_irreflexive, lemma_insert_by_key_sorted, witnesses_sorted, lemma_wkey_lt_total, lemma_wkey_lt_trans, least_kind, kind_rank, model_wf, names_sorted, prefix_not_after, spec_resolve, wkey_lt, EntityKind, RegistryModel,
    UnificationView, WitnessRefView,
};
use crate::text::{chars_lt, lemma_chars_lt_asym, lemma_chars_lt_irreflexive, lemma_chars_lt_total, lemma_chars_lt_trans};

verus! {

// ------------------------------------------------------------ names

/// In a sorted list, the names below `a` are exactly a prefix, as long
/// as the count `insert_name` splits at.
proof fn lemma_name_split(ns: Seq<Seq<char>>, a: Seq<char>)
    requires
        names_sorted(ns),
    ensures
        ns.filter(|n: Seq<char>| chars_lt(n, a)).len() <= ns.len(),
        forall|j: int| 0 <= j < ns.filter(|n: Seq<char>| chars_lt(n, a)).len() ==> chars_lt(#[trigger] ns[j], a),
        forall|j: int| ns.filter(|n: Seq<char>| chars_lt(n, a)).len() <= j < ns.len() ==> !chars_lt(#[trigger] ns[j], a),
    decreases ns.len(),
{
    reveal_with_fuel(Seq::<_>::filter, 1);
    let f = |n: Seq<char>| chars_lt(n, a);
    if ns.len() > 0 {
        let p = ns.drop_last();
        assert(names_sorted(p)) by {
            assert forall|i: int, j: int| 0 <= i < j < p.len() implies chars_lt(p[i], p[j]) by {
                assert(p[i] == ns[i] && p[j] == ns[j]);
            }
        }
        lemma_name_split(p, a);
        let kp = p.filter(f).len() as int;
        if f(ns.last()) {
            assert forall|j: int| 0 <= j < ns.len() implies chars_lt(#[trigger] ns[j], a) by {
                if j < ns.len() - 1 {
                    lemma_chars_lt_trans(ns[j], ns.last(), a);
                }
            }
            if kp < p.len() {
                assert(p[kp] == ns[kp]);
                assert(chars_lt(ns[kp], a));
            }
        } else {
            assert forall|j: int| 0 <= j < kp implies chars_lt(#[trigger] ns[j], a) by {
                assert(p[j] == ns[j]);
            }
            assert forall|j: int| kp <= j < ns.len() implies !chars_lt(#[trigger] ns[j], a) by {
                if j < ns.len() - 1 {
                    assert(p[j] == ns[j]);
                }
            }
        }
    }
}

/// Merging a name keeps the list sorted and adds exactly that name.
pub(crate) proof fn lemma_insert_name(ns: Seq<Seq<char>>, a: Seq<char>)
    requires
        names_sorted(ns),
    ensures
        names_sorted(insert_name(ns, a)),
        forall|x: Seq<char>| insert_name(ns, a).contains(x) <==> ns.contains(x) || x == a,
{
    if !ns.contains(a) {
        lemma_name_split(ns, a);
        let k = ns.filter(|n: Seq<char>| chars_lt(n, a)).len() as int;
        let t = insert_name(ns, a);
        assert(t =~= ns.take(k) + seq![a] + ns.skip(k));
        assert forall|j: int| k <= j < ns.len() implies chars_lt(a, #[trigger] ns[j]) by {
            lemma_chars_lt_total(ns[j], a);
            if ns[j] == a {
                assert(ns.contains(a));
            }
        }
        assert forall|i: int, j: int| 0 <= i < j < t.len() implies chars_lt(t[i], t[j]) by {
            if j < k {
                assert(t[i] == ns[i] && t[j] == ns[j]);
            } else if j == k {
                assert(t[i] == ns[i] && t[j] == a);
            } else if i < k {
                assert(t[i] == ns[i] && t[j] == ns[j - 1]);
                lemma_chars_lt_trans(ns[i], a, ns[j - 1]);
            } else if i == k {
                assert(t[i] == a && t[j] == ns[j - 1]);
            } else {
                assert(t[i] == ns[i - 1] && t[j] == ns[j - 1]);
            }
        }
        assert forall|x: Seq<char>| t.contains(x) <==> ns.contains(x) || x == a by {
            if t.contains(x) {
                let i = choose|i: int| 0 <= i < t.len() && t[i] == x;
                if i < k {
                    assert(ns[i] == x);
                } else if i > k {
                    assert(ns[i - 1] == x);
                }
            }
            if ns.contains(x) {
                let i = choose|i: int| 0 <= i < ns.len() && ns[i] == x;
                if i < k {
                    assert(t[i] == x);
                } else {
                    assert(t[i + 1] == x);
                }
            }
            if x == a {
                assert(t[k] == a);
            }
        }
    }
}

/// Two sorted name lists holding the same names are the same list.
pub(crate) proof fn lemma_sorted_names_unique(s: Seq<Seq<char>>, t: Seq<Seq<char>>)
    requires
        names_sorted(s),
        names_sorted(t),
        forall|x: Seq<char>| s.contains(x) <==> t.contains(x),
    ensures
        s == t,
    decreases s.len(),
{
    if s.len() == 0 {
        if t.len() > 0 {
            assert(t.contains(t[0]));
        }
        assert(s =~= t);
    } else {
        assert(s.contains(s[0]));
        let j = choose|j: int| 0 <= j < t.len() && t[j] == s[0];
        assert(t.contains(t[0]));
        let i = choose|i: int| 0 <= i < s.len() && s[i] == t[0];
        if j > 0 {
            assert(chars_lt(t[0], t[j]));
            if i > 0 {
                assert(chars_lt(s[0], s[i]));
                lemma_chars_lt_asym(s[0], s[i]);
            } else {
                lemma_chars_lt_irreflexive(s[0]);
            }
        }
        assert(s[0] == t[0]);
        let s1 = s.drop_first();
        let t1 = t.drop_first();
        assert(names_sorted(s1)) by {
            assert forall|a: int, b: int| 0 <= a < b < s1.len() implies chars_lt(s1[a], s1[b]) by {
                assert(s1[a] == s[a + 1] && s1[b] == s[b + 1]);
            }
        }
        assert(names_sorted(t1)) by {
            assert forall|a: int, b: int| 0 <= a < b < t1.len() implies chars_lt(t1[a], t1[b]) by {
                assert(t1[a] == t[a + 1] && t1[b] == t[b + 1]);
            }
        }
        assert forall|x: Seq<char>| s1.contains(x) <==> t1.contains(x) by {
            if s1.contains(x) {
                let a = choose|a: int| 0 <= a < s1.len() && s1[a] == x;
                assert(s[a + 1] == x);
                assert(chars_lt(s[0], s[a + 1]));
                assert(x != s[0]) by {
                    lemma_chars_lt_irreflexive(x);
                }
                assert(s.contains(x));
                let b = choose|b: int| 0 <= b < t.len() && t[b] == x;
                assert(b != 0);
                assert(t1[b - 1] == x);
            }
            if t1.contains(x) {
                let a = choose|a: int| 0 <= a < t1.len() && t1[a] == x;
                assert(t[a + 1] == x);
                assert(chars_lt(t[0], t[a + 1]));
                assert(x != t[0]) by {
                    lemma_chars_lt_irreflexive(x);
                }
                assert(t.contains(x));
                let b = choose|b: int| 0 <= b < s.len() && s[b] == x;
                assert(b != 0);
                assert(s1[b - 1] == x);
            }
        }
        lemma_sorted_names_unique(s1, t1);
        assert(s =~= seq![s[0]] + s1);
        assert(t =~= seq![t[0]] + t1);
    }
}

/// Merging two names gives the same list in either order.
proof fn lemma_insert_name_commutes(ns: Seq<Seq<char>>, a: Seq<char>, b: Seq<char>)
    requires
        names_sorted(ns),
    ensures
        insert_name(insert_name(ns, a), b) == insert_name(insert_name(ns, b), a),
{
    lemma_insert_name(ns, a);
    lemma_insert_name(ns, b);
    lemma_insert_name(insert_name(ns, a), b);
    lemma_insert_name(insert_name(ns, b), a);
    assert forall|x: Seq<char>| insert_name(insert_name(ns, a), b).contains(x) <==> insert_name(insert_name(ns, b), a).contains(x) by {
        assert(insert_name(insert_name(ns, a), b).contains(x) <==> insert_name(ns, a).contains(x) || x == b);
        assert(insert_name(insert_name(ns, b), a).contains(x) <==> insert_name(ns, b).contains(x) || x == a);
        assert(insert_name(ns, a).contains(x) <==> ns.contains(x) || x == a);
        assert(insert_name(ns, b).contains(x) <==> ns.contains(x) || x == b);
    }
    lemma_sorted_names_unique(insert_name(insert_name(ns, a), b), insert_name(insert_name(ns, b), a));
}

// ------------------------------------------------------- testimonies

/// `prefix_not_after` is the first index whose key is after `w`'s.
proof fn lemma_prefix_is_first(ws: Seq<WitnessRefView>, w: WitnessRefView, k: int)
    requires
        0 <= k <= ws.len(),
        forall|j: int| 0 <= j < k ==> !wkey_lt(w, #[trigger] ws[j]),
        k < ws.len() ==> wkey_lt(w, ws[k]),
    ensures
        prefix_not_after(ws, w) == k,
{
    lemma_prefix_not_after(ws, w);
    let p = prefix_not_after(ws, w) as int;
    if p < k {
        assert(!wkey_lt(w, ws[p]));
    } else if p > k {
        assert(!wkey_lt(w, ws[k]));
    }
}

/// Two testimonies with different keys land in the same places
/// whichever is inserted first.
proof fn lemma_insert_by_key_commutes(ws: Seq<WitnessRefView>, w1: WitnessRefView, w2: WitnessRefView)
    requires
        wkey_lt(w1, w2),
    ensures
        insert_by_key(insert_by_key(ws, w1), w2) == insert_by_key(insert_by_key(ws, w2), w1),
{
    lemma_prefix_not_after(ws, w1);
    lemma_prefix_not_after(ws, w2);
    let p1 = prefix_not_after(ws, w1) as int;
    let p2 = prefix_not_after(ws, w2) as int;
    if p2 < p1 {
        assert(!wkey_lt(w1, ws[p2]));
        lemma_wkey_lt_trans(w1, w2, ws[p2]);
    }
    assert(p1 <= p2);
    assert(!wkey_lt(w2, w1)) by {
        if wkey_lt(w2, w1) {
            lemma_wkey_lt_trans(w1, w2, w1);
            lemma_wkey_lt_irreflexive(w1);
        }
    }
    // w1 first, then w2
    let a1 = insert_by_key(ws, w1);
    assert(a1 =~= ws.take(p1) + seq![w1] + ws.skip(p1));
    assert forall|j: int| 0 <= j < p2 + 1 implies !wkey_lt(w2, #[trigger] a1[j]) by {
        if j < p1 {
            assert(a1[j] == ws[j]);
        } else if j > p1 {
            assert(a1[j] == ws[j - 1]);
        }
    }
    if p2 + 1 < a1.len() {
        assert(a1[p2 + 1] == ws[p2]);
    }
    lemma_prefix_is_first(a1, w2, p2 + 1);
    // w2 first, then w1
    let b1 = insert_by_key(ws, w2);
    assert(b1 =~= ws.take(p2) + seq![w2] + ws.skip(p2));
    assert forall|j: int| 0 <= j < p1 implies !wkey_lt(w1, #[trigger] b1[j]) by {
        assert(b1[j] == ws[j]);
    }
    if p1 < p2 {
        assert(b1[p1] == ws[p1]);
    } else {
        assert(b1[p1] == w2);
    }
    lemma_prefix_is_first(b1, w1, p1);
    let x = insert_by_key(a1, w2);
    let y = insert_by_key(b1, w1);
    assert(x =~= y) by {
        assert forall|j: int| 0 <= j < x.len() implies x[j] == y[j] by {
            if j < p1 {
                assert(x[j] == ws[j] && y[j] == ws[j]);
            } else if j == p1 {
                assert(x[j] == w1 && y[j] == w1);
            } else if j < p2 + 1 {
                assert(x[j] == ws[j - 1] && y[j] == ws[j - 1]);
            } else if j == p2 + 1 {
                assert(x[j] == w2 && y[j] == w2);
            } else {
                assert(x[j] == ws[j - 2] && y[j] == ws[j - 2]);
            }
        }
    }
}

// -------------------------------------------------------------- laws

/// A declaration is read back in one hop: after a successful
/// `declare(canonical, minted, why)`, `minted` resolves to `canonical`
/// itself (never to wherever `canonical` may resolve), `why(minted)` is
/// the reason given, and every other id resolves as it did before.
pub proof fn law_declare_resolves_one_hop(m: RegistryModel, canonical: Seq<char>, minted: Seq<char>, why: UnificationView)
    ensures
        spec_resolve(after_declare(m, canonical, minted, why), minted) == canonical,
        after_declare(m, canonical, minted, why).why.contains_key(minted),
        after_declare(m, canonical, minted, why).why[minted] == why,
        forall|id: Seq<char>| id != minted ==> spec_resolve(after_declare(m, canonical, minted, why), id) == spec_resolve(m, id),
{
}

/// Testimony never moves an id: `observe` leaves every resolution as
/// it was.
pub proof fn law_observe_keeps_resolution(m: RegistryModel, minted: Seq<char>, name: Seq<char>, kind: EntityKind, w: WitnessRefView)
    ensures
        forall|id: Seq<char>| spec_resolve(after_observe(m, minted, name, kind, w), id) == spec_resolve(m, id),
{
}

/// `observe` never overwrites a written reason, and the only reason it
/// ever writes is `SameId`, for a minted id it has already seen.
pub proof fn law_observe_writes_only_same_id(m: RegistryModel, minted: Seq<char>, name: Seq<char>, kind: EntityKind, w: WitnessRefView)
    ensures
        forall|k: Seq<char>| #[trigger] m.why.contains_key(k) ==> after_observe(m, minted, name, kind, w).why.contains_key(k)
            && after_observe(m, minted, name, kind, w).why[k] == m.why[k],
        forall|k: Seq<char>| #[trigger] after_observe(m, minted, name, kind, w).why.contains_key(k) && !m.why.contains_key(k) ==> {
            &&& k == minted
            &&& m.minted.contains(minted)
            &&& after_observe(m, minted, name, kind, w).why[k] == UnificationView::SameId
        },
        m.minted.contains(minted) ==> after_observe(m, minted, name, kind, w).why.contains_key(minted),
{
}

/// An entity's contents never depend on the order its testimonies
/// arrive in: two observations give the same entities, reasons, minted
/// ids and aliases in either order, and each home the same multiset of
/// kind votes.
pub proof fn law_observe_order_independent(
    m: RegistryModel,
    minted1: Seq<char>,
    name1: Seq<char>,
    kind1: EntityKind,
    w1: WitnessRefView,
    minted2: Seq<char>,
    name2: Seq<char>,
    kind2: EntityKind,
    w2: WitnessRefView,
)
    requires
        model_wf(m),
    ensures
        ({
            let a = after_observe(after_observe(m, minted1, name1, kind1, w1), minted2, name2, kind2, w2);
            let b = after_observe(after_observe(m, minted2, name2, kind2, w2), minted1, name1, kind1, w1);
            &&& a.aliases == b.aliases
            &&& a.why == b.why
            &&& a.minted == b.minted
            &&& a.entities == b.entities
            &&& a.votes.dom() == b.votes.dom()
            &&& forall|h: Seq<char>| #[trigger] a.votes.contains_key(h) ==> a.votes[h].to_multiset() == b.votes[h].to_multiset()
        }),
{
    let m1 = after_observe(m, minted1, name1, kind1, w1);
    let m2 = after_observe(m, minted2, name2, kind2, w2);
    let a = after_observe(m1, minted2, name2, kind2, w2);
    let b = after_observe(m2, minted1, name1, kind1, w1);
    let h1 = spec_resolve(m, minted1);
    let h2 = spec_resolve(m, minted2);
    assert(spec_resolve(m1, minted2) == h2);
    assert(spec_resolve(m2, minted1) == h1);
    assert(a.minted =~= b.minted);
    assert(a.why =~= b.why);
    let v1 = (minted1, kind1);
    let v2 = (minted2, kind2);
    if h1 != h2 {
        assert(a.entities =~= b.entities);
        assert(a.votes =~= b.votes);
    } else {
        let h = h1;
        let ns = if m.entities.contains_key(h) { m.entities[h].names } else { Seq::<Seq<char>>::empty() };
        let ws = if m.entities.contains_key(h) { m.entities[h].witnesses } else { Seq::<WitnessRefView>::empty() };
        assert(names_sorted(ns));
        lemma_insert_name_commutes(ns, name1, name2);
        lemma_wkey_lt_total(w1, w2);
        lemma_kind_rank_injective(kind1, kind2);
        if m.entities.contains_key(h) {
            let k0 = m.entities[h].kind;
            lemma_kind_rank_injective(k0, kind1);
            lemma_kind_rank_injective(k0, kind2);
        }
        if wkey_lt(w1, w2) {
            lemma_insert_by_key_commutes(ws, w1, w2);
        } else if wkey_lt(w2, w1) {
            lemma_insert_by_key_commutes(ws, w2, w1);
        }
        assert(a.entities[h] == b.entities[h]);
        assert(a.entities =~= b.entities);
        let prior = if m.votes.contains_key(h) { m.votes[h] } else { Seq::<(Seq<char>, EntityKind)>::empty() };
        assert(a.votes[h] == prior.push(v1).push(v2));
        assert(b.votes[h] == prior.push(v2).push(v1));
        vstd::seq_lib::to_multiset_build(prior, v1);
        vstd::seq_lib::to_multiset_build(prior, v2);
        vstd::seq_lib::to_multiset_build(prior.push(v1), v2);
        vstd::seq_lib::to_multiset_build(prior.push(v2), v1);
        assert(a.votes[h].to_multiset() =~= b.votes[h].to_multiset());
        assert(a.votes.dom() =~= b.votes.dom());
        assert forall|k: Seq<char>| #[trigger] a.votes.contains_key(k) implies a.votes[k].to_multiset() == b.votes[k].to_multiset() by {
            if k != h {
                assert(a.votes[k] == b.votes[k]);
            }
        }
    }
}

// ------------------------------------------------------ whole histories

/// One call made on a registry, by its arguments' views.
pub enum RegistryCall {
    Observe { minted: Seq<char>, name: Seq<char>, kind: EntityKind, w: WitnessRefView },
    Declare { canonical: Seq<char>, minted: Seq<char>, why: UnificationView },
}

/// A registry nothing has been told yet, as `Registry::new` makes it.
pub open spec fn empty_model() -> RegistryModel {
    RegistryModel {
        aliases: Map::empty(),
        why: Map::empty(),
        minted: Set::empty(),
        entities: Map::empty(),
        votes: Map::empty(),
    }
}

/// Whether `declare(canonical, minted, _)` returns `Ok` on `m`.
pub open spec fn declare_ok(m: RegistryModel, canonical: Seq<char>, minted: Seq<char>) -> bool {
    canonical != minted && !(m.aliases.contains_key(minted) && m.aliases[minted] != canonical)
}

/// The registry after one call; a refused declaration changes nothing.
pub open spec fn apply_call(m: RegistryModel, c: RegistryCall) -> RegistryModel {
    match c {
        RegistryCall::Observe { minted, name, kind, w } => after_observe(m, minted, name, kind, w),
        RegistryCall::Declare { canonical, minted, why } => if declare_ok(m, canonical, minted) {
            after_declare(m, canonical, minted, why)
        } else {
            m
        },
    }
}

/// A new registry after every call of `calls`, first call first.
pub open spec fn replay(calls: Seq<RegistryCall>) -> RegistryModel
    decreases calls.len(),
{
    if calls.len() == 0 {
        empty_model()
    } else {
        apply_call(replay(calls.drop_last()), calls.last())
    }
}

/// Call `k` declares an alias for `x`, and the registry accepted it.
pub open spec fn accepted_declare(calls: Seq<RegistryCall>, k: int, x: Seq<char>) -> bool {
    &&& 0 <= k < calls.len()
    &&& match calls[k] {
        RegistryCall::Declare { canonical, minted, why } => minted == x && declare_ok(replay(calls.take(k)), canonical, minted),
        _ => false,
    }
}

/// The canonical id a call declares; empty for an observation.
pub open spec fn declared_canonical(c: RegistryCall) -> Seq<char> {
    match c {
        RegistryCall::Declare { canonical, .. } => canonical,
        _ => Seq::empty(),
    }
}

/// How many calls observe `x` as the minted id.
pub open spec fn times_observed(calls: Seq<RegistryCall>, x: Seq<char>) -> nat
    decreases calls.len(),
{
    if calls.len() == 0 {
        0
    } else {
        times_observed(calls.drop_last(), x) + match calls.last() {
            RegistryCall::Observe { minted, .. } => if minted == x { 1nat } else { 0nat },
            _ => 0nat,
        }
    }
}

/// The reason of the latest accepted declaration of `x`, if any.
pub open spec fn latest_reason(calls: Seq<RegistryCall>, x: Seq<char>) -> Option<UnificationView>
    decreases calls.len(),
{
    if calls.len() == 0 {
        None
    } else if accepted_declare(calls, calls.len() - 1, x) {
        match calls.last() {
            RegistryCall::Declare { why, .. } => Some(why),
            _ => None,
        }
    } else {
        latest_reason(calls.drop_last(), x)
    }
}

/// What one history gives for one id: the minted set, the alias, the
/// reason, call by call.
proof fn lemma_history(calls: Seq<RegistryCall>, x: Seq<char>)
    ensures
        replay(calls).minted.contains(x) <==> times_observed(calls, x) >= 1,
        replay(calls).aliases.contains_key(x) <==> exists|k: int| accepted_declare(calls, k, x),
        forall|k: int| #[trigger] accepted_declare(calls, k, x) ==> replay(calls).aliases.contains_key(x)
            && replay(calls).aliases[x] == declared_canonical(calls[k]),
        replay(calls).why.contains_key(x) <==> latest_reason(calls, x) is Some || times_observed(calls, x) >= 2,
        latest_reason(calls, x) is Some ==> replay(calls).why[x] == latest_reason(calls, x)->Some_0,
        latest_reason(calls, x) is None && replay(calls).why.contains_key(x) ==> replay(calls).why[x] == UnificationView::SameId,
    decreases calls.len(),
{
    if calls.len() == 0 {
        return;
    }
    let n = calls.len() - 1;
    let prev = calls.drop_last();
    lemma_history(prev, x);
    let p = replay(prev);
    assert(calls.take(n) =~= prev);
    assert forall|k: int| 0 <= k < n implies (accepted_declare(calls, k, x) <==> #[trigger] accepted_declare(prev, k, x)) by {
        assert(calls.take(k) =~= prev.take(k));
        assert(calls[k] == prev[k]);
    }
    assert forall|k: int| #[trigger] accepted_declare(prev, k, x) implies declared_canonical(calls[k]) == declared_canonical(prev[k]) by {
        assert(calls[k] == prev[k]);
    }
    match calls.last() {
        RegistryCall::Observe { minted, name, kind, w } => {
            assert(!accepted_declare(calls, n, x));
            assert((exists|k: int| accepted_declare(calls, k, x)) <==> exists|k: int| accepted_declare(prev, k, x)) by {
                if exists|k: int| accepted_declare(calls, k, x) {
                    let k = choose|k: int| accepted_declare(calls, k, x);
                    assert(accepted_declare(prev, k, x));
                }
                if exists|k: int| accepted_declare(prev, k, x) {
                    let k = choose|k: int| accepted_declare(prev, k, x);
                    assert(accepted_declare(calls, k, x));
                }
            }
            assert forall|k: int| #[trigger] accepted_declare(calls, k, x) implies replay(calls).aliases.contains_key(x)
                && replay(calls).aliases[x] == declared_canonical(calls[k]) by {
                assert(accepted_declare(prev, k, x));
            }
        },
        RegistryCall::Declare { canonical, minted, why } => {
            if declare_ok(p, canonical, minted) && minted == x {
                assert(accepted_declare(calls, n, x));
                assert forall|k: int| #[trigger] accepted_declare(calls, k, x) implies replay(calls).aliases.contains_key(x)
                    && replay(calls).aliases[x] == declared_canonical(calls[k]) by {
                    if k < n {
                        assert(accepted_declare(prev, k, x));
                    }
                }
            } else {
                assert(!accepted_declare(calls, n, x));
                assert((exists|k: int| accepted_declare(calls, k, x)) <==> exists|k: int| accepted_declare(prev, k, x)) by {
                    if exists|k: int| accepted_declare(calls, k, x) {
                        let k = choose|k: int| accepted_declare(calls, k, x);
                        assert(accepted_declare(prev, k, x));
                    }
                    if exists|k: int| accepted_declare(prev, k, x) {
                        let k = choose|k: int| accepted_declare(prev, k, x);
                        assert(accepted_declare(calls, k, x));
                    }
                }
                assert forall|k: int| #[trigger] accepted_declare(calls, k, x) implies replay(calls).aliases.contains_key(x)
                    && replay(calls).aliases[x] == declared_canonical(calls[k]) by {
                    assert(accepted_declare(prev, k, x));
                }
            }
        },
    }
}

/// RESOLUTION OVER A HISTORY: after any calls on a new registry, an id
/// that an accepted declaration made an alias resolves, in one hop, to
/// the canonical id that declaration named (every accepted declaration
/// of it named the same one); any other id resolves to itself.
pub proof fn law_resolve_after_history(calls: Seq<RegistryCall>, x: Seq<char>)
    ensures
        forall|k: int| #[trigger] accepted_declare(calls, k, x) ==> spec_resolve(replay(calls), x) == declared_canonical(calls[k]),
        (forall|k: int| !#[trigger] accepted_declare(calls, k, x)) ==> spec_resolve(replay(calls), x) == x,
{
    lemma_history(calls, x);
}

/// REASONS OVER A HISTORY: after any calls on a new registry, `why(x)`
/// is the reason of the latest accepted declaration of `x`; with none,
/// it is `SameId` once `x` has been observed twice, and absent before.
pub proof fn law_why_after_history(calls: Seq<RegistryCall>, x: Seq<char>)
    ensures
        replay(calls).why.contains_key(x) <==> latest_reason(calls, x) is Some || times_observed(calls, x) >= 2,
        latest_reason(calls, x) is Some ==> replay(calls).why[x] == latest_reason(calls, x)->Some_0,
        latest_reason(calls, x) is None && times_observed(calls, x) >= 2 ==> replay(calls).why[x] == UnificationView::SameId,
        latest_reason(calls, x) is Some <==> exists|k: int| #[trigger] accepted_declare(calls, k, x),
{
    lemma_history(calls, x);
    lemma_latest_reason(calls, x);
}

proof fn lemma_latest_reason(calls: Seq<RegistryCall>, x: Seq<char>)
    ensures
        latest_reason(calls, x) is Some <==> exists|k: int| #[trigger] accepted_declare(calls, k, x),
    decreases calls.len(),
{
    if calls.len() > 0 {
        let n = calls.len() - 1;
        let prev = calls.drop_last();
        lemma_latest_reason(prev, x);
        assert forall|k: int| 0 <= k < n implies (accepted_declare(calls, k, x) <==> #[trigger] accepted_declare(prev, k, x)) by {
            assert(calls.take(k) =~= prev.take(k));
            assert(calls[k] == prev[k]);
        }
        if !accepted_declare(calls, n, x) {
            if exists|k: int| accepted_declare(calls, k, x) {
                let k = choose|k: int| accepted_declare(calls, k, x);
                assert(accepted_declare(prev, k, x));
            }
            if exists|k: int| accepted_declare(prev, k, x) {
                let k = choose|k: int| accepted_declare(prev, k, x);
                assert(accepted_declare(calls, k, x));
            }
        }
    }
}

/// `k` is the least kind among the votes: some vote gave it, and none
/// gave a kind earlier in declaration order — the minimum of the votes'
/// kinds, whatever their order.
pub open spec fn least_of_votes(k: EntityKind, votes: Seq<(Seq<char>, EntityKind)>) -> bool {
    &&& exists|i: int| 0 <= i < votes.len() && (#[trigger] votes[i]).1 == k
    &&& forall|i: int| 0 <= i < votes.len() ==> kind_rank(k) <= kind_rank((#[trigger] votes[i]).1)
}

proof fn lemma_least_push(k: EntityKind, votes: Seq<(Seq<char>, EntityKind)>, v: (Seq<char>, EntityKind))
    requires
        least_of_votes(k, votes),
    ensures
        least_of_votes(least_kind(k, v.1), votes.push(v)),
{
    let t = votes.push(v);
    let i = choose|i: int| 0 <= i < votes.len() && (#[trigger] votes[i]).1 == k;
    assert(t[i] == votes[i]);
    assert(t[votes.len() as int] == v);
    assert forall|j: int| 0 <= j < t.len() implies kind_rank(least_kind(k, v.1)) <= kind_rank((#[trigger] t[j]).1) by {
        if j < votes.len() {
            assert(t[j] == votes[j]);
        }
    }
}

proof fn lemma_least_concat(
    k1: EntityKind,
    a: Seq<(Seq<char>, EntityKind)>,
    k2: EntityKind,
    b: Seq<(Seq<char>, EntityKind)>,
)
    requires
        least_of_votes(k1, a),
        least_of_votes(k2, b),
    ensures
        least_of_votes(least_kind(k1, k2), a + b),
{
    let t = a + b;
    let i = choose|i: int| 0 <= i < a.len() && (#[trigger] a[i]).1 == k1;
    let j = choose|j: int| 0 <= j < b.len() && (#[trigger] b[j]).1 == k2;
    assert(t[i] == a[i]);
    assert(t[a.len() + j] == b[j]);
    assert forall|q: int| 0 <= q < t.len() implies kind_rank(least_kind(k1, k2)) <= kind_rank((#[trigger] t[q]).1) by {
        if q < a.len() {
            assert(t[q] == a[q]);
        } else {
            assert(t[q] == b[q - a.len()]);
        }
    }
}

/// What one history gives at one home: an entity lives there exactly
/// when kind votes do, and its kind is the least of them.
proof fn lemma_kinds(calls: Seq<RegistryCall>, h: Seq<char>)
    ensures
        replay(calls).entities.contains_key(h) <==> replay(calls).votes.contains_key(h),
        replay(calls).entities.contains_key(h) ==> least_of_votes(replay(calls).entities[h].kind, replay(calls).votes[h]),
    decreases calls.len(),
{
    if calls.len() == 0 {
        return;
    }
    let prev = calls.drop_last();
    let p = replay(prev);
    lemma_kinds(prev, h);
    match calls.last() {
        RegistryCall::Observe { minted, name, kind, w } => {
            let home = spec_resolve(p, minted);
            lemma_kinds(prev, home);
            if h == home {
                let prior = if p.votes.contains_key(home) { p.votes[home] } else { Seq::empty() };
                if p.entities.contains_key(home) {
                    lemma_least_push(p.entities[home].kind, prior, (minted, kind));
                } else {
                    assert(prior.push((minted, kind))[0] == (minted, kind));
                }
            }
        },
        RegistryCall::Declare { canonical, minted, why } => {
            if declare_ok(p, canonical, minted) && p.entities.contains_key(minted) {
                lemma_kinds(prev, minted);
                let aliases = p.aliases.insert(minted, canonical);
                let home = if aliases.contains_key(canonical) { aliases[canonical] } else { canonical };
                lemma_kinds(prev, home);
                if h == home {
                    let moving = p.entities[minted];
                    let moved = p.votes[minted];
                    let entities = p.entities.remove(minted);
                    let votes = p.votes.remove(minted);
                    let prior = if votes.contains_key(home) { votes[home] } else { Seq::empty() };
                    if entities.contains_key(home) {
                        lemma_least_concat(entities[home].kind, prior, moving.kind, moved);
                    } else {
                        assert(prior + moved =~= moved);
                    }
                }
            }
        },
    }
}

/// THE KIND IS THE TESTIMONY'S: after any calls on a new registry, an
/// entity lives at a home exactly when kind votes do, and its kind is
/// the least kind those votes gave — a function of what was testified,
/// not of the order it came in.
pub proof fn law_kind_is_least_vote(calls: Seq<RegistryCall>, h: Seq<char>)
    ensures
        replay(calls).entities.contains_key(h) <==> replay(calls).votes.contains_key(h),
        replay(calls).entities.contains_key(h) ==> least_of_votes(replay(calls).entities[h].kind, replay(calls).votes[h]),
{
    lemma_kinds(calls, h);
}

/// TESTIMONY IS KEPT: after `observe(minted, name, kind, w)`, the
/// entity at the id `minted` resolves to holds `name` among its names
/// and `w` among its testimonies, its names still strictly ascending
/// and its testimonies still sorted; every other home's entity is as it
/// was.
pub proof fn law_observe_records_testimony(m: RegistryModel, minted: Seq<char>, name: Seq<char>, kind: EntityKind, w: WitnessRefView)
    requires
        model_wf(m),
    ensures
        ({
            let a = after_observe(m, minted, name, kind, w);
            let h = spec_resolve(m, minted);
            &&& a.entities.contains_key(h)
            &&& a.entities[h].names.contains(name)
            &&& a.entities[h].witnesses.contains(w)
            &&& names_sorted(a.entities[h].names)
            &&& witnesses_sorted(a.entities[h].witnesses)
            &&& forall|k: Seq<char>| k != h ==> (#[trigger] a.entities.contains_key(k) <==> m.entities.contains_key(k))
            &&& forall|k: Seq<char>| k != h && #[trigger] m.entities.contains_key(k) ==> a.entities[k] == m.entities[k]
        }),
{
    let h = spec_resolve(m, minted);
    let ns = if m.entities.contains_key(h) { m.entities[h].names } else { Seq::<Seq<char>>::empty() };
    let ws = if m.entities.contains_key(h) { m.entities[h].witnesses } else { Seq::<WitnessRefView>::empty() };
    lemma_insert_name(ns, name);
    lemma_insert_by_key_sorted(ws, w);
    lemma_prefix_not_after(ws, w);
    let t = insert_by_key(ws, w);
    assert(t[prefix_not_after(ws, w) as int] == w);
}

/// Two registries that agree on everything but the order in which each
/// home's kind votes arrived.
pub open spec fn same_but_vote_order(a: RegistryModel, b: RegistryModel) -> bool {
    &&& a.aliases == b.aliases
    &&& a.why == b.why
    &&& a.minted == b.minted
    &&& a.entities == b.entities
    &&& a.votes.dom() == b.votes.dom()
    &&& forall|h: Seq<char>| #[trigger] a.votes.contains_key(h) ==> a.votes[h].to_multiset() == b.votes[h].to_multiset()
}

/// Every call of `calls` is an observation.
pub open spec fn observations_only(calls: Seq<RegistryCall>) -> bool {
    forall|i: int| 0 <= i < calls.len() ==> #[trigger] calls[i] is Observe
}

proof fn lemma_same_trans(a: RegistryModel, b: RegistryModel, c: RegistryModel)
    requires
        same_but_vote_order(a, b),
        same_but_vote_order(b, c),
    ensures
        same_but_vote_order(a, c),
{
}

proof fn lemma_observe_congruent(a: RegistryModel, b: RegistryModel, c: RegistryCall)
    requires
        same_but_vote_order(a, b),
        c is Observe,
    ensures
        same_but_vote_order(apply_call(a, c), apply_call(b, c)),
{
    match c {
        RegistryCall::Observe { minted, name, kind, w } => {
            let x = apply_call(a, c);
            let y = apply_call(b, c);
            let h = spec_resolve(a, minted);
            let pa = if a.votes.contains_key(h) { a.votes[h] } else { Seq::empty() };
            let pb = if b.votes.contains_key(h) { b.votes[h] } else { Seq::empty() };
            vstd::seq_lib::to_multiset_build(pa, (minted, kind));
            vstd::seq_lib::to_multiset_build(pb, (minted, kind));
            assert(x.entities =~= y.entities);
            assert(x.why =~= y.why);
            assert(x.votes.dom() =~= y.votes.dom());
        },
        _ => {},
    }
}

proof fn lemma_observe_keeps_wf(m: RegistryModel, c: RegistryCall)
    requires
        model_wf(m),
        c is Observe,
    ensures
        model_wf(apply_call(m, c)),
{
    match c {
        RegistryCall::Observe { minted, name, kind, w } => {
            law_observe_records_testimony(m, minted, name, kind, w);
        },
        _ => {},
    }
}

proof fn lemma_replay_wf(calls: Seq<RegistryCall>)
    requires
        observations_only(calls),
    ensures
        model_wf(replay(calls)),
    decreases calls.len(),
{
    if calls.len() > 0 {
        let p = calls.drop_last();
        assert(observations_only(p)) by {
            assert forall|i: int| 0 <= i < p.len() implies #[trigger] p[i] is Observe by {
                assert(p[i] == calls[i]);
            }
        }
        lemma_replay_wf(p);
        assert(calls[calls.len() - 1] is Observe);
        lemma_observe_keeps_wf(replay(p), calls.last());
    }
}

/// Moving one observation to the end changes nothing but vote order.
proof fn lemma_move_to_end(p: Seq<RegistryCall>, x: RegistryCall, q: Seq<RegistryCall>)
    requires
        observations_only(p + seq![x] + q),
    ensures
        same_but_vote_order(replay(p + seq![x] + q), replay(p + q + seq![x])),
    decreases q.len(),
{
    let a = p + seq![x] + q;
    assert(a[p.len() as int] == x);
    if q.len() == 0 {
        assert(a =~= p + q + seq![x]);
    } else {
        let y = q.last();
        let q1 = q.drop_last();
        assert(a[a.len() - 1] == y);
        let a1 = p + seq![x] + q1;
        assert(observations_only(a1)) by {
            assert forall|i: int| 0 <= i < a1.len() implies #[trigger] a1[i] is Observe by {
                assert(a1[i] == a[i]);
            }
        }
        lemma_move_to_end(p, x, q1);
        assert(a.drop_last() =~= a1);
        let b1 = p + q1 + seq![x];
        lemma_observe_congruent(replay(a1), replay(b1), y);
        let base = p + q1;
        assert(b1.drop_last() =~= base);
        assert(observations_only(base)) by {
            assert forall|i: int| 0 <= i < base.len() implies #[trigger] base[i] is Observe by {
                if i < p.len() {
                    assert(base[i] == a[i]);
                } else {
                    assert(base[i] == a[i + 1]);
                }
            }
        }
        lemma_replay_wf(base);
        let m = replay(base);
        match (x, y) {
            (
                RegistryCall::Observe { minted: m1, name: n1, kind: k1, w: w1 },
                RegistryCall::Observe { minted: m2, name: n2, kind: k2, w: w2 },
            ) => {
                law_observe_order_independent(m, m1, n1, k1, w1, m2, n2, k2, w2);
            },
            _ => {},
        }
        let c = p + q + seq![x];
        assert(c.drop_last() =~= base.push(y));
        assert(base.push(y).drop_last() =~= base);
        assert(b1.last() == x && c.last() == x && base.push(y).last() == y);
        assert(replay(b1) == apply_call(m, x));
        assert(replay(base.push(y)) == apply_call(m, y));
        assert(replay(c) == apply_call(apply_call(m, y), x));
        assert(same_but_vote_order(
            apply_call(apply_call(m, x), y),
            apply_call(apply_call(m, y), x),
        ));
        lemma_same_trans(replay(a), apply_call(replay(b1), y), replay(c));
    }
}

/// OBSERVATION ORDER IS FORGOTTEN: two histories of observations that
/// hold the same calls, as a multiset, leave a new registry with the
/// same entities, reasons, minted ids and aliases, and each home the
/// same multiset of kind votes.
pub proof fn law_observation_order_is_forgotten(a: Seq<RegistryCall>, b: Seq<RegistryCall>)
    requires
        observations_only(a),
        observations_only(b),
        a.to_multiset() == b.to_multiset(),
    ensures
        same_but_vote_order(replay(a), replay(b)),
    decreases b.len(),
{
    vstd::seq_lib::to_multiset_len(a);
    vstd::seq_lib::to_multiset_len(b);
    if b.len() == 0 {
        assert(a.len() == 0);
        assert(a =~= b);
    } else {
        let x = b.last();
        let b1 = b.drop_last();
        assert(b =~= b1.push(x));
        vstd::seq_lib::to_multiset_build(b1, x);
        assert(b.contains(x)) by {
            assert(b[b.len() - 1] == x);
        }
        vstd::seq_lib::to_multiset_contains(b, x);
        vstd::seq_lib::to_multiset_contains(a, x);
        let i = choose|i: int| 0 <= i < a.len() && a[i] == x;
        let a1 = a.remove(i);
        vstd::seq_lib::to_multiset_remove(a, i);
        assert(a1.to_multiset() =~= b1.to_multiset()) by {
            broadcast use vstd::multiset::group_multiset_axioms;
        }
        assert(observations_only(a1)) by {
            assert forall|k: int| 0 <= k < a1.len() implies #[trigger] a1[k] is Observe by {
                if k < i {
                    assert(a1[k] == a[k]);
                } else {
                    assert(a1[k] == a[k + 1]);
                }
            }
        }
        assert(observations_only(b1)) by {
            assert forall|k: int| 0 <= k < b1.len() implies #[trigger] b1[k] is Observe by {
                assert(b1[k] == b[k]);
            }
        }
        law_observation_order_is_forgotten(a1, b1);
        let p = a.take(i);
        let q = a.skip(i + 1);
        assert(a =~= p + seq![x] + q);
        assert(a1 =~= p + q);
        lemma_move_to_end(p, x, q);
        let c = p + q + seq![x];
        assert(c.drop_last() =~= a1);
        assert(x is Observe) by {
            assert(b[b.len() - 1] == x);
        }
        lemma_observe_congruent(replay(a1), replay(b1), x);
        lemma_same_trans(replay(a), replay(c), replay(b));
    }
}

} // verus!
