//! A map keyed by entity id, kept as a vector sorted in Rust's string
//! order — the iteration order of the `BTreeMap` it stands in for.

use vstd::prelude::*;
use crate::canon::EntityId;
use crate::text::{chars_lt, lemma_chars_lt_asym, lemma_chars_lt_irreflexive, lemma_chars_lt_total, str_equal, str_less};

verus! {

/// The keys of `s` are in strictly increasing string order.
pub open spec fn strictly_sorted<T>(s: Seq<(Seq<char>, T)>) -> bool {
    forall|i: int, j: int| 0 <= i < j < s.len() ==> chars_lt(s[i].0, s[j].0)
}

/// The map an association sequence denotes (later entries win).
pub open spec fn seq_to_map<T>(s: Seq<(Seq<char>, T)>) -> Map<Seq<char>, T>
    decreases s.len(),
{
    if s.len() == 0 {
        Map::empty()
    } else {
        seq_to_map(s.drop_last()).insert(s.last().0, s.last().1)
    }
}

pub proof fn lemma_seq_to_map<T>(s: Seq<(Seq<char>, T)>)
    requires
        strictly_sorted(s),
    ensures
        forall|k: Seq<char>| seq_to_map(s).contains_key(k) <==> exists|i: int| 0 <= i < s.len() && (#[trigger] s[i]).0 == k,
        forall|i: int| 0 <= i < s.len() ==> seq_to_map(s)[(#[trigger] s[i]).0] == s[i].1,
    decreases s.len(),
{
    if s.len() > 0 {
        let p = s.drop_last();
        assert(strictly_sorted(p)) by {
            assert forall|i: int, j: int| 0 <= i < j < p.len() implies chars_lt(p[i].0, p[j].0) by {
                assert(p[i] == s[i] && p[j] == s[j]);
            }
        }
        lemma_seq_to_map(p);
        let l = s.last();
        assert forall|k: Seq<char>| seq_to_map(s).contains_key(k) implies exists|i: int| 0 <= i < s.len() && (#[trigger] s[i]).0 == k by {
            if k == l.0 {
                assert(s[s.len() - 1].0 == k);
            } else {
                assert(seq_to_map(p).contains_key(k));
                let i = choose|i: int| 0 <= i < p.len() && (#[trigger] p[i]).0 == k;
                assert(p[i] == s[i]);
                assert(s[i].0 == k);
            }
        }
        assert forall|k: Seq<char>| (exists|i: int| 0 <= i < s.len() && (#[trigger] s[i]).0 == k) implies seq_to_map(s).contains_key(k) by {
            let i = choose|i: int| 0 <= i < s.len() && (#[trigger] s[i]).0 == k;
            if i < s.len() - 1 {
                assert(p[i] == s[i]);
                assert(p[i].0 == k);
                assert(seq_to_map(p).contains_key(k));
            }
        }
        assert forall|i: int| 0 <= i < s.len() implies seq_to_map(s)[(#[trigger] s[i]).0] == s[i].1 by {
            if i < s.len() - 1 {
                assert(p[i] == s[i]);
                assert(chars_lt(s[i].0, l.0));
                lemma_chars_lt_asym(s[i].0, l.0);
                assert(seq_to_map(p)[p[i].0] == p[i].1);
            }
        }
    }
}

/// How many keys of `s` satisfy `p`.
pub open spec fn count_keys<T>(s: Seq<(Seq<char>, T)>, p: spec_fn(Seq<char>) -> bool) -> nat
    decreases s.len(),
{
    if s.len() == 0 {
        0
    } else {
        count_keys(s.drop_last(), p) + if p(s.last().0) { 1nat } else { 0nat }
    }
}

/// The keys of a sorted association sequence form a finite set, and
/// those satisfying `p` number as many as its entries do.
pub proof fn lemma_dom_filter_len<T>(s: Seq<(Seq<char>, T)>, p: spec_fn(Seq<char>) -> bool)
    requires
        strictly_sorted(s),
    ensures
        seq_to_map(s).dom().finite(),
        seq_to_map(s).dom().filter(p).len() == count_keys(s, p),
    decreases s.len(),
{
    if s.len() > 0 {
        let q = s.drop_last();
        assert(strictly_sorted(q)) by {
            assert forall|i: int, j: int| 0 <= i < j < q.len() implies chars_lt(q[i].0, q[j].0) by {
                assert(q[i] == s[i] && q[j] == s[j]);
            }
        }
        lemma_dom_filter_len(q, p);
        lemma_seq_to_map(q);
        let k = s.last().0;
        assert(!seq_to_map(q).contains_key(k)) by {
            if seq_to_map(q).contains_key(k) {
                let i = choose|i: int| 0 <= i < q.len() && (#[trigger] q[i]).0 == k;
                assert(q[i] == s[i]);
                assert(chars_lt(s[i].0, s[s.len() - 1].0));
                lemma_chars_lt_irreflexive(k);
            }
        }
        let d = seq_to_map(q).dom();
        assert(seq_to_map(s).dom() =~= d.insert(k));
        if p(k) {
            assert(seq_to_map(s).dom().filter(p) =~= d.filter(p).insert(k));
        } else {
            assert(seq_to_map(s).dom().filter(p) =~= d.filter(p));
        }
    } else {
        assert(seq_to_map(s).dom().filter(p) =~= Set::<Seq<char>>::empty());
    }
}

/// The keys of a sorted association sequence number as its entries do.
pub proof fn lemma_dom_len<T>(s: Seq<(Seq<char>, T)>)
    requires
        strictly_sorted(s),
    ensures
        seq_to_map(s).dom().finite(),
        seq_to_map(s).dom().len() == s.len(),
    decreases s.len(),
{
    let t = |k: Seq<char>| true;
    lemma_dom_filter_len(s, t);
    assert(seq_to_map(s).dom().filter(t) =~= seq_to_map(s).dom());
    lemma_count_all(s, t);
}

proof fn lemma_count_all<T>(s: Seq<(Seq<char>, T)>, p: spec_fn(Seq<char>) -> bool)
    requires
        forall|k: Seq<char>| #[trigger] p(k),
    ensures
        count_keys(s, p) == s.len(),
    decreases s.len(),
{
    if s.len() > 0 {
        lemma_count_all(s.drop_last(), p);
        assert(p(s.last().0));
    }
}

/// Two sorted association sequences with the same entries denote
/// equal maps; one map, characterized by its entries.
proof fn lemma_map_by_entries<T>(s: Seq<(Seq<char>, T)>, m: Map<Seq<char>, T>)
    requires
        strictly_sorted(s),
        forall|k: Seq<char>| m.contains_key(k) <==> exists|i: int| 0 <= i < s.len() && (#[trigger] s[i]).0 == k,
        forall|i: int| 0 <= i < s.len() ==> m[(#[trigger] s[i]).0] == s[i].1,
    ensures
        seq_to_map(s) == m,
{
    lemma_seq_to_map(s);
    assert forall|k: Seq<char>| #[trigger] seq_to_map(s).contains_key(k) implies seq_to_map(s)[k] == m[k] by {
        let i = choose|i: int| 0 <= i < s.len() && (#[trigger] s[i]).0 == k;
    }
    assert(seq_to_map(s) =~= m);
}

/// A map has one sorted association sequence: two strictly sorted
/// sequences denoting the same map are the same sequence.
pub proof fn lemma_sorted_assoc_unique<T>(s1: Seq<(Seq<char>, T)>, s2: Seq<(Seq<char>, T)>)
    requires
        strictly_sorted(s1),
        strictly_sorted(s2),
        seq_to_map(s1) == seq_to_map(s2),
    ensures
        s1 == s2,
    decreases s1.len() + s2.len(),
{
    lemma_seq_to_map(s1);
    lemma_seq_to_map(s2);
    if s1.len() == 0 {
        if s2.len() > 0 {
            assert(seq_to_map(s2).contains_key(s2[0].0));
        }
        assert(s1 =~= s2);
    } else if s2.len() == 0 {
        assert(seq_to_map(s1).contains_key(s1[0].0));
    } else {
        let a = s1.last();
        let b = s2.last();
        // the last keys are both the greatest key of the map
        assert(a.0 == b.0) by {
            assert(seq_to_map(s2).contains_key(a.0));
            let j = choose|j: int| 0 <= j < s2.len() && (#[trigger] s2[j]).0 == a.0;
            assert(seq_to_map(s1).contains_key(b.0));
            let i = choose|i: int| 0 <= i < s1.len() && (#[trigger] s1[i]).0 == b.0;
            if a.0 != b.0 {
                assert(j < s2.len() - 1);
                assert(chars_lt(a.0, b.0));
                assert(i < s1.len() - 1);
                assert(chars_lt(b.0, a.0));
                lemma_chars_lt_asym(a.0, b.0);
            }
        }
        assert(a.1 == b.1) by {
            assert(seq_to_map(s1)[s1[s1.len() - 1].0] == a.1);
            assert(seq_to_map(s2)[s2[s2.len() - 1].0] == b.1);
        }
        let p1 = s1.drop_last();
        let p2 = s2.drop_last();
        assert(strictly_sorted(p1)) by {
            assert forall|i: int, j: int| 0 <= i < j < p1.len() implies chars_lt(p1[i].0, p1[j].0) by {
                assert(p1[i] == s1[i] && p1[j] == s1[j]);
            }
        }
        assert(strictly_sorted(p2)) by {
            assert forall|i: int, j: int| 0 <= i < j < p2.len() implies chars_lt(p2[i].0, p2[j].0) by {
                assert(p2[i] == s2[i] && p2[j] == s2[j]);
            }
        }
        lemma_seq_to_map(p1);
        lemma_seq_to_map(p2);
        assert(!seq_to_map(p1).contains_key(a.0)) by {
            if seq_to_map(p1).contains_key(a.0) {
                let i = choose|i: int| 0 <= i < p1.len() && (#[trigger] p1[i]).0 == a.0;
                assert(s1[i] == p1[i]);
                assert(chars_lt(s1[i].0, s1[s1.len() - 1].0));
                lemma_chars_lt_irreflexive(a.0);
            }
        }
        assert(!seq_to_map(p2).contains_key(b.0)) by {
            if seq_to_map(p2).contains_key(b.0) {
                let i = choose|i: int| 0 <= i < p2.len() && (#[trigger] p2[i]).0 == b.0;
                assert(s2[i] == p2[i]);
                assert(chars_lt(s2[i].0, s2[s2.len() - 1].0));
                lemma_chars_lt_irreflexive(b.0);
            }
        }
        assert(seq_to_map(p1) =~= seq_to_map(s1).remove(a.0));
        assert(seq_to_map(p2) =~= seq_to_map(s2).remove(b.0));
        lemma_sorted_assoc_unique(p1, p2);
        assert(s1 =~= p1.push(a));
        assert(s2 =~= p2.push(b));
    }
}

/// Entries sorted by entity id, one per id.
#[derive(Clone, Debug, PartialEq)]
pub struct IdMap<V> {
    pub entries: Vec<(EntityId, V)>,
}

impl<V: View> IdMap<V> {
    /// The entries as (key characters, value view).
    pub open spec fn pairs(&self) -> Seq<(Seq<char>, V::V)> {
        self.entries@.map_values(|e: (EntityId, V)| (e.0.0@, e.1@))
    }

    pub open spec fn wf(&self) -> bool {
        strictly_sorted(self.pairs())
    }

    pub open spec fn to_map(&self) -> Map<Seq<char>, V::V> {
        seq_to_map(self.pairs())
    }

    pub fn new() -> (m: Self)
        ensures
            m.wf(),
            m.to_map() == Map::<Seq<char>, V::V>::empty(),
            m.pairs().len() == 0,
    {
        let m = IdMap { entries: Vec::new() };
        assert(m.pairs() =~= Seq::<(Seq<char>, V::V)>::empty());
        m
    }

    /// Where `key` is (`Ok`), or where it would go (`Err`).
    pub fn find(&self, key: &str) -> (r: Result<usize, usize>)
        requires
            self.wf(),
        ensures
            match r {
                Ok(i) => i < self.pairs().len() && self.pairs()[i as int].0 == key@,
                Err(p) => p <= self.pairs().len()
                    && (forall|j: int| 0 <= j < p ==> chars_lt(#[trigger] self.pairs()[j].0, key@))
                    && (forall|j: int| p <= j < self.pairs().len() ==> chars_lt(key@, #[trigger] self.pairs()[j].0)),
            },
            r is Ok <==> self.to_map().contains_key(key@),
    {
        proof {
            lemma_seq_to_map(self.pairs());
        }
        let mut i: usize = 0;
        while i < self.entries.len()
            invariant
                self.wf(),
                i <= self.entries.len(),
                forall|j: int| 0 <= j < i ==> chars_lt(#[trigger] self.pairs()[j].0, key@),
            decreases self.entries.len() - i,
        {
            let k = self.entries[i].0.0.as_str();
            assert(self.pairs()[i as int].0 == k@);
            if str_equal(k, key) {
                proof {
                    lemma_seq_to_map(self.pairs());
                }
                return Ok(i);
            }
            if !str_less(k, key) {
                proof {
                    lemma_chars_lt_total(k@, key@);
                    assert forall|j: int| i <= j < self.pairs().len() implies chars_lt(key@, #[trigger] self.pairs()[j].0) by {
                        if j > i {
                            crate::text::lemma_chars_lt_trans(key@, k@, self.pairs()[j].0);
                        }
                    }
                    assert forall|j: int| 0 <= j < self.pairs().len() implies (#[trigger] self.pairs()[j]).0 != key@ by {
                        if j < i {
                            lemma_chars_lt_asym(self.pairs()[j].0, key@);
                        } else {
                            lemma_chars_lt_asym(key@, self.pairs()[j].0);
                        }
                    }
                    lemma_seq_to_map(self.pairs());
                }
                return Err(i);
            }
            i += 1;
        }
        proof {
            assert forall|j: int| 0 <= j < self.pairs().len() implies (#[trigger] self.pairs()[j]).0 != key@ by {
                lemma_chars_lt_asym(self.pairs()[j].0, key@);
            }
            lemma_seq_to_map(self.pairs());
        }
        Err(i)
    }

    pub fn get(&self, key: &str) -> (r: Option<&V>)
        requires
            self.wf(),
        ensures
            match r {
                Some(v) => self.to_map().contains_key(key@) && self.to_map()[key@] == v@,
                None => !self.to_map().contains_key(key@),
            },
    {
        match self.find(key) {
            Ok(i) => {
                proof {
                    lemma_seq_to_map(self.pairs());
                    assert(self.pairs()[i as int] == (self.entries@[i as int].0.0@, self.entries@[i as int].1@));
                }
                Some(&self.entries[i].1)
            },
            Err(_) => None,
        }
    }

    /// Store `v` under `key`, replacing what was there.
    pub fn set(&mut self, key: EntityId, v: V)
        requires
            old(self).wf(),
        ensures
            final(self).wf(),
            final(self).to_map() == old(self).to_map().insert(key.0@, v@),
    {
        let ghost before = self.pairs();
        let ghost kv = key.0@;
        let ghost vv = v@;
        proof {
            lemma_seq_to_map(before);
        }
        match self.find(key.0.as_str()) {
            Ok(i) => {
                self.entries.set(i, (key, v));
                proof {
                    assert(self.pairs() =~= before.update(i as int, (kv, vv)));
                    assert(strictly_sorted(self.pairs())) by {
                        assert forall|a: int, b: int| 0 <= a < b < self.pairs().len() implies chars_lt(self.pairs()[a].0, self.pairs()[b].0) by {
                            assert(self.pairs()[a].0 == before[a].0);
                            assert(self.pairs()[b].0 == before[b].0);
                        }
                    }
                    let m = seq_to_map(before).insert(kv, vv);
                    assert forall|k: Seq<char>| m.contains_key(k) implies exists|j: int| 0 <= j < self.pairs().len() && (#[trigger] self.pairs()[j]).0 == k by {
                        if k == kv {
                            assert(self.pairs()[i as int].0 == k);
                        } else {
                            assert(seq_to_map(before).contains_key(k));
                            let j = choose|j: int| 0 <= j < before.len() && (#[trigger] before[j]).0 == k;
                            assert(j != i);
                            assert(self.pairs()[j] == before[j]);
                            assert(self.pairs()[j].0 == k);
                        }
                    }
                    assert forall|k: Seq<char>| (exists|j: int| 0 <= j < self.pairs().len() && (#[trigger] self.pairs()[j]).0 == k) implies m.contains_key(k) by {
                        let j = choose|j: int| 0 <= j < self.pairs().len() && (#[trigger] self.pairs()[j]).0 == k;
                        if j != i {
                            assert(self.pairs()[j] == before[j]);
                            assert(before[j].0 == k);
                        }
                    }
                    assert forall|j: int| 0 <= j < self.pairs().len() implies m[(#[trigger] self.pairs()[j]).0] == self.pairs()[j].1 by {
                        if j != i {
                            assert(self.pairs()[j] == before[j]);
                            assert(before[j].0 != kv) by {
                                if j < i {
                                    lemma_chars_lt_asym(before[j].0, before[i as int].0);
                                } else {
                                    lemma_chars_lt_asym(before[i as int].0, before[j].0);
                                }
                            }
                        }
                    }
                    lemma_map_by_entries(self.pairs(), m);
                }
            },
            Err(p) => {
                self.entries.insert(p, (key, v));
                proof {
                    assert(self.pairs() =~= before.insert(p as int, (kv, vv)));
                    assert(strictly_sorted(self.pairs())) by {
                        assert forall|a: int, b: int| 0 <= a < b < self.pairs().len() implies chars_lt(self.pairs()[a].0, self.pairs()[b].0) by {
                            if a < p && b < p {
                                assert(self.pairs()[a] == before[a] && self.pairs()[b] == before[b]);
                            } else if a < p && b == p {
                                assert(self.pairs()[a] == before[a]);
                            } else if a < p {
                                assert(self.pairs()[a] == before[a] && self.pairs()[b] == before[b - 1]);
                                crate::text::lemma_chars_lt_trans(before[a].0, kv, before[b - 1].0);
                            } else if a == p {
                                assert(self.pairs()[b] == before[b - 1]);
                            } else {
                                assert(self.pairs()[a] == before[a - 1] && self.pairs()[b] == before[b - 1]);
                            }
                        }
                    }
                    let m = seq_to_map(before).insert(kv, vv);
                    assert forall|k: Seq<char>| m.contains_key(k) <==> exists|j: int| 0 <= j < self.pairs().len() && (#[trigger] self.pairs()[j]).0 == k by {
                        if m.contains_key(k) {
                            if k == kv {
                                assert(self.pairs()[p as int].0 == k);
                            } else {
                                let j = choose|j: int| 0 <= j < before.len() && (#[trigger] before[j]).0 == k;
                                if j < p {
                                    assert(self.pairs()[j].0 == k);
                                } else {
                                    assert(self.pairs()[j + 1].0 == k);
                                }
                            }
                        }
                        if exists|j: int| 0 <= j < self.pairs().len() && (#[trigger] self.pairs()[j]).0 == k {
                            let j = choose|j: int| 0 <= j < self.pairs().len() && (#[trigger] self.pairs()[j]).0 == k;
                            if j < p {
                                assert(before[j].0 == k);
                            } else if j > p {
                                assert(before[j - 1].0 == k);
                            }
                        }
                    }
                    assert forall|j: int| 0 <= j < self.pairs().len() implies m[(#[trigger] self.pairs()[j]).0] == self.pairs()[j].1 by {
                        if j < p {
                            assert(self.pairs()[j] == before[j]);
                            lemma_chars_lt_asym(before[j].0, kv);
                        } else if j > p {
                            assert(self.pairs()[j] == before[j - 1]);
                            lemma_chars_lt_asym(kv, before[j - 1].0);
                        }
                    }
                    lemma_map_by_entries(self.pairs(), m);
                }
            },
        }
    }

    /// Take the value under `key` out of the map, if there is one.
    pub fn take(&mut self, key: &str) -> (r: Option<V>)
        requires
            old(self).wf(),
        ensures
            final(self).wf(),
            match r {
                Some(v) => old(self).to_map().contains_key(key@) && old(self).to_map()[key@] == v@
                    && final(self).to_map() == old(self).to_map().remove(key@),
                None => !old(self).to_map().contains_key(key@) && final(self).to_map() == old(self).to_map(),
            },
    {
        let ghost before = self.pairs();
        proof {
            lemma_seq_to_map(before);
        }
        match self.find(key) {
            Ok(i) => {
                let (_, v) = self.entries.remove(i);
                proof {
                    assert(self.pairs() =~= before.remove(i as int));
                    assert(strictly_sorted(self.pairs())) by {
                        assert forall|a: int, b: int| 0 <= a < b < self.pairs().len() implies chars_lt(self.pairs()[a].0, self.pairs()[b].0) by {
                            if b < i {
                                assert(self.pairs()[a] == before[a] && self.pairs()[b] == before[b]);
                            } else if a < i {
                                assert(self.pairs()[a] == before[a] && self.pairs()[b] == before[b + 1]);
                            } else {
                                assert(self.pairs()[a] == before[a + 1] && self.pairs()[b] == before[b + 1]);
                            }
                        }
                    }
                    let m = seq_to_map(before).remove(key@);
                    assert forall|k: Seq<char>| m.contains_key(k) <==> exists|j: int| 0 <= j < self.pairs().len() && (#[trigger] self.pairs()[j]).0 == k by {
                        if m.contains_key(k) {
                            let j = choose|j: int| 0 <= j < before.len() && (#[trigger] before[j]).0 == k;
                            if j < i {
                                assert(self.pairs()[j].0 == k);
                            } else {
                                assert(j != i);
                                assert(self.pairs()[j - 1].0 == k);
                            }
                        }
                        if exists|j: int| 0 <= j < self.pairs().len() && (#[trigger] self.pairs()[j]).0 == k {
                            let j = choose|j: int| 0 <= j < self.pairs().len() && (#[trigger] self.pairs()[j]).0 == k;
                            if j < i {
                                assert(before[j].0 == k);
                                lemma_chars_lt_asym(before[j].0, before[i as int].0);
                            } else {
                                assert(before[j + 1].0 == k);
                                lemma_chars_lt_asym(before[i as int].0, before[j + 1].0);
                            }
                        }
                    }
                    assert forall|j: int| 0 <= j < self.pairs().len() implies m[(#[trigger] self.pairs()[j]).0] == self.pairs()[j].1 by {
                        if j < i {
                            assert(self.pairs()[j] == before[j]);
                            lemma_chars_lt_asym(before[j].0, before[i as int].0);
                        } else {
                            assert(self.pairs()[j] == before[j + 1]);
                            lemma_chars_lt_asym(before[i as int].0, before[j + 1].0);
                        }
                    }
                    lemma_map_by_entries(self.pairs(), m);
                    assert(before[i as int].1 == v@);
                }
                Some(v)
            },
            Err(_) => None,
        }
    }
}

} // verus!
