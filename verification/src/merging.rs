//! Merging two timelines: their boundary and region histories must not
//! share an id — a clash is an error naming the id — and their change
//! events merge into one list in time order, events at one instant
//! keeping the order they came in (the first timeline's first).

use vstd::prelude::*;
use crate::world::{before, lemma_before_total_order, precedes, TimePoint};

verus! {

/// A timeline's parts by id: boundary histories, region histories, and
/// its change events with their instants.
pub struct TimelineParts<B, R, E> {
    pub boundaries: Vec<(u64, B)>,
    pub regions: Vec<(u64, R)>,
    pub events: Vec<(TimePoint, E)>,
}

/// Two timelines claim one id.
#[derive(Clone, Copy, Debug, PartialEq, Eq, Structural)]
pub enum MergeError {
    DuplicateBoundary(u64),
    DuplicateRegion(u64),
}

/// The first position whose id is not below `id`.
pub open spec fn id_slot<T>(s: Seq<(u64, T)>, id: u64) -> nat
    decreases s.len(),
{
    if s.len() == 0 || id <= s[0].0 {
        0
    } else {
        1 + id_slot(s.drop_first(), id)
    }
}

/// `e` added to `s` by id; `None` if its id is already there.
pub open spec fn add_by_id<T>(s: Seq<(u64, T)>, e: (u64, T)) -> Option<Seq<(u64, T)>> {
    if exists|i: int| 0 <= i < s.len() && (#[trigger] s[i]).0 == e.0 {
        None
    } else {
        let k = id_slot(s, e.0) as int;
        Some(s.take(k) + seq![e] + s.skip(k))
    }
}

/// Every entry of `more` added in turn: the first whose id is taken is
/// the clash.
pub open spec fn add_all_by_id<T>(s: Seq<(u64, T)>, more: Seq<(u64, T)>) -> Result<Seq<(u64, T)>, u64>
    decreases more.len(),
{
    if more.len() == 0 {
        Ok(s)
    } else {
        match add_all_by_id(s, more.drop_last()) {
            Err(id) => Err(id),
            Ok(t) => match add_by_id(t, more.last()) {
                None => Err(more.last().0),
                Some(u) => Ok(u),
            },
        }
    }
}

/// The first position whose instant is after `t`.
pub open spec fn time_slot<E>(s: Seq<(TimePoint, E)>, t: TimePoint) -> nat
    decreases s.len(),
{
    if s.len() == 0 || before(t, s[0].0) {
        0
    } else {
        1 + time_slot(s.drop_first(), t)
    }
}

/// The events in time order, events at one instant in the order given:
/// each placed after every event not later than it.
pub open spec fn time_ordered<E>(s: Seq<(TimePoint, E)>) -> Seq<(TimePoint, E)>
    decreases s.len(),
{
    if s.len() == 0 {
        Seq::empty()
    } else {
        let done = time_ordered(s.drop_last());
        let k = time_slot(done, s.last().0) as int;
        done.take(k) + seq![s.last()] + done.skip(k)
    }
}

/// What merging gives: boundaries, then regions, each added by id; the
/// events of both in time order.
pub open spec fn merged<B, R, E>(
    base: (Seq<(u64, B)>, Seq<(u64, R)>, Seq<(TimePoint, E)>),
    other: (Seq<(u64, B)>, Seq<(u64, R)>, Seq<(TimePoint, E)>),
) -> Result<(Seq<(u64, B)>, Seq<(u64, R)>, Seq<(TimePoint, E)>), MergeError> {
    match add_all_by_id(base.0, other.0) {
        Err(id) => Err(MergeError::DuplicateBoundary(id)),
        Ok(bs) => match add_all_by_id(base.1, other.1) {
            Err(id) => Err(MergeError::DuplicateRegion(id)),
            Ok(rs) => Ok((bs, rs, time_ordered(base.2 + other.2))),
        },
    }
}

pub open spec fn parts<B, R, E>(t: TimelineParts<B, R, E>) -> (Seq<(u64, B)>, Seq<(u64, R)>, Seq<(TimePoint, E)>) {
    (t.boundaries@, t.regions@, t.events@)
}

proof fn lemma_add_all_err<T>(s: Seq<(u64, T)>, more: Seq<(u64, T)>, k: int)
    requires
        0 <= k <= more.len(),
        add_all_by_id(s, more.take(k)) is Err,
    ensures
        add_all_by_id(s, more) == add_all_by_id(s, more.take(k)),
    decreases more.len(),
{
    if k < more.len() {
        assert(more.drop_last().take(k) =~= more.take(k));
        lemma_add_all_err(s, more.drop_last(), k);
    } else {
        assert(more.take(k) =~= more);
    }
}

/// Adds `e` by id, or hands it back when its id is taken.
fn add_one<T>(s: &mut Vec<(u64, T)>, e: (u64, T)) -> (r: bool)
    ensures
        r <==> add_by_id(old(s)@, e) is Some,
        r ==> final(s)@ == add_by_id(old(s)@, e)->Some_0,
        !r ==> final(s)@ == old(s)@,
{
    let ghost v = s@;
    let mut i: usize = 0;
    while i < s.len()
        invariant
            v == s@,
            i <= v.len(),
            forall|j: int| 0 <= j < i ==> (#[trigger] v[j]).0 != e.0,
        decreases v.len() - i,
    {
        if s[i].0 == e.0 {
            return false;
        }
        i += 1;
    }
    let mut k: usize = 0;
    assert(v.skip(0) =~= v);
    while k < s.len() && s[k].0 < e.0
        invariant
            v == s@,
            k <= v.len(),
            id_slot(v, e.0) == k + id_slot(v.skip(k as int), e.0),
        decreases v.len() - k,
    {
        assert(v.skip(k as int)[0] == v[k as int]);
        assert(v.skip(k as int).drop_first() =~= v.skip(k + 1));
        k += 1;
    }
    proof {
        if k < v.len() {
            assert(v.skip(k as int)[0] == v[k as int]);
        }
    }
    let ghost ev = e;
    s.insert(k, e);
    assert(s@ =~= v.take(k as int) + seq![ev] + v.skip(k as int));
    true
}

/// Inserts `e` after every event not later than it.
fn add_in_time<E>(s: &mut Vec<(TimePoint, E)>, e: (TimePoint, E))
    ensures
        final(s)@ == old(s)@.take(time_slot(old(s)@, e.0) as int) + seq![e] + old(s)@.skip(time_slot(old(s)@, e.0) as int),
{
    let ghost v = s@;
    let mut k: usize = 0;
    assert(v.skip(0) =~= v);
    while k < s.len() && !precedes(&e.0, &s[k].0)
        invariant
            v == s@,
            k <= v.len(),
            time_slot(v, e.0) == k + time_slot(v.skip(k as int), e.0),
        decreases v.len() - k,
    {
        assert(v.skip(k as int)[0] == v[k as int]);
        assert(v.skip(k as int).drop_first() =~= v.skip(k + 1));
        k += 1;
    }
    proof {
        if k < v.len() {
            assert(v.skip(k as int)[0] == v[k as int]);
        }
    }
    let ghost ev = e;
    s.insert(k, e);
    assert(s@ =~= v.take(k as int) + seq![ev] + v.skip(k as int));
}

fn add_all<T>(s: &mut Vec<(u64, T)>, more: Vec<(u64, T)>) -> (r: Result<(), u64>)
    ensures
        r is Ok ==> add_all_by_id(old(s)@, more@) == Ok::<Seq<(u64, T)>, u64>(final(s)@),
        r matches Err(id) ==> add_all_by_id(old(s)@, more@) == Err::<Seq<(u64, T)>, u64>(id),
{
    let ghost s0 = s@;
    let ghost m = more@;
    let n = more.len();
    assert(m.len() == n);
    let mut rest = more;
    let mut i: usize = 0;
    proof {
        assert(m.take(0) =~= Seq::<(u64, T)>::empty());
        assert(m.skip(0) =~= m);
    }
    while rest.len() > 0
        invariant
            s0 == old(s)@,
            m == more@,
            i + rest@.len() == m.len(),
            m.len() <= usize::MAX,
            rest@ == m.skip(i as int),
            add_all_by_id(s0, m.take(i as int)) == Ok::<Seq<(u64, T)>, u64>(s@),
        decreases rest@.len(),
    {
        let e = rest.remove(0);
        assert(rest@ =~= m.skip(i + 1));
        proof {
            assert(e == m[i as int]);
            assert(m.take(i + 1).drop_last() =~= m.take(i as int));
            assert(m.take(i + 1).last() == m[i as int]);
        }
        let id = e.0;
        let ghost ev = e;
        let ghost before = s@;
        if !add_one(s, e) {
            proof {
                assert(add_by_id(before, ev) is None);
                assert(add_all_by_id(s0, m.take(i + 1)) == Err::<Seq<(u64, T)>, u64>(ev.0));
                lemma_add_all_err(s0, m, i + 1);
                assert(add_all_by_id(s0, m) == Err::<Seq<(u64, T)>, u64>(id));
            }
            return Err(id);
        }
        i += 1;
    }
    proof {
        assert(m.take(m.len() as int) =~= m);
    }
    Ok(())
}

/// Merges `other` into `base`: every boundary and region history of
/// `other` joins `base` under its id — an id both hold is refused,
/// naming it — and the events of both are ordered by time, events at
/// one instant in the order they came in.
pub fn merge_timelines<B, R, E>(base: TimelineParts<B, R, E>, other: TimelineParts<B, R, E>) -> (r: Result<
    TimelineParts<B, R, E>,
    MergeError,
>)
    ensures
        match r {
            Ok(t) => merged(parts(base), parts(other)) == Ok::<_, MergeError>(parts(t)),
            Err(e) => merged(parts(base), parts(other)) == Err::<(Seq<(u64, B)>, Seq<(u64, R)>, Seq<(TimePoint, E)>), MergeError>(e),
        },
{
    let ghost pb = parts(base);
    let ghost po = parts(other);
    let TimelineParts { boundaries, regions, events } = base;
    let TimelineParts { boundaries: ob, regions: or, events: oe } = other;
    let mut boundaries = boundaries;
    match add_all(&mut boundaries, ob) {
        Ok(()) => {},
        Err(id) => return Err(MergeError::DuplicateBoundary(id)),
    }
    let mut regions = regions;
    match add_all(&mut regions, or) {
        Ok(()) => {},
        Err(id) => return Err(MergeError::DuplicateRegion(id)),
    }
    let ghost all = pb.2 + po.2;
    let mut rest = events;
    let mut tail = oe;
    rest.append(&mut tail);
    assert(rest@ =~= all);
    let n = rest.len();
    assert(all.len() == n);
    let mut out: Vec<(TimePoint, E)> = Vec::new();
    let mut i: usize = 0;
    proof {
        assert(all.take(0) =~= Seq::<(TimePoint, E)>::empty());
        assert(all.skip(0) =~= all);
    }
    while rest.len() > 0
        invariant
            i + rest@.len() == all.len(),
            all.len() <= usize::MAX,
            rest@ == all.skip(i as int),
            out@ == time_ordered(all.take(i as int)),
        decreases rest@.len(),
    {
        let e = rest.remove(0);
        assert(rest@ =~= all.skip(i + 1));
        proof {
            assert(e == all[i as int]);
            assert(all.take(i + 1).drop_last() =~= all.take(i as int));
            assert(all.take(i + 1).last() == all[i as int]);
        }
        add_in_time(&mut out, e);
        i += 1;
    }
    proof {
        assert(all.take(all.len() as int) =~= all);
    }
    Ok(TimelineParts { boundaries, regions, events: out })
}

// -------------------------------------------------------------- laws

/// No event comes before an earlier one.
pub open spec fn in_time_order<E>(s: Seq<(TimePoint, E)>) -> bool {
    forall|i: int, j: int| 0 <= i < j < s.len() ==> !before(s[j].0, s[i].0)
}

proof fn lemma_time_slot<E>(s: Seq<(TimePoint, E)>, t: TimePoint)
    ensures
        time_slot(s, t) <= s.len(),
        forall|j: int| 0 <= j < time_slot(s, t) ==> !before(t, #[trigger] s[j].0),
        time_slot(s, t) < s.len() ==> before(t, s[time_slot(s, t) as int].0),
    decreases s.len(),
{
    if s.len() > 0 && !before(t, s[0].0) {
        lemma_time_slot(s.drop_first(), t);
        assert forall|j: int| 0 <= j < time_slot(s, t) implies !before(t, #[trigger] s[j].0) by {
            if j > 0 {
                assert(s[j] == s.drop_first()[j - 1]);
            }
        }
        if time_slot(s, t) < s.len() {
            assert(s[time_slot(s, t) as int] == s.drop_first()[time_slot(s.drop_first(), t) as int]);
        }
    }
}

/// THE MERGED EVENTS ARE IN TIME ORDER: `time_ordered` puts no event
/// before an earlier one, and loses and adds none.
pub proof fn law_events_in_time_order<E>(s: Seq<(TimePoint, E)>)
    ensures
        in_time_order(time_ordered(s)),
        time_ordered(s).to_multiset() == s.to_multiset(),
    decreases s.len(),
{
    if s.len() > 0 {
        let p = s.drop_last();
        law_events_in_time_order(p);
        let done = time_ordered(p);
        let e = s.last();
        lemma_time_slot(done, e.0);
        lemma_before_total_order();
        let k = time_slot(done, e.0) as int;
        let r = time_ordered(s);
        assert(r == done.take(k) + seq![e] + done.skip(k));
        assert(r =~= done.insert(k, e));
        assert forall|i: int, j: int| 0 <= i < j < r.len() implies !before(r[j].0, r[i].0) by {
            if j < k {
                assert(r[i] == done[i] && r[j] == done[j]);
            } else if j == k {
                assert(r[i] == done[i] && r[j] == e);
            } else if i < k {
                assert(r[i] == done[i] && r[j] == done[j - 1]);
                if before(r[j].0, r[i].0) {
                    assert(!before(e.0, done[i].0));
                    assert(before(e.0, done[k].0));
                    if j - 1 > k {
                        assert(!before(done[j - 1].0, done[k].0));
                    }
                }
            } else if i == k {
                assert(r[i] == e && r[j] == done[j - 1]);
                assert(before(e.0, done[k].0));
                if j - 1 > k {
                    assert(!before(done[j - 1].0, done[k].0));
                }
            } else {
                assert(r[i] == done[i - 1] && r[j] == done[j - 1]);
            }
        }
        vstd::seq_lib::to_multiset_insert(done, k, e);
        vstd::seq_lib::to_multiset_build(p, e);
        assert(s =~= p.push(e));
        assert(r.to_multiset() == done.to_multiset().insert(e));
        assert(s.to_multiset() == p.to_multiset().insert(e));
    } else {
        assert(time_ordered(s) =~= s);
    }
}

} // verus!
