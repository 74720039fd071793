//! Time at the covenant's granularity, and worlds through time: a
//! world is a set of (moment, snapshot) pairs keyed by the moment —
//! one world state per instant, read back as piecewise-constant
//! history.

use vstd::prelude::*;

verus! {

/// A moment: a year (negative = BC, there is no year zero) refined by
/// an optional month and an optional day.
#[derive(Clone, Copy, Debug, PartialEq, Eq, Structural)]
pub struct TimePoint {
    pub year: i32,
    pub month: Option<u8>,
    pub day: Option<u8>,
}

/// The content id of a snapshot.
#[derive(Clone, Copy, Debug, PartialEq, Eq, Structural)]
pub struct SnapshotId(pub u64);

/// An absent refinement comes before any present one.
pub open spec fn opt_before(a: Option<u8>, b: Option<u8>) -> bool {
    match (a, b) {
        (None, Some(_)) => true,
        (Some(x), Some(y)) => x < y,
        _ => false,
    }
}

/// The total order on moments: by year, then month, then day.
pub open spec fn before(a: TimePoint, b: TimePoint) -> bool {
    ||| a.year < b.year
    ||| a.year == b.year && opt_before(a.month, b.month)
    ||| a.year == b.year && a.month == b.month && opt_before(a.day, b.day)
}

/// `before` is a strict total order.
pub proof fn lemma_before_total_order()
    ensures
        forall|a: TimePoint| !#[trigger] before(a, a),
        forall|a: TimePoint, b: TimePoint, c: TimePoint| #[trigger] before(a, b) && #[trigger] before(b, c) ==> before(a, c),
        forall|a: TimePoint, b: TimePoint| a != b ==> #[trigger] before(a, b) || #[trigger] before(b, a),
        forall|a: TimePoint, b: TimePoint| #[trigger] before(a, b) ==> !before(b, a),
{
}

impl TimePoint {
    /// A moment known to the year only.
    pub fn year_only(year: i32) -> (t: TimePoint)
        requires
            year != 0,
        ensures
            t == (TimePoint { year, month: None, day: None }),
    {
        TimePoint { year, month: None, day: None }
    }
}

/// Whether `a` comes strictly before `b`.
pub fn precedes(a: &TimePoint, b: &TimePoint) -> (r: bool)
    ensures
        r == before(*a, *b),
{
    if a.year != b.year {
        return a.year < b.year;
    }
    match (a.month, b.month) {
        (None, Some(_)) => return true,
        (Some(x), Some(y)) => {
            if x != y {
                return x < y;
            }
        },
        (Some(_), None) => return false,
        (None, None) => {},
    }
    match (a.day, b.day) {
        (None, Some(_)) => true,
        (Some(x), Some(y)) => x < y,
        _ => false,
    }
}

/// Moments strictly increasing: at most one state per instant.
pub open spec fn times_increasing(s: Seq<(TimePoint, SnapshotId)>) -> bool {
    forall|i: int, j: int| 0 <= i < j < s.len() ==> before(#[trigger] s[i].0, #[trigger] s[j].0)
}

/// Whether `k` is one of the moments of `s`.
pub open spec fn has_moment(s: Seq<(TimePoint, SnapshotId)>, k: TimePoint) -> bool {
    exists|i: int| 0 <= i < s.len() && (#[trigger] s[i]).0 == k
}

/// The (timestamp → snapshot) map a moment list denotes.
pub open spec fn moments_map(s: Seq<(TimePoint, SnapshotId)>) -> Map<TimePoint, SnapshotId> {
    Map::new(
        |k: TimePoint| has_moment(s, k),
        |k: TimePoint| s[choose|i: int| 0 <= i < s.len() && (#[trigger] s[i]).0 == k].1,
    )
}

/// In an increasing moment list each moment is found at its own index.
pub proof fn lemma_moments_map(s: Seq<(TimePoint, SnapshotId)>)
    requires
        times_increasing(s),
    ensures
        forall|i: int| 0 <= i < s.len() ==> #[trigger] moments_map(s).contains_key(s[i].0)
            && moments_map(s)[s[i].0] == s[i].1,
        forall|k: TimePoint| #[trigger] moments_map(s).contains_key(k) <==> has_moment(s, k),
{
    lemma_before_total_order();
    assert forall|i: int| 0 <= i < s.len() implies #[trigger] moments_map(s).contains_key(s[i].0)
        && moments_map(s)[s[i].0] == s[i].1 by {
        assert(has_moment(s, s[i].0));
        let j = choose|j: int| 0 <= j < s.len() && (#[trigger] s[j]).0 == s[i].0;
        if j < i {
            assert(before(s[j].0, s[i].0));
        } else if i < j {
            assert(before(s[i].0, s[j].0));
        }
    }
}

/// A latest moment of `m` at or before `t`.
pub open spec fn is_latest_at(m: Map<TimePoint, SnapshotId>, t: TimePoint, k: TimePoint) -> bool {
    &&& m.contains_key(k)
    &&& !before(t, k)
    &&& forall|j: TimePoint| #[trigger] m.contains_key(j) && !before(t, j) ==> !before(k, j)
}

/// The state at `t`: the snapshot of the latest moment at or before
/// it; none before the first moment.
pub open spec fn state_at_spec(m: Map<TimePoint, SnapshotId>, t: TimePoint) -> Option<SnapshotId> {
    if exists|k: TimePoint| is_latest_at(m, t, k) {
        Some(m[choose|k: TimePoint| is_latest_at(m, t, k)])
    } else {
        None
    }
}

/// Two an-or-before-`t` latest moments are one moment.
proof fn lemma_latest_unique(m: Map<TimePoint, SnapshotId>, t: TimePoint, a: TimePoint, b: TimePoint)
    requires
        is_latest_at(m, t, a),
        is_latest_at(m, t, b),
    ensures
        a == b,
{
    lemma_before_total_order();
    assert(!before(a, b));
    assert(!before(b, a));
}

/// Why an assertion about a world was refused.
#[derive(Clone, Copy, Debug, PartialEq)]
pub enum WorldError {
    /// Two different snapshots asserted at the same instant.
    ContradictionAt(TimePoint),
}

/// A world through time, its moments kept in increasing time order.
#[derive(Clone, Debug, PartialEq)]
pub struct World {
    moments: Vec<(TimePoint, SnapshotId)>,
}

impl View for World {
    type V = Map<TimePoint, SnapshotId>;

    open spec fn view(&self) -> Map<TimePoint, SnapshotId> {
        moments_map(self.entries())
    }
}

impl Default for World {
    fn default() -> (w: World)
        ensures
            w.wf(),
            w.entries().len() == 0,
            w@ == Map::<TimePoint, SnapshotId>::empty(),
    {
        let w = World { moments: Vec::new() };
        assert(w@ =~= Map::<TimePoint, SnapshotId>::empty());
        w
    }
}

impl World {
    /// The moments in increasing time order.
    pub closed spec fn entries(&self) -> Seq<(TimePoint, SnapshotId)> {
        self.moments@
    }

    pub open spec fn wf(&self) -> bool {
        times_increasing(self.entries())
    }

    /// Assert a moment. Re-asserting the identical pair is idempotent;
    /// a different snapshot at an occupied instant is a contradiction,
    /// and the world is left as it was.
    pub fn insert(&mut self, at: TimePoint, snapshot: SnapshotId) -> (r: Result<(), WorldError>)
        requires
            old(self).wf(),
        ensures
            final(self).wf(),
            !old(self)@.contains_key(at) ==> r is Ok && final(self)@ == old(self)@.insert(at, snapshot),
            old(self)@.contains_key(at) && old(self)@[at] == snapshot ==> r is Ok && final(self)@ == old(self)@,
            old(self)@.contains_key(at) && old(self)@[at] != snapshot ==> r == Err::<(), WorldError>(
                WorldError::ContradictionAt(at),
            ) && final(self)@ == old(self)@,
    {
        proof {
            lemma_before_total_order();
            lemma_moments_map(self.moments@);
        }
        let ghost s = self.moments@;
        let mut i: usize = 0;
        while i < self.moments.len() && precedes(&self.moments[i].0, &at)
            invariant
                s == self.moments@,
                times_increasing(s),
                0 <= i <= s.len(),
                forall|j: int| 0 <= j < i ==> before(#[trigger] s[j].0, at),
            decreases s.len() - i,
        {
            i = i + 1;
        }
        if i < self.moments.len() && self.moments[i].0 == at {
            if self.moments[i].1 == snapshot {
                return Ok(());
            } else {
                return Err(WorldError::ContradictionAt(at));
            }
        }
        // `at` is new: every earlier moment precedes it, every later one follows.
        assert(!has_moment(s, at)) by {
            if has_moment(s, at) {
                let j = choose|j: int| 0 <= j < s.len() && (#[trigger] s[j]).0 == at;
                if j < i {
                    assert(before(s[j].0, at));
                } else {
                    assert(!before(s[i as int].0, at));
                    assert(s[i as int].0 != at);
                    if j > i {
                        assert(before(s[i as int].0, s[j].0));
                    }
                }
            }
        }
        self.moments.insert(i, (at, snapshot));
        let ghost n = self.moments@;
        assert(n == s.insert(i as int, (at, snapshot)));
        assert(times_increasing(n)) by {
            assert forall|a: int, b: int| 0 <= a < b < n.len() implies before(#[trigger] n[a].0, #[trigger] n[b].0) by {
                if b < i {
                } else if a < i && b == i {
                } else if a < i && b > i {
                    assert(n[b] == s[b - 1]);
                } else if a == i {
                    assert(n[b] == s[b - 1]);
                    assert(!before(s[i as int].0, at));
                    assert(s[i as int].0 != at);
                    if b - 1 > i {
                        assert(before(s[i as int].0, s[b - 1].0));
                    }
                } else {
                    assert(n[a] == s[a - 1] && n[b] == s[b - 1]);
                }
            }
        }
        proof {
            lemma_moments_map(n);
            let m0 = moments_map(s);
            let m1 = moments_map(n);
            assert forall|k: TimePoint| m1.contains_key(k) <==> m0.insert(at, snapshot).contains_key(k) by {
                if has_moment(n, k) {
                    let j = choose|j: int| 0 <= j < n.len() && (#[trigger] n[j]).0 == k;
                    if j < i {
                        assert(n[j] == s[j]);
                    } else if j > i {
                        assert(n[j] == s[j - 1]);
                    }
                }
                if m0.contains_key(k) {
                    let j = choose|j: int| 0 <= j < s.len() && (#[trigger] s[j]).0 == k;
                    if j < i {
                        assert(n[j] == s[j]);
                    } else {
                        assert(n[j + 1] == s[j]);
                    }
                }
                if k == at {
                    assert(n[i as int].0 == at);
                }
            }
            assert forall|k: TimePoint| #[trigger] m1.contains_key(k) implies m1[k] == m0.insert(at, snapshot)[k] by {
                if k == at {
                    assert(n[i as int] == (at, snapshot));
                } else {
                    let j = choose|j: int| 0 <= j < s.len() && (#[trigger] s[j]).0 == k;
                    if j < i {
                        assert(n[j] == s[j]);
                    } else {
                        assert(n[j + 1] == s[j]);
                    }
                }
            }
            assert(m1 =~= m0.insert(at, snapshot));
        }
        Ok(())
    }

    /// The moments, in increasing time order.
    pub fn moments(&self) -> (r: &Vec<(TimePoint, SnapshotId)>)
        ensures
            r@ == self.entries(),
    {
        &self.moments
    }

    /// The state AT a time: the latest moment at or before it —
    /// piecewise-constant history.
    pub fn state_at(&self, t: &TimePoint) -> (r: Option<SnapshotId>)
        requires
            self.wf(),
        ensures
            r == state_at_spec(self@, *t),
    {
        proof {
            lemma_before_total_order();
            lemma_moments_map(self.moments@);
        }
        let ghost s = self.moments@;
        let ghost m = self@;
        let mut i: usize = 0;
        while i < self.moments.len() && !precedes(t, &self.moments[i].0)
            invariant
                s == self.moments@,
                m == moments_map(s),
                times_increasing(s),
                0 <= i <= s.len(),
                forall|j: int| 0 <= j < i ==> !before(*t, #[trigger] s[j].0),
            decreases s.len() - i,
        {
            i = i + 1;
        }
        // Every moment from `i` on lies after `t`.
        assert(forall|j: int| i <= j < s.len() ==> before(*t, #[trigger] s[j].0)) by {
            assert forall|j: int| i <= j < s.len() implies before(*t, #[trigger] s[j].0) by {
                assert(before(*t, s[i as int].0));
                if j > i {
                    assert(before(s[i as int].0, s[j].0));
                }
            }
        }
        if i == 0 {
            assert(!exists|k: TimePoint| is_latest_at(m, *t, k)) by {
                if exists|k: TimePoint| is_latest_at(m, *t, k) {
                    let k = choose|k: TimePoint| is_latest_at(m, *t, k);
                    assert(has_moment(s, k));
                    let j = choose|j: int| 0 <= j < s.len() && (#[trigger] s[j]).0 == k;
                }
            }
            None
        } else {
            let ghost k = s[i - 1].0;
            proof {
                assert(m.contains_key(k));
                assert forall|j: TimePoint| #[trigger] m.contains_key(j) && !before(*t, j) implies !before(k, j) by {
                    let x = choose|x: int| 0 <= x < s.len() && (#[trigger] s[x]).0 == j;
                    if x < i - 1 {
                        assert(before(s[x].0, k));
                    }
                }
                assert(is_latest_at(m, *t, k));
                let c = choose|c: TimePoint| is_latest_at(m, *t, c);
                lemma_latest_unique(m, *t, c, k);
            }
            Some(self.moments[i - 1].1)
        }
    }
}

/// A well-formed world's moments are exactly its map's entries, one per
/// instant, in increasing time order.
pub proof fn lemma_world_entries(w: World)
    requires
        w.wf(),
    ensures
        forall|i: int| 0 <= i < w.entries().len() ==> #[trigger] w@.contains_key(w.entries()[i].0)
            && w@[w.entries()[i].0] == w.entries()[i].1,
        forall|k: TimePoint| #[trigger] w@.contains_key(k) ==> exists|i: int| 0 <= i < w.entries().len() && w.entries()[i].0 == k,
        w@.dom().finite(),
        w@.dom().len() == w.entries().len(),
{
    let s = w.entries();
    lemma_moments_map(s);
    lemma_before_total_order();
    let keys = s.map_values(|e: (TimePoint, SnapshotId)| e.0);
    assert(keys.no_duplicates()) by {
        assert forall|i: int, j: int| 0 <= i < keys.len() && 0 <= j < keys.len() && i != j implies keys[i] != keys[j] by {
            if i < j {
                assert(before(s[i].0, s[j].0));
            } else {
                assert(before(s[j].0, s[i].0));
            }
        }
    }
    assert(w@.dom() =~= keys.to_set()) by {
        assert forall|k: TimePoint| w@.dom().contains(k) <==> keys.to_set().contains(k) by {
            if w@.dom().contains(k) {
                let i = choose|i: int| 0 <= i < s.len() && (#[trigger] s[i]).0 == k;
                assert(keys[i] == k);
            }
            if keys.to_set().contains(k) {
                let i = choose|i: int| 0 <= i < keys.len() && keys[i] == k;
                assert(s[i].0 == k);
                assert(has_moment(s, k));
            }
        }
    }
    keys.unique_seq_to_set();
    vstd::seq_lib::seq_to_set_is_finite(keys);
}

/// At each of its own moments a world is in the state asserted there.
pub proof fn law_state_at_own_moment(w: World, k: TimePoint)
    requires
        w.wf(),
        w@.contains_key(k),
    ensures
        state_at_spec(w@, k) == Some(w@[k]),
{
    lemma_before_total_order();
    let m = w@;
    assert forall|j: TimePoint| #[trigger] m.contains_key(j) && !before(k, j) implies !before(k, j) by {}
    assert(is_latest_at(m, k, k));
    let c = choose|c: TimePoint| is_latest_at(m, k, c);
    lemma_latest_unique(m, k, c, k);
}

/// History is piecewise constant: between two instants with no moment
/// in `(t1, t2]`, the state does not change.
pub proof fn law_state_constant_between(w: World, t1: TimePoint, t2: TimePoint)
    requires
        w.wf(),
        !before(t2, t1),
        forall|k: TimePoint| #[trigger] w@.contains_key(k) ==> !(before(t1, k) && !before(t2, k)),
    ensures
        state_at_spec(w@, t1) == state_at_spec(w@, t2),
{
    lemma_before_total_order();
    let m = w@;
    // the moments at or before t2 are exactly those at or before t1
    assert forall|k: TimePoint| #[trigger] m.contains_key(k) implies (!before(t2, k) <==> !before(t1, k)) by {
        if !before(t1, k) {
            if t1 == t2 {
            } else {
                assert(before(t1, t2));
                if before(t2, k) {
                    assert(before(t1, k));
                }
            }
        }
    }
    assert forall|k: TimePoint| is_latest_at(m, t1, k) <==> is_latest_at(m, t2, k) by {
        if m.contains_key(k) {
            assert(!before(t2, k) <==> !before(t1, k));
        }
        assert forall|j: TimePoint| #[trigger] m.contains_key(j) implies (!before(t2, j) <==> !before(t1, j)) by {}
    }
    if exists|k: TimePoint| is_latest_at(m, t1, k) {
        let a = choose|k: TimePoint| is_latest_at(m, t1, k);
        assert(is_latest_at(m, t2, a));
        let b = choose|k: TimePoint| is_latest_at(m, t2, k);
        lemma_latest_unique(m, t2, a, b);
    } else {
        assert(!exists|k: TimePoint| is_latest_at(m, t2, k)) by {
            if exists|k: TimePoint| is_latest_at(m, t2, k) {
                let b = choose|k: TimePoint| is_latest_at(m, t2, k);
                assert(is_latest_at(m, t1, b));
            }
        }
    }
}

} // verus!
