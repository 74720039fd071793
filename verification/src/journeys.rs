//! How far a journey has walked at a time: legs are walked in order,
//! each from its departure to its arrival; a leg under way is walked
//! in proportion to the years gone of the years it takes (counted on
//! the gapless year line), and the stations reached are counted. The
//! geometry of a partial leg is the geometry's business; the progress
//! is decided here.

use vstd::prelude::*;
use crate::canon_check::{CanonIndex, LegSpan};
use crate::world::{before, precedes, TimePoint};
use crate::years::{spec_year_index, year_index};

verus! {

/// How much of one leg is walked.
#[derive(Clone, Copy, Debug, PartialEq, Eq, Structural)]
pub enum Progress {
    /// Arrived: the whole leg.
    Done,
    /// Under way: `gone` of `dur` years, the fraction clamped to [0, 1].
    Partial { gone: i64, dur: i64 },
}

/// The years gone on a leg under way at `t` (never negative).
pub open spec fn years_gone(leg: LegSpan, t: TimePoint) -> int {
    let g = spec_year_index(t.year as int) - spec_year_index(leg.from.year as int) + 1;
    if g < 0 { 0 } else { g }
}

/// The years a leg takes (at least one).
pub open spec fn years_taken(leg: LegSpan) -> int {
    let d = spec_year_index(leg.to.year as int) - spec_year_index(leg.from.year as int) + 1;
    if d < 1 { 1 } else { d }
}

/// The walk from leg `i` on, given what is walked so far and the
/// stations reached: legs whose border is not stored are passed over;
/// a leg not yet departed ends the walk; a leg under way is the last
/// walked; an arrival reaches the leg's destination station.
pub open spec fn walk_from(
    ix: &CanonIndex,
    legs: Seq<LegSpan>,
    t: TimePoint,
    i: int,
    acc: Seq<(usize, Progress)>,
    stations: int,
) -> (Seq<(usize, Progress)>, int)
    decreases legs.len() - i,
{
    if i < 0 || i >= legs.len() {
        (acc, stations)
    } else {
        let leg = legs[i];
        if !ix.borders@.contains(leg.border) {
            walk_from(ix, legs, t, i + 1, acc, stations)
        } else if before(t, leg.from) {
            (acc, stations)
        } else {
            let st = if i == 0 { 1 } else { stations };
            if !before(t, leg.to) {
                walk_from(ix, legs, t, i + 1, acc.push((i as usize, Progress::Done)), i + 2)
            } else {
                (acc.push((i as usize, Progress::Partial { gone: years_gone(leg, t) as i64, dur: years_taken(leg) as i64 })), st)
            }
        }
    }
}

impl CanonIndex {
    /// The legs walked at `t`, in order, each with how much of it, and
    /// the number of stations reached (the first station counts once the
    /// first leg departs).
    pub fn walk_progress(&self, legs: &[LegSpan], t: &TimePoint) -> (r: (Vec<(usize, Progress)>, usize))
        requires
            legs@.len() < usize::MAX,
        ensures
            (r.0@, r.1 as int) == walk_from(self, legs@, *t, 0, Seq::empty(), 0),
    {
        let ghost target = walk_from(self, legs@, *t, 0, Seq::empty(), 0);
        let mut out: Vec<(usize, Progress)> = Vec::new();
        let mut stations: usize = 0;
        let mut i: usize = 0;
        while i < legs.len()
            invariant
                legs@.len() < usize::MAX,
                i <= legs@.len(),
                stations <= i + 1,
                walk_from(self, legs@, *t, i as int, out@, stations as int) == target,
                target == walk_from(self, legs@, *t, 0, Seq::empty(), 0),
            decreases legs@.len() - i,
        {
            let leg = legs[i];
            let ghost acc0 = out@;
            let ghost st0 = stations as int;
            if !self.border_present(leg.border) {
                i += 1;
                continue;
            }
            if precedes(t, &leg.from) {
                assert(walk_from(self, legs@, *t, i as int, acc0, st0) == (acc0, st0));
                return (out, stations);
            }
            if i == 0 {
                stations = 1;
            }
            if !precedes(t, &leg.to) {
                out.push((i, Progress::Done));
                stations = i + 2;
                i += 1;
            } else {
                let s0 = year_index(leg.from.year) as i64;
                let s1 = year_index(leg.to.year) as i64;
                let now = year_index(t.year) as i64;
                let g = now - s0 + 1;
                let d = s1 - s0 + 1;
                let gone = if g < 0 { 0 } else { g };
                let dur = if d < 1 { 1 } else { d };
                out.push((i, Progress::Partial { gone, dur }));
                proof {
                    assert(gone as int == years_gone(leg, *t));
                    assert(dur as int == years_taken(leg));
                    assert(out@ == acc0.push((i as usize, Progress::Partial { gone: years_gone(leg, *t) as i64, dur: years_taken(leg) as i64 })));
                    assert(walk_from(self, legs@, *t, i as int, acc0, st0) == (out@, stations as int));
                }
                return (out, stations);
            }
        }
        (out, stations)
    }

}

} // verus!
