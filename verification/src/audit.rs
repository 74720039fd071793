//! Every consumer with independent stand-ins is a free auditor of the
//! atlas: each of our dated verse bindings is held against the event
//! the atlas binds the same verses to, and every disagreement about
//! the year is reported.

use vstd::prelude::*;
use crate::exports::{clear_winner, event_views, resolve_event, AtlasEvent, AtlasEventView};
use crate::text::{owned, str_equal};

verus! {

/// One of our dated bindings: a tag, the verse range it stands on,
/// and our year. A fall is held against the END of the atlas's span.
#[derive(Debug)]
pub struct Claim {
    pub ours: String,
    pub book: u8,
    pub from: (u16, u16),
    pub to: (u16, u16),
    pub year: i32,
    pub at_end: bool,
}

pub struct ClaimView {
    pub ours: Seq<char>,
    pub book: u8,
    pub from: (u16, u16),
    pub to: (u16, u16),
    pub year: i32,
    pub at_end: bool,
}

impl View for Claim {
    type V = ClaimView;

    open spec fn view(&self) -> ClaimView {
        ClaimView { ours: self.ours@, book: self.book, from: self.from, to: self.to, year: self.year, at_end: self.at_end }
    }
}

/// A binding where the two derivations disagree.
#[derive(Debug, PartialEq)]
pub struct BindingRow {
    /// Our tag (e.g. "ISRAEL-NORTH/phase1", "JOS15", "R-EXODUS").
    pub ours: String,
    /// The atlas event we bound to: (id, label).
    pub atlas_event: (String, String),
    pub our_year: i32,
    pub their_year: i32,
}

impl View for BindingRow {
    type V = (Seq<char>, (Seq<char>, Seq<char>), i32, i32);

    open spec fn view(&self) -> (Seq<char>, (Seq<char>, Seq<char>), i32, i32) {
        (self.ours@, (self.atlas_event.0@, self.atlas_event.1@), self.our_year, self.their_year)
    }
}

pub open spec fn claim_views(cs: Seq<Claim>) -> Seq<ClaimView> {
    cs.map_values(|c: Claim| c@)
}

pub open spec fn row_views(rs: Seq<BindingRow>) -> Seq<(Seq<char>, (Seq<char>, Seq<char>), i32, i32)> {
    rs.map_values(|r: BindingRow| r@)
}

/// The event the atlas binds a claim's verses to, if one clearly wins.
pub open spec fn winner(ev: Seq<AtlasEventView>, c: ClaimView) -> Option<int> {
    let lo = (c.book, c.from.0, c.from.1);
    let hi = (c.book, c.to.0, c.to.1);
    if exists|i: int| clear_winner(ev, lo, hi, i) {
        Some(choose|i: int| clear_winner(ev, lo, hi, i))
    } else {
        None
    }
}

/// The label of the first event carrying `id`, or nothing.
pub open spec fn label_of(ev: Seq<AtlasEventView>, id: Seq<char>) -> Seq<char>
    decreases ev.len(),
{
    if ev.len() == 0 {
        Seq::empty()
    } else if ev[0].id == id {
        ev[0].label
    } else {
        label_of(ev.drop_first(), id)
    }
}

/// The row a claim yields: one when the atlas binds it and the years
/// differ, none otherwise.
pub open spec fn claim_row(ev: Seq<AtlasEventView>, c: ClaimView) -> Seq<(Seq<char>, (Seq<char>, Seq<char>), i32, i32)> {
    match winner(ev, c) {
        Some(i) => {
            let theirs = if c.at_end { ev[i].to_year } else { ev[i].from_year };
            if theirs != c.year {
                seq![(c.ours, (ev[i].id, label_of(ev, ev[i].id)), c.year, theirs)]
            } else {
                Seq::empty()
            }
        },
        None => Seq::empty(),
    }
}

/// The rows of the first `n` claims, in claim order.
pub open spec fn audit(ev: Seq<AtlasEventView>, cs: Seq<ClaimView>, n: int) -> Seq<(Seq<char>, (Seq<char>, Seq<char>), i32, i32)>
    decreases n,
{
    if n <= 0 {
        Seq::empty()
    } else {
        audit(ev, cs, n - 1) + claim_row(ev, cs[n - 1])
    }
}

proof fn lemma_winner_unique(ev: Seq<AtlasEventView>, lo: (u8, u16, u16), hi: (u8, u16, u16), i: int, j: int)
    requires
        clear_winner(ev, lo, hi, i),
        clear_winner(ev, lo, hi, j),
    ensures
        i == j,
{
}

fn label_for(events: &[AtlasEvent], id: &str) -> (l: String)
    ensures
        l@ == label_of(event_views(events@), id@),
{
    let ghost ev = event_views(events@);
    assert(ev.skip(0) =~= ev);
    let mut i: usize = 0;
    while i < events.len()
        invariant
            ev == event_views(events@),
            i <= ev.len(),
            label_of(ev, id@) == label_of(ev.skip(i as int), id@),
        decreases ev.len() - i,
    {
        assert(ev.skip(i as int)[0] == ev[i as int]);
        assert(ev.skip(i as int).drop_first() =~= ev.skip(i + 1));
        if str_equal(events[i].id.as_str(), id) {
            return owned(events[i].label.as_str());
        }
        i += 1;
    }
    proof {
        reveal_strlit("");
        assert(ev.skip(i as int) =~= Seq::<AtlasEventView>::empty());
    }
    owned("")
}

/// Every claim whose atlas binding dates it otherwise, in claim order:
/// our tag, the atlas event's id and label, our year and theirs.
pub fn binding_report(events: &[AtlasEvent], claims: &[Claim]) -> (rows: Vec<BindingRow>)
    ensures
        row_views(rows@) == audit(event_views(events@), claim_views(claims@), claims@.len() as int),
{
    let ghost ev = event_views(events@);
    let ghost cv = claim_views(claims@);
    let mut rows: Vec<BindingRow> = Vec::new();
    let mut k: usize = 0;
    while k < claims.len()
        invariant
            ev == event_views(events@),
            cv == claim_views(claims@),
            k <= claims@.len(),
            row_views(rows@) == audit(ev, cv, k as int),
        decreases claims@.len() - k,
    {
        let c = &claims[k];
        let ghost before = row_views(rows@);
        assert(cv[k as int] == c@);
        let lo = (c.book, c.from.0, c.from.1);
        let hi = (c.book, c.to.0, c.to.1);
        match resolve_event(events, c.book, c.from, c.to) {
            Some((id, from_year, to_year)) => {
                proof {
                    let i = choose|i: int| {
                        &&& #[trigger] clear_winner(ev, lo, hi, i)
                        &&& id@ == events@[i].id@
                        &&& from_year == events@[i].from_year
                        &&& to_year == events@[i].to_year
                    };
                    let cw = c@;
                    assert(clear_winner(ev, (cw.book, cw.from.0, cw.from.1), (cw.book, cw.to.0, cw.to.1), i));
                    assert(winner(ev, cw) is Some);
                    lemma_winner_unique(ev, lo, hi, i, winner(ev, cw)->Some_0);
                    assert(winner(ev, c@) == Some(i));
                    assert(ev[i] == events@[i]@);
                }
                let theirs = if c.at_end { to_year } else { from_year };
                if theirs != c.year {
                    let label = label_for(events, id.as_str());
                    let row = BindingRow {
                        ours: owned(c.ours.as_str()),
                        atlas_event: (id, label),
                        our_year: c.year,
                        their_year: theirs,
                    };
                    rows.push(row);
                }
            },
            None => {
                assert(winner(ev, c@) is None);
            },
        }
        assert(row_views(rows@) =~= before + claim_row(ev, cv[k as int]));
        assert(audit(ev, cv, k + 1) == audit(ev, cv, k as int) + claim_row(ev, cv[k as int]));
        k += 1;
    }
    rows
}

/// The report holds disagreements only: in every row our year and the
/// atlas's differ, and every row names the event the atlas binds that
/// claim's verses to.
pub proof fn law_rows_are_disagreements(ev: Seq<AtlasEventView>, cs: Seq<ClaimView>, n: int)
    ensures
        forall|r: int| 0 <= r < audit(ev, cs, n).len() ==> (#[trigger] audit(ev, cs, n)[r]).2 != audit(ev, cs, n)[r].3,
    decreases n,
{
    if n > 0 {
        law_rows_are_disagreements(ev, cs, n - 1);
        let a = audit(ev, cs, n - 1);
        let b = claim_row(ev, cs[n - 1]);
        assert forall|r: int| 0 <= r < audit(ev, cs, n).len() implies (#[trigger] audit(ev, cs, n)[r]).2 != audit(ev, cs, n)[r].3 by {
            if r < a.len() {
                assert(audit(ev, cs, n)[r] == a[r]);
            } else {
                assert(audit(ev, cs, n)[r] == b[r - a.len()]);
            }
        }
    }
}

} // verus!
