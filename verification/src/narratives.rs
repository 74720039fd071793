//! Atlas narratives as walks: each leg event is a station at its first
//! gazetteer place; a walk leg spans from the end of one station's
//! event to the start of the next. A place the gazetteer cannot resolve
//! is a NAMED error, never a silently skipped station; a station
//! without a date takes its nearest dated neighbour's.

use vstd::prelude::*;
use crate::text::{concat2, concat3, int_text, int_to_text, owned, str_equal, string_views};

verus! {

/// One atlas narrative: its leg events, in walk order.
#[derive(Clone, Debug, PartialEq)]
pub struct NarrativeRow {
    pub id: String,
    pub name: String,
    pub color: String,
    pub legs: Vec<String>,
}

/// One atlas event: when it happened, where (place ids, text order),
/// and the verses that attest it.
#[derive(Clone, Debug, PartialEq)]
pub struct EventRow {
    pub id: String,
    pub label: String,
    pub when: Option<(i32, i32)>,
    pub places: Vec<String>,
    pub verses: Vec<String>,
}

pub struct NarrativeView {
    pub id: Seq<char>,
    pub name: Seq<char>,
    pub color: Seq<char>,
    pub legs: Seq<Seq<char>>,
}

impl View for NarrativeRow {
    type V = NarrativeView;

    open spec fn view(&self) -> NarrativeView {
        NarrativeView {
            id: self.id@,
            name: self.name@,
            color: self.color@,
            legs: self.legs@.map_values(|l: String| l@),
        }
    }
}

pub struct EventView {
    pub id: Seq<char>,
    pub label: Seq<char>,
    pub when: Option<(i32, i32)>,
    pub places: Seq<Seq<char>>,
    pub verses: Seq<Seq<char>>,
}

impl View for EventRow {
    type V = EventView;

    open spec fn view(&self) -> EventView {
        EventView {
            id: self.id@,
            label: self.label@,
            when: self.when,
            places: self.places@.map_values(|p: String| p@),
            verses: self.verses@.map_values(|v: String| v@),
        }
    }
}

/// One leg of a walk: from one station's place to the next's, over
/// the years between.
#[derive(Debug, PartialEq)]
pub struct PlannedLeg {
    pub from: String,
    pub to: String,
    pub span: (i32, i32),
}

/// A narrative's walk: its legs, and every station's verses in order.
#[derive(Debug, PartialEq)]
pub struct WalkPlan {
    pub legs: Vec<PlannedLeg>,
    pub verses: Vec<String>,
}

/// A station: the place of a leg event, its date, its verses.
pub struct Station {
    pub place: Seq<char>,
    pub when: Option<(i32, i32)>,
    pub verses: Seq<Seq<char>>,
}

/// The events as views.
pub open spec fn event_views(events: Seq<EventRow>) -> Seq<EventView> {
    events.map_values(|e: EventRow| e@)
}

/// The last event with id `id` at or before index `k` (a later row
/// with the same id replaces an earlier one).
pub open spec fn event_upto(events: Seq<EventView>, id: Seq<char>, k: int) -> Option<int>
    decreases k + 1,
{
    if k < 0 {
        None
    } else if events[k].id == id {
        Some(k)
    } else {
        event_upto(events, id, k - 1)
    }
}

/// The event a leg names.
pub open spec fn event_for(events: Seq<EventView>, id: Seq<char>) -> Option<int> {
    event_upto(events, id, events.len() - 1)
}

/// The station of one leg, or why it has none.
pub open spec fn station_for(n_id: Seq<char>, leg: Seq<char>, events: Seq<EventView>, gazetteer: Seq<Seq<char>>) -> Result<Station, Seq<char>> {
    match event_for(events, leg) {
        None => Err("narrative '"@ + n_id + "': unknown event '"@ + leg + "'"@),
        Some(i) => {
            let ev = events[i];
            if ev.places.len() == 0 {
                Err("narrative '"@ + n_id + "': event '"@ + ev.id + "' names no place"@)
            } else if !gazetteer.contains(ev.places[0]) {
                Err("narrative '"@ + n_id + "': place '"@ + ev.places[0] + "' not in the gazetteer"@)
            } else {
                Ok(Station { place: ev.places[0], when: ev.when, verses: ev.verses })
            }
        },
    }
}

/// The stations of `legs`, in order; the first leg without one decides
/// the error.
pub open spec fn stations(n_id: Seq<char>, legs: Seq<Seq<char>>, events: Seq<EventView>, gazetteer: Seq<Seq<char>>) -> Result<Seq<Station>, Seq<char>>
    decreases legs.len(),
{
    if legs.len() == 0 {
        Ok(Seq::empty())
    } else {
        match stations(n_id, legs.drop_last(), events, gazetteer) {
            Err(e) => Err(e),
            Ok(done) => match station_for(n_id, legs.last(), events, gazetteer) {
                Err(e) => Err(e),
                Ok(s) => Ok(done.push(s)),
            },
        }
    }
}

/// The last dated index at or before `i`.
pub open spec fn dated_upto(ws: Seq<Option<(i32, i32)>>, i: int) -> Option<int>
    decreases i + 1,
{
    if i < 0 {
        None
    } else if ws[i] is Some {
        Some(i)
    } else {
        dated_upto(ws, i - 1)
    }
}

/// The first dated index at or after `i`.
pub open spec fn dated_from(ws: Seq<Option<(i32, i32)>>, i: int) -> Option<int>
    decreases ws.len() - i,
{
    if i < 0 || i >= ws.len() {
        None
    } else if ws[i] is Some {
        Some(i)
    } else {
        dated_from(ws, i + 1)
    }
}

/// Station `i`'s date: its own, else the nearest earlier station's,
/// else the nearest later one's.
pub open spec fn filled_when(ws: Seq<Option<(i32, i32)>>, i: int) -> Option<(i32, i32)> {
    match dated_upto(ws, i) {
        Some(j) => ws[j],
        None => match dated_from(ws, i) {
            Some(j) => ws[j],
            None => None,
        },
    }
}

/// Depart when one event ends, arrive when the next begins, in year
/// order.
pub open spec fn leg_span(depart: i32, arrive: i32) -> (i32, i32) {
    if depart <= arrive {
        (depart, arrive)
    } else {
        (arrive, depart)
    }
}

/// Every station's verses, in station order.
pub open spec fn station_verses(st: Seq<Station>) -> Seq<Seq<char>>
    decreases st.len(),
{
    if st.len() == 0 {
        Seq::empty()
    } else {
        station_verses(st.drop_last()) + st.last().verses
    }
}

/// The walk a narrative makes: `None` when it has fewer than two
/// stations (a single stop is not a walk).
pub open spec fn spec_plan_walk(n_id: Seq<char>, legs: Seq<Seq<char>>, events: Seq<EventView>, gazetteer: Seq<Seq<char>>)
    -> Result<Option<(Seq<(Seq<char>, Seq<char>, (i32, i32))>, Seq<Seq<char>>)>, Seq<char>>
{
    match stations(n_id, legs, events, gazetteer) {
        Err(e) => Err(e),
        Ok(st) => if st.len() < 2 {
            Ok(None)
        } else {
            let ws = st.map_values(|s: Station| s.when);
            if !(exists|j: int| 0 <= j < ws.len() && ws[j] is Some) {
                Err("narrative '"@ + n_id + "': no event carries a date"@)
            } else {
                Ok(Some((
                    Seq::new((st.len() - 1) as nat, |i: int| (
                        st[i].place,
                        st[i + 1].place,
                        leg_span(filled_when(ws, i).unwrap().1, filled_when(ws, i + 1).unwrap().0),
                    )),
                    station_verses(st),
                )))
            }
        },
    }
}

// ------------------------------------------------------- execution

fn find_event(events: &[EventRow], id: &String) -> (r: Option<usize>)
    ensures
        match r {
            Some(i) => event_for(event_views(events@), id@) == Some(i as int) && i < events@.len(),
            None => event_for(event_views(events@), id@) is None,
        },
{
    let ghost ev = event_views(events@);
    let mut k: usize = events.len();
    while k > 0
        invariant
            ev == event_views(events@),
            k <= events@.len(),
            event_for(ev, id@) == event_upto(ev, id@, k - 1),
        decreases k,
    {
        assert(ev[k - 1] == events@[k - 1]@);
        if str_equal(events[k - 1].id.as_str(), id.as_str()) {
            return Some(k - 1);
        }
        k -= 1;
    }
    None
}

fn known_place(gazetteer: &[String], place: &String) -> (r: bool)
    ensures
        r == string_views(gazetteer@).contains(place@),
{
    let ghost g = string_views(gazetteer@);
    let mut i: usize = 0;
    while i < gazetteer.len()
        invariant
            g == string_views(gazetteer@),
            i <= gazetteer@.len(),
            forall|j: int| 0 <= j < i ==> g[j] != place@,
        decreases gazetteer@.len() - i,
    {
        if str_equal(gazetteer[i].as_str(), place.as_str()) {
            assert(g[i as int] == place@);
            return true;
        }
        i += 1;
    }
    false
}

proof fn lemma_stations_err(n_id: Seq<char>, legs: Seq<Seq<char>>, events: Seq<EventView>, gazetteer: Seq<Seq<char>>, k: int)
    requires
        0 <= k <= legs.len(),
        stations(n_id, legs.take(k), events, gazetteer) is Err,
    ensures
        stations(n_id, legs, events, gazetteer) == stations(n_id, legs.take(k), events, gazetteer),
    decreases legs.len(),
{
    if k < legs.len() {
        assert(legs.drop_last().take(k) =~= legs.take(k));
        lemma_stations_err(n_id, legs.drop_last(), events, gazetteer, k);
    } else {
        assert(legs.take(k) =~= legs);
    }
}

proof fn lemma_dated_upto(ws: Seq<Option<(i32, i32)>>, i: int)
    ensures
        dated_upto(ws, i) matches Some(j) ==> j <= i && 0 <= j && ws[j] is Some,
        dated_upto(ws, i) is None ==> forall|j: int| 0 <= j <= i ==> ws[j] is None,
    decreases i + 1,
{
    if i >= 0 {
        lemma_dated_upto(ws, i - 1);
    }
}

proof fn lemma_dated_from(ws: Seq<Option<(i32, i32)>>, i: int)
    requires
        0 <= i,
    ensures
        dated_from(ws, i) matches Some(j) ==> i <= j < ws.len() && ws[j] is Some,
        dated_from(ws, i) is None ==> forall|j: int| i <= j < ws.len() ==> ws[j] is None,
    decreases ws.len() - i,
{
    if i < ws.len() {
        lemma_dated_from(ws, i + 1);
    }
}

/// A dated station keeps its own date, and once any station carries a
/// date, every station does.
pub proof fn law_dates_fill_every_station(ws: Seq<Option<(i32, i32)>>, i: int)
    requires
        0 <= i < ws.len(),
    ensures
        ws[i] is Some ==> filled_when(ws, i) == ws[i],
        (exists|j: int| 0 <= j < ws.len() && ws[j] is Some) ==> filled_when(ws, i) is Some,
{
    lemma_dated_upto(ws, i);
    lemma_dated_from(ws, i);
    if exists|j: int| 0 <= j < ws.len() && ws[j] is Some {
        let j = choose|j: int| 0 <= j < ws.len() && ws[j] is Some;
        if dated_upto(ws, i) is None && dated_from(ws, i) is None {
            if j <= i {
                assert(ws[j] is None);
            } else {
                assert(ws[j] is None);
            }
        }
    }
}

/// Stations filled with their neighbours' dates: forward from the
/// nearest earlier date, then backward from the nearest later one.
fn fill_whens(ws: &Vec<Option<(i32, i32)>>) -> (f: Vec<Option<(i32, i32)>>)
    ensures
        f@.len() == ws@.len(),
        forall|i: int| 0 <= i < ws@.len() ==> (#[trigger] f@[i]) == filled_when(ws@, i),
{
    let n = ws.len();
    let mut f: Vec<Option<(i32, i32)>> = Vec::new();
    let mut i: usize = 0;
    while i < n
        invariant
            n == ws@.len(),
            i <= n,
            f@.len() == i,
            forall|k: int| 0 <= k < i ==> (#[trigger] f@[k]) == match dated_upto(ws@, k) {
                Some(j) => ws@[j],
                None => None,
            },
        decreases n - i,
    {
        let w = ws[i];
        let ghost f0 = f@;
        if w.is_some() || i == 0 {
            f.push(w);
        } else {
            let prev = f[i - 1];
            f.push(prev);
        }
        proof {
            reveal_with_fuel(dated_upto, 2);
            if i > 0 {
                assert(f0[i - 1] == match dated_upto(ws@, i - 1) {
                    Some(j) => ws@[j],
                    None => None,
                });
            }
            assert(f@[i as int] == match dated_upto(ws@, i as int) {
                Some(j) => ws@[j],
                None => None,
            });
            assert forall|k: int| 0 <= k < i implies f@[k] == f0[k] by {}
        }
        i += 1;
    }
    if n < 2 {
        proof {
            assert forall|k: int| 0 <= k < n implies (#[trigger] f@[k]) == filled_when(ws@, k) by {
                lemma_dated_upto(ws@, k);
                lemma_dated_from(ws@, k);
                if dated_upto(ws@, k) is None {
                    if let Some(j) = dated_from(ws@, k) {
                        assert(j == k);
                    }
                }
            }
        }
        return f;
    }
    let mut b: usize = n - 1;
    proof {
        lemma_dated_upto(ws@, (n - 1) as int);
        lemma_dated_from(ws@, (n - 1) as int);
        if dated_upto(ws@, (n - 1) as int) is None {
            assert(dated_from(ws@, (n - 1) as int) is None) by {
                if let Some(j) = dated_from(ws@, (n - 1) as int) {
                    assert(j == n - 1);
                }
            }
        }
    }
    while b > 0
        invariant
            n == ws@.len(),
            n >= 2,
            f@.len() == n,
            b <= n - 1,
            forall|k: int| b <= k < n ==> (#[trigger] f@[k]) == filled_when(ws@, k),
            forall|k: int| 0 <= k < b ==> (#[trigger] f@[k]) == match dated_upto(ws@, k) {
                Some(j) => ws@[j],
                None => None,
            },
        decreases b,
    {
        b -= 1;
        let cur = f[b];
        proof {
            lemma_dated_upto(ws@, b as int);
            lemma_dated_upto(ws@, b + 1);
            lemma_dated_from(ws@, b as int);
            lemma_dated_from(ws@, b + 1);
        }
        if cur.is_none() {
            let next = f[b + 1];
            f.set(b, next);
            proof {
                assert(dated_upto(ws@, b as int) is None) by {
                    if let Some(j) = dated_upto(ws@, b as int) {
                        assert(ws@[j] is Some);
                    }
                }
                assert(ws@[b as int] is None);
                assert(dated_from(ws@, b as int) == dated_from(ws@, b + 1));
                if let Some(j) = dated_upto(ws@, b + 1) {
                    assert(j == b + 1);
                    assert(dated_from(ws@, b + 1) == Some(j));
                }
            }
        } else {
            proof {
                assert(dated_upto(ws@, b as int) is Some);
            }
        }
    }
    f
}

/// The walk a narrative makes through its leg events' places.
pub fn plan_walk(n: &NarrativeRow, events: &[EventRow], gazetteer: &[String]) -> (r: Result<Option<WalkPlan>, String>)
    ensures
        match r {
            Err(e) => spec_plan_walk(n.id@, string_views(n.legs@), event_views(events@), string_views(gazetteer@))
                == Err::<Option<(Seq<(Seq<char>, Seq<char>, (i32, i32))>, Seq<Seq<char>>)>, Seq<char>>(e@),
            Ok(None) => spec_plan_walk(n.id@, string_views(n.legs@), event_views(events@), string_views(gazetteer@))
                == Ok::<Option<(Seq<(Seq<char>, Seq<char>, (i32, i32))>, Seq<Seq<char>>)>, Seq<char>>(None),
            Ok(Some(w)) => spec_plan_walk(n.id@, string_views(n.legs@), event_views(events@), string_views(gazetteer@))
                == Ok::<Option<(Seq<(Seq<char>, Seq<char>, (i32, i32))>, Seq<Seq<char>>)>, Seq<char>>(Some((
                    w.legs@.map_values(|l: PlannedLeg| (l.from@, l.to@, l.span)),
                    string_views(w.verses@),
                ))),
        },
{
    let ghost legs = string_views(n.legs@);
    let ghost ev = event_views(events@);
    let ghost gz = string_views(gazetteer@);
    let mut places: Vec<String> = Vec::new();
    let mut whens: Vec<Option<(i32, i32)>> = Vec::new();
    let mut verses: Vec<String> = Vec::new();
    let ghost mut st: Seq<Station> = Seq::empty();
    let mut k: usize = 0;
    proof {
        assert(legs.take(0) =~= Seq::<Seq<char>>::empty());
    }
    while k < n.legs.len()
        invariant
            legs == string_views(n.legs@),
            ev == event_views(events@),
            gz == string_views(gazetteer@),
            k <= n.legs@.len(),
            stations(n.id@, legs.take(k as int), ev, gz) == Ok::<Seq<Station>, Seq<char>>(st),
            string_views(places@) == st.map_values(|s: Station| s.place),
            whens@ == st.map_values(|s: Station| s.when),
            string_views(verses@) == station_verses(st),
        decreases n.legs@.len() - k,
    {
        let leg = &n.legs[k];
        proof {
            assert(legs.take(k + 1).drop_last() =~= legs.take(k as int));
            assert(legs.take(k + 1).last() == leg@);
        }
        let i = match find_event(events, leg) {
            Some(i) => i,
            None => {
                proof {
                    lemma_stations_err(n.id@, legs, ev, gz, k + 1);
                }
                let head = concat3("narrative '", n.id.as_str(), "': unknown event '");
                return Err(concat3(head.as_str(), leg.as_str(), "'"));
            },
        };
        let e = &events[i];
        assert(ev[i as int] == e@);
        if e.places.len() == 0 {
            proof {
                lemma_stations_err(n.id@, legs, ev, gz, k + 1);
            }
            let head = concat3("narrative '", n.id.as_str(), "': event '");
            return Err(concat3(head.as_str(), e.id.as_str(), "' names no place"));
        }
        let place = &e.places[0];
        assert(e@.places[0] == place@);
        if !known_place(gazetteer, place) {
            proof {
                lemma_stations_err(n.id@, legs, ev, gz, k + 1);
            }
            let head = concat3("narrative '", n.id.as_str(), "': place '");
            return Err(concat3(head.as_str(), place.as_str(), "' not in the gazetteer"));
        }
        let ghost s = Station { place: place@, when: e.when, verses: e@.verses };
        let ghost v0 = string_views(verses@);
        let pc = place.clone();
        assert(pc@ == place@);
        let ghost places0 = places@;
        places.push(pc);
        assert(string_views(places@) =~= string_views(places0).push(place@));
        whens.push(e.when);
        let mut j: usize = 0;
        while j < e.verses.len()
            invariant
                j <= e.verses@.len(),
                string_views(verses@) == v0 + e@.verses.take(j as int),
            decreases e.verses@.len() - j,
        {
            let vc = e.verses[j].clone();
            assert(vc@ == e@.verses[j as int]);
            let ghost before_push = verses@;
            verses.push(vc);
            proof {
                assert(string_views(verses@) =~= string_views(before_push).push(vc@));
                assert(e@.verses.take(j + 1) =~= e@.verses.take(j as int).push(e@.verses[j as int]));
                assert(string_views(verses@) =~= v0 + e@.verses.take(j + 1));
            }
            j += 1;
        }
        proof {
            assert(e@.verses.take(e@.verses.len() as int) =~= e@.verses);
            let st1 = st.push(s);
            assert(st1.drop_last() =~= st);
            assert(string_views(places@) =~= st1.map_values(|s: Station| s.place));
            assert(whens@ =~= st1.map_values(|s: Station| s.when));
            st = st1;
        }
        k += 1;
    }
    proof {
        assert(legs.take(n.legs@.len() as int) =~= legs);
    }
    if places.len() < 2 {
        return Ok(None);
    }
    let filled = fill_whens(&whens);
    let mut c: usize = 0;
    while c < filled.len()
        invariant
            legs == string_views(n.legs@),
            ev == event_views(events@),
            gz == string_views(gazetteer@),
            stations(n.id@, legs, ev, gz) == Ok::<Seq<Station>, Seq<char>>(st),
            whens@ == st.map_values(|s: Station| s.when),
            st.len() >= 2,
            filled@.len() == whens@.len(),
            forall|q: int| 0 <= q < whens@.len() ==> (#[trigger] filled@[q]) == filled_when(whens@, q),
            c <= filled@.len(),
            forall|q: int| 0 <= q < c ==> (#[trigger] filled@[q]) is Some,
        decreases filled@.len() - c,
    {
        if filled[c].is_none() {
            proof {
                let ws = whens@;
                assert(filled@[c as int] is None);
                assert(filled_when(ws, c as int) is None);
                lemma_dated_upto(ws, c as int);
                lemma_dated_from(ws, 0);
                assert(dated_upto(ws, c as int) is None);
                assert forall|j: int| 0 <= j < ws.len() implies !(ws[j] is Some) by {
                    lemma_dated_from(ws, c as int);
                    if j > c as int {
                        assert(dated_from(ws, c as int) is None);
                    }
                }
            }
            let head = concat3("narrative '", n.id.as_str(), "': no event carries a date");
            return Err(head);
        }
        c += 1;
    }
    proof {
        let ws = whens@;
        assert(filled@[0] is Some);
        lemma_dated_upto(ws, 0);
        lemma_dated_from(ws, 0);
        if let Some(j) = dated_upto(ws, 0) {
            assert(ws[j] is Some);
        } else if let Some(j) = dated_from(ws, 0) {
            assert(ws[j] is Some);
        }
    }
    let mut out_legs: Vec<PlannedLeg> = Vec::new();
    let mut i: usize = 0;
    while i + 1 < places.len()
        invariant
            places@.len() == whens@.len(),
            filled@.len() == whens@.len(),
            forall|q: int| 0 <= q < filled@.len() ==> (#[trigger] filled@[q]) is Some,
            forall|q: int| 0 <= q < whens@.len() ==> (#[trigger] filled@[q]) == filled_when(whens@, q),
            i + 1 <= places.len(),
            out_legs@.len() == i,
            forall|q: int| 0 <= q < i ==> (#[trigger] out_legs@[q]).from@ == places@[q]@ && out_legs@[q].to@ == places@[q + 1]@
                && out_legs@[q].span == leg_span(filled_when(whens@, q).unwrap().1, filled_when(whens@, q + 1).unwrap().0),
        decreases places@.len() - i,
    {
        let depart = match filled[i] {
            Some(w) => w.1,
            None => 0,
        };
        let arrive = match filled[i + 1] {
            Some(w) => w.0,
            None => 0,
        };
        let span = if depart <= arrive { (depart, arrive) } else { (arrive, depart) };
        out_legs.push(PlannedLeg { from: places[i].clone(), to: places[i + 1].clone(), span });
        i += 1;
    }
    proof {
        let ws = whens@;
        let legs_v = out_legs@.map_values(|l: PlannedLeg| (l.from@, l.to@, l.span));
        let target = Seq::new((st.len() - 1) as nat, |q: int| (
            st[q].place,
            st[q + 1].place,
            leg_span(filled_when(ws, q).unwrap().1, filled_when(ws, q + 1).unwrap().0),
        ));
        assert forall|q: int| 0 <= q < st.len() implies st[q].place == places@[q]@ by {
            assert(string_views(places@)[q] == places@[q]@);
        }
        assert(legs_v =~= target);
        assert(exists|j: int| 0 <= j < ws.len() && ws[j] is Some) by {
            assert(filled@[0] is Some);
            lemma_dated_upto(ws, 0);
            lemma_dated_from(ws, 0);
            if let Some(j) = dated_upto(ws, 0) {
                assert(ws[j] is Some);
            } else if let Some(j) = dated_from(ws, 0) {
                assert(ws[j] is Some);
            }
        }
        assert(st.map_values(|s: Station| s.when) == ws);
    }
    Ok(Some(WalkPlan { legs: out_legs, verses }))
}

// ----------------------------------------------------- the walk's record

/// What a walked narrative puts into the canon besides its geometry:
/// its route's entity and name, the years it was walked over (from its
/// first leg's start to its last leg's end), and the note its
/// provenance carries.
#[derive(Clone, Debug, PartialEq)]
pub struct WalkRecord {
    pub entity: String,
    pub name: String,
    pub start: i32,
    pub end: i32,
    pub note: String,
}

/// The provenance note of a walk over `start..end`.
pub open spec fn walk_note(start: i32, end: i32) -> Seq<char> {
    "atlas narrative, walked "@ + int_text(start as int) + ".."@ + int_text(end as int)
}

/// A walk touches year zero, which does not exist.
pub open spec fn walks_year_zero(spans: Seq<(i32, i32)>) -> bool {
    exists|i: int| 0 <= i < spans.len() && ((#[trigger] spans[i]).0 == 0 || spans[i].1 == 0)
}

/// The record of narrative `n` walked as `w`. A leg dated to year zero
/// is refused, as the canon's timestamps are.
pub fn walk_record(n: &NarrativeRow, w: &WalkPlan) -> (r: Result<WalkRecord, String>)
    requires
        w.legs@.len() > 0,
    ensures
        walks_year_zero(w.legs@.map_values(|l: PlannedLeg| l.span)) <==> r is Err,
        r matches Err(e) ==> e@ == "no such year 0"@,
        r matches Ok(x) ==> {
            &&& x.entity@ == n.id@
            &&& x.name@ == n.name@
            &&& x.start == w.legs@[0].span.0
            &&& x.end == w.legs@[w.legs@.len() - 1].span.1
            &&& x.note@ == walk_note(x.start, x.end)
        },
{
    let ghost spans = w.legs@.map_values(|l: PlannedLeg| l.span);
    let mut i: usize = 0;
    while i < w.legs.len()
        invariant
            spans == w.legs@.map_values(|l: PlannedLeg| l.span),
            i <= w.legs@.len(),
            forall|k: int| 0 <= k < i ==> (#[trigger] spans[k]).0 != 0 && spans[k].1 != 0,
        decreases w.legs@.len() - i,
    {
        if w.legs[i].span.0 == 0 || w.legs[i].span.1 == 0 {
            proof {
                assert(spans[i as int] == w.legs@[i as int].span);
            }
            return Err(owned("no such year 0"));
        }
        assert(spans[i as int] == w.legs@[i as int].span);
        i += 1;
    }
    let start = w.legs[0].span.0;
    let end = w.legs[w.legs.len() - 1].span.1;
    let s = int_to_text(start);
    let e = int_to_text(end);
    let head = concat2("atlas narrative, walked ", s.as_str());
    let note = concat3(head.as_str(), "..", e.as_str());
    Ok(WalkRecord { entity: n.id.clone(), name: n.name.clone(), start, end, note })
}

// ------------------------------------------------- where stations stand

proof fn lemma_event_upto(events: Seq<EventView>, id: Seq<char>, k: int)
    requires
        k < events.len(),
    ensures
        event_upto(events, id, k) matches Some(i) ==> 0 <= i <= k && events[i].id == id,
        event_upto(events, id, k) is None ==> forall|i: int| 0 <= i <= k ==> (#[trigger] events[i]).id != id,
    decreases k + 1,
{
    if k >= 0 && events[k].id != id {
        lemma_event_upto(events, id, k - 1);
    }
}

/// The stations of a narrative, leg by leg: each leg names an event
/// with that id, and the station stands at that event's FIRST place.
proof fn lemma_stations(n_id: Seq<char>, legs: Seq<Seq<char>>, events: Seq<EventView>, gazetteer: Seq<Seq<char>>)
    requires
        stations(n_id, legs, events, gazetteer) is Ok,
    ensures
        ({
            let st = stations(n_id, legs, events, gazetteer)->Ok_0;
            &&& st.len() == legs.len()
            &&& forall|i: int| 0 <= i < legs.len() ==> {
                &&& #[trigger] event_for(events, legs[i]) is Some
                &&& events[event_for(events, legs[i])->Some_0].id == legs[i]
                &&& events[event_for(events, legs[i])->Some_0].places.len() > 0
                &&& st[i].place == events[event_for(events, legs[i])->Some_0].places[0]
                &&& st[i].when == events[event_for(events, legs[i])->Some_0].when
            }
        }),
    decreases legs.len(),
{
    if legs.len() > 0 {
        let p = legs.drop_last();
        lemma_stations(n_id, p, events, gazetteer);
        let n = legs.len() - 1;
        lemma_event_upto(events, legs[n], events.len() - 1);
        let done = stations(n_id, p, events, gazetteer)->Ok_0;
        let last = station_for(n_id, legs.last(), events, gazetteer);
        assert(last is Ok);
        let st = stations(n_id, legs, events, gazetteer)->Ok_0;
        assert(st == done.push(last->Ok_0));
        assert(legs.last() == legs[n]);
        assert forall|i: int| 0 <= i < legs.len() implies {
            &&& #[trigger] event_for(events, legs[i]) is Some
            &&& events[event_for(events, legs[i])->Some_0].id == legs[i]
            &&& events[event_for(events, legs[i])->Some_0].places.len() > 0
            &&& st[i].place == events[event_for(events, legs[i])->Some_0].places[0]
            &&& st[i].when == events[event_for(events, legs[i])->Some_0].when
        } by {
            if i < n {
                assert(p[i] == legs[i]);
                assert(st[i] == done[i]);
                assert(event_for(events, p[i]) is Some);
            } else {
                assert(st[i] == last->Ok_0);
            }
        }
    }
}

/// A WALK RUNS BETWEEN ITS EVENTS' FIRST PLACES: when a narrative's walk
/// is planned, it has one leg fewer than the narrative has leg events,
/// and leg `i` runs from the first listed place of the event the
/// narrative's leg `i` names to the first listed place of the event its
/// leg `i + 1` names.
pub proof fn law_walk_runs_between_first_places(
    n_id: Seq<char>,
    legs: Seq<Seq<char>>,
    events: Seq<EventView>,
    gazetteer: Seq<Seq<char>>,
)
    requires
        spec_plan_walk(n_id, legs, events, gazetteer) matches Ok(Some(_)),
    ensures
        ({
            let walk = spec_plan_walk(n_id, legs, events, gazetteer)->Ok_0->Some_0.0;
            &&& walk.len() == legs.len() - 1
            &&& forall|i: int| 0 <= i < walk.len() ==> {
                &&& event_for(events, legs[i]) matches Some(a)
                &&& event_for(events, legs[i + 1]) matches Some(b)
                &&& events[a].id == legs[i]
                &&& events[b].id == legs[i + 1]
                &&& (#[trigger] walk[i]).0 == events[a].places[0]
                &&& walk[i].1 == events[b].places[0]
            }
        }),
{
    lemma_stations(n_id, legs, events, gazetteer);
    let st = stations(n_id, legs, events, gazetteer)->Ok_0;
    let walk = spec_plan_walk(n_id, legs, events, gazetteer)->Ok_0->Some_0.0;
    assert forall|i: int| 0 <= i < walk.len() implies {
        &&& event_for(events, legs[i]) matches Some(a)
        &&& event_for(events, legs[i + 1]) matches Some(b)
        &&& events[a].id == legs[i]
        &&& events[b].id == legs[i + 1]
        &&& (#[trigger] walk[i]).0 == events[a].places[0]
        &&& walk[i].1 == events[b].places[0]
    } by {
        assert(event_for(events, legs[i]) is Some);
        assert(event_for(events, legs[i + 1]) is Some);
        assert(walk[i].0 == st[i].place && walk[i].1 == st[i + 1].place);
    }
}

} // verus!
