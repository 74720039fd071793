//! Binding an era's phases and fall to the atlas's events: each phase
//! takes the atlas year of the event its verses name, when one does —
//! but a binding that would break the era's order is dropped, year and
//! driver together, and the phase keeps its traditional year. Routes
//! and surveys bind the same way, and disclose how much of their
//! geometry the atlas located.

use vstd::prelude::*;
use crate::text::{concat2, concat3, decimal, decimal_text, hex16, hex_digits, owned, string_views};
use crate::world::TimePoint;
use crate::exports::{spec_resolve_place, AtlasExports};
use crate::years::{spec_year_after, year_after};

verus! {

/// A year, and the atlas event that drove it when one did.
#[derive(Clone, Debug, PartialEq)]
pub struct Binding {
    pub year: i32,
    pub driver: Option<String>,
}

impl View for Binding {
    type V = (i32, Option<Seq<char>>);

    open spec fn view(&self) -> (i32, Option<Seq<char>>) {
        (
            self.year,
            match self.driver {
                Some(d) => Some(d@),
                None => None,
            },
        )
    }
}

/// The atlas's answer for one phase: the event's id and year.
pub open spec fn answer_view(r: Option<(String, i32)>) -> Option<(Seq<char>, i32)> {
    match r {
        Some((id, y)) => Some((id@, y)),
        None => None,
    }
}

pub open spec fn answer_views(rs: Seq<Option<(String, i32)>>) -> Seq<Option<(Seq<char>, i32)>> {
    rs.map_values(|r: Option<(String, i32)>| answer_view(r))
}

pub open spec fn binding_views(bs: Seq<Binding>) -> Seq<(i32, Option<Seq<char>>)> {
    bs.map_values(|b: Binding| b@)
}

/// The atlas's year and event where it answered, else the tradition's
/// year alone.
pub open spec fn first_take(year: i32, r: Option<(Seq<char>, i32)>) -> (i32, Option<Seq<char>>) {
    match r {
        Some((id, y)) => (y, Some(id)),
        None => (year, None),
    }
}

/// The first `n` phases bound in order: a phase whose atlas year would
/// not come after the phase before it is unbound to its traditional
/// year instead of inverting the era.
pub open spec fn phase_bindings(years: Seq<i32>, rs: Seq<Option<(Seq<char>, i32)>>, n: int) -> Seq<(i32, Option<Seq<char>>)>
    decreases n,
{
    if n <= 0 {
        Seq::empty()
    } else {
        let prev = phase_bindings(years, rs, n - 1);
        let b = first_take(years[n - 1], rs[n - 1]);
        if n > 1 && b.0 <= prev.last().0 {
            prev.push((years[n - 1], None))
        } else {
            prev.push(b)
        }
    }
}

/// The fall's binding: the atlas year (the END of the event's span)
/// where it answered, unless that would not come after the last phase,
/// in which case the traditional year alone.
pub open spec fn fall_binding(year: i32, r: Option<(Seq<char>, i32)>, last_phase: Option<i32>) -> (i32, Option<Seq<char>>) {
    let b = first_take(year, r);
    match last_phase {
        Some(l) => if b.0 <= l {
            (year, None)
        } else {
            b
        },
        None => b,
    }
}

fn take_answer(year: i32, r: &Option<(String, i32)>) -> (b: Binding)
    ensures
        b@ == first_take(year, answer_view(*r)),
{
    match r {
        Some((id, y)) => Binding { year: *y, driver: Some(owned(id.as_str())) },
        None => Binding { year, driver: None },
    }
}

/// Each phase's year and driver, in phase order.
pub fn bind_phases(years: &[i32], answers: &[Option<(String, i32)>]) -> (out: Vec<Binding>)
    requires
        years@.len() == answers@.len(),
    ensures
        binding_views(out@) == phase_bindings(years@, answer_views(answers@), years@.len() as int),
{
    let ghost rs = answer_views(answers@);
    let mut out: Vec<Binding> = Vec::new();
    let mut i: usize = 0;
    while i < years.len()
        invariant
            years@.len() == answers@.len(),
            rs == answer_views(answers@),
            i <= years@.len(),
            binding_views(out@) == phase_bindings(years@, rs, i as int),
            out@.len() == i,
        decreases years@.len() - i,
    {
        let ghost prev = binding_views(out@);
        let b = take_answer(years[i], &answers[i]);
        assert(rs[i as int] == answer_view(answers@[i as int]));
        if i > 0 && b.year <= out[i - 1].year {
            assert(prev.last() == out@[i - 1]@);
            out.push(Binding { year: years[i], driver: None });
        } else {
            if i > 0 {
                assert(prev.last() == out@[i - 1]@);
            }
            out.push(b);
        }
        assert(binding_views(out@) =~= phase_bindings(years@, rs, i + 1));
        i += 1;
    }
    out
}

/// The fall's year and driver, given the last phase's bound year.
pub fn bind_fall(year: i32, answer: &Option<(String, i32)>, last_phase: Option<i32>) -> (b: Binding)
    ensures
        b@ == fall_binding(year, answer_view(*answer), last_phase),
{
    let b = take_answer(year, answer);
    match last_phase {
        Some(l) => if b.year <= l {
            Binding { year, driver: None }
        } else {
            b
        },
        None => b,
    }
}

/// A kept binding never runs backward: every phase bound to an atlas
/// event comes after the phase before it.
pub proof fn law_kept_drivers_run_forward(years: Seq<i32>, rs: Seq<Option<(Seq<char>, i32)>>, n: int, i: int)
    requires
        years.len() == rs.len(),
        0 < i < n <= years.len(),
        phase_bindings(years, rs, n)[i].1 is Some,
    ensures
        phase_bindings(years, rs, n)[i].0 > phase_bindings(years, rs, n)[i - 1].0,
    decreases n,
{
    lemma_prefix(years, rs, n);
    if i < n - 1 {
        law_kept_drivers_run_forward(years, rs, n - 1, i);
    }
}

/// Year and driver go together: a bound phase carries exactly the
/// atlas's answer, an unbound one exactly the tradition's year.
pub proof fn law_year_and_driver_together(years: Seq<i32>, rs: Seq<Option<(Seq<char>, i32)>>, n: int, i: int)
    requires
        years.len() == rs.len(),
        0 <= i < n <= years.len(),
    ensures
        phase_bindings(years, rs, n)[i] == first_take(years[i], rs[i])
            || phase_bindings(years, rs, n)[i] == (years[i], None::<Seq<char>>),
        phase_bindings(years, rs, n)[i].1 is Some ==> phase_bindings(years, rs, n)[i] == first_take(years[i], rs[i]),
    decreases n,
{
    lemma_prefix(years, rs, n);
    if i < n - 1 {
        law_year_and_driver_together(years, rs, n - 1, i);
    }
}

/// Binding more phases leaves the earlier ones as they were.
proof fn lemma_prefix(years: Seq<i32>, rs: Seq<Option<(Seq<char>, i32)>>, n: int)
    requires
        0 < n,
    ensures
        phase_bindings(years, rs, n).len() == n,
        forall|j: int| 0 <= j < n - 1 ==> #[trigger] phase_bindings(years, rs, n)[j] == phase_bindings(years, rs, n - 1)[j],
    decreases n,
{
    if n > 1 {
        lemma_prefix(years, rs, n - 1);
    } else {
        assert(phase_bindings(years, rs, 0).len() == 0);
    }
}

/// A fall that keeps its atlas driver comes after the last phase.
pub proof fn law_kept_fall_comes_last(year: i32, r: Option<(Seq<char>, i32)>, last_phase: Option<i32>)
    requires
        fall_binding(year, r, last_phase).1 is Some,
        last_phase is Some,
    ensures
        fall_binding(year, r, last_phase).0 > last_phase->Some_0,
{
}

// ------------------------------------------------------------ routes

/// A journey's span in years: from its departure (the atlas's, where it
/// answered) to its arrival (the atlas's end year when it ends later
/// than it begins, else the route's own), never before the departure.
pub open spec fn route_years(from_year: i32, to_year: Option<i32>, answer: Option<(i32, i32)>) -> (int, int) {
    let (f, t) = match answer {
        Some((fy, ty)) => (fy, if ty > fy { Some(ty) } else { to_year }),
        None => (from_year, to_year),
    };
    let a = match t {
        Some(x) => x,
        None => f,
    };
    (f as int, if a > f { a as int } else { f as int })
}

/// A journey in time: its departure, its arrival, the year after the
/// arrival (the span's exclusive end, minding the missing year zero),
/// and its scrub stops — the departure always, the arrival too when
/// the walk crosses years.
pub fn route_span(from_year: i32, to_year: Option<i32>, answer: Option<(i32, i32)>) -> (r: (i32, i32, i32, Vec<i32>))
    requires
        route_years(from_year, to_year, answer).1 < i32::MAX,
    ensures
        r.0 == route_years(from_year, to_year, answer).0,
        r.1 == route_years(from_year, to_year, answer).1,
        r.2 == spec_year_after(r.1 as int),
        r.3@ == (if r.1 > r.0 { seq![r.0, r.1] } else { seq![r.0] }),
{
    let (f, t) = match answer {
        Some((fy, ty)) => (fy, if ty > fy { Some(ty) } else { to_year }),
        None => (from_year, to_year),
    };
    let a = match t {
        Some(x) => x,
        None => f,
    };
    let arrival = if a > f { a } else { f };
    let end = year_after(arrival);
    let mut stops: Vec<i32> = Vec::new();
    stops.push(f);
    if arrival > f {
        stops.push(arrival);
    }
    (f, arrival, end, stops)
}

/// The stand-in disclosure authored geometry carries.
pub open spec fn stand_in_text() -> Seq<char> {
    "authored:traditional-identifications (approximate stand-in pending atlas C3 gazetteer)"@
}

/// The provenance a resolved circuit carries: the atlas's when it
/// located every waypoint, mixed when it located some, stand-in
/// otherwise — disclosed either way.
pub open spec fn circuit_provenance_text(root: Option<u64>, bound: nat, total: nat) -> Seq<char> {
    match root {
        Some(h) => if bound == total {
            "bible-atlas@"@ + hex_digits(h as nat, 16)
        } else if bound > 0 {
            "mixed: bible-atlas@"@ + hex_digits(h as nat, 16) + " ("@ + decimal_text(bound) + "/"@ + decimal_text(total)
                + " waypoints) + "@ + stand_in_text()
        } else {
            stand_in_text()
        },
        None => stand_in_text(),
    }
}

pub fn circuit_provenance(root: Option<u64>, bound: usize, total: usize) -> (s: String)
    ensures
        s@ == circuit_provenance_text(root, bound as nat, total as nat),
{
    proof {
        reveal_strlit("authored:traditional-identifications (approximate stand-in pending atlas C3 gazetteer)");
    }
    match root {
        Some(h) => {
            let hx = hex16(h);
            if bound == total {
                concat2("bible-atlas@", hx.as_str())
            } else if bound > 0 {
                let b = decimal(bound);
                let t = decimal(total);
                let head = concat3("mixed: bible-atlas@", hx.as_str(), " (");
                let mid = concat3(b.as_str(), "/", t.as_str());
                let tail = concat2(" waypoints) + ", "authored:traditional-identifications (approximate stand-in pending atlas C3 gazetteer)");
                let hm = concat2(head.as_str(), mid.as_str());
                let s = concat2(hm.as_str(), tail.as_str());
                assert(s@ == "mixed: bible-atlas@"@ + hex_digits(h as nat, 16) + " ("@ + decimal_text(bound as nat) + "/"@
                    + decimal_text(total as nat) + " waypoints) + "@ + stand_in_text());
                s
            } else {
                owned("authored:traditional-identifications (approximate stand-in pending atlas C3 gazetteer)")
            }
        },
        None => owned("authored:traditional-identifications (approximate stand-in pending atlas C3 gazetteer)"),
    }
}

/// How a circuit's waypoint is placed: by the atlas gazetteer (its
/// place id and coordinates, as the artifact writes them), or by its
/// disclosed stand-in.
#[derive(Clone, Debug)]
pub enum WaypointBinding {
    Atlas { id: String, lat: String, lon: String },
    StandIn { id: String },
}

pub enum WaypointBindingView {
    Atlas(Seq<char>, Seq<char>, Seq<char>),
    StandIn(Seq<char>),
}

impl WaypointBinding {
    pub open spec fn view(&self) -> WaypointBindingView {
        match self {
            WaypointBinding::Atlas { id, lat, lon } => WaypointBindingView::Atlas(id@, lat@, lon@),
            WaypointBinding::StandIn { id } => WaypointBindingView::StandIn(id@),
        }
    }
}

/// A stand-in place id: `standin:` and the name, spaces as hyphens.
pub open spec fn stand_in_id(name: Seq<char>) -> Seq<char> {
    "standin:"@ + name.map_values(|c: char| if c == ' ' { '-' } else { c })
}

/// A waypoint's binding: the atlas place its name resolves to, when
/// an atlas is given and it does; its stand-in otherwise.
pub open spec fn waypoint_binding(atlas: Option<crate::exports::AtlasExportsView>, name: Seq<char>) -> WaypointBindingView {
    match atlas {
        Some(a) => match spec_resolve_place(a.places, name) {
            Some(i) => WaypointBindingView::Atlas(a.places[i].id, a.places[i].lat, a.places[i].lon),
            None => WaypointBindingView::StandIn(stand_in_id(name)),
        },
        None => WaypointBindingView::StandIn(stand_in_id(name)),
    }
}

/// How many of the bindings the atlas gave.
pub open spec fn bound_count(bs: Seq<WaypointBindingView>) -> nat
    decreases bs.len(),
{
    if bs.len() == 0 {
        0
    } else {
        bound_count(bs.drop_last()) + if bs.last() is Atlas { 1nat } else { 0nat }
    }
}

/// The stand-in place id of a waypoint name.
pub fn place_id(name: &str) -> (r: String)
    ensures
        r@ == stand_in_id(name@),
{
    proof {
        reveal_strlit("standin:");
    }
    let cs = crate::text::chars_of(name);
    let mut out: Vec<char> = crate::text::chars_of("standin:");
    let ghost head = out@;
    let mut i: usize = 0;
    while i < cs.len()
        invariant
            head == "standin:"@,
            cs@ == name@,
            i <= cs@.len(),
            out@ == head + cs@.take(i as int).map_values(|c: char| if c == ' ' { '-' } else { c }),
        decreases cs.len() - i,
    {
        let c = if cs[i] == ' ' { '-' } else { cs[i] };
        out.push(c);
        proof {
            let f = |c: char| if c == ' ' { '-' } else { c };
            assert(cs@.take(i as int + 1).map_values(f) =~= cs@.take(i as int).map_values(f).push(c));
        }
        i += 1;
    }
    proof {
        assert(cs@.take(cs@.len() as int) =~= cs@);
    }
    crate::text::string_of(&out)
}

/// Resolve a circuit against the atlas gazetteer: bound waypoints take
/// the atlas's coordinates and place ids (one fact, one home); unbound
/// ones keep their disclosed stand-ins. The bindings in order, and how
/// many the atlas gave.
pub fn resolve_circuit(names: &Vec<String>, atlas: Option<&AtlasExports>) -> (r: (Vec<WaypointBinding>, usize))
    ensures
        r.0@.len() == names@.len(),
        forall|i: int| 0 <= i < names@.len() ==> (#[trigger] r.0@[i])@ == waypoint_binding(
            match atlas {
                Some(a) => Some(a@),
                None => None,
            },
            names@[i]@,
        ),
        r.1 == bound_count(r.0@.map_values(|b: WaypointBinding| b@)),
{
    let ghost av = match atlas {
        Some(a) => Some(a@),
        None => None::<crate::exports::AtlasExportsView>,
    };
    let mut out: Vec<WaypointBinding> = Vec::new();
    let mut bound: usize = 0;
    let mut i: usize = 0;
    while i < names.len()
        invariant
            av == match atlas {
                Some(a) => Some(a@),
                None => None::<crate::exports::AtlasExportsView>,
            },
            i <= names@.len(),
            out@.len() == i,
            forall|k: int| 0 <= k < i ==> (#[trigger] out@[k])@ == waypoint_binding(av, names@[k]@),
            bound == bound_count(out@.map_values(|b: WaypointBinding| b@)),
            bound <= i,
        decreases names.len() - i,
    {
        let name = names[i].as_str();
        let found = match atlas {
            Some(a) => a.resolve_place(name),
            None => None,
        };
        let b = match found {
            Some((id, lat, lon)) => {
                bound += 1;
                WaypointBinding::Atlas { id, lat, lon }
            },
            None => WaypointBinding::StandIn { id: place_id(name) },
        };
        let ghost before = out@;
        out.push(b);
        proof {
            let bm = before.map_values(|b: WaypointBinding| b@);
            assert(out@.map_values(|b: WaypointBinding| b@) =~= bm.push(b@));
            assert(bm.push(b@).drop_last() =~= bm);
            assert(bm.push(b@).last() == b@);
            assert(out@[i as int]@ == waypoint_binding(av, names@[i as int]@));
            assert forall|k: int| 0 <= k < i + 1 implies (#[trigger] out@[k])@ == waypoint_binding(av, names@[k]@) by {
                if k < i {
                    assert(out@[k] == before[k]);
                }
            }
        }
        i += 1;
    }
    (out, bound)
}

// ------------------------------------------------------- era events

/// What an era's event records: its rise, the shift into a later
/// phase, or its fall.
#[derive(Clone, Copy, Debug, PartialEq, Eq, Structural)]
pub enum EraChange {
    Rise,
    Shift { phase: usize },
    Fall,
}

/// One change an era makes: when, what, the atlas event that drives
/// it (when the date is bound to one), the note that justifies it, and
/// where its date comes from.
#[derive(Clone, Debug, PartialEq)]
pub struct EraEvent {
    pub at: TimePoint,
    pub change: EraChange,
    pub driver: Option<String>,
    pub note: String,
    pub provenance: String,
}

pub struct EraEventView {
    pub at: TimePoint,
    pub change: EraChange,
    pub driver: Option<Seq<char>>,
    pub note: Seq<char>,
    pub provenance: Seq<char>,
}

impl View for EraEvent {
    type V = EraEventView;

    open spec fn view(&self) -> EraEventView {
        EraEventView {
            at: self.at,
            change: self.change,
            driver: match self.driver {
                Some(d) => Some(d@),
                None => None,
            },
            note: self.note@,
            provenance: self.provenance@,
        }
    }
}

/// The tradition's dates, disclosed as such.
pub open spec fn ussher_text() -> Seq<char> {
    "owner-config:ussher-tradition (pending atlas C2 export)"@
}

/// Where a date comes from: the atlas, when an atlas event drives it,
/// and the tradition otherwise.
pub open spec fn date_provenance(driver: Option<Seq<char>>, root: Option<u64>) -> Seq<char> {
    match (driver, root) {
        (Some(_), Some(h)) => "bible-atlas@"@ + hex_digits(h as nat, 16),
        _ => ussher_text(),
    }
}

pub open spec fn era_event_view(b: (i32, Option<Seq<char>>), change: EraChange, note: Seq<char>, root: Option<u64>) -> EraEventView {
    EraEventView {
        at: TimePoint { year: b.0, month: None, day: None },
        change,
        driver: b.1,
        note,
        provenance: date_provenance(b.1, root),
    }
}

/// An era's events: each phase at its bound year (the first rises, the
/// later ones shift), then its fall, if it has one.
pub open spec fn era_events_of(
    phases: Seq<(i32, Option<Seq<char>>)>,
    notes: Seq<Seq<char>>,
    fall: Option<((i32, Option<Seq<char>>), Seq<char>)>,
    root: Option<u64>,
) -> Seq<EraEventView> {
    Seq::new(
        phases.len(),
        |i: int| era_event_view(phases[i], if i == 0 { EraChange::Rise } else { EraChange::Shift { phase: i as usize } }, notes[i], root),
    ) + match fall {
        Some(f) => seq![era_event_view(f.0, EraChange::Fall, f.1, root)],
        None => Seq::empty(),
    }
}

pub open spec fn fall_view(fall: Option<(Binding, String)>) -> Option<((i32, Option<Seq<char>>), Seq<char>)> {
    match fall {
        Some(f) => Some((f.0@, f.1@)),
        None => None,
    }
}

fn date_source(driver: &Option<String>, root: Option<u64>) -> (s: String)
    ensures
        s@ == date_provenance(
            match *driver {
                Some(d) => Some(d@),
                None => None,
            },
            root,
        ),
{
    match (driver, root) {
        (Some(_), Some(h)) => {
            let hx = hex16(h);
            concat2("bible-atlas@", hx.as_str())
        },
        _ => owned("owner-config:ussher-tradition (pending atlas C2 export)"),
    }
}

fn era_event(b: &Binding, change: EraChange, note: &String, root: Option<u64>) -> (e: EraEvent)
    requires
        b.year != 0,
    ensures
        e@ == era_event_view(b@, change, note@, root),
{
    let driver = match &b.driver {
        Some(d) => Some(d.clone()),
        None => None,
    };
    EraEvent {
        at: TimePoint::year_only(b.year),
        change,
        driver,
        note: note.clone(),
        provenance: date_source(&b.driver, root),
    }
}

/// The events an era's bound phases and fall make, in order.
pub fn era_events(phases: &Vec<Binding>, notes: &Vec<String>, fall: &Option<(Binding, String)>, root: Option<u64>) -> (out: Vec<EraEvent>)
    requires
        phases@.len() == notes@.len(),
        forall|i: int| 0 <= i < phases@.len() ==> (#[trigger] phases@[i]).year != 0,
        fall matches Some(f) ==> f.0.year != 0,
    ensures
        out@.map_values(|e: EraEvent| e@) == era_events_of(binding_views(phases@), string_views(notes@), fall_view(*fall), root),
{
    let ghost want = era_events_of(binding_views(phases@), string_views(notes@), fall_view(*fall), root);
    let mut out: Vec<EraEvent> = Vec::new();
    let mut i: usize = 0;
    while i < phases.len()
        invariant
            phases@.len() == notes@.len(),
            forall|q: int| 0 <= q < phases@.len() ==> (#[trigger] phases@[q]).year != 0,
            want == era_events_of(binding_views(phases@), string_views(notes@), fall_view(*fall), root),
            i <= phases@.len(),
            out@.len() == i,
            forall|k: int| 0 <= k < i ==> (#[trigger] out@[k])@ == want[k],
        decreases phases@.len() - i,
    {
        let change = if i == 0 { EraChange::Rise } else { EraChange::Shift { phase: i } };
        out.push(era_event(&phases[i], change, &notes[i], root));
        proof {
            assert(binding_views(phases@)[i as int] == phases@[i as int]@);
            assert(string_views(notes@)[i as int] == notes@[i as int]@);
        }
        i += 1;
    }
    match fall {
        Some((b, note)) => {
            out.push(era_event(b, EraChange::Fall, note, root));
        },
        None => {},
    }
    proof {
        assert(out@.map_values(|e: EraEvent| e@) =~= want);
    }
    out
}

} // verus!
