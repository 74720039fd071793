//! From epochs to a timeline: the historical-basemaps source gives the
//! world's states at coarse epochs; here they become piecewise
//! histories — one version per run of unchanged presence or geometry,
//! each interval ending where the next epoch begins and the last left
//! open — and the differences between consecutive epochs are narrated
//! as rises, falls and border shifts.

use vstd::prelude::*;
use crate::basemaps::{Exemption, IngestError, ParseError};
use crate::arcs::{arc_share, extract, extracted_from, law_fidelity, rebuild, ring_arcs, spec_arcs, ArcDir, Extraction};
use crate::quantize::{clean_ring, collapse_repeats, drop_closing, is_rotation_of, seq_equal, QPoint};
use crate::palette::ints;
use crate::registry::{insert_name, insert_names, merge_name, names_sorted};
use crate::registry_laws::lemma_insert_name;
use crate::text::chars_lt;
use crate::world::{before, precedes, TimePoint};

verus! {

/// A span of time: from a moment, up to (not including) the next
/// change, or open when nothing later is known.
#[derive(Clone, Copy, Debug, PartialEq, Eq, Structural)]
pub struct Interval {
    pub from: TimePoint,
    pub to: Option<TimePoint>,
}

/// The ascending positions below `n` that satisfy `p`.
pub open spec fn indices_where(n: int, p: spec_fn(int) -> bool) -> Seq<int>
    decreases n,
{
    if n <= 0 {
        Seq::empty()
    } else if p(n - 1) {
        indices_where(n - 1, p).push(n - 1)
    } else {
        indices_where(n - 1, p)
    }
}

/// The runs of `ks` as (first, last) pairs: a new run starts at every
/// position `j` with `cut[j]`; otherwise a member extends the run
/// before it.
pub open spec fn runs(ks: Seq<int>, cut: Seq<bool>) -> Seq<(int, int)>
    decreases ks.len(),
{
    if ks.len() == 0 {
        Seq::empty()
    } else if ks.len() == 1 {
        seq![(ks[0], ks[0])]
    } else {
        let r = runs(ks.drop_last(), cut);
        let k = ks.last();
        if cut[ks.len() - 1] {
            r.push((k, k))
        } else {
            r.update(r.len() - 1, (r.last().0, k))
        }
    }
}

/// Runs of presence: a gap between consecutive members ends a run.
pub open spec fn gap_cuts(ks: Seq<int>) -> Seq<bool> {
    Seq::new(ks.len(), |j: int| j > 0 && ks[j] != ks[j - 1] + 1)
}

/// The runs of `ks` hold at least one pair whenever `ks` is not empty.
pub proof fn lemma_runs_len(ks: Seq<int>, cut: Seq<bool>)
    ensures
        ks.len() > 0 ==> runs(ks, cut).len() > 0,
        runs(ks, cut).len() <= ks.len(),
        ks.len() > 0 ==> runs(ks, cut).last().1 == ks.last(),
        ks.len() > 0 ==> runs(ks, cut)[0].0 == ks[0],
    decreases ks.len(),
{
    if ks.len() > 1 {
        lemma_runs_len(ks.drop_last(), cut);
    }
}

/// Split `ks` into runs at the positions marked in `cut`.
pub fn runs_of(ks: &Vec<usize>, cut: &Vec<bool>) -> (out: Vec<(usize, usize)>)
    requires
        cut@.len() == ks@.len(),
    ensures
        out@.map_values(|r: (usize, usize)| (r.0 as int, r.1 as int))
            == runs(ks@.map_values(|k: usize| k as int), cut@),
{
    let ghost ki = ks@.map_values(|k: usize| k as int);
    let mut out: Vec<(usize, usize)> = Vec::new();
    let mut j: usize = 0;
    while j < ks.len()
        invariant
            cut@.len() == ks@.len(),
            ki == ks@.map_values(|k: usize| k as int),
            j <= ks.len(),
            out@.map_values(|r: (usize, usize)| (r.0 as int, r.1 as int)) == runs(ki.take(j as int), cut@),
        decreases ks.len() - j,
    {
        let k = ks[j];
        let ghost before = out@;
        proof {
            lemma_runs_len(ki.take(j as int), cut@);
            assert(ki.take(j as int + 1).drop_last() =~= ki.take(j as int));
        }
        if j == 0 || cut[j] {
            out.push((k, k));
        } else {
            let last = out.len() - 1;
            let first = out[last].0;
            out.set(last, (first, k));
        }
        proof {
            let m = |r: (usize, usize)| (r.0 as int, r.1 as int);
            assert(out@.map_values(m) =~= runs(ki.take(j as int + 1), cut@));
        }
        j += 1;
    }
    proof {
        assert(ki.take(ks.len() as int) =~= ki);
    }
    out
}

/// An arc as a region's border walks it: which stored arc, and whether
/// along its stored direction.
#[derive(Clone, Copy, Debug, PartialEq, Eq, Structural)]
pub struct ArcUse {
    pub arc: usize,
    pub forward: bool,
}

/// One part of a region: its outer cycle of arcs and the cycles of its
/// holes.
#[derive(Clone, Debug)]
pub struct RegionPart {
    pub cycle: Vec<ArcUse>,
    pub holes: Vec<Vec<ArcUse>>,
}

/// A named region's geometry at one epoch, its parts in first-seen
/// order.
#[derive(Clone, Debug)]
pub struct RegionGeom {
    pub name: String,
    pub parts: Vec<RegionPart>,
}

/// One epoch, resolved: its regions in name order and the arcs of the
/// arc table it uses.
#[derive(Clone, Debug)]
pub struct EpochWorld {
    pub year: i32,
    pub label: String,
    pub regions: Vec<RegionGeom>,
    pub arcs: Vec<usize>,
}

/// All the arc uses of a list of cycles, in order.
pub open spec fn cycles_uses(cs: Seq<Vec<ArcUse>>) -> Seq<ArcUse>
    decreases cs.len(),
{
    if cs.len() == 0 {
        Seq::empty()
    } else {
        cycles_uses(cs.drop_last()) + cs.last()@
    }
}

/// The arc uses of a part: its outer cycle, then its holes.
pub open spec fn part_uses(p: RegionPart) -> Seq<ArcUse> {
    p.cycle@ + cycles_uses(p.holes@)
}

/// The arc uses of a geometry, part by part.
pub open spec fn parts_uses(ps: Seq<RegionPart>) -> Seq<ArcUse>
    decreases ps.len(),
{
    if ps.len() == 0 {
        Seq::empty()
    } else {
        parts_uses(ps.drop_last()) + part_uses(ps.last())
    }
}

/// How often `x` occurs in `s`.
pub open spec fn count_use(s: Seq<ArcUse>, x: ArcUse) -> nat
    decreases s.len(),
{
    if s.len() == 0 {
        0
    } else {
        count_use(s.drop_last(), x) + if s.last() == x { 1nat } else { 0nat }
    }
}

/// Two geometries are the same when they use the same arcs, each the
/// same way round and as often: part order and cycle phase do not
/// matter.
pub open spec fn same_arcs(a: Seq<ArcUse>, b: Seq<ArcUse>) -> bool {
    forall|x: ArcUse| #[trigger] count_use(a, x) == count_use(b, x)
}

/// The arcs a geometry touches, either way round.
pub open spec fn arc_ids(s: Seq<ArcUse>) -> Set<int> {
    Set::new(|a: int| exists|i: int| 0 <= i < s.len() && s[i].arc == a)
}

proof fn lemma_count_use_push(s: Seq<ArcUse>, y: ArcUse)
    ensures
        forall|x: ArcUse| #[trigger] count_use(s.push(y), x) == count_use(s, x) + if y == x { 1nat } else { 0nat },
{
    assert forall|x: ArcUse| #[trigger] count_use(s.push(y), x) == count_use(s, x) + if y == x { 1nat } else { 0nat } by {
        assert(s.push(y).drop_last() =~= s);
    }
}

proof fn lemma_count_use_absent(s: Seq<ArcUse>, x: ArcUse)
    requires
        forall|i: int| 0 <= i < s.len() ==> s[i] != x,
    ensures
        count_use(s, x) == 0,
    decreases s.len(),
{
    if s.len() > 0 {
        lemma_count_use_absent(s.drop_last(), x);
    }
}

/// How often `x` occurs in `s`, counted.
fn count_of(s: &Vec<ArcUse>, x: ArcUse) -> (n: usize)
    ensures
        n == count_use(s@, x),
{
    let mut n: usize = 0;
    let mut i: usize = 0;
    while i < s.len()
        invariant
            i <= s.len(),
            n == count_use(s@.take(i as int), x),
            n <= i,
        decreases s.len() - i,
    {
        proof {
            assert(s@.take(i as int + 1) =~= s@.take(i as int).push(s@[i as int]));
            lemma_count_use_push(s@.take(i as int), s@[i as int]);
        }
        if s[i] == x {
            n += 1;
        }
        i += 1;
    }
    proof {
        assert(s@.take(s.len() as int) =~= s@);
    }
    n
}

/// Whether two arc-use lists use the same arcs as often.
fn same_arcs_exec(a: &Vec<ArcUse>, b: &Vec<ArcUse>) -> (r: bool)
    ensures
        r == same_arcs(a@, b@),
{
    let mut i: usize = 0;
    while i < a.len()
        invariant
            i <= a.len(),
            forall|k: int| 0 <= k < i ==> count_use(a@, #[trigger] a@[k]) == count_use(b@, a@[k]),
        decreases a.len() - i,
    {
        if count_of(a, a[i]) != count_of(b, a[i]) {
            return false;
        }
        i += 1;
    }
    let mut j: usize = 0;
    while j < b.len()
        invariant
            j <= b.len(),
            forall|k: int| 0 <= k < a.len() ==> count_use(a@, #[trigger] a@[k]) == count_use(b@, a@[k]),
            forall|k: int| 0 <= k < j ==> count_use(a@, #[trigger] b@[k]) == count_use(b@, b@[k]),
        decreases b.len() - j,
    {
        if count_of(a, b[j]) != count_of(b, b[j]) {
            return false;
        }
        j += 1;
    }
    proof {
        assert forall|x: ArcUse| #[trigger] count_use(a@, x) == count_use(b@, x) by {
            if exists|k: int| 0 <= k < a.len() && a@[k] == x {
                let k = choose|k: int| 0 <= k < a.len() && a@[k] == x;
                assert(count_use(a@, a@[k]) == count_use(b@, a@[k]));
            } else if exists|k: int| 0 <= k < b.len() && b@[k] == x {
                let k = choose|k: int| 0 <= k < b.len() && b@[k] == x;
                assert(count_use(a@, b@[k]) == count_use(b@, b@[k]));
            } else {
                lemma_count_use_absent(a@, x);
                lemma_count_use_absent(b@, x);
            }
        }
    }
    true
}

/// All the arc uses of a geometry, gathered part by part.
fn gather_uses(parts: &Vec<RegionPart>) -> (out: Vec<ArcUse>)
    ensures
        out@ == parts_uses(parts@),
{
    let mut out: Vec<ArcUse> = Vec::new();
    let mut i: usize = 0;
    while i < parts.len()
        invariant
            i <= parts.len(),
            out@ == parts_uses(parts@.take(i as int)),
        decreases parts.len() - i,
    {
        let p = &parts[i];
        let ghost start = out@;
        let mut c: usize = 0;
        while c < p.cycle.len()
            invariant
                c <= p.cycle.len(),
                out@ == start + p.cycle@.take(c as int),
            decreases p.cycle.len() - c,
        {
            out.push(p.cycle[c]);
            proof {
                assert(p.cycle@.take(c as int + 1) =~= p.cycle@.take(c as int).push(p.cycle@[c as int]));
            }
            c += 1;
        }
        let mut h: usize = 0;
        while h < p.holes.len()
            invariant
                h <= p.holes.len(),
                p == &parts@[i as int],
                out@ == start + p.cycle@ + cycles_uses(p.holes@.take(h as int)),
            decreases p.holes.len() - h,
        {
            let hole = &p.holes[h];
            let ghost mid = out@;
            let mut t: usize = 0;
            while t < hole.len()
                invariant
                    t <= hole.len(),
                    out@ == mid + hole@.take(t as int),
                decreases hole.len() - t,
            {
                out.push(hole[t]);
                proof {
                    assert(hole@.take(t as int + 1) =~= hole@.take(t as int).push(hole@[t as int]));
                }
                t += 1;
            }
            proof {
                assert(p.holes@.take(h as int + 1).drop_last() =~= p.holes@.take(h as int));
                assert(hole@.take(hole@.len() as int) =~= hole@);
                assert(out@ =~= start + p.cycle@ + cycles_uses(p.holes@.take(h as int + 1)));
            }
            h += 1;
        }
        proof {
            assert(p.holes@.take(p.holes@.len() as int) =~= p.holes@);
            assert(p.cycle@.take(p.cycle@.len() as int) =~= p.cycle@);
            assert(parts@.take(i as int + 1).drop_last() =~= parts@.take(i as int));
            assert(out@ =~= parts_uses(parts@.take(i as int + 1)));
        }
        i += 1;
    }
    proof {
        assert(parts@.take(parts@.len() as int) =~= parts@);
    }
    out
}

/// The region names of a world, in its order.
pub open spec fn names_of(w: EpochWorld) -> Seq<Seq<char>> {
    w.regions@.map_values(|g: RegionGeom| g.name@)
}

/// Names in strictly increasing string order.
pub open spec fn names_increase(ns: Seq<Seq<char>>) -> bool {
    forall|i: int, j: int| 0 <= i < j < ns.len() ==> chars_lt(ns[i], ns[j])
}

/// The arc uses of the `i`-th region of a world.
pub open spec fn region_uses(w: EpochWorld, i: int) -> Seq<ArcUse> {
    parts_uses(w.regions@[i].parts@)
}

/// Where the region named `n` stands in a world.
pub open spec fn index_of_name(w: EpochWorld, n: Seq<char>) -> int {
    choose|i: int| 0 <= i < w.regions@.len() && names_of(w)[i] == n
}

/// A world whose region names strictly increase and whose arcs all lie
/// in an arc table of `n_arcs` entries.
pub open spec fn world_wf(w: EpochWorld, n_arcs: int) -> bool {
    &&& names_increase(names_of(w))
    &&& forall|i: int, k: int| 0 <= i < w.regions@.len() && 0 <= k < region_uses(w, i).len()
        ==> #[trigger] region_uses(w, i)[k].arc < n_arcs
    &&& forall|k: int| 0 <= k < w.arcs@.len() ==> #[trigger] w.arcs@[k] < n_arcs
}

/// Find the region named `n`.
fn find_region(w: &EpochWorld, n: &str) -> (r: Option<usize>)
    ensures
        match r {
            Some(i) => i < w.regions@.len() && names_of(*w)[i as int] == n@,
            None => !names_of(*w).contains(n@),
        },
{
    let mut i: usize = 0;
    while i < w.regions.len()
        invariant
            i <= w.regions@.len(),
            forall|j: int| 0 <= j < i ==> names_of(*w)[j] != n@,
        decreases w.regions.len() - i,
    {
        if crate::text::str_equal(w.regions[i].name.as_str(), n) {
            return Some(i);
        }
        i += 1;
    }
    None
}

/// What changed between two consecutive epochs.
#[derive(Clone, Debug)]
pub enum EpochChange {
    /// A region appears.
    Rise(String),
    /// A region disappears.
    Fall(String),
    /// An arc of the table starts or stops bordering a region that stays.
    Shift(usize),
}

/// A change as contracts speak of it.
pub enum ChangeView {
    Rise(Seq<char>),
    Fall(Seq<char>),
    Shift(int),
}

impl EpochChange {
    pub open spec fn view(&self) -> ChangeView {
        match self {
            EpochChange::Rise(n) => ChangeView::Rise(n@),
            EpochChange::Fall(n) => ChangeView::Fall(n@),
            EpochChange::Shift(a) => ChangeView::Shift(*a as int),
        }
    }
}

pub open spec fn change_views(cs: Seq<EpochChange>) -> Seq<ChangeView> {
    cs.map_values(|c: EpochChange| c@)
}

/// The arcs in exactly one of the two geometries.
pub open spec fn arcs_differing(old: Seq<ArcUse>, new: Seq<ArcUse>) -> Set<int> {
    arc_ids(old).difference(arc_ids(new)).union(arc_ids(new).difference(arc_ids(old)))
}

/// Rises and shifts, over the first `i` regions of the later epoch in
/// name order, with the arcs already narrated: a region new to the
/// later epoch rises; one whose arcs changed narrates each arc gained
/// or lost, in table order, once per epoch.
pub open spec fn rise_shift(before: EpochWorld, after: EpochWorld, n_arcs: int, i: int) -> (Seq<ChangeView>, Set<int>)
    decreases i,
{
    if i <= 0 {
        (Seq::empty(), Set::empty())
    } else {
        let (ev, done) = rise_shift(before, after, n_arcs, i - 1);
        let name = names_of(after)[i - 1];
        if !names_of(before).contains(name) {
            (ev.push(ChangeView::Rise(name)), done)
        } else {
            let old = region_uses(before, index_of_name(before, name));
            let new = region_uses(after, i - 1);
            if same_arcs(old, new) {
                (ev, done)
            } else {
                let d = arcs_differing(old, new);
                let fresh = indices_where(n_arcs, |a: int| d.contains(a) && !done.contains(a));
                (ev + fresh.map_values(|a: int| ChangeView::Shift(a)), done.union(d))
            }
        }
    }
}

/// Falls: the regions of the earlier epoch missing from the later, in
/// name order.
pub open spec fn falls(before: EpochWorld, after: EpochWorld) -> Seq<ChangeView> {
    indices_where(before.regions@.len() as int, |j: int| !names_of(after).contains(names_of(before)[j]))
        .map_values(|j: int| ChangeView::Fall(names_of(before)[j]))
}

/// The narration of the step from one epoch to the next.
pub open spec fn pair_changes(before: EpochWorld, after: EpochWorld, n_arcs: int) -> Seq<ChangeView> {
    rise_shift(before, after, n_arcs, after.regions@.len() as int).0 + falls(before, after)
}

/// Mark the arcs a list of uses touches.
fn mark_arcs(uses: &Vec<ArcUse>, n_arcs: usize) -> (m: Vec<bool>)
    requires
        forall|k: int| 0 <= k < uses@.len() ==> #[trigger] uses@[k].arc < n_arcs,
    ensures
        m@.len() == n_arcs,
        forall|a: int| 0 <= a < n_arcs ==> (#[trigger] m@[a] <==> arc_ids(uses@).contains(a)),
{
    let mut m: Vec<bool> = Vec::new();
    let mut a: usize = 0;
    while a < n_arcs
        invariant
            a <= n_arcs,
            m@.len() == a,
            forall|b: int| 0 <= b < a ==> !#[trigger] m@[b],
        decreases n_arcs - a,
    {
        m.push(false);
        a += 1;
    }
    let mut t: usize = 0;
    while t < uses.len()
        invariant
            t <= uses.len(),
            m@.len() == n_arcs,
            forall|k: int| 0 <= k < uses@.len() ==> #[trigger] uses@[k].arc < n_arcs,
            forall|b: int| 0 <= b < n_arcs ==> (#[trigger] m@[b] <==> exists|k: int| 0 <= k < t && uses@[k].arc == b),
        decreases uses.len() - t,
    {
        let x = uses[t].arc;
        m.set(x, true);
        proof {
            assert forall|b: int| 0 <= b < n_arcs implies (#[trigger] m@[b] <==> exists|k: int| 0 <= k < t + 1 && uses@[k].arc == b) by {
                if b == x as int {
                    assert(uses@[t as int].arc == b);
                }
            }
        }
        t += 1;
    }
    m
}

/// The narration of one epoch step, computed.
fn narrate_pair(before: &EpochWorld, after: &EpochWorld, n_arcs: usize) -> (out: Vec<EpochChange>)
    requires
        world_wf(*before, n_arcs as int),
        world_wf(*after, n_arcs as int),
    ensures
        change_views(out@) == pair_changes(*before, *after, n_arcs as int),
{
    let mut out: Vec<EpochChange> = Vec::new();
    let mut done: Vec<bool> = Vec::new();
    let mut a: usize = 0;
    while a < n_arcs
        invariant
            a <= n_arcs,
            done@.len() == a,
            forall|b: int| 0 <= b < a ==> !#[trigger] done@[b],
        decreases n_arcs - a,
    {
        done.push(false);
        a += 1;
    }
    let mut i: usize = 0;
    while i < after.regions.len()
        invariant
            world_wf(*before, n_arcs as int),
            world_wf(*after, n_arcs as int),
            i <= after.regions@.len(),
            done@.len() == n_arcs,
            change_views(out@) == rise_shift(*before, *after, n_arcs as int, i as int).0,
            forall|b: int| 0 <= b < n_arcs ==> (#[trigger] done@[b] <==> rise_shift(*before, *after, n_arcs as int, i as int).1.contains(b)),
            forall|b: int| rise_shift(*before, *after, n_arcs as int, i as int).1.contains(b) ==> 0 <= b < n_arcs,
        decreases after.regions.len() - i,
    {
        let g = &after.regions[i];
        let ghost name = names_of(*after)[i as int];
        let ghost prev = rise_shift(*before, *after, n_arcs as int, i as int);
        match find_region(before, g.name.as_str()) {
            None => {
                out.push(EpochChange::Rise(g.name.clone()));
                proof {
                    assert(change_views(out@) =~= prev.0.push(ChangeView::Rise(name)));
                }
            },
            Some(j) => {
                proof {
                    assert(names_of(*before).contains(name)) by {
                        assert(names_of(*before)[j as int] == name);
                    }
                    let k = index_of_name(*before, name);
                    if k != j as int {
                        if k < j as int {
                            assert(chars_lt(names_of(*before)[k], names_of(*before)[j as int]));
                        } else {
                            assert(chars_lt(names_of(*before)[j as int], names_of(*before)[k]));
                        }
                        crate::text::lemma_chars_lt_irreflexive(name);
                    }
                }
                let old = gather_uses(&before.regions[j].parts);
                let new = gather_uses(&g.parts);
                proof {
                    assert(old@ == region_uses(*before, j as int));
                    assert(new@ == region_uses(*after, i as int));
                    assert forall|k: int| 0 <= k < old@.len() implies #[trigger] old@[k].arc < n_arcs by {
                        assert(region_uses(*before, j as int)[k].arc < n_arcs);
                    }
                    assert forall|k: int| 0 <= k < new@.len() implies #[trigger] new@[k].arc < n_arcs by {
                        assert(region_uses(*after, i as int)[k].arc < n_arcs);
                    }
                }
                if !same_arcs_exec(&old, &new) {
                    let ghost d = arcs_differing(old@, new@);
                    let ghost p = |b: int| d.contains(b) && !prev.1.contains(b);
                    let in_old = mark_arcs(&old, n_arcs);
                    let in_new = mark_arcs(&new, n_arcs);
                    let ghost start = change_views(out@);
                    let mut b: usize = 0;
                    while b < n_arcs
                        invariant
                            d == arcs_differing(old@, new@),
                            p == (|c: int| d.contains(c) && !prev.1.contains(c)),
                            b <= n_arcs,
                            done@.len() == n_arcs,
                            in_old@.len() == n_arcs,
                            in_new@.len() == n_arcs,
                            forall|c: int| 0 <= c < n_arcs ==> (#[trigger] in_old@[c] <==> arc_ids(old@).contains(c)),
                            forall|c: int| 0 <= c < n_arcs ==> (#[trigger] in_new@[c] <==> arc_ids(new@).contains(c)),
                            forall|c: int| 0 <= c < b ==> (#[trigger] done@[c] <==> prev.1.union(d).contains(c)),
                            forall|c: int| b <= c < n_arcs ==> (#[trigger] done@[c] <==> prev.1.contains(c)),
                            change_views(out@) == start + indices_where(b as int, p).map_values(|a: int| ChangeView::Shift(a)),
                        decreases n_arcs - b,
                    {
                        let differs = in_old[b] != in_new[b];
                        if differs && !done[b] {
                            let ghost o = out@;
                            out.push(EpochChange::Shift(b));
                            proof {
                                assert(change_views(out@) =~= change_views(o).push(ChangeView::Shift(b as int)));
                                assert(in_old@[b as int] != in_new@[b as int]);
                                assert(d.contains(b as int));
                                assert(!prev.1.contains(b as int));
                                assert(p(b as int));
                                let m = |a: int| ChangeView::Shift(a);
                                assert(indices_where(b as int + 1, p).map_values(m) =~= indices_where(b as int, p).map_values(m).push(ChangeView::Shift(b as int)));
                                assert(change_views(out@) =~= start + indices_where(b as int + 1, p).map_values(m));
                            }
                        } else {
                            proof {
                                if differs {
                                    assert(prev.1.contains(b as int));
                                } else {
                                    assert(!d.contains(b as int));
                                }
                                assert(!p(b as int));
                                assert(indices_where(b as int + 1, p) =~= indices_where(b as int, p));
                            }
                        }
                        if differs {
                            done.set(b, true);
                        }
                        b += 1;
                    }
                    proof {
                        let m = |a: int| ChangeView::Shift(a);
                        assert(prev.1.union(d) == rise_shift(*before, *after, n_arcs as int, i as int + 1).1);
                        assert(change_views(out@) == rise_shift(*before, *after, n_arcs as int, i as int + 1).0);
                        assert forall|c: int| prev.1.union(d).contains(c) implies 0 <= c < n_arcs by {
                            if d.contains(c) {
                                if arc_ids(old@).contains(c) {
                                    let k = choose|k: int| 0 <= k < old@.len() && old@[k].arc == c;
                                    assert(region_uses(*before, j as int)[k].arc < n_arcs);
                                } else {
                                    let k = choose|k: int| 0 <= k < new@.len() && new@[k].arc == c;
                                    assert(region_uses(*after, i as int)[k].arc < n_arcs);
                                }
                            }
                        }
                    }
                }
            },
        }
        i += 1;
    }
    let ghost rs = rise_shift(*before, *after, n_arcs as int, after.regions@.len() as int).0;
    let ghost fp = |j: int| !names_of(*after).contains(names_of(*before)[j]);
    let ghost fm = |j: int| ChangeView::Fall(names_of(*before)[j]);
    let mut j: usize = 0;
    while j < before.regions.len()
        invariant
            fp == (|j: int| !names_of(*after).contains(names_of(*before)[j])),
            fm == (|j: int| ChangeView::Fall(names_of(*before)[j])),
            j <= before.regions@.len(),
            change_views(out@) == rs + indices_where(j as int, fp).map_values(fm),
        decreases before.regions.len() - j,
    {
        let g = &before.regions[j];
        assert(g.name@ == names_of(*before)[j as int]);
        match find_region(after, g.name.as_str()) {
            None => {
                let ghost o = out@;
                out.push(EpochChange::Fall(g.name.clone()));
                proof {
                    assert(change_views(out@) =~= change_views(o).push(fm(j as int)));
                    assert(fp(j as int));
                    assert(indices_where(j as int + 1, fp).map_values(fm) =~= indices_where(j as int, fp).map_values(fm).push(fm(j as int)));
                    assert(change_views(out@) =~= rs + indices_where(j as int + 1, fp).map_values(fm));
                }
            },
            Some(k) => {
                proof {
                    assert(names_of(*after)[k as int] == g.name@);
                    assert(!fp(j as int));
                    assert(indices_where(j as int + 1, fp) =~= indices_where(j as int, fp));
                }
            },
        }
        j += 1;
    }
    out
}

/// The moment an epoch starts: its year, known to the year only.
pub open spec fn start_of(w: EpochWorld) -> TimePoint {
    TimePoint { year: w.year, month: None, day: None }
}

/// The interval of a run of epochs (first, last): from the first
/// epoch's start to the start of the epoch after the last, or open
/// past the final epoch — the current edge of the source's knowledge.
pub open spec fn interval_of(ws: Seq<EpochWorld>, r: (int, int)) -> Interval {
    Interval {
        from: start_of(ws[r.0]),
        to: if r.1 + 1 < ws.len() { Some(start_of(ws[r.1 + 1])) } else { None },
    }
}

/// Whether an epoch uses arc `a` of the table.
pub open spec fn has_arc(w: EpochWorld, a: int) -> bool {
    exists|i: int| 0 <= i < w.arcs@.len() && w.arcs@[i] as int == a
}

/// The epochs that use arc `a`, in order.
pub open spec fn arc_epochs(ws: Seq<EpochWorld>, a: int) -> Seq<int> {
    indices_where(ws.len() as int, |k: int| has_arc(ws[k], a))
}

/// An arc's versions: one per run of consecutive epochs using it.
pub open spec fn arc_versions(ws: Seq<EpochWorld>, a: int) -> Seq<Interval> {
    let ks = arc_epochs(ws, a);
    runs(ks, gap_cuts(ks)).map_values(|r: (int, int)| interval_of(ws, r))
}

/// The epochs in which a region of name `n` stands.
pub open spec fn region_epochs(ws: Seq<EpochWorld>, n: Seq<char>) -> Seq<int> {
    indices_where(ws.len() as int, |k: int| names_of(ws[k]).contains(n))
}

/// The arc uses of the region named `n` in an epoch.
pub open spec fn uses_named(w: EpochWorld, n: Seq<char>) -> Seq<ArcUse> {
    region_uses(w, index_of_name(w, n))
}

/// Geometry runs end at a gap, and where the geometry changes.
pub open spec fn geom_cuts(ws: Seq<EpochWorld>, n: Seq<char>, ks: Seq<int>) -> Seq<bool> {
    Seq::new(
        ks.len(),
        |j: int| j > 0 && (ks[j] != ks[j - 1] + 1 || !same_arcs(uses_named(ws[ks[j]], n), uses_named(ws[ks[j - 1]], n))),
    )
}

/// A region's label history: one interval per run of presence.
pub open spec fn label_versions(ws: Seq<EpochWorld>, n: Seq<char>) -> Seq<Interval> {
    let ks = region_epochs(ws, n);
    runs(ks, gap_cuts(ks)).map_values(|r: (int, int)| interval_of(ws, r))
}

/// A region's geometry history: one interval per run of unchanged
/// geometry, carrying the geometry of the run's last epoch.
pub open spec fn geom_versions(ws: Seq<EpochWorld>, n: Seq<char>) -> Seq<(Interval, int)> {
    let ks = region_epochs(ws, n);
    runs(ks, geom_cuts(ws, n, ks)).map_values(|r: (int, int)| (interval_of(ws, r), r.1))
}

/// Every region name of the first `k` epochs, in string order.
pub open spec fn names_upto(ws: Seq<EpochWorld>, k: int) -> Seq<Seq<char>>
    decreases k,
{
    if k <= 0 {
        Seq::empty()
    } else {
        insert_names(names_upto(ws, k - 1), names_of(ws[k - 1]))
    }
}

/// The narrated changes of the first `k` epochs: each step's changes,
/// at the later epoch's start.
pub open spec fn events_upto(ws: Seq<EpochWorld>, n_arcs: int, k: int) -> Seq<(int, TimePoint, ChangeView)>
    decreases k,
{
    if k <= 1 {
        Seq::empty()
    } else {
        events_upto(ws, n_arcs, k - 1) + pair_changes(ws[k - 2], ws[k - 1], n_arcs).map_values(
            |c: ChangeView| (k - 1, start_of(ws[k - 1]), c),
        )
    }
}

/// An arc of the table and its versions through time.
#[derive(Clone, Debug)]
pub struct ArcHistory {
    pub points: Vec<QPoint>,
    pub versions: Vec<Interval>,
}

/// A region's name and geometry through time; each geometry version
/// names the epoch whose geometry it carries.
#[derive(Clone, Debug)]
pub struct RegionHistory {
    pub name: String,
    pub label_history: Vec<Interval>,
    pub geom_history: Vec<(Interval, usize)>,
}

/// A narrated change, at the start of the epoch it leads into.
#[derive(Clone, Debug)]
pub struct EpochEvent {
    pub epoch: usize,
    pub at: TimePoint,
    pub change: EpochChange,
}

pub open spec fn event_views(es: Seq<EpochEvent>) -> Seq<(int, TimePoint, ChangeView)> {
    es.map_values(|e: EpochEvent| (e.epoch as int, e.at, e.change@))
}

fn interval_exec(ws: &Vec<EpochWorld>, first: usize, last: usize) -> (iv: Interval)
    requires
        first <= last < ws@.len(),
    ensures
        iv == interval_of(ws@, (first as int, last as int)),
{
    let from = TimePoint { year: ws[first].year, month: None, day: None };
    let to = if last < ws.len() - 1 {
        Some(TimePoint { year: ws[last + 1].year, month: None, day: None })
    } else {
        None
    };
    Interval { from, to }
}

proof fn lemma_indices_where_bounds(n: int, p: spec_fn(int) -> bool)
    ensures
        forall|j: int| 0 <= j < indices_where(n, p).len() ==> 0 <= #[trigger] indices_where(n, p)[j] < n,
        forall|i: int, j: int| 0 <= i < j < indices_where(n, p).len() ==> indices_where(n, p)[i] < indices_where(n, p)[j],
        forall|j: int| 0 <= j < indices_where(n, p).len() ==> p(#[trigger] indices_where(n, p)[j]),
    decreases n,
{
    if n > 0 {
        lemma_indices_where_bounds(n - 1, p);
        let q = indices_where(n - 1, p);
        if p(n - 1) {
            let s = q.push(n - 1);
            assert(indices_where(n, p) == s);
            assert forall|j: int| 0 <= j < s.len() implies 0 <= #[trigger] s[j] < n && p(s[j]) by {
                if j < q.len() {
                    assert(s[j] == q[j]);
                }
            }
            assert forall|i: int, j: int| 0 <= i < j < s.len() implies s[i] < s[j] by {
                assert(s[i] == q[i]);
                if j < q.len() {
                    assert(s[j] == q[j]);
                }
            }
        }
    }
}

proof fn lemma_runs_bounds(ks: Seq<int>, cut: Seq<bool>)
    requires
        forall|i: int, j: int| 0 <= i < j < ks.len() ==> ks[i] < ks[j],
    ensures
        forall|t: int| 0 <= t < runs(ks, cut).len() ==> {
            let r = #[trigger] runs(ks, cut)[t];
            ks.contains(r.0) && ks.contains(r.1) && r.0 <= r.1
        },
    decreases ks.len(),
{
    if ks.len() > 1 {
        let p = ks.drop_last();
        lemma_runs_bounds(p, cut);
        lemma_runs_len(p, cut);
        assert forall|t: int| 0 <= t < runs(ks, cut).len() implies {
            let r = #[trigger] runs(ks, cut)[t];
            ks.contains(r.0) && ks.contains(r.1) && r.0 <= r.1
        } by {
            let rp = runs(p, cut);
            if t < rp.len() {
                let q = rp[t];
                assert(p.contains(q.0) && p.contains(q.1));
                let a = choose|a: int| 0 <= a < p.len() && p[a] == q.0;
                assert(ks[a] == q.0);
                let b = choose|b: int| 0 <= b < p.len() && p[b] == q.1;
                assert(ks[b] == q.1);
                if t == rp.len() - 1 && !cut[ks.len() - 1] {
                    assert(ks[ks.len() - 1] == ks.last());
                    assert(p.last() == ks[ks.len() - 2]);
                    assert(ks[ks.len() - 2] < ks[ks.len() - 1]);
                }
            }
            assert(ks[ks.len() - 1] == ks.last());
        }
    } else if ks.len() == 1 {
        assert(ks[0] == ks[0]);
        assert(ks.contains(ks[0]));
    }
}

/// The intervals of a list of runs of epochs.
fn intervals_of(ws: &Vec<EpochWorld>, rs: &Vec<(usize, usize)>) -> (out: Vec<Interval>)
    requires
        forall|t: int| 0 <= t < rs@.len() ==> (#[trigger] rs@[t]).0 <= rs@[t].1 < ws@.len(),
    ensures
        out@ == rs@.map_values(|r: (usize, usize)| (r.0 as int, r.1 as int)).map_values(|r: (int, int)| interval_of(ws@, r)),
{
    let mut out: Vec<Interval> = Vec::new();
    let mut t: usize = 0;
    while t < rs.len()
        invariant
            t <= rs@.len(),
            forall|u: int| 0 <= u < rs@.len() ==> (#[trigger] rs@[u]).0 <= rs@[u].1 < ws@.len(),
            out@ == rs@.take(t as int).map_values(|r: (usize, usize)| (r.0 as int, r.1 as int)).map_values(|r: (int, int)| interval_of(ws@, r)),
        decreases rs.len() - t,
    {
        let iv = interval_exec(ws, rs[t].0, rs[t].1);
        out.push(iv);
        proof {
            let m = |r: (usize, usize)| (r.0 as int, r.1 as int);
            let f = |r: (int, int)| interval_of(ws@, r);
            assert(rs@.take(t as int + 1).map_values(m).map_values(f) =~= rs@.take(t as int).map_values(m).map_values(f).push(iv));
        }
        t += 1;
    }
    proof {
        assert(rs@.take(rs@.len() as int) =~= rs@);
    }
    out
}

proof fn lemma_indices_where_ext(n: int, p: spec_fn(int) -> bool, q: spec_fn(int) -> bool)
    requires
        forall|k: int| 0 <= k < n ==> #[trigger] p(k) == q(k),
    ensures
        indices_where(n, p) == indices_where(n, q),
    decreases n,
{
    if n > 0 {
        lemma_indices_where_ext(n - 1, p, q);
    }
}

proof fn lemma_index_of_name(w: EpochWorld, n: Seq<char>, j: int)
    requires
        names_increase(names_of(w)),
        0 <= j < w.regions@.len(),
        names_of(w)[j] == n,
    ensures
        index_of_name(w, n) == j,
{
    let k = index_of_name(w, n);
    if k != j {
        if k < j {
            assert(chars_lt(names_of(w)[k], names_of(w)[j]));
        } else {
            assert(chars_lt(names_of(w)[j], names_of(w)[k]));
        }
        crate::text::lemma_chars_lt_irreflexive(n);
    }
}

/// The positions of the set flags, ascending.
fn flagged(flags: &Vec<bool>) -> (out: Vec<usize>)
    ensures
        out@.map_values(|k: usize| k as int) == indices_where(flags@.len() as int, |k: int| flags@[k]),
{
    let ghost p = |k: int| flags@[k];
    let mut out: Vec<usize> = Vec::new();
    let mut k: usize = 0;
    while k < flags.len()
        invariant
            p == (|k: int| flags@[k]),
            k <= flags@.len(),
            out@.map_values(|k: usize| k as int) == indices_where(k as int, p),
        decreases flags.len() - k,
    {
        if flags[k] {
            out.push(k);
            proof {
                assert(out@.map_values(|k: usize| k as int) =~= indices_where(k as int, p).push(k as int));
            }
        }
        k += 1;
    }
    out
}

/// Gap cuts, computed.
fn gap_cuts_exec(ks: &Vec<usize>) -> (out: Vec<bool>)
    ensures
        out@ == gap_cuts(ks@.map_values(|k: usize| k as int)),
{
    let ghost ki = ks@.map_values(|k: usize| k as int);
    let mut out: Vec<bool> = Vec::new();
    let mut j: usize = 0;
    while j < ks.len()
        invariant
            ki == ks@.map_values(|k: usize| k as int),
            j <= ks.len(),
            out@.len() == j,
            forall|t: int| 0 <= t < j ==> out@[t] == gap_cuts(ki)[t],
        decreases ks.len() - j,
    {
        let c = j > 0 && (ks[j - 1] >= usize::MAX || ks[j] != ks[j - 1] + 1);
        proof {
            if j > 0 && ks[j - 1] >= usize::MAX {
                assert(ki[j as int] != ki[j as int - 1] + 1);
            }
        }
        out.push(c);
        j += 1;
    }
    proof {
        assert(out@ =~= gap_cuts(ki));
    }
    out
}

/// For each epoch, which arcs of the table it uses.
fn arc_presence(ws: &Vec<EpochWorld>, n_arcs: usize) -> (pres: Vec<Vec<bool>>)
    requires
        forall|k: int| 0 <= k < ws@.len() ==> world_wf(#[trigger] ws@[k], n_arcs as int),
    ensures
        pres@.len() == ws@.len(),
        forall|k: int| 0 <= k < ws@.len() ==> (#[trigger] pres@[k])@.len() == n_arcs,
        forall|k: int, a: int| 0 <= k < ws@.len() && 0 <= a < n_arcs ==> (#[trigger] pres@[k]@[a] <==> has_arc(ws@[k], a)),
{
    let mut pres: Vec<Vec<bool>> = Vec::new();
    let mut k: usize = 0;
    while k < ws.len()
        invariant
            forall|k: int| 0 <= k < ws@.len() ==> world_wf(#[trigger] ws@[k], n_arcs as int),
            k <= ws@.len(),
            pres@.len() == k,
            forall|t: int| 0 <= t < k ==> (#[trigger] pres@[t])@.len() == n_arcs,
            forall|t: int, a: int| 0 <= t < k && 0 <= a < n_arcs ==> (#[trigger] pres@[t]@[a] <==> has_arc(ws@[t], a)),
        decreases ws.len() - k,
    {
        let w = &ws[k];
        assert(world_wf(ws@[k as int], n_arcs as int));
        let mut m: Vec<bool> = Vec::new();
        let mut a: usize = 0;
        while a < n_arcs
            invariant
                a <= n_arcs,
                m@.len() == a,
                forall|b: int| 0 <= b < a ==> !#[trigger] m@[b],
            decreases n_arcs - a,
        {
            m.push(false);
            a += 1;
        }
        let mut i: usize = 0;
        while i < w.arcs.len()
            invariant
                w == &ws@[k as int],
                world_wf(*w, n_arcs as int),
                i <= w.arcs@.len(),
                m@.len() == n_arcs,
                forall|b: int| 0 <= b < n_arcs ==> (#[trigger] m@[b] <==> exists|t: int| 0 <= t < i && w.arcs@[t] as int == b),
            decreases w.arcs.len() - i,
        {
            let x = w.arcs[i];
            assert(w.arcs@[i as int] < n_arcs);
            m.set(x, true);
            proof {
                assert forall|b: int| 0 <= b < n_arcs implies (#[trigger] m@[b] <==> exists|t: int| 0 <= t < i + 1 && w.arcs@[t] as int == b) by {
                    if b == x as int {
                        assert(w.arcs@[i as int] as int == b);
                    }
                }
            }
            i += 1;
        }
        pres.push(m);
        k += 1;
    }
    pres
}

/// Every arc of the table with its versions.
fn arc_histories(ws: &Vec<EpochWorld>, table: &Vec<Vec<QPoint>>) -> (out: Vec<ArcHistory>)
    requires
        forall|k: int| 0 <= k < ws@.len() ==> world_wf(#[trigger] ws@[k], table@.len() as int),
    ensures
        out@.len() == table@.len(),
        forall|a: int| 0 <= a < out@.len() ==> (#[trigger] out@[a]).points@ == table@[a]@ && out@[a].versions@ == arc_versions(ws@, a),
{
    let n_arcs = table.len();
    let pres = arc_presence(ws, n_arcs);
    let mut out: Vec<ArcHistory> = Vec::new();
    let mut a: usize = 0;
    while a < n_arcs
        invariant
            n_arcs == table@.len(),
            pres@.len() == ws@.len(),
            forall|k: int| 0 <= k < ws@.len() ==> (#[trigger] pres@[k])@.len() == n_arcs,
            forall|k: int, b: int| 0 <= k < ws@.len() && 0 <= b < n_arcs ==> (#[trigger] pres@[k]@[b] <==> has_arc(ws@[k], b)),
            a <= n_arcs,
            out@.len() == a,
            forall|b: int| 0 <= b < a ==> (#[trigger] out@[b]).points@ == table@[b]@ && out@[b].versions@ == arc_versions(ws@, b),
        decreases n_arcs - a,
    {
        let mut flags: Vec<bool> = Vec::new();
        let mut k: usize = 0;
        while k < ws.len()
            invariant
                pres@.len() == ws@.len(),
                forall|k: int| 0 <= k < ws@.len() ==> (#[trigger] pres@[k])@.len() == n_arcs,
                a < n_arcs,
                k <= ws@.len(),
                flags@.len() == k,
                forall|t: int| 0 <= t < k ==> flags@[t] == pres@[t]@[a as int],
            decreases ws.len() - k,
        {
            flags.push(pres[k][a]);
            k += 1;
        }
        let ks = flagged(&flags);
        let ghost ki = ks@.map_values(|k: usize| k as int);
        proof {
            lemma_indices_where_ext(ws@.len() as int, |k: int| flags@[k], |k: int| has_arc(ws@[k], a as int));
            lemma_indices_where_bounds(ws@.len() as int, |k: int| has_arc(ws@[k], a as int));
            assert(ki == arc_epochs(ws@, a as int));
        }
        let cuts = gap_cuts_exec(&ks);
        let rs = runs_of(&ks, &cuts);
        proof {
            lemma_runs_bounds(ki, cuts@);
            assert forall|t: int| 0 <= t < rs@.len() implies (#[trigger] rs@[t]).0 <= rs@[t].1 < ws@.len() by {
                let m = |r: (usize, usize)| (r.0 as int, r.1 as int);
                assert(rs@.map_values(m)[t] == runs(ki, cuts@)[t]);
                let r = runs(ki, cuts@)[t];
                assert(ki.contains(r.1));
                let b = choose|b: int| 0 <= b < ki.len() && ki[b] == r.1;
                assert(0 <= ki[b] < ws@.len());
            }
        }
        let versions = intervals_of(ws, &rs);
        let points = table[a].clone();
        proof {
            assert(points@ =~= table@[a as int]@);
            assert(versions@ =~= arc_versions(ws@, a as int));
        }
        out.push(ArcHistory { points, versions });
        a += 1;
    }
    out
}

pub(crate) proof fn lemma_insert_names(ns: Seq<Seq<char>>, more: Seq<Seq<char>>)
    requires
        names_sorted(ns),
    ensures
        names_sorted(insert_names(ns, more)),
        forall|x: Seq<char>| insert_names(ns, more).contains(x) <==> ns.contains(x) || more.contains(x),
    decreases more.len(),
{
    if more.len() > 0 {
        let p = more.drop_last();
        lemma_insert_names(ns, p);
        lemma_insert_name(insert_names(ns, p), more.last());
        assert forall|x: Seq<char>| insert_names(ns, more).contains(x) <==> ns.contains(x) || more.contains(x) by {
            if p.contains(x) {
                let i = choose|i: int| 0 <= i < p.len() && p[i] == x;
                assert(more[i] == x);
            }
            if more.contains(x) && x != more.last() {
                let i = choose|i: int| 0 <= i < more.len() && more[i] == x;
                assert(i < more.len() - 1);
                assert(p[i] == x);
            }
            assert(more[more.len() - 1] == more.last());
        }
    }
}

/// The names of all epochs are sorted, and are exactly the names that
/// some epoch has.
pub proof fn lemma_names_upto(ws: Seq<EpochWorld>, k: int)
    requires
        0 <= k <= ws.len(),
    ensures
        names_sorted(names_upto(ws, k)),
        forall|x: Seq<char>| names_upto(ws, k).contains(x) <==> exists|t: int| 0 <= t < k && names_of(ws[t]).contains(x),
    decreases k,
{
    if k > 0 {
        lemma_names_upto(ws, k - 1);
        lemma_insert_names(names_upto(ws, k - 1), names_of(ws[k - 1]));
        assert forall|x: Seq<char>| names_upto(ws, k).contains(x) implies exists|t: int| 0 <= t < k && names_of(ws[t]).contains(x) by {
            if names_upto(ws, k - 1).contains(x) {
                let t = choose|t: int| 0 <= t < k - 1 && names_of(ws[t]).contains(x);
            } else {
                assert(names_of(ws[k - 1]).contains(x));
            }
        }
        assert forall|x: Seq<char>| (exists|t: int| 0 <= t < k && names_of(ws[t]).contains(x)) implies names_upto(ws, k).contains(x) by {
            let t = choose|t: int| 0 <= t < k && names_of(ws[t]).contains(x);
            if t < k - 1 {
                assert(names_upto(ws, k - 1).contains(x));
            }
        }
    } else {
        assert(names_upto(ws, k) =~= Seq::<Seq<char>>::empty());
    }
}

/// Every region name of every epoch, in string order.
fn all_region_names(ws: &Vec<EpochWorld>) -> (names: Vec<String>)
    ensures
        names@.map_values(|n: String| n@) == names_upto(ws@, ws@.len() as int),
{
    let mut names: Vec<String> = Vec::new();
    let mut k: usize = 0;
    while k < ws.len()
        invariant
            k <= ws@.len(),
            names@.map_values(|n: String| n@) == names_upto(ws@, k as int),
        decreases ws.len() - k,
    {
        let w = &ws[k];
        let ghost base = names_upto(ws@, k as int);
        proof {
            lemma_names_upto(ws@, k as int);
        }
        let mut i: usize = 0;
        while i < w.regions.len()
            invariant
                w == &ws@[k as int],
                i <= w.regions@.len(),
                names_sorted(base),
                names@.map_values(|n: String| n@) == insert_names(base, names_of(*w).take(i as int)),
            decreases w.regions.len() - i,
        {
            proof {
                lemma_insert_names(base, names_of(*w).take(i as int));
                assert(names_of(*w).take(i as int + 1).drop_last() =~= names_of(*w).take(i as int));
                assert(names_of(*w).take(i as int + 1).last() == w.regions@[i as int].name@);
            }
            merge_name(&mut names, w.regions[i].name.as_str());
            i += 1;
        }
        proof {
            assert(names_of(*w).take(w.regions@.len() as int) =~= names_of(*w));
        }
        k += 1;
    }
    names
}

/// Geometry cuts for the region named `n` over the epochs it stands in.
fn geom_cuts_exec(ws: &Vec<EpochWorld>, n: &str, ks: &Vec<usize>) -> (out: Vec<bool>)
    requires
        forall|k: int| 0 <= k < ws@.len() ==> names_increase(names_of(#[trigger] ws@[k])),
        forall|j: int| 0 <= j < ks@.len() ==> (#[trigger] ks@[j]) < ws@.len() && names_of(ws@[ks@[j] as int]).contains(n@),
    ensures
        out@ == geom_cuts(ws@, n@, ks@.map_values(|k: usize| k as int)),
{
    let ghost ki = ks@.map_values(|k: usize| k as int);
    let mut out: Vec<bool> = Vec::new();
    let mut j: usize = 0;
    while j < ks.len()
        invariant
            ki == ks@.map_values(|k: usize| k as int),
            forall|k: int| 0 <= k < ws@.len() ==> names_increase(names_of(#[trigger] ws@[k])),
            forall|j: int| 0 <= j < ks@.len() ==> (#[trigger] ks@[j]) < ws@.len() && names_of(ws@[ks@[j] as int]).contains(n@),
            j <= ks.len(),
            out@.len() == j,
            forall|t: int| 0 <= t < j ==> out@[t] == geom_cuts(ws@, n@, ki)[t],
        decreases ks.len() - j,
    {
        let c = if j == 0 {
            false
        } else if ks[j - 1] >= usize::MAX || ks[j] != ks[j - 1] + 1 {
            true
        } else {
            let now = &ws[ks[j]];
            let was = &ws[ks[j - 1]];
            assert(names_of(*now).contains(n@));
            assert(names_of(*was).contains(n@));
            match (find_region(now, n), find_region(was, n)) {
                (Some(a), Some(b)) => {
                    proof {
                        lemma_index_of_name(*now, n@, a as int);
                        lemma_index_of_name(*was, n@, b as int);
                    }
                    let ua = gather_uses(&now.regions[a].parts);
                    let ub = gather_uses(&was.regions[b].parts);
                    !same_arcs_exec(&ua, &ub)
                },
                _ => true,
            }
        };
        out.push(c);
        j += 1;
    }
    proof {
        assert(out@ =~= geom_cuts(ws@, n@, ki));
    }
    out
}

/// Every region with its label and geometry histories, in name order.
fn region_histories(ws: &Vec<EpochWorld>) -> (out: Vec<RegionHistory>)
    requires
        forall|k: int| 0 <= k < ws@.len() ==> names_increase(names_of(#[trigger] ws@[k])),
    ensures
        out@.map_values(|h: RegionHistory| h.name@) == names_upto(ws@, ws@.len() as int),
        forall|i: int| 0 <= i < out@.len() ==> {
            let h = #[trigger] out@[i];
            &&& h.label_history@ == label_versions(ws@, h.name@)
            &&& h.geom_history@.map_values(|g: (Interval, usize)| (g.0, g.1 as int)) == geom_versions(ws@, h.name@)
        },
{
    let names = all_region_names(ws);
    let mut out: Vec<RegionHistory> = Vec::new();
    let mut i: usize = 0;
    while i < names.len()
        invariant
            forall|k: int| 0 <= k < ws@.len() ==> names_increase(names_of(#[trigger] ws@[k])),
            i <= names@.len(),
            out@.len() == i,
            forall|t: int| 0 <= t < i ==> (#[trigger] out@[t]).name@ == names@[t]@,
            forall|t: int| 0 <= t < i ==> {
                let h = #[trigger] out@[t];
                &&& h.label_history@ == label_versions(ws@, h.name@)
                &&& h.geom_history@.map_values(|g: (Interval, usize)| (g.0, g.1 as int)) == geom_versions(ws@, h.name@)
            },
        decreases names.len() - i,
    {
        let n = names[i].as_str();
        let mut flags: Vec<bool> = Vec::new();
        let mut k: usize = 0;
        while k < ws.len()
            invariant
                k <= ws@.len(),
                flags@.len() == k,
                forall|t: int| 0 <= t < k ==> flags@[t] == names_of(ws@[t]).contains(n@),
            decreases ws.len() - k,
        {
            let found = find_region(&ws[k], n);
            flags.push(found.is_some());
            proof {
                if let Some(x) = found {
                    assert(names_of(ws@[k as int])[x as int] == n@);
                }
            }
            k += 1;
        }
        let ks = flagged(&flags);
        let ghost ki = ks@.map_values(|k: usize| k as int);
        proof {
            lemma_indices_where_ext(ws@.len() as int, |k: int| flags@[k], |k: int| names_of(ws@[k]).contains(n@));
            lemma_indices_where_bounds(ws@.len() as int, |k: int| names_of(ws@[k]).contains(n@));
            assert(ki == region_epochs(ws@, n@));
            assert forall|j: int| 0 <= j < ks@.len() implies (#[trigger] ks@[j]) < ws@.len() && names_of(ws@[ks@[j] as int]).contains(n@) by {
                assert(ki[j] == ks@[j] as int);
                assert(0 <= ki[j] < ws@.len());
                assert(names_of(ws@[ki[j]]).contains(n@));
            }
        }
        let cuts = gap_cuts_exec(&ks);
        let rs = runs_of(&ks, &cuts);
        let gcuts = geom_cuts_exec(ws, n, &ks);
        let grs = runs_of(&ks, &gcuts);
        proof {
            lemma_runs_bounds(ki, cuts@);
            lemma_runs_bounds(ki, gcuts@);
            assert forall|t: int| 0 <= t < rs@.len() implies (#[trigger] rs@[t]).0 <= rs@[t].1 < ws@.len() by {
                let m = |r: (usize, usize)| (r.0 as int, r.1 as int);
                assert(rs@.map_values(m)[t] == runs(ki, cuts@)[t]);
                let r = runs(ki, cuts@)[t];
                let b = choose|b: int| 0 <= b < ki.len() && ki[b] == r.1;
                assert(0 <= ki[b] < ws@.len());
            }
            assert forall|t: int| 0 <= t < grs@.len() implies (#[trigger] grs@[t]).0 <= grs@[t].1 < ws@.len() by {
                let m = |r: (usize, usize)| (r.0 as int, r.1 as int);
                assert(grs@.map_values(m)[t] == runs(ki, gcuts@)[t]);
                let r = runs(ki, gcuts@)[t];
                let b = choose|b: int| 0 <= b < ki.len() && ki[b] == r.1;
                assert(0 <= ki[b] < ws@.len());
            }
        }
        let label_history = intervals_of(ws, &rs);
        let givs = intervals_of(ws, &grs);
        let mut geom_history: Vec<(Interval, usize)> = Vec::new();
        let mut t: usize = 0;
        while t < grs.len()
            invariant
                givs@.len() == grs@.len(),
                t <= grs@.len(),
                geom_history@.len() == t,
                forall|u: int| 0 <= u < t ==> #[trigger] geom_history@[u] == (givs@[u], grs@[u].1),
            decreases grs.len() - t,
        {
            geom_history.push((givs[t], grs[t].1));
            t += 1;
        }
        proof {
            let m = |r: (usize, usize)| (r.0 as int, r.1 as int);
            let f = |r: (int, int)| interval_of(ws@, r);
            assert(label_history@ =~= label_versions(ws@, n@));
            assert(givs@ == grs@.map_values(m).map_values(f));
            assert(geom_history@.map_values(|g: (Interval, usize)| (g.0, g.1 as int)) =~= geom_versions(ws@, n@));
        }
        let name = names[i].clone();
        out.push(RegionHistory { name, label_history, geom_history });
        i += 1;
    }
    proof {
        assert(out@.map_values(|h: RegionHistory| h.name@) =~= names@.map_values(|n: String| n@));
    }
    out
}

fn copy_change(c: &EpochChange) -> (r: EpochChange)
    ensures
        r@ == c@,
{
    match c {
        EpochChange::Rise(n) => EpochChange::Rise(n.clone()),
        EpochChange::Fall(n) => EpochChange::Fall(n.clone()),
        EpochChange::Shift(a) => EpochChange::Shift(*a),
    }
}

/// Every step's narration, at the start of the epoch it leads into.
fn all_events(ws: &Vec<EpochWorld>, n_arcs: usize) -> (out: Vec<EpochEvent>)
    requires
        forall|k: int| 0 <= k < ws@.len() ==> world_wf(#[trigger] ws@[k], n_arcs as int),
    ensures
        event_views(out@) == events_upto(ws@, n_arcs as int, ws@.len() as int),
{
    let mut out: Vec<EpochEvent> = Vec::new();
    let mut k: usize = 1;
    while k < ws.len()
        invariant
            forall|k: int| 0 <= k < ws@.len() ==> world_wf(#[trigger] ws@[k], n_arcs as int),
            1 <= k,
            k <= ws@.len() || k == 1,
            event_views(out@) == events_upto(ws@, n_arcs as int, k as int),
        decreases ws.len() - k,
    {
        assert(world_wf(ws@[k as int - 1], n_arcs as int));
        assert(world_wf(ws@[k as int], n_arcs as int));
        let changes = narrate_pair(&ws[k - 1], &ws[k], n_arcs);
        let at = TimePoint { year: ws[k].year, month: None, day: None };
        let ghost base = event_views(out@);
        let ghost tag = |c: ChangeView| (k as int, start_of(ws@[k as int]), c);
        let mut t: usize = 0;
        while t < changes.len()
            invariant
                tag == (|c: ChangeView| (k as int, start_of(ws@[k as int]), c)),
                at == start_of(ws@[k as int]),
                t <= changes@.len(),
                event_views(out@) == base + change_views(changes@).take(t as int).map_values(tag),
            decreases changes.len() - t,
        {
            let ghost o = out@;
            let change = copy_change(&changes[t]);
            out.push(EpochEvent { epoch: k, at, change });
            proof {
                assert(event_views(out@) =~= event_views(o).push(tag(changes@[t as int]@)));
                assert(change_views(changes@).take(t as int + 1).map_values(tag) =~= change_views(changes@).take(t as int).map_values(tag).push(tag(changes@[t as int]@)));
            }
            t += 1;
        }
        proof {
            assert(change_views(changes@).take(changes@.len() as int) =~= change_views(changes@));
            assert(event_views(out@) =~= events_upto(ws@, n_arcs as int, k as int + 1));
        }
        k += 1;
    }
    proof {
        if ws@.len() == 0 {
            assert(events_upto(ws@, n_arcs as int, 1) =~= Seq::<(int, TimePoint, ChangeView)>::empty());
            assert(events_upto(ws@, n_arcs as int, 0) =~= Seq::<(int, TimePoint, ChangeView)>::empty());
            assert(event_views(out@) == events_upto(ws@, n_arcs as int, ws@.len() as int));
        } else {
            assert(k as int == ws@.len() as int);
            assert(event_views(out@) == events_upto(ws@, n_arcs as int, ws@.len() as int));
        }
    }
    out
}

// ------------------------------------------------ resolving one epoch

/// One source polygon, quantized: its outer ring and its holes, each
/// as given (closing repeat and all).
#[derive(Clone, Debug)]
pub struct PolygonRings {
    pub outer: Vec<QPoint>,
    pub holes: Vec<Vec<QPoint>>,
}

/// One source feature, quantized: its name, if the source gives one,
/// and its polygons.
#[derive(Clone, Debug)]
pub struct FeatureRings {
    pub name: Option<String>,
    pub polygons: Vec<PolygonRings>,
}

/// A ring after cleaning, or `None` if it degenerates.
pub open spec fn cleaned(r: Seq<QPoint>) -> Option<Seq<QPoint>> {
    let c = drop_closing(collapse_repeats(r));
    if c.len() >= 3 {
        Some(c)
    } else {
        None
    }
}

/// The polygons of the named features, each with its feature's name,
/// in source order.
pub open spec fn named_polygons(fs: Seq<FeatureRings>) -> Seq<(Seq<char>, PolygonRings)>
    decreases fs.len(),
{
    if fs.len() == 0 {
        Seq::empty()
    } else {
        named_polygons(fs.drop_last()) + match fs.last().name {
            Some(n) => fs.last().polygons@.map_values(|p: PolygonRings| (n@, p)),
            None => Seq::empty(),
        }
    }
}

/// How many features the source leaves anonymous.
pub open spec fn unnamed_count(fs: Seq<FeatureRings>) -> nat
    decreases fs.len(),
{
    if fs.len() == 0 {
        0
    } else {
        unnamed_count(fs.drop_last()) + if fs.last().name is None { 1nat } else { 0nat }
    }
}

/// The holes that survive cleaning, cleaned, in order.
pub open spec fn kept_holes(hs: Seq<Vec<QPoint>>) -> Seq<Seq<QPoint>>
    decreases hs.len(),
{
    if hs.len() == 0 {
        Seq::empty()
    } else {
        match cleaned(hs.last()@) {
            Some(c) => kept_holes(hs.drop_last()).push(c),
            None => kept_holes(hs.drop_last()),
        }
    }
}

/// The layout of an epoch's named polygons: every ring kept, in order
/// (each kept outer ring followed by its kept holes); for each kept
/// polygon its owner's name, the index of its outer ring and its
/// number of kept holes; and how many rings degenerated. A polygon
/// whose outer ring degenerates is dropped whole.
pub open spec fn layout(ps: Seq<(Seq<char>, PolygonRings)>) -> (Seq<Seq<QPoint>>, Seq<(Seq<char>, int, int)>, nat)
    decreases ps.len(),
{
    if ps.len() == 0 {
        (Seq::empty(), Seq::empty(), 0)
    } else {
        let (rings, placed, deg) = layout(ps.drop_last());
        let (name, p) = ps.last();
        match cleaned(p.outer@) {
            None => (rings, placed, deg + 1),
            Some(o) => {
                let hs = kept_holes(p.holes@);
                (
                    rings.push(o) + hs,
                    placed.push((name, rings.len() as int, hs.len() as int)),
                    deg + (p.holes@.len() - hs.len()) as nat,
                )
            },
        }
    }
}

proof fn lemma_kept_holes_len(hs: Seq<Vec<QPoint>>)
    ensures
        kept_holes(hs).len() <= hs.len(),
        forall|i: int| 0 <= i < kept_holes(hs).len() ==> (#[trigger] kept_holes(hs)[i]).len() >= 3,
    decreases hs.len(),
{
    if hs.len() > 0 {
        lemma_kept_holes_len(hs.drop_last());
    }
}

proof fn lemma_layout_rings(ps: Seq<(Seq<char>, PolygonRings)>)
    ensures
        forall|i: int| 0 <= i < layout(ps).0.len() ==> (#[trigger] layout(ps).0[i]).len() >= 3,
        forall|t: int| 0 <= t < layout(ps).1.len() ==> {
            let pl = #[trigger] layout(ps).1[t];
            0 <= pl.1 && pl.1 + 1 + pl.2 <= layout(ps).0.len() && pl.2 >= 0
        },
    decreases ps.len(),
{
    if ps.len() > 0 {
        lemma_layout_rings(ps.drop_last());
        let (name, p) = ps.last();
        lemma_kept_holes_len(p.holes@);
        let (rings, placed, deg) = layout(ps.drop_last());
        match cleaned(p.outer@) {
            None => {},
            Some(o) => {
                let hs = kept_holes(p.holes@);
                let r2 = rings.push(o) + hs;
                assert forall|i: int| 0 <= i < r2.len() implies (#[trigger] r2[i]).len() >= 3 by {
                    if i < rings.len() {
                        assert(r2[i] == rings[i]);
                    } else if i == rings.len() {
                        assert(r2[i] == o);
                    } else {
                        assert(r2[i] == hs[i - rings.len() - 1]);
                    }
                }
                let p2 = placed.push((name, rings.len() as int, hs.len() as int));
                assert forall|t: int| 0 <= t < p2.len() implies {
                    let pl = #[trigger] p2[t];
                    0 <= pl.1 && pl.1 + 1 + pl.2 <= r2.len() && pl.2 >= 0
                } by {
                    if t < placed.len() {
                        assert(p2[t] == placed[t]);
                    }
                }
            },
        }
    }
}

/// How many rings a list of polygons holds, outer rings and holes.
pub open spec fn poly_rings(ps: Seq<PolygonRings>) -> nat
    decreases ps.len(),
{
    if ps.len() == 0 {
        0
    } else {
        poly_rings(ps.drop_last()) + 1 + ps.last().holes@.len()
    }
}

/// How many rings an epoch's features hold.
pub open spec fn total_rings(fs: Seq<FeatureRings>) -> nat
    decreases fs.len(),
{
    if fs.len() == 0 {
        0
    } else {
        total_rings(fs.drop_last()) + poly_rings(fs.last().polygons@)
    }
}

proof fn lemma_total_rings_mono(fs: Seq<FeatureRings>, i: int)
    requires
        0 <= i <= fs.len(),
    ensures
        total_rings(fs.take(i)) <= total_rings(fs),
    decreases fs.len() - i,
{
    if i < fs.len() {
        lemma_total_rings_mono(fs, i + 1);
        assert(fs.take(i + 1).drop_last() =~= fs.take(i));
    } else {
        assert(fs.take(i) =~= fs);
    }
}

/// Clean a ring, as `cleaned` says.
pub(crate) fn clean_exec(r: &Vec<QPoint>) -> (out: Option<Vec<QPoint>>)
    ensures
        match out {
            Some(v) => cleaned(r@) == Some(v@),
            None => cleaned(r@) is None,
        },
{
    clean_ring(r.as_slice())
}

/// Lay out an epoch's features: the kept rings, the kept polygons and
/// the counts of anonymous features and degenerate rings.
fn lay_out(fs: &Vec<FeatureRings>) -> (out: (Vec<Vec<QPoint>>, Vec<(String, usize, usize)>, usize, usize))
    requires
        fs@.len() < usize::MAX,
        total_rings(fs@) < usize::MAX,
    ensures
        out.0@.map_values(|r: Vec<QPoint>| r@) == layout(named_polygons(fs@)).0,
        out.1@.map_values(|pl: (String, usize, usize)| (pl.0@, pl.1 as int, pl.2 as int)) == layout(named_polygons(fs@)).1,
        out.2 == unnamed_count(fs@),
        out.3 == layout(named_polygons(fs@)).2,
{
    let mut rings: Vec<Vec<QPoint>> = Vec::new();
    let mut placed: Vec<(String, usize, usize)> = Vec::new();
    let mut unnamed: usize = 0;
    let mut degenerate: usize = 0;
    let mut i: usize = 0;
    while i < fs.len()
        invariant
            fs@.len() < usize::MAX,
            total_rings(fs@) < usize::MAX,
            i <= fs@.len(),
            rings@.map_values(|r: Vec<QPoint>| r@) == layout(named_polygons(fs@.take(i as int))).0,
            placed@.map_values(|pl: (String, usize, usize)| (pl.0@, pl.1 as int, pl.2 as int)) == layout(named_polygons(fs@.take(i as int))).1,
            unnamed == unnamed_count(fs@.take(i as int)),
            unnamed <= i,
            degenerate == layout(named_polygons(fs@.take(i as int))).2,
            degenerate + rings@.len() <= total_rings(fs@.take(i as int)),
        decreases fs.len() - i,
    {
        let f = &fs[i];
        proof {
            assert(fs@.take(i as int + 1).drop_last() =~= fs@.take(i as int));
            assert(fs@.take(i as int + 1).last() == fs@[i as int]);
            lemma_total_rings_mono(fs@, i as int + 1);
        }
        let ghost bound = total_rings(fs@.take(i as int));
        match &f.name {
            None => {
                unnamed += 1;
                proof {
                    assert(named_polygons(fs@.take(i as int + 1)) =~= named_polygons(fs@.take(i as int)));
                }
            },
            Some(name) => {
                let ghost base = named_polygons(fs@.take(i as int));
                let ghost mine = f.polygons@.map_values(|p: PolygonRings| (name@, p));
                let mut j: usize = 0;
                while j < f.polygons.len()
                    invariant
                        f == &fs@[i as int],
                        total_rings(fs@) < usize::MAX,
                        bound + poly_rings(f.polygons@) <= total_rings(fs@),
                        mine == f.polygons@.map_values(|p: PolygonRings| (name@, p)),
                        j <= f.polygons@.len(),
                        rings@.map_values(|r: Vec<QPoint>| r@) == layout(base + mine.take(j as int)).0,
                        placed@.map_values(|pl: (String, usize, usize)| (pl.0@, pl.1 as int, pl.2 as int)) == layout(base + mine.take(j as int)).1,
                        degenerate == layout(base + mine.take(j as int)).2,
                        degenerate + rings@.len() <= bound + poly_rings(f.polygons@.take(j as int)),
                    decreases f.polygons.len() - j,
                {
                    let poly = &f.polygons[j];
                    let ghost prev = base + mine.take(j as int);
                    let ghost lay = layout(prev);
                    proof {
                        assert((base + mine.take(j as int + 1)).drop_last() =~= prev);
                        assert((base + mine.take(j as int + 1)).last() == (name@, f.polygons@[j as int]));
                        assert(f.polygons@.take(j as int + 1).drop_last() =~= f.polygons@.take(j as int));
                        lemma_poly_rings_mono(f.polygons@, j as int + 1);
                    }
                    match clean_exec(&poly.outer) {
                        None => {
                            degenerate += 1;
                        },
                        Some(o) => {
                            let start = rings.len();
                            let ghost r0 = rings@.map_values(|r: Vec<QPoint>| r@);
                            rings.push(o);
                            proof {
                                assert(rings@.map_values(|r: Vec<QPoint>| r@) =~= r0.push(o@));
                            }
                            let mut kept: usize = 0;
                            let mut h: usize = 0;
                            while h < poly.holes.len()
                                invariant
                                    poly == &f.polygons@[j as int],
                                    h <= poly.holes@.len(),
                                    rings@.map_values(|r: Vec<QPoint>| r@) == r0.push(o@) + kept_holes(poly.holes@.take(h as int)),
                                    kept == kept_holes(poly.holes@.take(h as int)).len(),
                                    kept <= h,
                                    degenerate == lay.2 + (h - kept),
                                    degenerate + rings@.len() <= bound + poly_rings(f.polygons@.take(j as int)) + 1 + h,
                                    bound + poly_rings(f.polygons@.take(j as int + 1)) < usize::MAX,
                                    poly_rings(f.polygons@.take(j as int + 1)) == poly_rings(f.polygons@.take(j as int)) + 1 + poly.holes@.len(),
                                decreases poly.holes.len() - h,
                            {
                                proof {
                                    assert(poly.holes@.take(h as int + 1).drop_last() =~= poly.holes@.take(h as int));
                                    assert(poly.holes@.take(h as int + 1).last() == poly.holes@[h as int]);
                                }
                                match clean_exec(&poly.holes[h]) {
                                    None => {
                                        degenerate += 1;
                                    },
                                    Some(c) => {
                                        let ghost rv = rings@.map_values(|r: Vec<QPoint>| r@);
                                        rings.push(c);
                                        kept += 1;
                                        proof {
                                            assert(rings@.map_values(|r: Vec<QPoint>| r@) =~= rv.push(c@));
                                            assert(r0.push(o@) + kept_holes(poly.holes@.take(h as int + 1)) =~= (r0.push(o@) + kept_holes(poly.holes@.take(h as int))).push(c@));
                                        }
                                    },
                                }
                                h += 1;
                            }
                            proof {
                                assert(poly.holes@.take(poly.holes@.len() as int) =~= poly.holes@);
                            }
                            let owner = name.clone();
                            let ghost pv = placed@.map_values(|pl: (String, usize, usize)| (pl.0@, pl.1 as int, pl.2 as int));
                            placed.push((owner, start, kept));
                            proof {
                                assert(placed@.map_values(|pl: (String, usize, usize)| (pl.0@, pl.1 as int, pl.2 as int)) =~= pv.push((name@, start as int, kept as int)));
                                assert(r0.len() == start as int);
                            }
                        },
                    }
                    j += 1;
                }
                proof {
                    assert(mine.take(f.polygons@.len() as int) =~= mine);
                    assert(f.polygons@.take(f.polygons@.len() as int) =~= f.polygons@);
                    assert(named_polygons(fs@.take(i as int + 1)) =~= base + mine);
                }
            },
        }
        i += 1;
    }
    proof {
        assert(fs@.take(fs@.len() as int) =~= fs@);
    }
    (rings, placed, unnamed, degenerate)
}

proof fn lemma_poly_rings_mono(ps: Seq<PolygonRings>, j: int)
    requires
        0 <= j <= ps.len(),
    ensures
        poly_rings(ps.take(j)) <= poly_rings(ps),
    decreases ps.len() - j,
{
    if j < ps.len() {
        lemma_poly_rings_mono(ps, j + 1);
        assert(ps.take(j + 1).drop_last() =~= ps.take(j));
    } else {
        assert(ps.take(j) =~= ps);
    }
}

/// The arc table after adding, in order, each arc it does not hold yet.
pub open spec fn intern_all(t: Seq<Seq<QPoint>>, cs: Seq<Seq<QPoint>>) -> Seq<Seq<QPoint>>
    decreases cs.len(),
{
    if cs.len() == 0 {
        t
    } else {
        let u = intern_all(t, cs.drop_last());
        if u.contains(cs.last()) {
            u
        } else {
            u.push(cs.last())
        }
    }
}

/// Where arc `c` stands in the table.
pub open spec fn index_in(t: Seq<Seq<QPoint>>, c: Seq<QPoint>) -> int {
    choose|i: int| 0 <= i < t.len() && t[i] == c
}

pub open spec fn table_view(t: Seq<Vec<QPoint>>) -> Seq<Seq<QPoint>> {
    t.map_values(|a: Vec<QPoint>| a@)
}

proof fn lemma_index_in(t: Seq<Seq<QPoint>>, i: int)
    requires
        t.no_duplicates(),
        0 <= i < t.len(),
    ensures
        index_in(t, t[i]) == i,
{
    let k = index_in(t, t[i]);
    assert(0 <= k < t.len() && t[k] == t[i]);
}

/// Add an epoch's arcs to the table; the table ids of those arcs.
fn intern(table: &mut Vec<Vec<QPoint>>, arcs: &Vec<Vec<QPoint>>) -> (g: Vec<usize>)
    requires
        table_view(old(table)@).no_duplicates(),
    ensures
        table_view(final(table)@) == intern_all(table_view(old(table)@), table_view(arcs@)),
        table_view(final(table)@).no_duplicates(),
        g@.len() == arcs@.len(),
        forall|j: int| 0 <= j < g@.len() ==> (#[trigger] g@[j]) < final(table)@.len() && final(table)@[g@[j] as int]@ == arcs@[j]@,
{
    let ghost t0 = table_view(table@);
    let mut g: Vec<usize> = Vec::new();
    let mut j: usize = 0;
    while j < arcs.len()
        invariant
            j <= arcs@.len(),
            table_view(table@) == intern_all(t0, table_view(arcs@).take(j as int)),
            table_view(table@).no_duplicates(),
            g@.len() == j,
            forall|q: int| 0 <= q < j ==> (#[trigger] g@[q]) < table@.len() && table@[g@[q] as int]@ == arcs@[q]@,
        decreases arcs.len() - j,
    {
        let a = &arcs[j];
        let ghost tv = table_view(table@);
        proof {
            assert(table_view(arcs@).take(j as int + 1).drop_last() =~= table_view(arcs@).take(j as int));
            assert(table_view(arcs@).take(j as int + 1).last() == a@);
        }
        let mut k: usize = 0;
        let mut found: Option<usize> = None;
        while k < table.len()
            invariant
                k <= table@.len(),
                tv == table_view(table@),
                found is None ==> forall|q: int| 0 <= q < k ==> table@[q]@ != a@,
                found matches Some(x) ==> x < table@.len() && table@[x as int]@ == a@,
            decreases table.len() - k,
        {
            if found.is_none() && seq_equal(&table[k], a) {
                found = Some(k);
            }
            k += 1;
        }
        match found {
            Some(x) => {
                g.push(x);
                proof {
                    assert(tv[x as int] == a@);
                    assert(tv.contains(a@));
                }
            },
            None => {
                proof {
                    assert(!tv.contains(a@)) by {
                        if tv.contains(a@) {
                            let q = choose|q: int| 0 <= q < tv.len() && tv[q] == a@;
                            assert(table@[q]@ == a@);
                        }
                    }
                }
                let x = table.len();
                table.push(a.clone());
                g.push(x);
                proof {
                    assert(table_view(table@) =~= tv.push(a@));
                    assert forall|p: int, q: int| 0 <= p < table_view(table@).len() && 0 <= q < table_view(table@).len() && p != q implies table_view(table@)[p] != table_view(table@)[q] by {
                        if p < tv.len() && q < tv.len() {
                        } else if p == tv.len() {
                            assert(tv.contains(tv[q]));
                        } else {
                            assert(tv.contains(tv[p]));
                        }
                    }
                }
            },
        }
        j += 1;
    }
    proof {
        assert(table_view(arcs@).take(arcs@.len() as int) =~= table_view(arcs@));
    }
    g
}

/// A ring's walk of arcs, by table id and direction.
pub open spec fn gcycle(rings: Seq<Seq<QPoint>>, table: Seq<Seq<QPoint>>, r: int) -> Seq<ArcUse> {
    ring_arcs(rings, r).map_values(
        |p: (Seq<QPoint>, ArcDir)| ArcUse { arc: index_in(table, p.0) as usize, forward: p.1 == ArcDir::Forward },
    )
}

/// A ring's cycle, by table id.
fn global_cycle(ext: &Extraction, g: &Vec<usize>, r: usize, Ghost(rings): Ghost<Seq<Seq<QPoint>>>, Ghost(table): Ghost<Seq<Seq<QPoint>>>) -> (out: Vec<ArcUse>)
    requires
        extracted_from(*ext, rings),
        r < rings.len(),
        table.no_duplicates(),
        g@.len() == ext.arcs@.len(),
        forall|j: int| 0 <= j < g@.len() ==> (#[trigger] g@[j]) < table.len() && table[g@[j] as int] == ext.arcs@[j]@,
    ensures
        out@ == gcycle(rings, table, r as int),
{
    assert(crate::arcs::cycle_matches(ext.arcs_view(), ext.cycles_view()[r as int], ring_arcs(rings, r as int)));
    let cycle = &ext.cycles[r];
    assert(cycle@ == ext.cycles_view()[r as int]);
    let ghost pieces = ring_arcs(rings, r as int);
    let mut out: Vec<ArcUse> = Vec::new();
    let mut j: usize = 0;
    while j < cycle.len()
        invariant
            cycle@ == ext.cycles_view()[r as int],
            crate::arcs::cycle_matches(ext.arcs_view(), cycle@, pieces),
            pieces == ring_arcs(rings, r as int),
            table.no_duplicates(),
            g@.len() == ext.arcs@.len(),
            forall|j: int| 0 <= j < g@.len() ==> (#[trigger] g@[j]) < table.len() && table[g@[j] as int] == ext.arcs@[j]@,
            j <= cycle@.len(),
            out@ == gcycle(rings, table, r as int).take(j as int),
        decreases cycle.len() - j,
    {
        let (idx, dir) = cycle[j];
        assert(cycle@[j as int].0 < ext.arcs_view().len());
        let id = g[idx];
        let forward = match dir {
            ArcDir::Forward => true,
            ArcDir::Reverse => false,
        };
        proof {
            assert(ext.arcs_view()[idx as int] == pieces[j as int].0);
            assert(table[id as int] == pieces[j as int].0);
            lemma_index_in(table, id as int);
        }
        out.push(ArcUse { arc: id, forward });
        proof {
            assert(gcycle(rings, table, r as int).take(j as int + 1) =~= gcycle(rings, table, r as int).take(j as int).push(ArcUse { arc: id, forward }));
        }
        j += 1;
    }
    proof {
        assert(gcycle(rings, table, r as int).take(cycle@.len() as int) =~= gcycle(rings, table, r as int));
    }
    out
}

/// A part as contracts speak of it: its cycle and its holes' cycles.
pub open spec fn part_view(p: RegionPart) -> (Seq<ArcUse>, Seq<Seq<ArcUse>>) {
    (p.cycle@, p.holes@.map_values(|h: Vec<ArcUse>| h@))
}

/// A region's geometry as contracts speak of it.
pub open spec fn geom_view(g: RegionGeom) -> (Seq<char>, Seq<(Seq<ArcUse>, Seq<Seq<ArcUse>>)>) {
    (g.name@, g.parts@.map_values(|p: RegionPart| part_view(p)))
}

/// The part a kept polygon makes: its outer ring's cycle and its kept
/// holes' cycles.
pub open spec fn part_of(rings: Seq<Seq<QPoint>>, table: Seq<Seq<QPoint>>, pl: (Seq<char>, int, int)) -> (Seq<ArcUse>, Seq<Seq<ArcUse>>) {
    (gcycle(rings, table, pl.1), Seq::new(pl.2 as nat, |t: int| gcycle(rings, table, pl.1 + 1 + t)))
}

/// The regions of an epoch: every owner name in string order, each
/// with the parts of its kept polygons in source order.
pub open spec fn region_layout(rings: Seq<Seq<QPoint>>, placed: Seq<(Seq<char>, int, int)>, table: Seq<Seq<QPoint>>) -> Seq<(Seq<char>, Seq<(Seq<ArcUse>, Seq<Seq<ArcUse>>)>)> {
    insert_names(Seq::empty(), placed.map_values(|pl: (Seq<char>, int, int)| pl.0)).map_values(
        |n: Seq<char>| (n, placed.filter(|pl: (Seq<char>, int, int)| pl.0 == n).map_values(|pl: (Seq<char>, int, int)| part_of(rings, table, pl))),
    )
}

proof fn lemma_cycles_uses_bound(cs: Seq<Vec<ArcUse>>, n: int)
    requires
        forall|c: int, k: int| 0 <= c < cs.len() && 0 <= k < cs[c]@.len() ==> (#[trigger] cs[c]@[k]).arc < n,
    ensures
        forall|k: int| 0 <= k < cycles_uses(cs).len() ==> (#[trigger] cycles_uses(cs)[k]).arc < n,
    decreases cs.len(),
{
    if cs.len() > 0 {
        let p = cs.drop_last();
        assert forall|c: int, k: int| 0 <= c < p.len() && 0 <= k < p[c]@.len() implies (#[trigger] p[c]@[k]).arc < n by {
            assert(p[c] == cs[c]);
        }
        lemma_cycles_uses_bound(p, n);
        let u = cycles_uses(cs);
        assert forall|k: int| 0 <= k < u.len() implies (#[trigger] u[k]).arc < n by {
            let a = cycles_uses(p);
            if k < a.len() {
                assert(u[k] == a[k]);
            } else {
                assert(u[k] == cs[cs.len() - 1]@[k - a.len()]);
            }
        }
    }
}

proof fn lemma_parts_uses_bound(ps: Seq<RegionPart>, n: int)
    requires
        forall|q: int, k: int| 0 <= q < ps.len() && 0 <= k < ps[q].cycle@.len() ==> (#[trigger] ps[q].cycle@[k]).arc < n,
        forall|q: int, c: int, k: int| 0 <= q < ps.len() && 0 <= c < ps[q].holes@.len() && 0 <= k < ps[q].holes@[c]@.len() ==> (#[trigger] ps[q].holes@[c]@[k]).arc < n,
    ensures
        forall|k: int| 0 <= k < parts_uses(ps).len() ==> (#[trigger] parts_uses(ps)[k]).arc < n,
    decreases ps.len(),
{
    if ps.len() > 0 {
        let p = ps.drop_last();
        assert forall|q: int, k: int| 0 <= q < p.len() && 0 <= k < p[q].cycle@.len() implies (#[trigger] p[q].cycle@[k]).arc < n by {
            assert(p[q] == ps[q]);
        }
        assert forall|q: int, c: int, k: int| 0 <= q < p.len() && 0 <= c < p[q].holes@.len() && 0 <= k < p[q].holes@[c]@.len() implies (#[trigger] p[q].holes@[c]@[k]).arc < n by {
            assert(p[q] == ps[q]);
        }
        lemma_parts_uses_bound(p, n);
        let last = ps.last();
        assert forall|c: int, k: int| 0 <= c < last.holes@.len() && 0 <= k < last.holes@[c]@.len() implies (#[trigger] last.holes@[c]@[k]).arc < n by {
            assert(ps[ps.len() - 1] == last);
        }
        lemma_cycles_uses_bound(last.holes@, n);
        let u = parts_uses(ps);
        assert forall|k: int| 0 <= k < u.len() implies (#[trigger] u[k]).arc < n by {
            let a = parts_uses(p);
            if k < a.len() {
                assert(u[k] == a[k]);
            } else {
                let b = part_uses(last);
                assert(u[k] == b[k - a.len()]);
                if k - a.len() < last.cycle@.len() {
                    assert(b[k - a.len()] == last.cycle@[k - a.len()]);
                    assert(ps[ps.len() - 1].cycle@[k - a.len()].arc < n);
                } else {
                    assert(b[k - a.len()] == cycles_uses(last.holes@)[k - a.len() - last.cycle@.len()]);
                }
            }
        }
    }
}

/// The points a walk of arc uses traces through a table: each arc, the
/// way round it is used, minus its trailing junction.
pub open spec fn rebuild_uses(table: Seq<Seq<QPoint>>, uses: Seq<ArcUse>) -> Seq<QPoint>
    decreases uses.len(),
{
    if uses.len() == 0 {
        Seq::empty()
    } else {
        rebuild_uses(table, uses.drop_last()) + arc_share(
            table[uses.last().arc as int],
            if uses.last().forward { ArcDir::Forward } else { ArcDir::Reverse },
        )
    }
}

proof fn lemma_rebuild_uses(arcs: Seq<Seq<QPoint>>, c: Seq<(usize, ArcDir)>, table: Seq<Seq<QPoint>>, u: Seq<ArcUse>)
    requires
        c.len() == u.len(),
        forall|j: int| 0 <= j < c.len() ==> arcs[(#[trigger] c[j]).0 as int] == table[u[j].arc as int],
        forall|j: int| 0 <= j < c.len() ==> ((#[trigger] c[j]).1 == ArcDir::Forward) == u[j].forward,
    ensures
        rebuild(arcs, c) == rebuild_uses(table, u),
    decreases c.len(),
{
    if c.len() > 0 {
        let c1 = c.drop_last();
        let u1 = u.drop_last();
        assert forall|j: int| 0 <= j < c1.len() implies arcs[(#[trigger] c1[j]).0 as int] == table[u1[j].arc as int] by {
            assert(c1[j] == c[j] && u1[j] == u[j]);
        }
        assert forall|j: int| 0 <= j < c1.len() implies ((#[trigger] c1[j]).1 == ArcDir::Forward) == u1[j].forward by {
            assert(c1[j] == c[j] && u1[j] == u[j]);
        }
        lemma_rebuild_uses(arcs, c1, table, u1);
        let l = c.len() - 1;
        assert(c.last() == c[l] && u.last() == u[l]);
        assert(c[l].1 == (if u[l].forward { ArcDir::Forward } else { ArcDir::Reverse }));
    }
}

/// Resolve one epoch's features against the arc table: the epoch's
/// world, its count of anonymous features and its count of degenerate
/// rings. Arcs new to the table are added to it.
pub fn resolve_epoch(year: i32, label: &str, fs: &Vec<FeatureRings>, table: &mut Vec<Vec<QPoint>>) -> (out: (EpochWorld, usize, usize))
    requires
        fs@.len() < usize::MAX,
        total_rings(fs@) < usize::MAX,
        table_view(old(table)@).no_duplicates(),
    ensures
        ({
            let (rings, placed, deg) = layout(named_polygons(fs@));
            let t = intern_all(table_view(old(table)@), spec_arcs(rings));
            &&& table_view(final(table)@) == t
            &&& t.no_duplicates()
            &&& out.0.year == year
            &&& out.0.label@ == label@
            &&& out.0.regions@.map_values(|g: RegionGeom| geom_view(g)) == region_layout(rings, placed, t)
            &&& out.0.arcs@.map_values(|a: usize| a as int) == spec_arcs(rings).map_values(|c: Seq<QPoint>| index_in(t, c))
            &&& world_wf(out.0, t.len() as int)
            &&& out.1 == unnamed_count(fs@)
            &&& out.2 == deg
            &&& forall|r: int| 0 <= r < rings.len() ==> is_rotation_of(#[trigger] rebuild_uses(t, gcycle(rings, t, r)), rings[r])
            &&& forall|r: int, j: int| 0 <= r < rings.len() && 0 <= j < gcycle(rings, t, r).len() ==> (#[trigger] gcycle(rings, t, r)[j]).arc < t.len()
        }),
{
    let (rings, placed, unnamed, degenerate) = lay_out(fs);
    let ghost rv = rings@.map_values(|r: Vec<QPoint>| r@);
    let ghost pv = placed@.map_values(|pl: (String, usize, usize)| (pl.0@, pl.1 as int, pl.2 as int));
    proof {
        lemma_layout_rings(named_polygons(fs@));
        assert forall|q: int| 0 <= q < rings@.len() implies (#[trigger] rings@[q])@.len() > 0 by {
            assert(rv[q] == rings@[q]@);
        }
        assert(crate::arcs::ring_views(rings@) == rv);
    }
    let ext = extract(rings.as_slice());
    let g = intern(table, &ext.arcs);
    let ghost t = table_view(table@);
    proof {
        assert(table_view(ext.arcs@) == ext.arcs_view());
        assert(ext.arcs_view() == spec_arcs(rv));
    }
    // the region names, in string order
    let mut names: Vec<String> = Vec::new();
    let mut q: usize = 0;
    let ghost pn = pv.map_values(|pl: (Seq<char>, int, int)| pl.0);
    while q < placed.len()
        invariant
            pv == placed@.map_values(|pl: (String, usize, usize)| (pl.0@, pl.1 as int, pl.2 as int)),
            pn == pv.map_values(|pl: (Seq<char>, int, int)| pl.0),
            q <= placed@.len(),
            names@.map_values(|n: String| n@) == insert_names(Seq::empty(), pn.take(q as int)),
        decreases placed.len() - q,
    {
        proof {
            lemma_insert_names(Seq::empty(), pn.take(q as int));
            assert(pn.take(q as int + 1).drop_last() =~= pn.take(q as int));
            assert(pn.take(q as int + 1).last() == placed@[q as int].0@);
        }
        merge_name(&mut names, placed[q].0.as_str());
        q += 1;
    }
    proof {
        assert(pn.take(placed@.len() as int) =~= pn);
        lemma_insert_names(Seq::empty(), pn);
    }
    let ghost ns = insert_names(Seq::empty(), pn);
    let ghost want = region_layout(rv, pv, t);
    let mut regions: Vec<RegionGeom> = Vec::new();
    let mut i: usize = 0;
    while i < names.len()
        invariant
            extracted_from(ext, rv),
            t == table_view(table@),
            t.no_duplicates(),
            g@.len() == ext.arcs@.len(),
            forall|j: int| 0 <= j < g@.len() ==> (#[trigger] g@[j]) < table@.len() && table@[g@[j] as int]@ == ext.arcs@[j]@,
            pv == placed@.map_values(|pl: (String, usize, usize)| (pl.0@, pl.1 as int, pl.2 as int)),
            rv == rings@.map_values(|r: Vec<QPoint>| r@),
            forall|u: int| 0 <= u < pv.len() ==> {
                let pl = #[trigger] pv[u];
                0 <= pl.1 && pl.1 + 1 + pl.2 <= rv.len() && pl.2 >= 0
            },
            names@.map_values(|n: String| n@) == ns,
            want == region_layout(rv, pv, t),
            ns == insert_names(Seq::empty(), pn),
            pn == pv.map_values(|pl: (Seq<char>, int, int)| pl.0),
            i <= names@.len(),
            regions@.map_values(|g: RegionGeom| geom_view(g)) == want.take(i as int),
            forall|r: int, q: int, k: int| 0 <= r < regions@.len() && 0 <= q < regions@[r].parts@.len() && 0 <= k < regions@[r].parts@[q].cycle@.len()
                ==> (#[trigger] regions@[r].parts@[q].cycle@[k]).arc < table@.len(),
            forall|r: int, q: int, c: int, k: int| 0 <= r < regions@.len() && 0 <= q < regions@[r].parts@.len() && 0 <= c < regions@[r].parts@[q].holes@.len() && 0 <= k < regions@[r].parts@[q].holes@[c]@.len()
                ==> (#[trigger] regions@[r].parts@[q].holes@[c]@[k]).arc < table@.len(),
        decreases names.len() - i,
    {
        let n = names[i].as_str();
        let ghost pred = |pl: (Seq<char>, int, int)| pl.0 == n@;
        let ghost pf = |pl: (Seq<char>, int, int)| part_of(rv, t, pl);
        let mut parts: Vec<RegionPart> = Vec::new();
        let mut q: usize = 0;
        while q < placed.len()
            invariant
                extracted_from(ext, rv),
                t == table_view(table@),
                t.no_duplicates(),
                g@.len() == ext.arcs@.len(),
                forall|j: int| 0 <= j < g@.len() ==> (#[trigger] g@[j]) < table@.len() && table@[g@[j] as int]@ == ext.arcs@[j]@,
                pv == placed@.map_values(|pl: (String, usize, usize)| (pl.0@, pl.1 as int, pl.2 as int)),
                rv == rings@.map_values(|r: Vec<QPoint>| r@),
                forall|u: int| 0 <= u < pv.len() ==> {
                    let pl = #[trigger] pv[u];
                    0 <= pl.1 && pl.1 + 1 + pl.2 <= rv.len() && pl.2 >= 0
                },
                pred == (|pl: (Seq<char>, int, int)| pl.0 == n@),
                pf == (|pl: (Seq<char>, int, int)| part_of(rv, t, pl)),
                q <= placed@.len(),
                parts@.map_values(|p: RegionPart| part_view(p)) == pv.take(q as int).filter(pred).map_values(pf),
                forall|a: int, k: int| 0 <= a < parts@.len() && 0 <= k < parts@[a].cycle@.len() ==> (#[trigger] parts@[a].cycle@[k]).arc < table@.len(),
                forall|a: int, c: int, k: int| 0 <= a < parts@.len() && 0 <= c < parts@[a].holes@.len() && 0 <= k < parts@[a].holes@[c]@.len() ==> (#[trigger] parts@[a].holes@[c]@[k]).arc < table@.len(),
            decreases placed.len() - q,
        {
            let pl = &placed[q];
            let ghost plv = pv[q as int];
            proof {
                lemma_filter_step(pv, q as int, pred);
                assert(plv == (pl.0@, pl.1 as int, pl.2 as int));
            }
            if crate::text::str_equal(pl.0.as_str(), n) {
                let start = pl.1;
                let nh = pl.2;
                assert(start as int + 1 + nh as int <= rv.len());
                let ring_count = rings.len();
                assert(rv.len() == ring_count);
                let cycle = global_cycle(&ext, &g, start, Ghost(rv), Ghost(t));
                let mut holes: Vec<Vec<ArcUse>> = Vec::new();
                let mut h: usize = 0;
                while h < nh
                    invariant
                        extracted_from(ext, rv),
                        t.no_duplicates(),
                        g@.len() == ext.arcs@.len(),
                        forall|j: int| 0 <= j < g@.len() ==> (#[trigger] g@[j]) < t.len() && t[g@[j] as int] == ext.arcs@[j]@,
                        start as int + 1 + nh as int <= rv.len(),
                        rv.len() <= usize::MAX,
                        h <= nh,
                        holes@.map_values(|c: Vec<ArcUse>| c@) == Seq::new(h as nat, |u: int| gcycle(rv, t, start + 1 + u)),
                        forall|c: int, k: int| 0 <= c < holes@.len() && 0 <= k < holes@[c]@.len() ==> (#[trigger] holes@[c]@[k]).arc < t.len(),
                    decreases nh - h,
                {
                    let at = start + 1 + h;
                    let c = global_cycle(&ext, &g, at, Ghost(rv), Ghost(t));
                    proof {
                        lemma_gcycle_bound(&ext, g@, rv, t, at);
                    }
                    let ghost hv = holes@;
                    holes.push(c);
                    proof {
                        assert(holes@.map_values(|c: Vec<ArcUse>| c@) =~= hv.map_values(|c: Vec<ArcUse>| c@).push(c@));
                        assert(holes@.map_values(|c: Vec<ArcUse>| c@) =~= Seq::new(h as nat + 1, |u: int| gcycle(rv, t, start + 1 + u)));
                        assert forall|c2: int, k: int| 0 <= c2 < holes@.len() && 0 <= k < holes@[c2]@.len() implies (#[trigger] holes@[c2]@[k]).arc < t.len() by {
                            if c2 < hv.len() {
                                assert(holes@[c2] == hv[c2]);
                            }
                        }
                    }
                    h += 1;
                }
                proof {
                    lemma_gcycle_bound(&ext, g@, rv, t, start);
                }
                let ghost before = parts@;
                parts.push(RegionPart { cycle, holes });
                proof {
                    assert(pred(plv));
                    assert(parts@.map_values(|p: RegionPart| part_view(p)) =~= before.map_values(|p: RegionPart| part_view(p)).push(part_view(parts@[parts@.len() - 1])));
                    assert(part_view(parts@[parts@.len() - 1]) == pf(plv)) by {
                        assert(holes@.map_values(|c: Vec<ArcUse>| c@) =~= Seq::new(nh as nat, |u: int| gcycle(rv, t, start + 1 + u)));
                    }
                    assert(parts@.map_values(|p: RegionPart| part_view(p)) =~= pv.take(q as int + 1).filter(pred).map_values(pf));
                    assert forall|a: int, k: int| 0 <= a < parts@.len() && 0 <= k < parts@[a].cycle@.len() implies (#[trigger] parts@[a].cycle@[k]).arc < table@.len() by {
                        if a < before.len() {
                            assert(parts@[a] == before[a]);
                        }
                    }
                    assert forall|a: int, c: int, k: int| 0 <= a < parts@.len() && 0 <= c < parts@[a].holes@.len() && 0 <= k < parts@[a].holes@[c]@.len() implies (#[trigger] parts@[a].holes@[c]@[k]).arc < table@.len() by {
                        if a < before.len() {
                            assert(parts@[a] == before[a]);
                        }
                    }
                }
            } else {
                proof {
                    assert(!pred(plv));
                    assert(pv.take(q as int + 1).filter(pred) == pv.take(q as int).filter(pred));
                }
            }
            q += 1;
        }
        proof {
            assert(pv.take(placed@.len() as int) =~= pv);
        }
        let name = names[i].clone();
        let ghost before = regions@;
        regions.push(RegionGeom { name, parts });
        proof {
            assert(n@ == ns[i as int]);
            assert(pred =~= (|pl: (Seq<char>, int, int)| pl.0 == ns[i as int]));
            assert(pf =~= (|pl: (Seq<char>, int, int)| part_of(rv, t, pl)));
            assert(want[i as int] == (ns[i as int], pv.filter(pred).map_values(pf)));
            assert(regions@.map_values(|g: RegionGeom| geom_view(g)) =~= before.map_values(|g: RegionGeom| geom_view(g)).push(geom_view(regions@[before.len() as int])));
            assert(regions@.map_values(|g: RegionGeom| geom_view(g)) =~= want.take(i as int + 1));
            assert forall|r: int, q: int, k: int| 0 <= r < regions@.len() && 0 <= q < regions@[r].parts@.len() && 0 <= k < regions@[r].parts@[q].cycle@.len()
                implies (#[trigger] regions@[r].parts@[q].cycle@[k]).arc < table@.len() by {
                if r < before.len() {
                    assert(regions@[r] == before[r]);
                }
            }
            assert forall|r: int, q: int, c: int, k: int| 0 <= r < regions@.len() && 0 <= q < regions@[r].parts@.len() && 0 <= c < regions@[r].parts@[q].holes@.len() && 0 <= k < regions@[r].parts@[q].holes@[c]@.len()
                implies (#[trigger] regions@[r].parts@[q].holes@[c]@[k]).arc < table@.len() by {
                if r < before.len() {
                    assert(regions@[r] == before[r]);
                }
            }
        }
        i += 1;
    }
    let ring_total: usize = rings.len();
    let world = EpochWorld { year, label: crate::text::owned(label), regions, arcs: g };
    proof {
        assert forall|r: int| 0 <= r < rv.len() implies is_rotation_of(#[trigger] rebuild_uses(t, gcycle(rv, t, r)), rv[r]) by {
            assert(forall|q: int| 0 <= q < rv.len() ==> (#[trigger] rv[q]).len() > 0) by {
                assert forall|q: int| 0 <= q < rv.len() implies (#[trigger] rv[q]).len() > 0 by {
                    assert(rv[q].len() >= 3);
                }
            }
            law_fidelity(ext, rv, r);
            let c = ext.cycles_view()[r];
            let pieces = ring_arcs(rv, r);
            assert(crate::arcs::cycle_matches(ext.arcs_view(), c, pieces));
            let u = gcycle(rv, t, r);
            assert forall|j: int| 0 <= j < c.len() implies ext.arcs_view()[(#[trigger] c[j]).0 as int] == t[u[j].arc as int] by {
                let idx = c[j].0 as int;
                assert(t[g@[idx] as int] == ext.arcs@[idx]@);
                lemma_index_in(t, g@[idx] as int);
                assert(ext.arcs_view()[idx] == pieces[j].0);
            }
            assert forall|j: int| 0 <= j < c.len() implies ((#[trigger] c[j]).1 == ArcDir::Forward) == u[j].forward by {}
            lemma_rebuild_uses(ext.arcs_view(), c, t, u);
        }
        assert forall|r: int, j: int| 0 <= r < rv.len() && 0 <= j < gcycle(rv, t, r).len() implies (#[trigger] gcycle(rv, t, r)[j]).arc < t.len() by {
            assert(rv.len() == ring_total);
            assert((r as usize) as int == r);
            lemma_gcycle_bound(&ext, g@, rv, t, r as usize);
        }
        assert(want.take(names@.len() as int) =~= want);
        assert(names_of(world) =~= ns) by {
            assert forall|r: int| 0 <= r < names_of(world).len() implies names_of(world)[r] == ns[r] by {
                assert(geom_view(world.regions@[r]) == want[r]);
            }
        }
        assert forall|r: int, k: int| 0 <= r < world.regions@.len() && 0 <= k < region_uses(world, r).len()
            implies #[trigger] region_uses(world, r)[k].arc < t.len() by {
            let ps = world.regions@[r].parts@;
            assert forall|q: int, k2: int| 0 <= q < ps.len() && 0 <= k2 < ps[q].cycle@.len() implies (#[trigger] ps[q].cycle@[k2]).arc < t.len() by {
                assert(world.regions@[r].parts@[q].cycle@[k2].arc < table@.len());
            }
            assert forall|q: int, c: int, k2: int| 0 <= q < ps.len() && 0 <= c < ps[q].holes@.len() && 0 <= k2 < ps[q].holes@[c]@.len() implies (#[trigger] ps[q].holes@[c]@[k2]).arc < t.len() by {
                assert(world.regions@[r].parts@[q].holes@[c]@[k2].arc < table@.len());
            }
            lemma_parts_uses_bound(ps, t.len() as int);
        }
        assert forall|j: int| 0 <= j < g@.len() implies (#[trigger] g@[j]) as int == index_in(t, spec_arcs(rv)[j]) by {
            lemma_index_in(t, g@[j] as int);
        }
        assert(world.arcs@.map_values(|a: usize| a as int) =~= spec_arcs(rv).map_values(|c: Seq<QPoint>| index_in(t, c)));
    }
    (world, unnamed, degenerate)
}

pub(crate) proof fn lemma_filter_step<A>(s: Seq<A>, q: int, pred: spec_fn(A) -> bool)
    requires
        0 <= q < s.len(),
    ensures
        s.take(q + 1).filter(pred) == if pred(s[q]) {
            s.take(q).filter(pred).push(s[q])
        } else {
            s.take(q).filter(pred)
        },
{
    reveal_with_fuel(Seq::<_>::filter, 1);
    assert(s.take(q + 1).drop_last() =~= s.take(q));
    assert(s.take(q + 1).last() == s[q]);
}

proof fn lemma_gcycle_bound(ext: &Extraction, g: Seq<usize>, rings: Seq<Seq<QPoint>>, t: Seq<Seq<QPoint>>, r: usize)
    requires
        extracted_from(*ext, rings),
        r < rings.len(),
        t.no_duplicates(),
        g.len() == ext.arcs@.len(),
        forall|j: int| 0 <= j < g.len() ==> (#[trigger] g[j]) < t.len() && t[g[j] as int] == ext.arcs@[j]@,
    ensures
        forall|k: int| 0 <= k < gcycle(rings, t, r as int).len() ==> (#[trigger] gcycle(rings, t, r as int)[k]).arc < t.len(),
{
    let pieces = ring_arcs(rings, r as int);
    assert(crate::arcs::cycle_matches(ext.arcs_view(), ext.cycles_view()[r as int], pieces));
    assert forall|k: int| 0 <= k < gcycle(rings, t, r as int).len() implies (#[trigger] gcycle(rings, t, r as int)[k]).arc < t.len() by {
        let c = ext.cycles_view()[r as int];
        let idx = c[k].0 as int;
        assert(ext.arcs_view()[idx] == pieces[k].0);
        assert(t[g[idx] as int] == pieces[k].0);
        lemma_index_in(t, g[idx] as int);
    }
}

// ------------------------------------------------ the whole ingest

/// Epoch `a` comes before epoch `b`: an earlier year, or the same year
/// and earlier in the input.
pub open spec fn year_before(years: Seq<i32>, a: int, b: int) -> bool {
    years[a] < years[b] || (years[a] == years[b] && a < b)
}

/// `o` lists every epoch once, by year, ties in input order.
pub open spec fn is_year_order(years: Seq<i32>, o: Seq<int>) -> bool {
    &&& o.len() == years.len()
    &&& forall|x: int| o.contains(x) <==> 0 <= x < years.len()
    &&& forall|i: int, j: int| 0 <= i < j < o.len() ==> year_before(years, o[i], o[j])
}

/// The epochs in year order, ties in input order (a stable sort).
pub open spec fn year_order(years: Seq<i32>) -> Seq<int> {
    choose|o: Seq<int>| is_year_order(years, o)
}

proof fn lemma_year_order_unique(years: Seq<i32>, s: Seq<int>, t: Seq<int>)
    requires
        forall|i: int, j: int| 0 <= i < j < s.len() ==> year_before(years, s[i], s[j]),
        forall|i: int, j: int| 0 <= i < j < t.len() ==> year_before(years, t[i], t[j]),
        forall|x: int| s.contains(x) <==> t.contains(x),
    ensures
        s == t,
    decreases s.len(),
{
    if s.len() == 0 {
        if t.len() > 0 {
            assert(t.contains(t[0]));
        }
        assert(s =~= t);
    } else {
        assert(s.contains(s[0]));
        assert(t.contains(t[0]));
        let j = choose|j: int| 0 <= j < t.len() && t[j] == s[0];
        let i = choose|i: int| 0 <= i < s.len() && s[i] == t[0];
        if j > 0 {
            assert(year_before(years, t[0], t[j]));
            if i > 0 {
                assert(year_before(years, s[0], s[i]));
            }
        }
        let s1 = s.drop_first();
        let t1 = t.drop_first();
        assert forall|a: int, b: int| 0 <= a < b < s1.len() implies year_before(years, s1[a], s1[b]) by {
            assert(s1[a] == s[a + 1] && s1[b] == s[b + 1]);
        }
        assert forall|a: int, b: int| 0 <= a < b < t1.len() implies year_before(years, t1[a], t1[b]) by {
            assert(t1[a] == t[a + 1] && t1[b] == t[b + 1]);
        }
        assert forall|x: int| s1.contains(x) <==> t1.contains(x) by {
            if s1.contains(x) {
                let a = choose|a: int| 0 <= a < s1.len() && s1[a] == x;
                assert(s[a + 1] == x);
                assert(year_before(years, s[0], s[a + 1]));
                assert(t.contains(x));
                let b = choose|b: int| 0 <= b < t.len() && t[b] == x;
                if b == 0 {
                    assert(x == s[0]);
                }
                assert(t1[b - 1] == x);
            }
            if t1.contains(x) {
                let a = choose|a: int| 0 <= a < t1.len() && t1[a] == x;
                assert(t[a + 1] == x);
                assert(year_before(years, t[0], t[a + 1]));
                assert(s.contains(x));
                let b = choose|b: int| 0 <= b < s.len() && s[b] == x;
                if b == 0 {
                    assert(x == s[0]);
                }
                assert(s1[b - 1] == x);
            }
        }
        lemma_year_order_unique(years, s1, t1);
        assert(s =~= seq![s[0]] + s1);
        assert(t =~= seq![t[0]] + t1);
    }
}

/// The epochs in year order, ties in input order.
fn order_by_year(years: &Vec<i32>) -> (order: Vec<usize>)
    ensures
        order@.map_values(|k: usize| k as int) == year_order(years@),
        is_year_order(years@, order@.map_values(|k: usize| k as int)),
{
    let mut order: Vec<usize> = Vec::new();
    let mut i: usize = 0;
    while i < years.len()
        invariant
            i <= years@.len(),
            order@.len() == i,
            forall|x: int| #[trigger] ints(order@).contains(x) <==> 0 <= x < i,
            forall|a: int, b: int| 0 <= a < b < order@.len() ==> year_before(years@, order@[a] as int, order@[b] as int),
        decreases years.len() - i,
    {
        let ghost ov = order@;
        let ghost oi = ints(ov);
        proof {
            assert forall|a: int| 0 <= a < ov.len() implies #[trigger] ov[a] < i by {
                assert(oi.contains(oi[a]));
            }
        }
        let mut p: usize = 0;
        while p < order.len() && years[order[p]] <= years[i]
            invariant
                order@ == ov,
                oi == ints(ov),
                forall|x: int| oi.contains(x) <==> 0 <= x < i,
                i < years@.len(),
                forall|a: int| 0 <= a < ov.len() ==> #[trigger] ov[a] < i,
                p <= order@.len(),
                forall|a: int| 0 <= a < p ==> years@[#[trigger] order@[a] as int] <= years@[i as int],
            decreases order.len() - p,
        {
            p += 1;
        }
        proof {
            assert forall|a: int| 0 <= a < ov.len() implies ov[a] < i by {
                assert(oi.contains(oi[a]));
            }
        }
        order.insert(p, i);
        proof {
            let ni = ints(order@);
            assert(ni =~= oi.insert(p as int, i as int));
            assert forall|x: int| ni.contains(x) <==> 0 <= x < i + 1 by {
                if ni.contains(x) {
                    let a = choose|a: int| 0 <= a < ni.len() && ni[a] == x;
                    if a < p {
                        assert(oi[a] == x);
                        assert(oi.contains(x));
                    } else if a > p {
                        assert(oi[a - 1] == x);
                        assert(oi.contains(x));
                    }
                }
                if 0 <= x < i {
                    assert(oi.contains(x));
                    let a = choose|a: int| 0 <= a < oi.len() && oi[a] == x;
                    if a < p {
                        assert(ni[a] == x);
                    } else {
                        assert(ni[a + 1] == x);
                    }
                } else if x == i {
                    assert(ni[p as int] == x);
                }
            }
            assert forall|a: int, b: int| 0 <= a < b < order@.len() implies year_before(years@, order@[a] as int, order@[b] as int) by {
                if b < p {
                    assert(order@[a] == ov[a] && order@[b] == ov[b]);
                } else if b == p {
                    assert(order@[a] == ov[a]);
                    assert(ov[a] < i);
                } else if a < p {
                    assert(order@[a] == ov[a] && order@[b] == ov[b - 1]);
                    if b - 1 > a {
                    }
                } else if a == p {
                    assert(order@[b] == ov[b - 1]);
                    assert(!(years@[ov[p as int] as int] <= years@[i as int]));
                    if b - 1 > p {
                        assert(year_before(years@, ov[p as int] as int, ov[b - 1] as int));
                    }
                } else {
                    assert(order@[a] == ov[a - 1] && order@[b] == ov[b - 1]);
                }
            }
        }
        i += 1;
    }
    proof {
        let oi = ints(order@);
        assert forall|a: int, b: int| 0 <= a < b < oi.len() implies year_before(years@, oi[a], oi[b]) by {
            assert(oi[a] == order@[a] as int && oi[b] == order@[b] as int);
        }
        assert(is_year_order(years@, oi));
        let o = year_order(years@);
        assert(is_year_order(years@, o));
        assert forall|x: int| o.contains(x) <==> oi.contains(x) by {}
        lemma_year_order_unique(years@, oi, o);
    }
    order
}

/// How an ingest is configured: the source it reads, and the anchor
/// before which nothing is ingested, if any.
#[derive(Clone, Debug)]
pub struct IngestConfig {
    pub source: String,
    pub anchor: Option<TimePoint>,
}

/// One epoch file as the ingest receives it: its year and label, and
/// its features read and quantized — or why they could not be read.
#[derive(Debug)]
pub struct EpochInput {
    pub year: i32,
    pub label: String,
    pub features: Result<Vec<FeatureRings>, ParseError>,
}

/// A lawful timeline from one source: the resolved epochs, the arc
/// table with every arc's versions, every region's histories, the
/// narrated changes, and every exemption.
#[derive(Debug)]
pub struct Ingest {
    pub worlds: Vec<EpochWorld>,
    pub arcs: Vec<ArcHistory>,
    pub regions: Vec<RegionHistory>,
    pub events: Vec<EpochEvent>,
    pub exemptions: Vec<Exemption>,
}

/// Exemptions as contracts speak of them.
pub enum ExemptionView {
    PreAnchor(Seq<char>, i32),
    Unnamed(i32, nat),
    Degenerate(i32, nat),
}

pub open spec fn exemption_view(e: Exemption) -> ExemptionView {
    match e {
        Exemption::PreAnchorEpoch { label, year } => ExemptionView::PreAnchor(label@, year),
        Exemption::UnnamedFeatures { year, count } => ExemptionView::Unnamed(year, count as nat),
        Exemption::DegenerateRings { year, count } => ExemptionView::Degenerate(year, count as nat),
    }
}

pub open spec fn exemption_views(es: Seq<Exemption>) -> Seq<ExemptionView> {
    es.map_values(|e: Exemption| exemption_view(e))
}

/// Parse errors as contracts speak of them.
pub enum ParseErrorView {
    BadSyntax(Seq<char>),
    BadShape(Seq<char>),
}

pub open spec fn parse_error_view(e: ParseError) -> ParseErrorView {
    match e {
        ParseError::BadSyntax(m) => ParseErrorView::BadSyntax(m@),
        ParseError::BadShape(m) => ParseErrorView::BadShape(m@),
    }
}

pub(crate) fn copy_parse_error(e: &ParseError) -> (r: ParseError)
    ensures
        parse_error_view(r) == parse_error_view(*e),
{
    match e {
        ParseError::BadSyntax(m) => ParseError::BadSyntax(m.clone()),
        ParseError::BadShape(m) => ParseError::BadShape(m),
    }
}

pub open spec fn years_of(es: Seq<EpochInput>) -> Seq<i32> {
    es.map_values(|e: EpochInput| e.year)
}

/// An epoch before the anchor is excluded.
pub open spec fn excluded(anchor: Option<TimePoint>, year: i32) -> bool {
    match anchor {
        Some(a) => before(TimePoint { year, month: None, day: None }, a),
        None => false,
    }
}

/// The epochs kept, in year order.
pub open spec fn kept_order(es: Seq<EpochInput>, anchor: Option<TimePoint>) -> Seq<int> {
    year_order(years_of(es)).filter(|e: int| !excluded(anchor, es[e].year))
}

/// The epochs excluded by the anchor, in year order.
pub open spec fn excluded_order(es: Seq<EpochInput>, anchor: Option<TimePoint>) -> Seq<int> {
    year_order(years_of(es)).filter(|e: int| excluded(anchor, es[e].year))
}

/// An epoch's features, if they could be read.
pub open spec fn epoch_rings(e: EpochInput) -> Seq<FeatureRings> {
    match e.features {
        Ok(fs) => fs@,
        Err(_) => Seq::empty(),
    }
}

/// The arc table after the first `k` kept epochs.
pub open spec fn table_upto(es: Seq<EpochInput>, kept: Seq<int>, k: int) -> Seq<Seq<QPoint>>
    decreases k,
{
    if k <= 0 {
        Seq::empty()
    } else {
        intern_all(table_upto(es, kept, k - 1), spec_arcs(layout(named_polygons(epoch_rings(es[kept[k - 1]]))).0))
    }
}

/// A world is the resolution of an epoch's features against a table.
pub open spec fn world_matches(w: EpochWorld, e: EpochInput, table: Seq<Seq<QPoint>>) -> bool {
    let (rings, placed, deg) = layout(named_polygons(epoch_rings(e)));
    &&& w.year == e.year
    &&& w.label@ == e.label@
    &&& w.regions@.map_values(|g: RegionGeom| geom_view(g)) == region_layout(rings, placed, table)
    &&& w.arcs@.map_values(|a: usize| a as int) == spec_arcs(rings).map_values(|c: Seq<QPoint>| index_in(table, c))
}

/// A kept epoch's exemptions: its anonymous features and its
/// degenerate rings, each reported only when there are some.
pub open spec fn epoch_exemptions(e: EpochInput) -> Seq<ExemptionView> {
    let fs = epoch_rings(e);
    let u = unnamed_count(fs);
    let d = layout(named_polygons(fs)).2;
    (if u > 0 { seq![ExemptionView::Unnamed(e.year, u)] } else { Seq::empty() }) + (if d > 0 {
        seq![ExemptionView::Degenerate(e.year, d)]
    } else {
        Seq::empty()
    })
}

/// The exemptions of the first `k` kept epochs.
pub open spec fn kept_exemptions(es: Seq<EpochInput>, kept: Seq<int>, k: int) -> Seq<ExemptionView>
    decreases k,
{
    if k <= 0 {
        Seq::empty()
    } else {
        kept_exemptions(es, kept, k - 1) + epoch_exemptions(es[kept[k - 1]])
    }
}

/// Every exemption of an ingest: the excluded epochs in year order,
/// then each kept epoch's own.
pub open spec fn ingest_exemptions(es: Seq<EpochInput>, anchor: Option<TimePoint>) -> Seq<ExemptionView> {
    let kept = kept_order(es, anchor);
    excluded_order(es, anchor).map_values(|e: int| ExemptionView::PreAnchor(es[e].label@, es[e].year))
        + kept_exemptions(es, kept, kept.len() as int)
}

/// The epochs whose year is zero, which names no moment.
pub open spec fn zero_years(es: Seq<EpochInput>) -> Seq<int> {
    indices_where(es.len() as int, |k: int| es[k].year == 0)
}

/// The kept epochs, in year order, whose features could not be read.
pub open spec fn unreadable(es: Seq<EpochInput>, anchor: Option<TimePoint>) -> Seq<int> {
    kept_order(es, anchor).filter(|e: int| es[e].features is Err)
}

/// What an ingest owes every epoch: its features, if read, fit the
/// machine's counters.
pub open spec fn inputs_fit(es: Seq<EpochInput>) -> bool {
    forall|k: int| 0 <= k < es.len() ==> {
        let fs = epoch_rings(#[trigger] es[k]);
        fs.len() < usize::MAX && total_rings(fs) < usize::MAX
    }
}

/// Everything `ingest` returns when it succeeds.
pub open spec fn ingest_result(es: Seq<EpochInput>, anchor: Option<TimePoint>, r: Ingest) -> bool {
    let kept = kept_order(es, anchor);
    let n = kept.len() as int;
    let t = table_upto(es, kept, n);
    let ws = r.worlds@;
    &&& ws.len() == n
    &&& forall|k: int| 0 <= k < n ==> world_matches(#[trigger] ws[k], es[kept[k]], table_upto(es, kept, k + 1))
    &&& r.arcs@.len() == t.len()
    &&& forall|a: int| 0 <= a < t.len() ==> (#[trigger] r.arcs@[a]).points@ == t[a] && r.arcs@[a].versions@ == arc_versions(ws, a)
    &&& r.regions@.map_values(|h: RegionHistory| h.name@) == names_upto(ws, n)
    &&& forall|i: int| 0 <= i < r.regions@.len() ==> {
        let h = #[trigger] r.regions@[i];
        &&& h.label_history@ == label_versions(ws, h.name@)
        &&& h.geom_history@.map_values(|g: (Interval, usize)| (g.0, g.1 as int)) == geom_versions(ws, h.name@)
    }
    &&& event_views(r.events@) == events_upto(ws, t.len() as int, n)
    &&& exemption_views(r.exemptions@) == ingest_exemptions(es, anchor)
    &&& forall|k: int, q: int| 0 <= k < n && 0 <= q < kept_rings(es, kept, k).len() ==> is_rotation_of(
        #[trigger] rebuild_uses(t, gcycle(kept_rings(es, kept, k), table_upto(es, kept, k + 1), q)),
        kept_rings(es, kept, k)[q],
    )
}

/// The rings the `k`-th kept epoch lays out: each cleaned ring of a
/// named feature.
pub open spec fn kept_rings(es: Seq<EpochInput>, kept: Seq<int>, k: int) -> Seq<Seq<QPoint>> {
    layout(named_polygons(epoch_rings(es[kept[k]]))).0
}

/// Fidelity, epoch by epoch: each kept epoch's rings are recoverable
/// through the table as it stood after that epoch.
pub open spec fn epoch_fidelity(es: Seq<EpochInput>, kept: Seq<int>, k: int) -> bool {
    let rings = layout(named_polygons(epoch_rings(es[kept[k]]))).0;
    let t = table_upto(es, kept, k + 1);
    &&& forall|q: int| 0 <= q < rings.len() ==> is_rotation_of(#[trigger] rebuild_uses(t, gcycle(rings, t, q)), rings[q])
    &&& forall|q: int, j: int| 0 <= q < rings.len() && 0 <= j < gcycle(rings, t, q).len() ==> (#[trigger] gcycle(rings, t, q)[j]).arc < t.len()
}

proof fn lemma_intern_all_prefix(t: Seq<Seq<QPoint>>, cs: Seq<Seq<QPoint>>)
    ensures
        intern_all(t, cs).len() >= t.len(),
        forall|i: int| 0 <= i < t.len() ==> #[trigger] intern_all(t, cs)[i] == t[i],
    decreases cs.len(),
{
    if cs.len() > 0 {
        lemma_intern_all_prefix(t, cs.drop_last());
    }
}

proof fn lemma_table_upto_prefix(es: Seq<EpochInput>, kept: Seq<int>, k: int, m: int)
    requires
        0 <= k <= m,
    ensures
        table_upto(es, kept, m).len() >= table_upto(es, kept, k).len(),
        forall|i: int| 0 <= i < table_upto(es, kept, k).len() ==> #[trigger] table_upto(es, kept, m)[i] == table_upto(es, kept, k)[i],
    decreases m - k,
{
    if k < m {
        lemma_table_upto_prefix(es, kept, k, m - 1);
        lemma_intern_all_prefix(table_upto(es, kept, m - 1), spec_arcs(layout(named_polygons(epoch_rings(es[kept[m - 1]]))).0));
    }
}

proof fn lemma_rebuild_uses_prefix(small: Seq<Seq<QPoint>>, big: Seq<Seq<QPoint>>, u: Seq<ArcUse>)
    requires
        small.len() <= big.len(),
        forall|i: int| 0 <= i < small.len() ==> #[trigger] big[i] == small[i],
        forall|j: int| 0 <= j < u.len() ==> (#[trigger] u[j]).arc < small.len(),
    ensures
        rebuild_uses(big, u) == rebuild_uses(small, u),
    decreases u.len(),
{
    if u.len() > 0 {
        let u1 = u.drop_last();
        assert forall|j: int| 0 <= j < u1.len() implies (#[trigger] u1[j]).arc < small.len() by {
            assert(u1[j] == u[j]);
        }
        lemma_rebuild_uses_prefix(small, big, u1);
        assert(u[u.len() - 1] == u.last());
    }
}

pub(crate) proof fn lemma_indices_where_prefix(m: int, n: int, p: spec_fn(int) -> bool)
    requires
        0 <= m <= n,
    ensures
        indices_where(m, p).len() <= indices_where(n, p).len(),
        indices_where(n, p).take(indices_where(m, p).len() as int) == indices_where(m, p),
    decreases n - m,
{
    if m < n {
        lemma_indices_where_prefix(m, n - 1, p);
        let a = indices_where(m, p);
        let b = indices_where(n - 1, p);
        if p(n - 1) {
            assert(indices_where(n, p).take(a.len() as int) =~= b.take(a.len() as int));
        }
    } else {
        assert(indices_where(n, p).take(indices_where(n, p).len() as int) =~= indices_where(n, p));
    }
}

proof fn lemma_filter_prefix<A>(s: Seq<A>, m: int, p: spec_fn(A) -> bool)
    requires
        0 <= m <= s.len(),
    ensures
        s.take(m).filter(p).len() <= s.filter(p).len(),
        s.filter(p).take(s.take(m).filter(p).len() as int) == s.take(m).filter(p),
    decreases s.len() - m,
{
    if m < s.len() {
        lemma_filter_prefix(s, m + 1, p);
        lemma_filter_step(s, m, p);
        let a = s.take(m).filter(p);
        let b = s.take(m + 1).filter(p);
        assert(s.filter(p).take(a.len() as int) =~= b.take(a.len() as int));
    } else {
        assert(s.take(m) =~= s);
        assert(s.filter(p).take(s.filter(p).len() as int) =~= s.filter(p));
    }
}

proof fn lemma_intern_all_grows(t: Seq<Seq<QPoint>>, cs: Seq<Seq<QPoint>>)
    ensures
        intern_all(t, cs).len() >= t.len(),
    decreases cs.len(),
{
    if cs.len() > 0 {
        lemma_intern_all_grows(t, cs.drop_last());
    }
}

/// What an ingest answers: a year zero refuses it, naming the first
/// such epoch; else the first unreadable kept epoch refuses it, with its
/// parse error; else it succeeds with the timeline `ingest_result`
/// describes.
pub open spec fn ingest_outcome(es: Seq<EpochInput>, anchor: Option<TimePoint>, r: Result<Ingest, IngestError>) -> bool {
    &&& zero_years(es).len() > 0 ==> (r matches Err(IngestError::BadYear(l, y)) && l@ == es[zero_years(es)[0]].label@ && y == 0)
    &&& zero_years(es).len() == 0 && unreadable(es, anchor).len() > 0 ==> ({
        let k = unreadable(es, anchor)[0];
        &&& r matches Err(IngestError::Parse(l, e))
        &&& l@ == es[k].label@
        &&& es[k].features matches Err(e0)
        &&& parse_error_view(e) == parse_error_view(e0)
    })
    &&& zero_years(es).len() == 0 && unreadable(es, anchor).len() == 0 ==> (r matches Ok(ing) && ingest_result(es, anchor, ing))
}

/// Ingest one source's epochs into a timeline. Epochs are taken in
/// year order (ties in input order); those before the anchor are
/// excluded with an exemption; a year zero, or an unreadable kept
/// epoch, refuses the whole ingest.
pub fn ingest(config: &IngestConfig, epochs: &Vec<EpochInput>) -> (r: Result<Ingest, IngestError>)
    requires
        inputs_fit(epochs@),
    ensures
        ingest_outcome(epochs@, config.anchor, r),
{
    let ghost es = epochs@;
    let ghost zp = |k: int| es[k].year == 0;
    // year zero names no moment
    let mut z: usize = 0;
    while z < epochs.len()
        invariant
            es == epochs@,
            zp == (|k: int| es[k].year == 0),
            z <= epochs@.len(),
            indices_where(z as int, zp).len() == 0,
        decreases epochs.len() - z,
    {
        if epochs[z].year == 0 {
            proof {
                assert(indices_where(z as int + 1, zp) =~= seq![z as int]);
                lemma_indices_where_prefix(z as int + 1, es.len() as int, zp);
                assert(zero_years(es)[0] == indices_where(z as int + 1, zp)[0]);
            }
            return Err(IngestError::BadYear(epochs[z].label.clone(), 0));
        }
        z += 1;
    }
    assert(zero_years(es) == indices_where(z as int, zp));
    // the epochs in year order
    let mut years: Vec<i32> = Vec::new();
    let mut k: usize = 0;
    while k < epochs.len()
        invariant
            es == epochs@,
            k <= epochs@.len(),
            years@ == years_of(es).take(k as int),
        decreases epochs.len() - k,
    {
        years.push(epochs[k].year);
        proof {
            assert(years_of(es).take(k as int + 1) =~= years_of(es).take(k as int).push(es[k as int].year));
        }
        k += 1;
    }
    proof {
        assert(years_of(es).take(es.len() as int) =~= years_of(es));
    }
    let order = order_by_year(&years);
    let ghost ord = year_order(years_of(es));
    let ghost keep = |e: int| !excluded(config.anchor, es[e].year);
    let ghost excl = |e: int| excluded(config.anchor, es[e].year);
    let ghost pre = |e: int| ExemptionView::PreAnchor(es[e].label@, es[e].year);
    let mut kept: Vec<usize> = Vec::new();
    let mut exemptions: Vec<Exemption> = Vec::new();
    let mut t: usize = 0;
    while t < order.len()
        invariant
            es == epochs@,
            ints(order@) == ord,
            is_year_order(years_of(es), ord),
            keep == (|e: int| !excluded(config.anchor, es[e].year)),
            excl == (|e: int| excluded(config.anchor, es[e].year)),
            pre == (|e: int| ExemptionView::PreAnchor(es[e].label@, es[e].year)),
            t <= order@.len(),
            ints(kept@) == ord.take(t as int).filter(keep),
            exemption_views(exemptions@) == ord.take(t as int).filter(excl).map_values(pre),
            forall|i: int| 0 <= i < kept@.len() ==> (#[trigger] kept@[i]) < epochs@.len(),
        decreases order.len() - t,
    {
        let e = order[t];
        proof {
            assert(ord[t as int] == e as int);
            assert(ord.contains(e as int));
            lemma_filter_step(ord, t as int, keep);
            lemma_filter_step(ord, t as int, excl);
        }
        let ep = &epochs[e];
        let out = match &config.anchor {
            Some(a) => precedes(&TimePoint { year: ep.year, month: None, day: None }, a),
            None => false,
        };
        if out {
            let ghost before_ex = exemptions@;
            exemptions.push(Exemption::PreAnchorEpoch { label: ep.label.clone(), year: ep.year });
            proof {
                assert(excl(e as int));
                assert(exemption_views(exemptions@) =~= exemption_views(before_ex).push(pre(e as int)));
                assert(ord.take(t as int + 1).filter(excl).map_values(pre) =~= ord.take(t as int).filter(excl).map_values(pre).push(pre(e as int)));
            }
        } else {
            let ghost before_k = kept@;
            kept.push(e);
            proof {
                assert(keep(e as int));
                assert(ints(kept@) =~= ints(before_k).push(e as int));
            }
        }
        t += 1;
    }
    proof {
        assert(ord.take(ord.len() as int) =~= ord);
    }
    let ghost kv = ints(kept@);
    assert(kv == kept_order(es, config.anchor));
    // every kept epoch must have been read
    let ghost bad = |e: int| es[e].features is Err;
    let mut j: usize = 0;
    while j < kept.len()
        invariant
            es == epochs@,
            zero_years(es).len() == 0,
            kv == kept_order(es, config.anchor),
            kv == ints(kept@),
            bad == (|e: int| es[e].features is Err),
            forall|i: int| 0 <= i < kept@.len() ==> (#[trigger] kept@[i]) < epochs@.len(),
            j <= kept@.len(),
            kv.take(j as int).filter(bad).len() == 0,
        decreases kept.len() - j,
    {
        let e = kept[j];
        proof {
            lemma_filter_step(kv, j as int, bad);
        }
        match &epochs[e].features {
            Err(err) => {
                proof {
                    assert(bad(kv[j as int]));
                    lemma_filter_prefix(kv, j as int + 1, bad);
                    assert(kv.take(j as int + 1).filter(bad) =~= seq![kv[j as int]]);
                    assert(unreadable(es, config.anchor) == kv.filter(bad));
                    assert(unreadable(es, config.anchor)[0] == kv.take(j as int + 1).filter(bad)[0]);
                }
                return Err(IngestError::Parse(epochs[e].label.clone(), copy_parse_error(err)));
            },
            Ok(_) => {},
        }
        j += 1;
    }
    proof {
        assert(kv.take(kv.len() as int) =~= kv);
        assert(unreadable(es, config.anchor) == kv.filter(bad));
    }
    // resolve the kept epochs against one growing arc table
    let ghost pre_ex = exemption_views(exemptions@);
    let mut table: Vec<Vec<QPoint>> = Vec::new();
    let mut worlds: Vec<EpochWorld> = Vec::new();
    let mut j: usize = 0;
    while j < kept.len()
        invariant
            es == epochs@,
            zero_years(es).len() == 0,
            kv == kept_order(es, config.anchor),
            unreadable(es, config.anchor).len() == 0,
            inputs_fit(es),
            kv == ints(kept@),
            kv.filter(bad).len() == 0,
            bad == (|e: int| es[e].features is Err),
            forall|i: int| 0 <= i < kept@.len() ==> (#[trigger] kept@[i]) < epochs@.len(),
            j <= kept@.len(),
            table_view(table@) == table_upto(es, kv, j as int),
            table_view(table@).no_duplicates(),
            worlds@.len() == j,
            forall|i: int| 0 <= i < j ==> world_matches(#[trigger] worlds@[i], es[kv[i]], table_upto(es, kv, i + 1)),
            forall|i: int| 0 <= i < j ==> world_wf(#[trigger] worlds@[i], table@.len() as int),
            forall|i: int| 0 <= i < j ==> #[trigger] epoch_fidelity(es, kv, i),
            exemption_views(exemptions@) == pre_ex + kept_exemptions(es, kv, j as int),
        decreases kept.len() - j,
    {
        let e = kept[j];
        let ep = &epochs[e];
        proof {
            assert(kv[j as int] == e as int);
            lemma_filter_prefix(kv, j as int + 1, bad);
            lemma_filter_step(kv, j as int, bad);
            assert(!bad(e as int));
            assert(inputs_fit(es));
            let fs0 = epoch_rings(es[e as int]);
            assert(fs0.len() < usize::MAX && total_rings(fs0) < usize::MAX);
        }
        let fs = match &ep.features {
            Ok(fs) => fs,
            Err(_) => {
                proof {
                    assert(false);
                }
                return Err(IngestError::BadYear(ep.label.clone(), ep.year));
            },
        };
        assert(fs@ == epoch_rings(es[e as int]));
        let ghost old_len = table@.len();
        let ghost old_worlds = worlds@;
        let (world, unnamed, degenerate) = resolve_epoch(ep.year, ep.label.as_str(), fs, &mut table);
        proof {
            lemma_intern_all_grows(table_upto(es, kv, j as int), spec_arcs(layout(named_polygons(fs@)).0));
            assert(table_view(table@) == table_upto(es, kv, j as int + 1));
            assert(table@.len() >= old_len);
        }
        let ghost ex0 = exemption_views(exemptions@);
        if unnamed > 0 {
            exemptions.push(Exemption::UnnamedFeatures { year: ep.year, count: unnamed });
        }
        if degenerate > 0 {
            exemptions.push(Exemption::DegenerateRings { year: ep.year, count: degenerate });
        }
        proof {
            assert(exemption_views(exemptions@) =~= ex0 + epoch_exemptions(es[e as int]));
            assert(kept_exemptions(es, kv, j as int + 1) == kept_exemptions(es, kv, j as int) + epoch_exemptions(es[kv[j as int]]));
        }
        worlds.push(world);
        proof {
            assert forall|i: int| 0 <= i < j + 1 implies world_matches(#[trigger] worlds@[i], es[kv[i]], table_upto(es, kv, i + 1)) by {
                if i < j {
                    assert(worlds@[i] == old_worlds[i]);
                }
            }
            assert forall|i: int| 0 <= i < j + 1 implies world_wf(#[trigger] worlds@[i], table@.len() as int) by {
                if i < j {
                    assert(worlds@[i] == old_worlds[i]);
                    assert(world_wf(old_worlds[i], old_len as int));
                }
            }
            assert(epoch_fidelity(es, kv, j as int));
        }
        j += 1;
    }
    proof {
        assert forall|i: int| 0 <= i < worlds@.len() implies names_increase(names_of(#[trigger] worlds@[i])) by {
            assert(world_wf(worlds@[i], table@.len() as int));
        }
    }
    let arcs = arc_histories(&worlds, &table);
    let regions = region_histories(&worlds);
    let events = all_events(&worlds, table.len());
    let result = Ingest { worlds, arcs, regions, events, exemptions };
    proof {
        let t2 = table_upto(es, kv, kv.len() as int);
        assert forall|a: int| 0 <= a < t2.len() implies (#[trigger] result.arcs@[a]).points@ == t2[a] && result.arcs@[a].versions@ == arc_versions(result.worlds@, a) by {
            assert(table_view(table@)[a] == table@[a]@);
        }
        let n = kv.len() as int;
        assert forall|k: int, q: int| 0 <= k < n && 0 <= q < kept_rings(es, kv, k).len() implies is_rotation_of(
            #[trigger] rebuild_uses(t2, gcycle(kept_rings(es, kv, k), table_upto(es, kv, k + 1), q)),
            kept_rings(es, kv, k)[q],
        ) by {
            let rings = kept_rings(es, kv, k);
            let tk = table_upto(es, kv, k + 1);
            assert(epoch_fidelity(es, kv, k));
            assert(is_rotation_of(rebuild_uses(tk, gcycle(rings, tk, q)), rings[q]));
            lemma_table_upto_prefix(es, kv, k + 1, n);
            assert forall|j: int| 0 <= j < gcycle(rings, tk, q).len() implies (#[trigger] gcycle(rings, tk, q)[j]).arc < tk.len() by {}
            lemma_rebuild_uses_prefix(tk, t2, gcycle(rings, tk, q));
        }
        assert(ingest_result(es, config.anchor, result));
    }
    Ok(result)
}

/// The historical-basemaps source: its configuration and its epochs,
/// read and quantized.
pub struct HistoricalBasemaps {
    pub config: IngestConfig,
    pub epochs: Vec<EpochInput>,
}

impl HistoricalBasemaps {
    /// The source this adapter reads.
    pub fn source(&self) -> (s: String)
        ensures
            s@ == self.config.source@,
    {
        self.config.source.clone()
    }

    /// This source's timeline.
    pub fn ingest(&self) -> (r: Result<Ingest, IngestError>)
        requires
            inputs_fit(self.epochs@),
        ensures
            ingest_outcome(self.epochs@, self.config.anchor, r),
    {
        ingest(&self.config, &self.epochs)
    }
}

// ------------------------------------------------------------- laws

proof fn lemma_runs_uncut(ks: Seq<int>, cut: Seq<bool>)
    requires
        ks.len() > 0,
        forall|j: int| 1 <= j < ks.len() ==> !#[trigger] cut[j],
    ensures
        runs(ks, cut) == seq![(ks[0], ks.last())],
    decreases ks.len(),
{
    if ks.len() > 1 {
        let p = ks.drop_last();
        assert forall|j: int| 1 <= j < p.len() implies !#[trigger] cut[j] by {}
        lemma_runs_uncut(p, cut);
        assert(!cut[ks.len() - 1]);
        assert(p[0] == ks[0]);
        assert(runs(ks, cut) =~= seq![(ks[0], ks.last())]);
    }
}

/// A region that, from its first epoch on, stands in every epoch without
/// a lapse and whose arcs never change from one epoch to the next has
/// exactly one label version and one geometry version: from its first
/// epoch's start until the epoch after its last, and open when it
/// stands in the last epoch; the geometry is that of its last epoch.
pub proof fn law_unchanged_region_is_one_version(ws: Seq<EpochWorld>, n: Seq<char>)
    requires
        region_epochs(ws, n).len() > 0,
        forall|j: int| 1 <= j < region_epochs(ws, n).len() ==> #[trigger] region_epochs(ws, n)[j] == region_epochs(ws, n)[j - 1] + 1,
        forall|j: int| 1 <= j < region_epochs(ws, n).len() ==> same_arcs(
            uses_named(ws[#[trigger] region_epochs(ws, n)[j]], n),
            uses_named(ws[region_epochs(ws, n)[j - 1]], n),
        ),
    ensures
        label_versions(ws, n) == seq![interval_of(ws, (region_epochs(ws, n)[0], region_epochs(ws, n).last()))],
        geom_versions(ws, n) == seq![
            (interval_of(ws, (region_epochs(ws, n)[0], region_epochs(ws, n).last())), region_epochs(ws, n).last()),
        ],
{
    let ks = region_epochs(ws, n);
    let gc = gap_cuts(ks);
    let mc = geom_cuts(ws, n, ks);
    assert forall|j: int| 1 <= j < ks.len() implies !#[trigger] gc[j] by {
        assert(ks[j] == ks[j - 1] + 1);
    }
    assert forall|j: int| 1 <= j < ks.len() implies !#[trigger] mc[j] by {
        assert(ks[j] == ks[j - 1] + 1);
    }
    lemma_runs_uncut(ks, gc);
    lemma_runs_uncut(ks, mc);
    assert(label_versions(ws, n) =~= seq![interval_of(ws, (ks[0], ks.last()))]);
    assert(geom_versions(ws, n) =~= seq![(interval_of(ws, (ks[0], ks.last())), ks.last())]);
}

proof fn lemma_indices_where_contains(n: int, p: spec_fn(int) -> bool, x: int)
    ensures
        indices_where(n, p).contains(x) <==> 0 <= x < n && p(x),
    decreases n,
{
    lemma_indices_where_bounds(n, p);
    if n > 0 {
        lemma_indices_where_contains(n - 1, p, x);
        let q = indices_where(n - 1, p);
        if p(n - 1) {
            let s = q.push(n - 1);
            if q.contains(x) {
                let i = choose|i: int| 0 <= i < q.len() && q[i] == x;
                assert(s[i] == x);
            }
            if x == n - 1 {
                assert(s[q.len() as int] == x);
            }
            if s.contains(x) && x != n - 1 {
                let i = choose|i: int| 0 <= i < s.len() && s[i] == x;
                assert(i < q.len());
                assert(q[i] == x);
            }
        }
    }
}

proof fn lemma_count_use_present(s: Seq<ArcUse>, x: ArcUse)
    requires
        count_use(s, x) > 0,
    ensures
        exists|i: int| 0 <= i < s.len() && s[i] == x,
    decreases s.len(),
{
    if s.last() == x {
        assert(s[s.len() - 1] == x);
    } else {
        lemma_count_use_present(s.drop_last(), x);
        let i = choose|i: int| 0 <= i < s.len() - 1 && s.drop_last()[i] == x;
        assert(s[i] == x);
    }
}

proof fn lemma_count_use_positive(s: Seq<ArcUse>, i: int)
    requires
        0 <= i < s.len(),
    ensures
        count_use(s, s[i]) > 0,
    decreases s.len(),
{
    if i < s.len() - 1 {
        lemma_count_use_positive(s.drop_last(), i);
        assert(s.drop_last()[i] == s[i]);
    }
}

/// The same arcs, as often, means the same arcs touched.
proof fn lemma_same_arcs_same_ids(a: Seq<ArcUse>, b: Seq<ArcUse>)
    requires
        same_arcs(a, b),
    ensures
        arcs_differing(a, b) =~= Set::<int>::empty(),
{
    assert forall|c: int| arc_ids(a).contains(c) implies arc_ids(b).contains(c) by {
        let i = choose|i: int| 0 <= i < a.len() && a[i].arc == c;
        lemma_count_use_positive(a, i);
        assert(count_use(b, a[i]) > 0);
        lemma_count_use_present(b, a[i]);
    }
    assert forall|c: int| arc_ids(b).contains(c) implies arc_ids(a).contains(c) by {
        let i = choose|i: int| 0 <= i < b.len() && b[i].arc == c;
        lemma_count_use_positive(b, i);
        assert(count_use(a, b[i]) > 0);
        lemma_count_use_present(a, b[i]);
    }
}

proof fn lemma_rise_shift(before: EpochWorld, after: EpochWorld, n_arcs: int, i: int)
    requires
        world_wf(before, n_arcs),
        world_wf(after, n_arcs),
        0 <= i <= after.regions@.len(),
    ensures
        forall|a: int| #[trigger] rise_shift(before, after, n_arcs, i).1.contains(a) ==> 0 <= a < n_arcs
            && rise_shift(before, after, n_arcs, i).0.contains(ChangeView::Shift(a)),
        forall|m: int| 0 <= m < i && !names_of(before).contains(#[trigger] names_of(after)[m])
            ==> rise_shift(before, after, n_arcs, i).0.contains(ChangeView::Rise(names_of(after)[m])),
        forall|m: int, a: int| 0 <= m < i && names_of(before).contains(#[trigger] names_of(after)[m])
            && #[trigger] arcs_differing(uses_named(before, names_of(after)[m]), region_uses(after, m)).contains(a)
            ==> rise_shift(before, after, n_arcs, i).1.contains(a),
    decreases i,
{
    if i > 0 {
        lemma_rise_shift(before, after, n_arcs, i - 1);
        let (ev, done) = rise_shift(before, after, n_arcs, i - 1);
        let (ev2, done2) = rise_shift(before, after, n_arcs, i);
        let name = names_of(after)[i - 1];
        // what was narrated stays narrated
        assert forall|c: ChangeView| ev.contains(c) implies ev2.contains(c) by {
            let k = choose|k: int| 0 <= k < ev.len() && ev[k] == c;
            if !names_of(before).contains(name) {
                assert(ev2[k] == c);
            } else {
                let old = region_uses(before, index_of_name(before, name));
                let new = region_uses(after, i - 1);
                if !same_arcs(old, new) {
                    let d = arcs_differing(old, new);
                    let fresh = indices_where(n_arcs, |b: int| d.contains(b) && !done.contains(b));
                    assert(ev2 == ev + fresh.map_values(|b: int| ChangeView::Shift(b)));
                    assert(ev2[k] == c);
                }
            }
        }
        if names_of(before).contains(name) {
            let j = index_of_name(before, name);
            let old = region_uses(before, j);
            let new = region_uses(after, i - 1);
            assert(uses_named(before, name) == old);
            if !same_arcs(old, new) {
                let d = arcs_differing(old, new);
                let p = |b: int| d.contains(b) && !done.contains(b);
                let fresh = indices_where(n_arcs, p);
                assert(ev2 == ev + fresh.map_values(|b: int| ChangeView::Shift(b)));
                assert forall|a: int| d.contains(a) implies 0 <= a < n_arcs && ev2.contains(ChangeView::Shift(a)) by {
                    if arc_ids(old).contains(a) {
                        let k = choose|k: int| 0 <= k < old.len() && old[k].arc == a;
                        assert(region_uses(before, j)[k].arc < n_arcs);
                    } else {
                        let k = choose|k: int| 0 <= k < new.len() && new[k].arc == a;
                        assert(region_uses(after, i - 1)[k].arc < n_arcs);
                    }
                    if !done.contains(a) {
                        lemma_indices_where_contains(n_arcs, p, a);
                        let k = choose|k: int| 0 <= k < fresh.len() && fresh[k] == a;
                        assert(ev2[ev.len() + k] == ChangeView::Shift(a));
                    }
                }
            } else {
                lemma_same_arcs_same_ids(old, new);
            }
        }
        assert forall|m: int| 0 <= m < i && !names_of(before).contains(#[trigger] names_of(after)[m])
            implies ev2.contains(ChangeView::Rise(names_of(after)[m])) by {
            if m == i - 1 {
                assert(ev2 == ev.push(ChangeView::Rise(name)));
                assert(ev2[ev.len() as int] == ChangeView::Rise(name));
            }
        }
    }
}

proof fn lemma_falls(before: EpochWorld, after: EpochWorld, j: int)
    requires
        0 <= j < before.regions@.len(),
        !names_of(after).contains(names_of(before)[j]),
    ensures
        falls(before, after).contains(ChangeView::Fall(names_of(before)[j])),
{
    let p = |k: int| !names_of(after).contains(names_of(before)[k]);
    lemma_indices_where_contains(before.regions@.len() as int, p, j);
    let ix = indices_where(before.regions@.len() as int, p);
    let k = choose|k: int| 0 <= k < ix.len() && ix[k] == j;
    assert(falls(before, after)[k] == ChangeView::Fall(names_of(before)[j]));
}

/// Every difference between two consecutive epochs is narrated: a
/// region new to the later epoch rises, a region missing from it falls,
/// and every arc that a region standing in both gains or loses is
/// shifted.
pub proof fn law_differences_are_narrated(before: EpochWorld, after: EpochWorld, n_arcs: int, name: Seq<char>, a: int)
    requires
        world_wf(before, n_arcs),
        world_wf(after, n_arcs),
    ensures
        names_of(after).contains(name) && !names_of(before).contains(name) ==> pair_changes(before, after, n_arcs).contains(
            ChangeView::Rise(name),
        ),
        names_of(before).contains(name) && !names_of(after).contains(name) ==> pair_changes(before, after, n_arcs).contains(
            ChangeView::Fall(name),
        ),
        names_of(before).contains(name) && names_of(after).contains(name) && arcs_differing(
            uses_named(before, name),
            uses_named(after, name),
        ).contains(a) ==> pair_changes(before, after, n_arcs).contains(ChangeView::Shift(a)),
{
    let len = after.regions@.len() as int;
    lemma_rise_shift(before, after, n_arcs, len);
    let rs = rise_shift(before, after, n_arcs, len).0;
    let all = pair_changes(before, after, n_arcs);
    assert(all == rs + falls(before, after));
    assert forall|c: ChangeView| rs.contains(c) implies all.contains(c) by {
        let k = choose|k: int| 0 <= k < rs.len() && rs[k] == c;
        assert(all[k] == c);
    }
    if names_of(after).contains(name) {
        let m = choose|m: int| 0 <= m < len && names_of(after)[m] == name;
        lemma_index_of_name(after, name, m);
        assert(uses_named(after, name) == region_uses(after, m));
    }
    if names_of(before).contains(name) && !names_of(after).contains(name) {
        let j = choose|j: int| 0 <= j < before.regions@.len() && names_of(before)[j] == name;
        lemma_falls(before, after, j);
        let fl = falls(before, after);
        let k = choose|k: int| 0 <= k < fl.len() && fl[k] == ChangeView::Fall(name);
        assert(all[rs.len() + k] == ChangeView::Fall(name));
    }
}

/// The stable year order of any list of epochs exists.
pub proof fn lemma_year_order_exists(years: Seq<i32>)
    ensures
        is_year_order(years, year_order(years)),
{
    let n = years.len();
    let all = Seq::new(n, |i: int| i);
    let leq = |a: int, b: int| year_before(years, a, b) || a == b;
    assert(vstd::relations::total_ordering(leq)) by {
        assert(vstd::relations::reflexive(leq));
        assert(vstd::relations::antisymmetric(leq));
        assert(vstd::relations::transitive(leq));
        assert(vstd::relations::strongly_connected(leq));
    }
    all.lemma_sort_by_ensures(leq);
    let o = all.sort_by(leq);
    assert(all.no_duplicates());
    all.lemma_multiset_has_no_duplicates();
    o.lemma_multiset_has_no_duplicates_conv();
    assert forall|x: int| o.contains(x) <==> 0 <= x < n by {
        vstd::seq_lib::to_multiset_contains(all, x);
        vstd::seq_lib::to_multiset_contains(o, x);
        if 0 <= x < n {
            assert(all[x] == x);
        }
    }
    assert(o.len() == n) by {
        vstd::seq_lib::to_multiset_len(all);
        vstd::seq_lib::to_multiset_len(o);
    }
    assert forall|i: int, j: int| 0 <= i < j < o.len() implies year_before(years, o[i], o[j]) by {
        assert(leq(o[i], o[j]));
        assert(o[i] != o[j]);
    }
    assert(is_year_order(years, o));
}

proof fn lemma_filter_split<A>(s: Seq<A>, p: spec_fn(A) -> bool)
    ensures
        s.filter(p).len() + s.filter(|x: A| !p(x)).len() == s.len(),
    decreases s.len(),
{
    reveal_with_fuel(Seq::<_>::filter, 1);
    if s.len() > 0 {
        lemma_filter_split(s.drop_last(), p);
    }
}

/// Nothing is dropped silently: every epoch is either kept, becoming a
/// world, or excluded by the anchor with an exemption — never both —
/// and every kept epoch starts at or after the anchor.
pub proof fn law_every_epoch_is_kept_or_exempted(es: Seq<EpochInput>, anchor: Option<TimePoint>)
    ensures
        kept_order(es, anchor).len() + excluded_order(es, anchor).len() == es.len(),
        forall|x: int| kept_order(es, anchor).contains(x) <==> 0 <= x < es.len() && !excluded(anchor, es[x].year),
        forall|x: int| excluded_order(es, anchor).contains(x) <==> 0 <= x < es.len() && excluded(anchor, es[x].year),
{
    let years = years_of(es);
    lemma_year_order_exists(years);
    let o = year_order(years);
    let keep = |e: int| !excluded(anchor, es[e].year);
    let excl = |e: int| excluded(anchor, es[e].year);
    lemma_filter_split(o, keep);
    assert(o.filter(|x: int| !keep(x)) =~= o.filter(excl)) by {
        assert((|x: int| !keep(x)) =~= excl);
    }
    assert(kept_order(es, anchor) == o.filter(keep));
    assert(excluded_order(es, anchor) == o.filter(excl));
    lemma_filter_members(o, keep);
    lemma_filter_members(o, excl);
    assert forall|x: int| kept_order(es, anchor).contains(x) <==> 0 <= x < es.len() && !excluded(anchor, es[x].year) by {
        if 0 <= x < es.len() && keep(x) {
            assert(o.contains(x));
        }
    }
    assert forall|x: int| excluded_order(es, anchor).contains(x) <==> 0 <= x < es.len() && excluded(anchor, es[x].year) by {
        if 0 <= x < es.len() && excl(x) {
            assert(o.contains(x));
        }
    }
}

proof fn lemma_filter_members<A>(s: Seq<A>, p: spec_fn(A) -> bool)
    ensures
        forall|x: A| #[trigger] s.filter(p).contains(x) <==> s.contains(x) && p(x),
    decreases s.len(),
{
    reveal_with_fuel(Seq::<_>::filter, 1);
    if s.len() > 0 {
        let q = s.drop_last();
        lemma_filter_members(q, p);
        assert forall|x: A| #[trigger] s.filter(p).contains(x) <==> s.contains(x) && p(x) by {
            let f = s.filter(p);
            let g = q.filter(p);
            if g.contains(x) {
                let k = choose|k: int| 0 <= k < g.len() && g[k] == x;
                if p(s.last()) {
                    assert(f[k] == x);
                }
            }
            if q.contains(x) {
                let k = choose|k: int| 0 <= k < q.len() && q[k] == x;
                assert(s[k] == x);
            }
            if s.contains(x) && x != s.last() {
                let k = choose|k: int| 0 <= k < s.len() && s[k] == x;
                assert(k < s.len() - 1);
                assert(q[k] == x);
            }
            if p(s.last()) {
                assert(f[g.len() as int] == s.last());
                if f.contains(x) && x != s.last() {
                    let k = choose|k: int| 0 <= k < f.len() && f[k] == x;
                    assert(k < g.len());
                    assert(g[k] == x);
                }
            }
            assert(s[s.len() - 1] == s.last());
        }
    }
}

} // verus!
