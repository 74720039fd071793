//! Reconciliation: no witness's claim is dropped SILENTLY. Every
//! authored route (and superseded region group) must have a row in the
//! reconciliation file; a missing row fails the compile, a supersession
//! must point at a real atlas id, and the verdicts feed the report.

use vstd::prelude::*;
use crate::json::{get_member, get_str, json_array, json_bool, json_str, member, parse_json, spec_json_text, Json};
use crate::text::{concat2, concat3, owned, str_equal, string_views};

verus! {

// ------------------------------------------------------------ model

#[derive(Clone, Debug, PartialEq)]
pub enum RouteRule {
    /// Kept: compiled into the Journeys layer under the Authored witness.
    Keep,
    /// Dropped: this atlas narrative id carries the same walk.
    SupersededBy(String),
}

pub enum RouteRuleView {
    Keep,
    SupersededBy(Seq<char>),
}

impl View for RouteRule {
    type V = RouteRuleView;

    open spec fn view(&self) -> RouteRuleView {
        match self {
            RouteRule::Keep => RouteRuleView::Keep,
            RouteRule::SupersededBy(n) => RouteRuleView::SupersededBy(n@),
        }
    }
}

/// The reconciliation file's rows.
#[derive(Clone, Debug, PartialEq)]
pub struct Reconcile {
    pub routes: Vec<(String, RouteRule)>,
    /// Authored region-group slugs superseded by atlas polities:
    /// (slug, atlas polity id).
    pub region_drops: Vec<(String, String)>,
    /// ACKNOWLEDGED territorial conflicts awaiting an upstream ruling:
    /// (entity a, entity b, note). Waived pairs downgrade to warnings;
    /// everything else stays fatal.
    pub territory_waivers: Vec<(String, String, String)>,
}

pub struct ReconcileView {
    pub routes: Seq<(Seq<char>, RouteRuleView)>,
    pub region_drops: Seq<(Seq<char>, Seq<char>)>,
    pub territory_waivers: Seq<(Seq<char>, Seq<char>, Seq<char>)>,
}

impl View for Reconcile {
    type V = ReconcileView;

    open spec fn view(&self) -> ReconcileView {
        ReconcileView {
            routes: self.routes@.map_values(|r: (String, RouteRule)| (r.0@, r.1@)),
            region_drops: self.region_drops@.map_values(|r: (String, String)| (r.0@, r.1@)),
            territory_waivers: self.territory_waivers@.map_values(|w: (String, String, String)| (w.0@, w.1@, w.2@)),
        }
    }
}

impl Default for Reconcile {
    fn default() -> (r: Reconcile)
        ensures
            r@.routes.len() == 0,
            r@.region_drops.len() == 0,
            r@.territory_waivers.len() == 0,
    {
        Reconcile { routes: Vec::new(), region_drops: Vec::new(), territory_waivers: Vec::new() }
    }
}

/// Which authored routes stay and which go.
#[derive(Clone, Debug, PartialEq)]
pub struct RouteVerdicts {
    pub kept: Vec<String>,
    pub dropped: Vec<String>,
}

impl Default for RouteVerdicts {
    fn default() -> (r: RouteVerdicts)
        ensures
            r.kept@.len() == 0,
            r.dropped@.len() == 0,
    {
        RouteVerdicts { kept: Vec::new(), dropped: Vec::new() }
    }
}

// -------------------------------------------------------- the reader

/// One route row: `authored`, and `keep: true` or `superseded_by`.
pub open spec fn route_row(row: Json) -> Result<(Seq<char>, RouteRuleView), Seq<char>> {
    match json_str(member(row, "authored"@)) {
        None => Err("reconcile route: missing 'authored'"@),
        Some(a) => if json_bool(member(row, "keep"@)) == Some(true) {
            Ok((a, RouteRuleView::Keep))
        } else {
            match json_str(member(row, "superseded_by"@)) {
                Some(n) => Ok((a, RouteRuleView::SupersededBy(n))),
                None => Err("reconcile route '"@ + a + "': needs 'keep': true or 'superseded_by'"@),
            }
        },
    }
}

/// One territory-conflict row: `a`, `b`, and an optional `note`.
pub open spec fn conflict_row(row: Json) -> Result<(Seq<char>, Seq<char>, Seq<char>), Seq<char>> {
    match (json_str(member(row, "a"@)), json_str(member(row, "b"@))) {
        (None, _) => Err("territory_conflicts: missing 'a'"@),
        (Some(_), None) => Err("territory_conflicts: missing 'b'"@),
        (Some(a), Some(b)) => Ok((a, b, match json_str(member(row, "note"@)) {
            Some(n) => n,
            None => Seq::empty(),
        })),
    }
}

/// One region row: `authored_slug` and `superseded_by`.
pub open spec fn region_row(row: Json) -> Result<(Seq<char>, Seq<char>), Seq<char>> {
    match (json_str(member(row, "authored_slug"@)), json_str(member(row, "superseded_by"@))) {
        (None, _) => Err("reconcile region: missing 'authored_slug'"@),
        (Some(_), None) => Err("reconcile region: missing 'superseded_by'"@),
        (Some(s), Some(b)) => Ok((s, b)),
    }
}

/// Route rows in order; the first bad row's error.
pub open spec fn route_rows(rows: Seq<Json>) -> Result<Seq<(Seq<char>, RouteRuleView)>, Seq<char>>
    decreases rows.len(),
{
    if rows.len() == 0 {
        Ok(Seq::empty())
    } else {
        match route_rows(rows.drop_last()) {
            Err(e) => Err(e),
            Ok(done) => match route_row(rows.last()) {
                Err(e) => Err(e),
                Ok(r) => Ok(done.push(r)),
            },
        }
    }
}

/// Conflict rows in order; the first bad row's error.
pub open spec fn conflict_rows(rows: Seq<Json>) -> Result<Seq<(Seq<char>, Seq<char>, Seq<char>)>, Seq<char>>
    decreases rows.len(),
{
    if rows.len() == 0 {
        Ok(Seq::empty())
    } else {
        match conflict_rows(rows.drop_last()) {
            Err(e) => Err(e),
            Ok(done) => match conflict_row(rows.last()) {
                Err(e) => Err(e),
                Ok(r) => Ok(done.push(r)),
            },
        }
    }
}

/// Region rows in order; the first bad row's error.
pub open spec fn region_rows(rows: Seq<Json>) -> Result<Seq<(Seq<char>, Seq<char>)>, Seq<char>>
    decreases rows.len(),
{
    if rows.len() == 0 {
        Ok(Seq::empty())
    } else {
        match region_rows(rows.drop_last()) {
            Err(e) => Err(e),
            Ok(done) => match region_row(rows.last()) {
                Err(e) => Err(e),
                Ok(r) => Ok(done.push(r)),
            },
        }
    }
}

/// The rows of a document: `routes`, then `territory_conflicts`, then
/// `regions`, each read only where it is an array; the first bad row's
/// error.
pub open spec fn reconcile_from(doc: Json) -> Result<ReconcileView, Seq<char>> {
    match (routes_part(doc), conflicts_part(doc), regions_part(doc)) {
        (Err(e), _, _) => Err(e),
        (Ok(_), Err(e), _) => Err(e),
        (Ok(_), Ok(_), Err(e)) => Err(e),
        (Ok(r), Ok(c), Ok(g)) => Ok(ReconcileView { routes: r, region_drops: g, territory_waivers: c }),
    }
}

/// What `parse_reconcile` makes of a text.
pub open spec fn spec_parse_reconcile(text: Seq<char>) -> Result<ReconcileView, Seq<char>> {
    match spec_json_text(text) {
        Err(e) => Err("reconcile: bad json: "@ + e),
        Ok(doc) => reconcile_from(doc),
    }
}

fn read_route_row(row: &Json) -> (r: Result<(String, RouteRule), String>)
    ensures
        match r {
            Ok(x) => route_row(*row) == Ok::<(Seq<char>, RouteRuleView), Seq<char>>((x.0@, x.1@)),
            Err(e) => route_row(*row) == Err::<(Seq<char>, RouteRuleView), Seq<char>>(e@),
        },
{
    let authored = match get_str(row, "authored") {
        Some(a) => a.clone(),
        None => return Err(owned("reconcile route: missing 'authored'")),
    };
    let keep = match get_member(row, "keep") {
        Some(Json::Bool(b)) => *b,
        _ => false,
    };
    if keep {
        return Ok((authored, RouteRule::Keep));
    }
    match get_str(row, "superseded_by") {
        Some(n) => Ok((authored, RouteRule::SupersededBy(n.clone()))),
        None => Err(concat3("reconcile route '", authored.as_str(), "': needs 'keep': true or 'superseded_by'")),
    }
}

fn read_conflict_row(row: &Json) -> (r: Result<(String, String, String), String>)
    ensures
        match r {
            Ok(x) => conflict_row(*row) == Ok::<(Seq<char>, Seq<char>, Seq<char>), Seq<char>>((x.0@, x.1@, x.2@)),
            Err(e) => conflict_row(*row) == Err::<(Seq<char>, Seq<char>, Seq<char>), Seq<char>>(e@),
        },
{
    let a = match get_str(row, "a") {
        Some(a) => a.clone(),
        None => return Err(owned("territory_conflicts: missing 'a'")),
    };
    let b = match get_str(row, "b") {
        Some(b) => b.clone(),
        None => return Err(owned("territory_conflicts: missing 'b'")),
    };
    let note = match get_str(row, "note") {
        Some(n) => n.clone(),
        None => String::new(),
    };
    Ok((a, b, note))
}

fn read_region_row(row: &Json) -> (r: Result<(String, String), String>)
    ensures
        match r {
            Ok(x) => region_row(*row) == Ok::<(Seq<char>, Seq<char>), Seq<char>>((x.0@, x.1@)),
            Err(e) => region_row(*row) == Err::<(Seq<char>, Seq<char>), Seq<char>>(e@),
        },
{
    let slug = match get_str(row, "authored_slug") {
        Some(s) => s.clone(),
        None => return Err(owned("reconcile region: missing 'authored_slug'")),
    };
    let by = match get_str(row, "superseded_by") {
        Some(b) => b.clone(),
        None => return Err(owned("reconcile region: missing 'superseded_by'")),
    };
    Ok((slug, by))
}

proof fn lemma_route_rows_err(rows: Seq<Json>, i: int)
    requires
        0 <= i <= rows.len(),
        route_rows(rows.take(i)) is Err,
    ensures
        route_rows(rows) == route_rows(rows.take(i)),
    decreases rows.len(),
{
    if i < rows.len() {
        assert(rows.drop_last().take(i) =~= rows.take(i));
        lemma_route_rows_err(rows.drop_last(), i);
    } else {
        assert(rows.take(i) =~= rows);
    }
}

proof fn lemma_conflict_rows_err(rows: Seq<Json>, i: int)
    requires
        0 <= i <= rows.len(),
        conflict_rows(rows.take(i)) is Err,
    ensures
        conflict_rows(rows) == conflict_rows(rows.take(i)),
    decreases rows.len(),
{
    if i < rows.len() {
        assert(rows.drop_last().take(i) =~= rows.take(i));
        lemma_conflict_rows_err(rows.drop_last(), i);
    } else {
        assert(rows.take(i) =~= rows);
    }
}

proof fn lemma_region_rows_err(rows: Seq<Json>, i: int)
    requires
        0 <= i <= rows.len(),
        region_rows(rows.take(i)) is Err,
    ensures
        region_rows(rows) == region_rows(rows.take(i)),
    decreases rows.len(),
{
    if i < rows.len() {
        assert(rows.drop_last().take(i) =~= rows.take(i));
        lemma_region_rows_err(rows.drop_last(), i);
    } else {
        assert(rows.take(i) =~= rows);
    }
}

/// The `routes` rows of a document, as `reconcile_from` reads them.
pub open spec fn routes_part(doc: Json) -> Result<Seq<(Seq<char>, RouteRuleView)>, Seq<char>> {
    match json_array(member(doc, "routes"@)) {
        Some(rows) => route_rows(rows),
        None => Ok(Seq::empty()),
    }
}

/// The `territory_conflicts` rows of a document.
pub open spec fn conflicts_part(doc: Json) -> Result<Seq<(Seq<char>, Seq<char>, Seq<char>)>, Seq<char>> {
    match json_array(member(doc, "territory_conflicts"@)) {
        Some(rows) => conflict_rows(rows),
        None => Ok(Seq::empty()),
    }
}

/// The `regions` rows of a document.
pub open spec fn regions_part(doc: Json) -> Result<Seq<(Seq<char>, Seq<char>)>, Seq<char>> {
    match json_array(member(doc, "regions"@)) {
        Some(rows) => region_rows(rows),
        None => Ok(Seq::empty()),
    }
}

fn read_routes(doc: &Json) -> (r: Result<Vec<(String, RouteRule)>, String>)
    ensures
        match r {
            Ok(v) => routes_part(*doc) == Ok::<Seq<(Seq<char>, RouteRuleView)>, Seq<char>>(v@.map_values(|x: (String, RouteRule)| (x.0@, x.1@))),
            Err(e) => routes_part(*doc) == Err::<Seq<(Seq<char>, RouteRuleView)>, Seq<char>>(e@),
        },
{
    let mut out: Vec<(String, RouteRule)> = Vec::new();
    match get_member(doc, "routes") {
        Some(Json::Array(rows)) => {
            proof {
                assert(rows@.take(0) =~= Seq::<Json>::empty());
                assert(out@.map_values(|x: (String, RouteRule)| (x.0@, x.1@)) =~= Seq::<(Seq<char>, RouteRuleView)>::empty());
            }
            let mut i: usize = 0;
            while i < rows.len()
                invariant
                    i <= rows@.len(),
                    json_array(member(*doc, "routes"@)) == Some(rows@),
                    route_rows(rows@.take(i as int)) == Ok::<Seq<(Seq<char>, RouteRuleView)>, Seq<char>>(out@.map_values(|x: (String, RouteRule)| (x.0@, x.1@))),
                decreases rows@.len() - i,
            {
                proof {
                    assert(rows@.take(i + 1).drop_last() =~= rows@.take(i as int));
                    assert(rows@.take(i + 1).last() == rows@[i as int]);
                }
                match read_route_row(&rows[i]) {
                    Ok(x) => {
                        let ghost before = out@.map_values(|x: (String, RouteRule)| (x.0@, x.1@));
                        let ghost xv = (x.0@, x.1@);
                        out.push(x);
                        proof {
                            assert(out@.map_values(|x: (String, RouteRule)| (x.0@, x.1@)) =~= before.push(xv));
                        }
                    },
                    Err(e) => {
                        proof {
                            lemma_route_rows_err(rows@, i + 1);
                        }
                        return Err(e);
                    },
                }
                i += 1;
            }
            proof {
                assert(rows@.take(rows@.len() as int) =~= rows@);
            }
        },
        _ => {
            proof {
                assert(out@.map_values(|x: (String, RouteRule)| (x.0@, x.1@)) =~= Seq::<(Seq<char>, RouteRuleView)>::empty());
            }
        },
    }
    Ok(out)
}

fn read_conflicts(doc: &Json) -> (r: Result<Vec<(String, String, String)>, String>)
    ensures
        match r {
            Ok(v) => conflicts_part(*doc) == Ok::<Seq<(Seq<char>, Seq<char>, Seq<char>)>, Seq<char>>(v@.map_values(|w: (String, String, String)| (w.0@, w.1@, w.2@))),
            Err(e) => conflicts_part(*doc) == Err::<Seq<(Seq<char>, Seq<char>, Seq<char>)>, Seq<char>>(e@),
        },
{
    let mut out: Vec<(String, String, String)> = Vec::new();
    match get_member(doc, "territory_conflicts") {
        Some(Json::Array(rows)) => {
            proof {
                assert(rows@.take(0) =~= Seq::<Json>::empty());
                assert(out@.map_values(|w: (String, String, String)| (w.0@, w.1@, w.2@)) =~= Seq::<(Seq<char>, Seq<char>, Seq<char>)>::empty());
            }
            let mut i: usize = 0;
            while i < rows.len()
                invariant
                    i <= rows@.len(),
                    json_array(member(*doc, "territory_conflicts"@)) == Some(rows@),
                    conflict_rows(rows@.take(i as int)) == Ok::<Seq<(Seq<char>, Seq<char>, Seq<char>)>, Seq<char>>(out@.map_values(|w: (String, String, String)| (w.0@, w.1@, w.2@))),
                decreases rows@.len() - i,
            {
                proof {
                    assert(rows@.take(i + 1).drop_last() =~= rows@.take(i as int));
                    assert(rows@.take(i + 1).last() == rows@[i as int]);
                }
                match read_conflict_row(&rows[i]) {
                    Ok(x) => {
                        let ghost before = out@.map_values(|w: (String, String, String)| (w.0@, w.1@, w.2@));
                        let ghost xv = (x.0@, x.1@, x.2@);
                        out.push(x);
                        proof {
                            assert(out@.map_values(|w: (String, String, String)| (w.0@, w.1@, w.2@)) =~= before.push(xv));
                        }
                    },
                    Err(e) => {
                        proof {
                            lemma_conflict_rows_err(rows@, i + 1);
                        }
                        return Err(e);
                    },
                }
                i += 1;
            }
            proof {
                assert(rows@.take(rows@.len() as int) =~= rows@);
            }
        },
        _ => {
            proof {
                assert(out@.map_values(|w: (String, String, String)| (w.0@, w.1@, w.2@)) =~= Seq::<(Seq<char>, Seq<char>, Seq<char>)>::empty());
            }
        },
    }
    Ok(out)
}

fn read_regions(doc: &Json) -> (r: Result<Vec<(String, String)>, String>)
    ensures
        match r {
            Ok(v) => regions_part(*doc) == Ok::<Seq<(Seq<char>, Seq<char>)>, Seq<char>>(v@.map_values(|g: (String, String)| (g.0@, g.1@))),
            Err(e) => regions_part(*doc) == Err::<Seq<(Seq<char>, Seq<char>)>, Seq<char>>(e@),
        },
{
    let mut out: Vec<(String, String)> = Vec::new();
    match get_member(doc, "regions") {
        Some(Json::Array(rows)) => {
            proof {
                assert(rows@.take(0) =~= Seq::<Json>::empty());
                assert(out@.map_values(|g: (String, String)| (g.0@, g.1@)) =~= Seq::<(Seq<char>, Seq<char>)>::empty());
            }
            let mut i: usize = 0;
            while i < rows.len()
                invariant
                    i <= rows@.len(),
                    json_array(member(*doc, "regions"@)) == Some(rows@),
                    region_rows(rows@.take(i as int)) == Ok::<Seq<(Seq<char>, Seq<char>)>, Seq<char>>(out@.map_values(|g: (String, String)| (g.0@, g.1@))),
                decreases rows@.len() - i,
            {
                proof {
                    assert(rows@.take(i + 1).drop_last() =~= rows@.take(i as int));
                    assert(rows@.take(i + 1).last() == rows@[i as int]);
                }
                match read_region_row(&rows[i]) {
                    Ok(x) => {
                        let ghost before = out@.map_values(|g: (String, String)| (g.0@, g.1@));
                        let ghost xv = (x.0@, x.1@);
                        out.push(x);
                        proof {
                            assert(out@.map_values(|g: (String, String)| (g.0@, g.1@)) =~= before.push(xv));
                        }
                    },
                    Err(e) => {
                        proof {
                            lemma_region_rows_err(rows@, i + 1);
                        }
                        return Err(e);
                    },
                }
                i += 1;
            }
            proof {
                assert(rows@.take(rows@.len() as int) =~= rows@);
            }
        },
        _ => {
            proof {
                assert(out@.map_values(|g: (String, String)| (g.0@, g.1@)) =~= Seq::<(Seq<char>, Seq<char>)>::empty());
            }
        },
    }
    Ok(out)
}

/// The reconciliation rows of a parsed document.
pub fn reconcile_from_json(doc: &Json) -> (r: Result<Reconcile, String>)
    ensures
        match r {
            Ok(rec) => reconcile_from(*doc) == Ok::<ReconcileView, Seq<char>>(rec@),
            Err(e) => reconcile_from(*doc) == Err::<ReconcileView, Seq<char>>(e@),
        },
{
    let routes = match read_routes(doc) {
        Ok(v) => v,
        Err(e) => return Err(e),
    };
    let territory_waivers = match read_conflicts(doc) {
        Ok(v) => v,
        Err(e) => return Err(e),
    };
    let region_drops = match read_regions(doc) {
        Ok(v) => v,
        Err(e) => return Err(e),
    };
    Ok(Reconcile { routes, region_drops, territory_waivers })
}

/// Reads the reconciliation file's text: `routes`, `territory_conflicts`
/// and `regions` rows, each a required-fields check in file order.
pub fn parse_reconcile(json: &str) -> (r: Result<Reconcile, String>)
    ensures
        match r {
            Ok(rec) => spec_parse_reconcile(json@) == Ok::<ReconcileView, Seq<char>>(rec@),
            Err(e) => spec_parse_reconcile(json@) == Err::<ReconcileView, Seq<char>>(e@),
        },
{
    match parse_json(json) {
        Ok(doc) => reconcile_from_json(&doc),
        Err(e) => Err(concat2("reconcile: bad json: ", e.as_str())),
    }
}

// ----------------------------------------------------- the verdicts

/// The rule of the first row naming `tag`, from row `k` on.
pub open spec fn rule_from(routes: Seq<(Seq<char>, RouteRuleView)>, tag: Seq<char>, k: int) -> Option<RouteRuleView>
    decreases routes.len() - k,
{
    if k < 0 || k >= routes.len() {
        None
    } else if routes[k].0 == tag {
        Some(routes[k].1)
    } else {
        rule_from(routes, tag, k + 1)
    }
}

/// The message for an authored route no row names.
pub open spec fn no_row_text(tag: Seq<char>) -> Seq<char> {
    "authored route '"@ + tag + "' has no reconciliation row — no silent precedence"@
}

/// The message for a supersession naming no atlas narrative.
pub open spec fn ghost_narrative_text(tag: Seq<char>, n: Seq<char>) -> Seq<char> {
    "route '"@ + tag + "' superseded by '"@ + n + "', but no such atlas narrative exists"@
}

/// The verdicts on `authored`, in order: kept and dropped routes, or
/// the first route that has no row or is superseded by no narrative.
pub open spec fn route_verdicts(
    routes: Seq<(Seq<char>, RouteRuleView)>,
    authored: Seq<Seq<char>>,
    narratives: Seq<Seq<char>>,
) -> Result<(Seq<Seq<char>>, Seq<Seq<char>>), Seq<char>>
    decreases authored.len(),
{
    if authored.len() == 0 {
        Ok((Seq::empty(), Seq::empty()))
    } else {
        match route_verdicts(routes, authored.drop_last(), narratives) {
            Err(e) => Err(e),
            Ok((kept, dropped)) => {
                let tag = authored.last();
                match rule_from(routes, tag, 0) {
                    None => Err(no_row_text(tag)),
                    Some(RouteRuleView::Keep) => Ok((kept.push(tag), dropped)),
                    Some(RouteRuleView::SupersededBy(n)) => if narratives.contains(n) {
                        Ok((kept, dropped.push(tag)))
                    } else {
                        Err(ghost_narrative_text(tag, n))
                    },
                }
            },
        }
    }
}

proof fn lemma_verdicts_err(
    routes: Seq<(Seq<char>, RouteRuleView)>,
    authored: Seq<Seq<char>>,
    narratives: Seq<Seq<char>>,
    i: int,
)
    requires
        0 <= i <= authored.len(),
        route_verdicts(routes, authored.take(i), narratives) is Err,
    ensures
        route_verdicts(routes, authored, narratives) == route_verdicts(routes, authored.take(i), narratives),
    decreases authored.len(),
{
    if i < authored.len() {
        assert(authored.drop_last().take(i) =~= authored.take(i));
        lemma_verdicts_err(routes, authored.drop_last(), narratives, i);
    } else {
        assert(authored.take(i) =~= authored);
    }
}

/// Apply the route rules: every authored route must be mentioned, and
/// every supersession must name a real atlas narrative.
pub fn reconcile_routes(rec: &Reconcile, authored: &[String], atlas_narratives: &[String]) -> (r: Result<RouteVerdicts, String>)
    ensures
        match r {
            Ok(v) => route_verdicts(rec@.routes, string_views(authored@), string_views(atlas_narratives@))
                == Ok::<(Seq<Seq<char>>, Seq<Seq<char>>), Seq<char>>((string_views(v.kept@), string_views(v.dropped@))),
            Err(e) => route_verdicts(rec@.routes, string_views(authored@), string_views(atlas_narratives@))
                == Err::<(Seq<Seq<char>>, Seq<Seq<char>>), Seq<char>>(e@),
        },
{
    let ghost routes = rec@.routes;
    let ghost auth = string_views(authored@);
    let ghost nars = string_views(atlas_narratives@);
    let mut verdicts = RouteVerdicts::default();
    proof {
        assert(string_views(verdicts.kept@) =~= Seq::<Seq<char>>::empty());
        assert(string_views(verdicts.dropped@) =~= Seq::<Seq<char>>::empty());
    }
    let mut i: usize = 0;
    while i < authored.len()
        invariant
            routes == rec@.routes,
            auth == string_views(authored@),
            nars == string_views(atlas_narratives@),
            i <= authored@.len(),
            route_verdicts(routes, auth.take(i as int), nars)
                == Ok::<(Seq<Seq<char>>, Seq<Seq<char>>), Seq<char>>((string_views(verdicts.kept@), string_views(verdicts.dropped@))),
        decreases authored@.len() - i,
    {
        let tag = &authored[i];
        proof {
            assert(auth.take(i + 1).drop_last() =~= auth.take(i as int));
            assert(auth.take(i + 1).last() == tag@);
        }
        let mut k: usize = 0;
        while k < rec.routes.len() && !str_equal(rec.routes[k].0.as_str(), tag.as_str())
            invariant
                routes == rec@.routes,
                k <= routes.len(),
                rule_from(routes, tag@, 0) == rule_from(routes, tag@, k as int),
            decreases routes.len() - k,
        {
            assert(routes[k as int] == (rec.routes@[k as int].0@, rec.routes@[k as int].1@));
            k += 1;
        }
        let found: Option<&RouteRule> = if k < rec.routes.len() {
            assert(routes[k as int] == (rec.routes@[k as int].0@, rec.routes@[k as int].1@));
            Some(&rec.routes[k].1)
        } else {
            None
        };
        let ghost kept0 = string_views(verdicts.kept@);
        let ghost dropped0 = string_views(verdicts.dropped@);
        match found {
            None => {
                proof {
                    lemma_verdicts_err(routes, auth, nars, i + 1);
                }
                return Err(concat3("authored route '", tag.as_str(), "' has no reconciliation row — no silent precedence"));
            },
            Some(RouteRule::Keep) => {
                verdicts.kept.push(tag.clone());
                proof {
                    assert(string_views(verdicts.kept@) =~= kept0.push(tag@));
                }
            },
            Some(RouteRule::SupersededBy(n)) => {
                let mut j: usize = 0;
                while j < atlas_narratives.len() && !str_equal(atlas_narratives[j].as_str(), n.as_str())
                    invariant
                        nars == string_views(atlas_narratives@),
                        j <= atlas_narratives@.len(),
                        forall|q: int| 0 <= q < j ==> nars[q] != n@,
                    decreases atlas_narratives@.len() - j,
                {
                    j += 1;
                }
                if j < atlas_narratives.len() {
                    assert(nars[j as int] == n@);
                }
                if j == atlas_narratives.len() {
                    proof {
                        lemma_verdicts_err(routes, auth, nars, i + 1);
                    }
                    let head = concat3("route '", tag.as_str(), "' superseded by '");
                    return Err(concat3(head.as_str(), n.as_str(), "', but no such atlas narrative exists"));
                }
                verdicts.dropped.push(tag.clone());
                proof {
                    assert(string_views(verdicts.dropped@) =~= dropped0.push(tag@));
                }
            },
        }
        i += 1;
    }
    proof {
        assert(auth.take(auth.len() as int) =~= auth);
    }
    Ok(verdicts)
}

/// Some waiver names `a` and `b`, in either order.
pub open spec fn waives(ws: Seq<(Seq<char>, Seq<char>, Seq<char>)>, a: Seq<char>, b: Seq<char>) -> bool {
    exists|i: int| 0 <= i < ws.len() && ((ws[i].0 == a && ws[i].1 == b) || (ws[i].0 == b && ws[i].1 == a))
}

/// Is this territorial pair acknowledged (either order)?
pub fn is_waived(rec: &Reconcile, a: &str, b: &str) -> (r: bool)
    ensures
        r == waives(rec@.territory_waivers, a@, b@),
{
    let ghost ws = rec@.territory_waivers;
    let mut i: usize = 0;
    while i < rec.territory_waivers.len()
        invariant
            ws == rec@.territory_waivers,
            i <= ws.len(),
            forall|j: int| 0 <= j < i ==> !((ws[j].0 == a@ && ws[j].1 == b@) || (ws[j].0 == b@ && ws[j].1 == a@)),
        decreases ws.len() - i,
    {
        let w = &rec.territory_waivers[i];
        assert(ws[i as int] == (w.0@, w.1@, w.2@));
        if (str_equal(w.0.as_str(), a) && str_equal(w.1.as_str(), b)) || (str_equal(w.0.as_str(), b) && str_equal(w.1.as_str(), a)) {
            return true;
        }
        i += 1;
    }
    false
}

// -------------------------------------------------------------- laws

/// NO SILENT PRECEDENCE: the verdicts come back exactly when every
/// authored route has a row and every supersession names a known atlas
/// narrative; then each authored route is kept or dropped by its row,
/// in order, and nothing else is.
pub proof fn law_no_silent_precedence(
    routes: Seq<(Seq<char>, RouteRuleView)>,
    authored: Seq<Seq<char>>,
    narratives: Seq<Seq<char>>,
)
    ensures
        route_verdicts(routes, authored, narratives) is Ok <==> forall|i: int| 0 <= i < authored.len() ==> {
            &&& rule_from(routes, #[trigger] authored[i], 0) is Some
            &&& (rule_from(routes, authored[i], 0) matches Some(RouteRuleView::SupersededBy(n)) ==> narratives.contains(n))
        },
        route_verdicts(routes, authored, narratives) matches Ok((kept, dropped)) ==> {
            &&& kept == authored.filter(|t: Seq<char>| rule_from(routes, t, 0) == Some(RouteRuleView::Keep))
            &&& dropped == authored.filter(|t: Seq<char>| rule_from(routes, t, 0) is Some && rule_from(routes, t, 0) != Some(RouteRuleView::Keep))
        },
    decreases authored.len(),
{
    reveal_with_fuel(Seq::<_>::filter, 1);
    if authored.len() > 0 {
        let p = authored.drop_last();
        law_no_silent_precedence(routes, p, narratives);
        let t = authored.last();
        assert forall|i: int| 0 <= i < p.len() implies p[i] == authored[i] by {}
        if route_verdicts(routes, authored, narratives) is Ok {
            assert forall|i: int| 0 <= i < authored.len() implies {
                &&& rule_from(routes, #[trigger] authored[i], 0) is Some
                &&& (rule_from(routes, authored[i], 0) matches Some(RouteRuleView::SupersededBy(n)) ==> narratives.contains(n))
            } by {
                if i < p.len() {
                    assert(p[i] == authored[i]);
                }
            }
        }
        if forall|i: int| 0 <= i < authored.len() ==> {
            &&& rule_from(routes, #[trigger] authored[i], 0) is Some
            &&& (rule_from(routes, authored[i], 0) matches Some(RouteRuleView::SupersededBy(n)) ==> narratives.contains(n))
        } {
            assert forall|i: int| 0 <= i < p.len() implies {
                &&& rule_from(routes, #[trigger] p[i], 0) is Some
                &&& (rule_from(routes, p[i], 0) matches Some(RouteRuleView::SupersededBy(n)) ==> narratives.contains(n))
            } by {
                assert(p[i] == authored[i]);
            }
            assert(authored[authored.len() - 1] == t);
        }
    }
}

/// A waiver acknowledges a pair in either order.
pub proof fn law_waivers_symmetric(ws: Seq<(Seq<char>, Seq<char>, Seq<char>)>, a: Seq<char>, b: Seq<char>)
    ensures
        waives(ws, a, b) == waives(ws, b, a),
{
}

} // verus!
