//! The canon as a file: byte-stable JSON out, and a loader that
//! RECOMPUTES every content id and refuses a file whose declared ids do
//! not match their content — a corrupted or hand-edited canon fails
//! loud, naming what it found. Coordinates travel as the number texts
//! the file holds, and content ids are taken over those texts; whether
//! they are directions on the sphere is the geometry's question, not
//! this loader's.

use vstd::prelude::*;
use crate::canon::{LayerKind, Witness};
use crate::fnv::{be_bytes, fnv_bytes, law_fnv_streams, text_bytes, Fnv, FNV_OFFSET};
use crate::json::{
    get_member, get_str, json_array, json_i64, json_str, json_u64, lemma_try_map_err, lemma_try_map_members_err, member,
    json_view, member_from, lemma_items_view, lemma_member_at, lemma_member_none, lemma_members_view, lemma_try_map_all,
    lemma_try_map_members_all, items_view, members_view, number_i64, number_u64, parse_json_bytes,
    read_string_items, json_pretty, spec_json_pretty, spec_json_bytes, string_items, try_map, try_map_members, Json, JsonView,
};
use crate::persist::{
    hex, law_layer_names_round_trip, law_witness_names_round_trip, layer_from, layer_name, spec_layer_from, spec_layer_name, spec_witness_from, spec_witness_name, unhex, witness_from,
    witness_name,
};
use crate::text::{
    concat2, concat3, decimal, decimal_text, hex_digits, int_error_text, int_text, int_to_text, law_hex_round_trip,
    law_i64_decimal_round_trip, law_u64_decimal_round_trip, owned, spec_parse_hex_u64, str_equal,
};
use crate::world::{before, has_moment, lemma_before_total_order, lemma_moments_map, moments_map, times_increasing, SnapshotId, TimePoint, World};

verus! {

// ------------------------------------------------------------ the doc

/// A point as the file writes it: its three coordinates' number texts.
#[derive(Clone, Debug, PartialEq)]
pub struct PointText {
    pub x: String,
    pub y: String,
    pub z: String,
}

pub type PointView = (Seq<char>, Seq<char>, Seq<char>);

impl View for PointText {
    type V = PointView;

    open spec fn view(&self) -> PointView {
        (self.x@, self.y@, self.z@)
    }
}

/// One leg of a journey: the places it runs between, the border it
/// walks, and the span of time it was walked over.
#[derive(Clone, Debug, PartialEq)]
pub struct LegDoc {
    pub from: String,
    pub to: String,
    pub border: u64,
    pub start: TimePoint,
    pub end: TimePoint,
}

pub struct LegView {
    pub from: Seq<char>,
    pub to: Seq<char>,
    pub border: u64,
    pub start: TimePoint,
    pub end: TimePoint,
}

impl View for LegDoc {
    type V = LegView;

    open spec fn view(&self) -> LegView {
        LegView { from: self.from@, to: self.to@, border: self.border, start: self.start, end: self.end }
    }
}

/// What a feature is, by kind: border ids as sets in increasing order,
/// legs in walking order, points as number texts.
#[derive(Clone, Debug, PartialEq)]
pub enum ShapeDoc {
    Area { rings: Vec<u64>, holes: Vec<u64> },
    Way { legs: Vec<LegDoc> },
    Point { at: PointText },
    Line { border: u64 },
    Memory { at: PointText },
}

pub enum ShapeView {
    Area { rings: Seq<u64>, holes: Seq<u64> },
    Way { legs: Seq<LegView> },
    Point { at: PointView },
    Line { border: u64 },
    Memory { at: PointView },
}

impl View for ShapeDoc {
    type V = ShapeView;

    open spec fn view(&self) -> ShapeView {
        match self {
            ShapeDoc::Area { rings, holes } => ShapeView::Area { rings: rings@, holes: holes@ },
            ShapeDoc::Way { legs } => ShapeView::Way { legs: legs@.map_values(|l: LegDoc| l@) },
            ShapeDoc::Point { at } => ShapeView::Point { at: at@ },
            ShapeDoc::Line { border } => ShapeView::Line { border: *border },
            ShapeDoc::Memory { at } => ShapeView::Memory { at: at@ },
        }
    }
}

/// A feature: its entity, its display name and its shape.
#[derive(Clone, Debug, PartialEq)]
pub struct FeatureDoc {
    pub entity: String,
    pub name: String,
    pub shape: ShapeDoc,
}

pub struct FeatureView {
    pub entity: Seq<char>,
    pub name: Seq<char>,
    pub shape: ShapeView,
}

impl View for FeatureDoc {
    type V = FeatureView;

    open spec fn view(&self) -> FeatureView {
        FeatureView { entity: self.entity@, name: self.name@, shape: self.shape@ }
    }
}

/// The witness a feature stands on, with its verses and a note.
#[derive(Clone, Debug, PartialEq)]
pub struct ProvenanceDoc {
    pub witness: Witness,
    pub verses: Vec<String>,
    pub note: String,
}

pub struct ProvenanceView {
    pub witness: Witness,
    pub verses: Seq<Seq<char>>,
    pub note: Seq<char>,
}

impl View for ProvenanceDoc {
    type V = ProvenanceView;

    open spec fn view(&self) -> ProvenanceView {
        ProvenanceView { witness: self.witness, verses: self.verses@.map_values(|v: String| v@), note: self.note@ }
    }
}

/// The canon as its file holds it, each section in file order: borders,
/// features and snapshots under their content ids, each layer's world,
/// and each feature's provenance.
#[derive(Debug, PartialEq)]
pub struct CanonDoc {
    pub borders: Vec<(u64, Vec<PointText>)>,
    pub features: Vec<(u64, FeatureDoc)>,
    pub snapshots: Vec<(u64, Vec<u64>)>,
    pub layers: Vec<(LayerKind, World)>,
    pub provenance: Vec<(u64, ProvenanceDoc)>,
}

pub struct CanonDocView {
    pub borders: Seq<(u64, Seq<PointView>)>,
    pub features: Seq<(u64, FeatureView)>,
    pub snapshots: Seq<(u64, Seq<u64>)>,
    pub layers: Seq<(LayerKind, Map<TimePoint, SnapshotId>)>,
    pub provenance: Seq<(u64, ProvenanceView)>,
}

pub open spec fn points_view(ps: Seq<PointText>) -> Seq<PointView> {
    ps.map_values(|p: PointText| p@)
}

impl View for CanonDoc {
    type V = CanonDocView;

    open spec fn view(&self) -> CanonDocView {
        CanonDocView {
            borders: self.borders@.map_values(|b: (u64, Vec<PointText>)| (b.0, points_view(b.1@))),
            features: self.features@.map_values(|f: (u64, FeatureDoc)| (f.0, f.1@)),
            snapshots: self.snapshots@.map_values(|s: (u64, Vec<u64>)| (s.0, s.1@)),
            layers: self.layers@.map_values(|l: (LayerKind, World)| (l.0, l.1@)),
            provenance: self.provenance@.map_values(|p: (u64, ProvenanceDoc)| (p.0, p.1@)),
        }
    }
}

impl CanonDoc {
    /// Every layer's world keeps its moments in time order.
    pub open spec fn wf(&self) -> bool {
        forall|l: int| 0 <= l < self.layers@.len() ==> (#[trigger] self.layers@[l]).1.wf()
    }
}

// ------------------------------------------------------- content ids

/// The kind tags that open each content stream.
pub open spec fn tag_of(s: ShapeView) -> u64 {
    match s {
        ShapeView::Area { .. } => 2,
        ShapeView::Way { .. } => 3,
        ShapeView::Point { .. } => 4,
        ShapeView::Line { .. } => 5,
        ShapeView::Memory { .. } => 6,
    }
}

pub open spec fn point_bytes(p: PointView) -> Seq<u8> {
    text_bytes(p.0) + text_bytes(p.1) + text_bytes(p.2)
}

pub open spec fn points_bytes(ps: Seq<PointView>) -> Seq<u8>
    decreases ps.len(),
{
    if ps.len() == 0 {
        Seq::empty()
    } else {
        points_bytes(ps.drop_last()) + point_bytes(ps.last())
    }
}

/// Each id as eight big-endian bytes, in order.
pub open spec fn ids_stream(ids: Seq<u64>) -> Seq<u8>
    decreases ids.len(),
{
    if ids.len() == 0 {
        Seq::empty()
    } else {
        ids_stream(ids.drop_last()) + be_bytes(ids.last())
    }
}

/// An absent refinement as 0, a present one `m` as `m + 1`.
pub open spec fn opt_code(o: Option<u8>) -> u64 {
    match o {
        None => 0,
        Some(m) => (m + 1) as u64,
    }
}

pub open spec fn time_bytes(t: TimePoint) -> Seq<u8> {
    be_bytes(t.year as u64) + be_bytes(opt_code(t.month)) + be_bytes(opt_code(t.day))
}

pub open spec fn leg_bytes(l: LegView) -> Seq<u8> {
    text_bytes(l.from) + text_bytes(l.to) + be_bytes(l.border) + time_bytes(l.start) + time_bytes(l.end)
}

pub open spec fn legs_bytes(ls: Seq<LegView>) -> Seq<u8>
    decreases ls.len(),
{
    if ls.len() == 0 {
        Seq::empty()
    } else {
        legs_bytes(ls.drop_last()) + leg_bytes(ls.last())
    }
}

pub open spec fn shape_bytes(s: ShapeView) -> Seq<u8> {
    match s {
        ShapeView::Area { rings, holes } => be_bytes(rings.len() as u64) + ids_stream(rings) + be_bytes(holes.len() as u64)
            + ids_stream(holes),
        ShapeView::Way { legs } => be_bytes(legs.len() as u64) + legs_bytes(legs),
        ShapeView::Point { at } => point_bytes(at),
        ShapeView::Line { border } => be_bytes(border),
        ShapeView::Memory { at } => point_bytes(at),
    }
}

/// A border's content id: FNV-1a over its tag, its length and its
/// points' texts.
pub open spec fn border_id(ps: Seq<PointView>) -> u64 {
    fnv_bytes(FNV_OFFSET, be_bytes(1) + be_bytes(ps.len() as u64) + points_bytes(ps))
}

/// A feature's content id: FNV-1a over its kind's tag, its entity, its
/// name and its shape.
pub open spec fn feature_id(f: FeatureView) -> u64 {
    fnv_bytes(FNV_OFFSET, be_bytes(tag_of(f.shape)) + text_bytes(f.entity) + text_bytes(f.name) + shape_bytes(f.shape))
}

/// A snapshot's content id: FNV-1a over its tag and its feature ids.
pub open spec fn snapshot_id(ids: Seq<u64>) -> u64 {
    fnv_bytes(FNV_OFFSET, be_bytes(7) + be_bytes(ids.len() as u64) + ids_stream(ids))
}

// ----------------------------------------------------- what loading is

/// A content id back from its text, as `unhex` reads it.
pub open spec fn spec_unhex(s: Seq<char>) -> Result<u64, Seq<char>> {
    match spec_parse_hex_u64(s) {
        Ok(v) => Ok(v as u64),
        Err(e) => Err("bad id '"@ + s + "': "@ + int_error_text(e)),
    }
}

/// `x` added to `s`: before the first id not below it, unless it is
/// there already.
pub open spec fn insert_id(s: Seq<u64>, x: u64) -> Seq<u64>
    decreases s.len(),
{
    if s.len() == 0 {
        seq![x]
    } else if x < s[0] {
        seq![x] + s
    } else if x == s[0] {
        s
    } else {
        seq![s[0]] + insert_id(s.drop_first(), x)
    }
}

/// The ids as a set, in increasing order.
pub open spec fn id_set(ids: Seq<u64>) -> Seq<u64>
    decreases ids.len(),
{
    if ids.len() == 0 {
        Seq::empty()
    } else {
        insert_id(id_set(ids.drop_last()), ids.last())
    }
}

/// An optional month or day: a `u64` number truncated to `u8`, and
/// nothing for anything else.
pub open spec fn opt_u8(v: Option<Json>) -> Option<u8> {
    match v {
        Some(x) => match json_u64(x) {
            Some(n) => Some(n as u8),
            None => None,
        },
        None => None,
    }
}

/// A timestamp: `y` as an `i64` truncated to `i32` (there is no year
/// zero), and optional `m` and `d`.
pub open spec fn time_of(v: Json) -> Result<TimePoint, Seq<char>> {
    match member(v, "y"@) {
        Some(yv) => match json_i64(yv) {
            Some(y) => if (y as i32) == 0 {
                Err("timestamp: bad year 0"@)
            } else {
                Ok(TimePoint { year: y as i32, month: opt_u8(member(v, "m"@)), day: opt_u8(member(v, "d"@)) })
            },
            None => Err("timestamp: missing y"@),
        },
        None => Err("timestamp: missing y"@),
    }
}

/// A point `[x, y, z]` of three numbers; `shape` names anything else.
pub open spec fn point_of(v: Json, shape: Seq<char>) -> Result<PointView, Seq<char>> {
    match v {
        Json::Array(a) => if a@.len() != 3 {
            Err(shape)
        } else {
            match a@[0] {
                Json::Number(x) => match a@[1] {
                    Json::Number(y) => match a@[2] {
                        Json::Number(z) => Ok((x@, y@, z@)),
                        _ => Err("z"@),
                    },
                    _ => Err("y"@),
                },
                _ => Err("x"@),
            }
        },
        _ => Err(shape),
    }
}

pub open spec fn border_point_reader() -> spec_fn(Json) -> Result<PointView, Seq<char>> {
    |j: Json| point_of(j, "border point: not [x,y,z]"@)
}

/// One border: an array of points, under an id its content must have.
pub open spec fn border_entry(key: Seq<char>, v: Json) -> Result<(u64, Seq<PointView>), Seq<char>> {
    match v {
        Json::Array(pts) => match try_map(pts@, border_point_reader()) {
            Err(e) => Err(e),
            Ok(points) => match spec_unhex(key) {
                Err(e) => Err(e),
                Ok(d) => if d != border_id(points) {
                    Err("border "@ + key + ": content does not match its id"@)
                } else {
                    Ok((d, points))
                },
            },
        },
        _ => Err("border: not an array"@),
    }
}

pub open spec fn id_reader(key: Seq<char>) -> spec_fn(Json) -> Result<u64, Seq<char>> {
    |j: Json| match j {
        Json::Str(s) => spec_unhex(s@),
        _ => Err(key + ": not a string"@),
    }
}

/// A feature's id list under `key`, as a set.
pub open spec fn ids_of(f: Json, key: Seq<char>) -> Result<Seq<u64>, Seq<char>> {
    match json_array(member(f, key)) {
        None => Err("feature: missing "@ + key),
        Some(items) => match try_map(items, id_reader(key)) {
            Err(e) => Err(e),
            Ok(ids) => Ok(id_set(ids)),
        },
    }
}

/// One leg: its span pair is checked first, then `from`, `to`, the
/// border id and the two timestamps.
pub open spec fn leg_of(l: Json) -> Result<LegView, Seq<char>> {
    match json_array(member(l, "span"@)) {
        None => Err("leg: missing span"@),
        Some(span) => if span.len() != 2 {
            Err("leg: span is not a pair"@)
        } else {
            match json_str(member(l, "from"@)) {
                None => Err("leg: from"@),
                Some(from) => match json_str(member(l, "to"@)) {
                    None => Err("leg: to"@),
                    Some(to) => match json_str(member(l, "border"@)) {
                        None => Err("leg: border"@),
                        Some(b) => match spec_unhex(b) {
                            Err(e) => Err(e),
                            Ok(border) => match time_of(span[0]) {
                                Err(e) => Err(e),
                                Ok(start) => match time_of(span[1]) {
                                    Err(e) => Err(e),
                                    Ok(end) => Ok(LegView { from, to, border, start, end }),
                                },
                            },
                        },
                    },
                },
            }
        },
    }
}

pub open spec fn leg_reader() -> spec_fn(Json) -> Result<LegView, Seq<char>> {
    |j: Json| leg_of(j)
}

/// A point feature's `at`; `missing` names an absent or misshapen one.
pub open spec fn at_of(v: Option<Json>, missing: Seq<char>) -> Result<PointView, Seq<char>> {
    match v {
        Some(j) => point_of(j, missing),
        None => Err(missing),
    }
}

/// A feature's shape, by its kind.
pub open spec fn shape_of(f: Json, kind: Seq<char>) -> Result<ShapeView, Seq<char>> {
    if kind == "area"@ {
        match ids_of(f, "rings"@) {
            Err(e) => Err(e),
            Ok(rings) => match ids_of(f, "holes"@) {
                Err(e) => Err(e),
                Ok(holes) => Ok(ShapeView::Area { rings, holes }),
            },
        }
    } else if kind == "way"@ {
        match json_array(member(f, "legs"@)) {
            None => Err("way: missing legs"@),
            Some(ls) => match try_map(ls, leg_reader()) {
                Err(e) => Err(e),
                Ok(legs) => Ok(ShapeView::Way { legs }),
            },
        }
    } else if kind == "line"@ {
        match json_str(member(f, "border"@)) {
            None => Err("line: border"@),
            Some(b) => match spec_unhex(b) {
                Err(e) => Err(e),
                Ok(border) => Ok(ShapeView::Line { border }),
            },
        }
    } else if kind == "memory"@ {
        match at_of(member(f, "at"@), "memory: missing at"@) {
            Err(e) => Err(e),
            Ok(at) => Ok(ShapeView::Memory { at }),
        }
    } else if kind == "point"@ {
        match at_of(member(f, "at"@), "point: missing at"@) {
            Err(e) => Err(e),
            Ok(at) => Ok(ShapeView::Point { at }),
        }
    } else {
        Err("feature: unknown kind '"@ + kind + "'"@)
    }
}

/// One feature, under an id its content must have.
pub open spec fn feature_entry(key: Seq<char>, f: Json) -> Result<(u64, FeatureView), Seq<char>> {
    match json_str(member(f, "kind"@)) {
        None => Err("feature: missing kind"@),
        Some(kind) => match json_str(member(f, "entity"@)) {
            None => Err("feature: missing entity"@),
            Some(entity) => match json_str(member(f, "name"@)) {
                None => Err("feature: missing name"@),
                Some(name) => match shape_of(f, kind) {
                    Err(e) => Err(e),
                    Ok(shape) => match spec_unhex(key) {
                        Err(e) => Err(e),
                        Ok(d) => if d != feature_id(FeatureView { entity, name, shape }) {
                            Err("feature "@ + key + ": content does not match its id"@)
                        } else {
                            Ok((d, FeatureView { entity, name, shape }))
                        },
                    },
                },
            },
        },
    }
}

pub open spec fn snapshot_id_reader() -> spec_fn(Json) -> Result<u64, Seq<char>> {
    |j: Json| match j {
        Json::Str(s) => spec_unhex(s@),
        _ => Err("snapshot id"@),
    }
}

/// One snapshot: a set of feature ids, under an id its content must
/// have.
pub open spec fn snapshot_entry(key: Seq<char>, v: Json) -> Result<(u64, Seq<u64>), Seq<char>> {
    match v {
        Json::Array(items) => match try_map(items@, snapshot_id_reader()) {
            Err(e) => Err(e),
            Ok(ids) => match spec_unhex(key) {
                Err(e) => Err(e),
                Ok(d) => if d != snapshot_id(id_set(ids)) {
                    Err("snapshot "@ + key + ": content does not match its id"@)
                } else {
                    Ok((d, id_set(ids)))
                },
            },
        },
        _ => Err("snapshot: not an array"@),
    }
}

/// One moment: `[timestamp, snapshot id]`.
pub open spec fn moment_of(m: Json) -> Result<(TimePoint, u64), Seq<char>> {
    match m {
        Json::Array(p) => if p@.len() != 2 {
            Err("moment: not a pair"@)
        } else {
            match time_of(p@[0]) {
                Err(e) => Err(e),
                Ok(t) => match p@[1] {
                    Json::Str(s) => match spec_unhex(s@) {
                        Err(e) => Err(e),
                        Ok(sid) => Ok((t, sid)),
                    },
                    _ => Err("moment: snapshot id"@),
                },
            }
        },
        _ => Err("moment: not a pair"@),
    }
}

/// A layer's moments asserted in turn: a second, different snapshot at
/// one instant is refused.
pub open spec fn world_of(ms: Seq<Json>, name: Seq<char>) -> Result<Map<TimePoint, SnapshotId>, Seq<char>>
    decreases ms.len(),
{
    if ms.len() == 0 {
        Ok(Map::empty())
    } else {
        match world_of(ms.drop_last(), name) {
            Err(e) => Err(e),
            Ok(w) => match moment_of(ms.last()) {
                Err(e) => Err(e),
                Ok(m) => if w.contains_key(m.0) && w[m.0] != SnapshotId(m.1) {
                    Err("layer "@ + name + ": two snapshots at one instant"@)
                } else {
                    Ok(w.insert(m.0, SnapshotId(m.1)))
                },
            },
        }
    }
}

/// One layer: its moments, then its name.
pub open spec fn layer_entry(name: Seq<char>, v: Json) -> Result<(LayerKind, Map<TimePoint, SnapshotId>), Seq<char>> {
    match v {
        Json::Array(ms) => match world_of(ms@, name) {
            Err(e) => Err(e),
            Ok(w) => match spec_layer_from(name) {
                None => Err("unknown layer '"@ + name + "'"@),
                Some(k) => Ok((k, w)),
            },
        },
        _ => Err("layer: not an array"@),
    }
}

/// One feature's provenance: its witness is required, its verses (the
/// strings among them) and note default to none.
pub open spec fn provenance_entry(key: Seq<char>, p: Json) -> Result<(u64, ProvenanceView), Seq<char>> {
    match json_str(member(p, "witness"@)) {
        None => Err("provenance: witness"@),
        Some(w) => match spec_witness_from(w) {
            None => Err("unknown witness '"@ + w + "'"@),
            Some(witness) => match spec_unhex(key) {
                Err(e) => Err(e),
                Ok(id) => Ok(
                    (
                        id,
                        ProvenanceView {
                            witness,
                            verses: match json_array(member(p, "verses"@)) {
                                Some(items) => string_items(items),
                                None => Seq::empty(),
                            },
                            note: match json_str(member(p, "note"@)) {
                                Some(n) => n,
                                None => Seq::empty(),
                            },
                        },
                    ),
                ),
            },
        },
    }
}

/// The members of the top-level section `name`, which must be an object.
pub open spec fn section(doc: Json, name: Seq<char>) -> Result<Seq<(String, Json)>, Seq<char>> {
    match member(doc, name) {
        Some(Json::Object(es)) => Ok(es@),
        _ => Err("canon: missing '"@ + name + "'"@),
    }
}

pub open spec fn border_reader() -> spec_fn(Seq<char>, Json) -> Result<(u64, Seq<PointView>), Seq<char>> {
    |k: Seq<char>, v: Json| border_entry(k, v)
}

pub open spec fn feature_reader() -> spec_fn(Seq<char>, Json) -> Result<(u64, FeatureView), Seq<char>> {
    |k: Seq<char>, v: Json| feature_entry(k, v)
}

pub open spec fn snapshot_reader() -> spec_fn(Seq<char>, Json) -> Result<(u64, Seq<u64>), Seq<char>> {
    |k: Seq<char>, v: Json| snapshot_entry(k, v)
}

pub open spec fn layer_reader() -> spec_fn(Seq<char>, Json) -> Result<(LayerKind, Map<TimePoint, SnapshotId>), Seq<char>> {
    |k: Seq<char>, v: Json| layer_entry(k, v)
}

pub open spec fn provenance_reader() -> spec_fn(Seq<char>, Json) -> Result<(u64, ProvenanceView), Seq<char>> {
    |k: Seq<char>, v: Json| provenance_entry(k, v)
}

/// What a parsed canon file holds: the borders, features, snapshots,
/// layers and provenance sections read in that order, each member in
/// file order, the first refusal deciding the error.
pub open spec fn spec_canon_of(doc: Json) -> Result<CanonDocView, Seq<char>> {
    match section(doc, "borders"@) {
        Err(e) => Err(e),
        Ok(bs) => match try_map_members(bs, border_reader()) {
            Err(e) => Err(e),
            Ok(borders) => match section(doc, "features"@) {
                Err(e) => Err(e),
                Ok(fs) => match try_map_members(fs, feature_reader()) {
                    Err(e) => Err(e),
                    Ok(features) => match section(doc, "snapshots"@) {
                        Err(e) => Err(e),
                        Ok(ss) => match try_map_members(ss, snapshot_reader()) {
                            Err(e) => Err(e),
                            Ok(snapshots) => match section(doc, "layers"@) {
                                Err(e) => Err(e),
                                Ok(ls) => match try_map_members(ls, layer_reader()) {
                                    Err(e) => Err(e),
                                    Ok(layers) => match section(doc, "provenance"@) {
                                        Err(e) => Err(e),
                                        Ok(ps) => match try_map_members(ps, provenance_reader()) {
                                            Err(e) => Err(e),
                                            Ok(provenance) => Ok(
                                                CanonDocView { borders, features, snapshots, layers, provenance },
                                            ),
                                        },
                                    },
                                },
                            },
                        },
                    },
                },
            },
        },
    }
}

/// What a canon file's bytes hold.
pub open spec fn spec_canon_of_bytes(bytes: Seq<u8>) -> Result<CanonDocView, Seq<char>> {
    match spec_json_bytes(bytes) {
        Err(e) => Err("canon: bad json: "@ + e),
        Ok(doc) => spec_canon_of(doc),
    }
}

// ------------------------------------------------- computing the ids

fn hash_ids(h: &mut Fnv, ids: &Vec<u64>)
    ensures
        final(h)@ == fnv_bytes(old(h)@, ids_stream(ids@)),
{
    let ghost h0 = h@;
    let mut i: usize = 0;
    proof {
        assert(ids@.take(0) =~= Seq::<u64>::empty());
    }
    while i < ids.len()
        invariant
            i <= ids@.len(),
            h@ == fnv_bytes(h0, ids_stream(ids@.take(i as int))),
        decreases ids@.len() - i,
    {
        h.u64(ids[i]);
        proof {
            law_fnv_streams(h0, ids_stream(ids@.take(i as int)), be_bytes(ids@[i as int]));
            assert(ids@.take(i + 1).drop_last() =~= ids@.take(i as int));
        }
        i += 1;
    }
    proof {
        assert(ids@.take(ids@.len() as int) =~= ids@);
    }
}

fn hash_point(h: &mut Fnv, p: &PointText)
    ensures
        final(h)@ == fnv_bytes(old(h)@, point_bytes(p@)),
{
    let ghost h0 = h@;
    h.text(p.x.as_str());
    h.text(p.y.as_str());
    proof {
        law_fnv_streams(h0, text_bytes(p.x@), text_bytes(p.y@));
    }
    h.text(p.z.as_str());
    proof {
        law_fnv_streams(h0, text_bytes(p.x@) + text_bytes(p.y@), text_bytes(p.z@));
    }
}

fn hash_points(h: &mut Fnv, ps: &Vec<PointText>)
    ensures
        final(h)@ == fnv_bytes(old(h)@, points_bytes(points_view(ps@))),
{
    let ghost h0 = h@;
    let ghost pv = points_view(ps@);
    let mut i: usize = 0;
    proof {
        assert(pv.take(0) =~= Seq::<PointView>::empty());
    }
    while i < ps.len()
        invariant
            pv == points_view(ps@),
            i <= ps@.len(),
            h@ == fnv_bytes(h0, points_bytes(pv.take(i as int))),
        decreases ps@.len() - i,
    {
        hash_point(h, &ps[i]);
        proof {
            law_fnv_streams(h0, points_bytes(pv.take(i as int)), point_bytes(pv[i as int]));
            assert(pv.take(i + 1).drop_last() =~= pv.take(i as int));
        }
        i += 1;
    }
    proof {
        assert(pv.take(pv.len() as int) =~= pv);
    }
}

/// The content id of a border's points.
pub fn border_id_of(ps: &Vec<PointText>) -> (id: u64)
    ensures
        id == border_id(points_view(ps@)),
{
    let mut h = Fnv::new();
    h.u64(1);
    h.u64(ps.len() as u64);
    proof {
        law_fnv_streams(FNV_OFFSET, be_bytes(1), be_bytes(ps@.len() as u64));
    }
    let ghost pre = be_bytes(1) + be_bytes(ps@.len() as u64);
    hash_points(&mut h, ps);
    proof {
        law_fnv_streams(FNV_OFFSET, pre, points_bytes(points_view(ps@)));
    }
    h.finish()
}

/// The content id of a snapshot's feature set.
pub fn snapshot_id_of(ids: &Vec<u64>) -> (id: u64)
    ensures
        id == snapshot_id(ids@),
{
    let mut h = Fnv::new();
    h.u64(7);
    h.u64(ids.len() as u64);
    proof {
        law_fnv_streams(FNV_OFFSET, be_bytes(7), be_bytes(ids@.len() as u64));
    }
    let ghost pre = be_bytes(7) + be_bytes(ids@.len() as u64);
    hash_ids(&mut h, ids);
    proof {
        law_fnv_streams(FNV_OFFSET, pre, ids_stream(ids@));
    }
    h.finish()
}

fn opt_code_of(o: Option<u8>) -> (c: u64)
    ensures
        c == opt_code(o),
{
    match o {
        None => 0,
        Some(m) => m as u64 + 1,
    }
}

fn hash_time(h: &mut Fnv, t: TimePoint)
    ensures
        final(h)@ == fnv_bytes(old(h)@, time_bytes(t)),
{
    let ghost h0 = h@;
    h.u64(t.year as u64);
    let a = opt_code_of(t.month);
    h.u64(a);
    proof {
        law_fnv_streams(h0, be_bytes(t.year as u64), be_bytes(a));
    }
    let b = opt_code_of(t.day);
    h.u64(b);
    proof {
        law_fnv_streams(h0, be_bytes(t.year as u64) + be_bytes(a), be_bytes(b));
    }
}

fn hash_leg(h: &mut Fnv, l: &LegDoc)
    ensures
        final(h)@ == fnv_bytes(old(h)@, leg_bytes(l@)),
{
    let ghost h0 = h@;
    h.text(l.from.as_str());
    h.text(l.to.as_str());
    proof {
        law_fnv_streams(h0, text_bytes(l.from@), text_bytes(l.to@));
    }
    let ghost a = text_bytes(l.from@) + text_bytes(l.to@);
    h.u64(l.border);
    proof {
        law_fnv_streams(h0, a, be_bytes(l.border));
    }
    let ghost b = a + be_bytes(l.border);
    hash_time(h, l.start);
    proof {
        law_fnv_streams(h0, b, time_bytes(l.start));
    }
    let ghost c = b + time_bytes(l.start);
    hash_time(h, l.end);
    proof {
        law_fnv_streams(h0, c, time_bytes(l.end));
    }
}

fn hash_legs(h: &mut Fnv, ls: &Vec<LegDoc>)
    ensures
        final(h)@ == fnv_bytes(old(h)@, legs_bytes(ls@.map_values(|l: LegDoc| l@))),
{
    let ghost h0 = h@;
    let ghost lv = ls@.map_values(|l: LegDoc| l@);
    let mut i: usize = 0;
    proof {
        assert(lv.take(0) =~= Seq::<LegView>::empty());
    }
    while i < ls.len()
        invariant
            lv == ls@.map_values(|l: LegDoc| l@),
            i <= ls@.len(),
            h@ == fnv_bytes(h0, legs_bytes(lv.take(i as int))),
        decreases ls@.len() - i,
    {
        hash_leg(h, &ls[i]);
        proof {
            law_fnv_streams(h0, legs_bytes(lv.take(i as int)), leg_bytes(lv[i as int]));
            assert(lv.take(i + 1).drop_last() =~= lv.take(i as int));
        }
        i += 1;
    }
    proof {
        assert(lv.take(lv.len() as int) =~= lv);
    }
}

fn hash_shape(h: &mut Fnv, s: &ShapeDoc)
    ensures
        final(h)@ == fnv_bytes(old(h)@, shape_bytes(s@)),
{
    let ghost h0 = h@;
    match s {
        ShapeDoc::Area { rings, holes } => {
            h.u64(rings.len() as u64);
            let ghost a = be_bytes(rings@.len() as u64);
            hash_ids(h, rings);
            proof {
                law_fnv_streams(h0, a, ids_stream(rings@));
            }
            let ghost b = a + ids_stream(rings@);
            h.u64(holes.len() as u64);
            proof {
                law_fnv_streams(h0, b, be_bytes(holes@.len() as u64));
            }
            let ghost c = b + be_bytes(holes@.len() as u64);
            hash_ids(h, holes);
            proof {
                law_fnv_streams(h0, c, ids_stream(holes@));
            }
        },
        ShapeDoc::Way { legs } => {
            h.u64(legs.len() as u64);
            hash_legs(h, legs);
            proof {
                law_fnv_streams(h0, be_bytes(legs@.len() as u64), legs_bytes(legs@.map_values(|l: LegDoc| l@)));
            }
        },
        ShapeDoc::Point { at } => {
            hash_point(h, at);
        },
        ShapeDoc::Line { border } => {
            h.u64(*border);
        },
        ShapeDoc::Memory { at } => {
            hash_point(h, at);
        },
    }
}

fn tag_of_shape(s: &ShapeDoc) -> (t: u64)
    ensures
        t == tag_of(s@),
{
    match s {
        ShapeDoc::Area { .. } => 2,
        ShapeDoc::Way { .. } => 3,
        ShapeDoc::Point { .. } => 4,
        ShapeDoc::Line { .. } => 5,
        ShapeDoc::Memory { .. } => 6,
    }
}

/// The content id of a feature.
pub fn feature_id_of(f: &FeatureDoc) -> (id: u64)
    ensures
        id == feature_id(f@),
{
    let mut h = Fnv::new();
    let t = tag_of_shape(&f.shape);
    h.u64(t);
    h.text(f.entity.as_str());
    proof {
        law_fnv_streams(FNV_OFFSET, be_bytes(t), text_bytes(f.entity@));
    }
    let ghost a = be_bytes(t) + text_bytes(f.entity@);
    h.text(f.name.as_str());
    proof {
        law_fnv_streams(FNV_OFFSET, a, text_bytes(f.name@));
    }
    let ghost b = a + text_bytes(f.name@);
    hash_shape(&mut h, &f.shape);
    proof {
        law_fnv_streams(FNV_OFFSET, b, shape_bytes(f.shape@));
    }
    h.finish()
}

// ---------------------------------------------------------- reading

fn read_id(s: &str) -> (r: Result<u64, String>)
    ensures
        match r {
            Ok(v) => spec_unhex(s@) == Ok::<u64, Seq<char>>(v),
            Err(e) => spec_unhex(s@) == Err::<u64, Seq<char>>(e@),
        },
{
    unhex(s)
}

fn opt_u8_of(v: &Json, key: &str) -> (r: Option<u8>)
    ensures
        r == opt_u8(member(*v, key@)),
{
    match get_member(v, key) {
        Some(x) => match number_u64(x) {
            Some(n) => Some(n as u8),
            None => None,
        },
        None => None,
    }
}

fn read_time(v: &Json) -> (r: Result<TimePoint, String>)
    ensures
        match r {
            Ok(t) => time_of(*v) == Ok::<TimePoint, Seq<char>>(t),
            Err(e) => time_of(*v) == Err::<TimePoint, Seq<char>>(e@),
        },
{
    let y = match get_member(v, "y") {
        Some(yv) => match number_i64(yv) {
            Some(y) => y,
            None => return Err(owned("timestamp: missing y")),
        },
        None => return Err(owned("timestamp: missing y")),
    };
    let year = y as i32;
    if year == 0 {
        return Err(owned("timestamp: bad year 0"));
    }
    let month = opt_u8_of(v, "m");
    let day = opt_u8_of(v, "d");
    Ok(TimePoint { year, month, day })
}

fn read_point(v: &Json, shape: &str) -> (r: Result<PointText, String>)
    ensures
        match r {
            Ok(p) => point_of(*v, shape@) == Ok::<PointView, Seq<char>>(p@),
            Err(e) => point_of(*v, shape@) == Err::<PointView, Seq<char>>(e@),
        },
{
    match v {
        Json::Array(a) => {
            if a.len() != 3 {
                return Err(owned(shape));
            }
            let x = match &a[0] {
                Json::Number(t) => t.clone(),
                _ => return Err(owned("x")),
            };
            let y = match &a[1] {
                Json::Number(t) => t.clone(),
                _ => return Err(owned("y")),
            };
            let z = match &a[2] {
                Json::Number(t) => t.clone(),
                _ => return Err(owned("z")),
            };
            Ok(PointText { x, y, z })
        },
        _ => Err(owned(shape)),
    }
}

fn insert_id_into(s: &mut Vec<u64>, x: u64)
    ensures
        final(s)@ == insert_id(old(s)@, x),
{
    let ghost v = s@;
    let mut i: usize = 0;
    assert(v.skip(0) =~= v);
    assert(v.take(0) =~= Seq::<u64>::empty());
    while i < s.len() && s[i] < x
        invariant
            v == s@,
            i <= v.len(),
            insert_id(v, x) == v.take(i as int) + insert_id(v.skip(i as int), x),
        decreases v.len() - i,
    {
        proof {
            let t = v.skip(i as int);
            assert(t[0] == v[i as int]);
            assert(t.drop_first() =~= v.skip(i + 1));
            assert(v.take(i + 1) =~= v.take(i as int).push(v[i as int]));
            assert(v.take(i as int) + insert_id(t, x) =~= v.take(i + 1) + insert_id(v.skip(i + 1), x));
        }
        i += 1;
    }
    if i < s.len() && s[i] == x {
        proof {
            assert(v.skip(i as int)[0] == x);
            assert(v.take(i as int) + v.skip(i as int) =~= v);
        }
        return;
    }
    proof {
        if i < v.len() {
            assert(v.skip(i as int)[0] == v[i as int]);
        }
    }
    s.insert(i, x);
    proof {
        assert(s@ =~= v.take(i as int) + (seq![x] + v.skip(i as int)));
        if i == v.len() {
            assert(v.skip(i as int) =~= Seq::<u64>::empty());
            assert(seq![x] + v.skip(i as int) =~= seq![x]);
        }
    }
}

fn read_ids(f: &Json, key: &str) -> (r: Result<Vec<u64>, String>)
    ensures
        match r {
            Ok(ids) => ids_of(*f, key@) == Ok::<Seq<u64>, Seq<char>>(ids@),
            Err(e) => ids_of(*f, key@) == Err::<Seq<u64>, Seq<char>>(e@),
        },
{
    let items = match get_member(f, key) {
        Some(Json::Array(items)) => items,
        _ => return Err(concat2("feature: missing ", key)),
    };
    let ghost rd = id_reader(key@);
    let mut set: Vec<u64> = Vec::new();
    let ghost mut raw: Seq<u64> = Seq::empty();
    let mut i: usize = 0;
    proof {
        assert(items@.take(0) =~= Seq::<Json>::empty());
    }
    while i < items.len()
        invariant
            rd == id_reader(key@),
            json_array(member(*f, key@)) == Some(items@),
            i <= items@.len(),
            try_map(items@.take(i as int), rd) == Ok::<Seq<u64>, Seq<char>>(raw),
            set@ == id_set(raw),
        decreases items@.len() - i,
    {
        proof {
            assert(items@.take(i + 1).drop_last() =~= items@.take(i as int));
            assert(items@.take(i + 1).last() == items@[i as int]);
        }
        let id = match &items[i] {
            Json::Str(s) => match read_id(s.as_str()) {
                Ok(v) => v,
                Err(e) => {
                    proof {
                        lemma_try_map_err(items@, rd, i + 1);
                    }
                    return Err(e);
                },
            },
            _ => {
                proof {
                    lemma_try_map_err(items@, rd, i + 1);
                }
                return Err(concat2(key, ": not a string"));
            },
        };
        insert_id_into(&mut set, id);
        proof {
            assert(raw.push(id).drop_last() =~= raw);
            raw = raw.push(id);
        }
        i += 1;
    }
    proof {
        assert(items@.take(items@.len() as int) =~= items@);
    }
    Ok(set)
}

fn read_leg(l: &Json) -> (r: Result<LegDoc, String>)
    ensures
        match r {
            Ok(x) => leg_of(*l) == Ok::<LegView, Seq<char>>(x@),
            Err(e) => leg_of(*l) == Err::<LegView, Seq<char>>(e@),
        },
{
    let span = match get_member(l, "span") {
        Some(Json::Array(span)) => span,
        _ => return Err(owned("leg: missing span")),
    };
    if span.len() != 2 {
        return Err(owned("leg: span is not a pair"));
    }
    let from = match get_str(l, "from") {
        Some(s) => s.clone(),
        None => return Err(owned("leg: from")),
    };
    let to = match get_str(l, "to") {
        Some(s) => s.clone(),
        None => return Err(owned("leg: to")),
    };
    let border = match get_str(l, "border") {
        Some(s) => match read_id(s.as_str()) {
            Ok(v) => v,
            Err(e) => return Err(e),
        },
        None => return Err(owned("leg: border")),
    };
    let start = match read_time(&span[0]) {
        Ok(t) => t,
        Err(e) => return Err(e),
    };
    let end = match read_time(&span[1]) {
        Ok(t) => t,
        Err(e) => return Err(e),
    };
    Ok(LegDoc { from, to, border, start, end })
}

fn read_legs(items: &Vec<Json>) -> (r: Result<Vec<LegDoc>, String>)
    ensures
        match r {
            Ok(ls) => try_map(items@, leg_reader()) == Ok::<Seq<LegView>, Seq<char>>(ls@.map_values(|l: LegDoc| l@)),
            Err(e) => try_map(items@, leg_reader()) == Err::<Seq<LegView>, Seq<char>>(e@),
        },
{
    let mut out: Vec<LegDoc> = Vec::new();
    let mut i: usize = 0;
    proof {
        assert(items@.take(0) =~= Seq::<Json>::empty());
        assert(out@.map_values(|l: LegDoc| l@) =~= Seq::<LegView>::empty());
    }
    while i < items.len()
        invariant
            i <= items@.len(),
            try_map(items@.take(i as int), leg_reader()) == Ok::<Seq<LegView>, Seq<char>>(out@.map_values(|l: LegDoc| l@)),
        decreases items@.len() - i,
    {
        proof {
            assert(items@.take(i + 1).drop_last() =~= items@.take(i as int));
            assert(items@.take(i + 1).last() == items@[i as int]);
        }
        match read_leg(&items[i]) {
            Ok(x) => {
                let ghost before = out@.map_values(|l: LegDoc| l@);
                let ghost xv = x@;
                out.push(x);
                proof {
                    assert(out@.map_values(|l: LegDoc| l@) =~= before.push(xv));
                }
            },
            Err(e) => {
                proof {
                    lemma_try_map_err(items@, leg_reader(), i + 1);
                }
                return Err(e);
            },
        }
        i += 1;
    }
    proof {
        assert(items@.take(items@.len() as int) =~= items@);
    }
    Ok(out)
}

fn read_at(f: &Json, missing: &str) -> (r: Result<PointText, String>)
    ensures
        match r {
            Ok(p) => at_of(member(*f, "at"@), missing@) == Ok::<PointView, Seq<char>>(p@),
            Err(e) => at_of(member(*f, "at"@), missing@) == Err::<PointView, Seq<char>>(e@),
        },
{
    match get_member(f, "at") {
        Some(v) => read_point(v, missing),
        None => Err(owned(missing)),
    }
}

fn read_shape(f: &Json, kind: &str) -> (r: Result<ShapeDoc, String>)
    ensures
        match r {
            Ok(x) => shape_of(*f, kind@) == Ok::<ShapeView, Seq<char>>(x@),
            Err(e) => shape_of(*f, kind@) == Err::<ShapeView, Seq<char>>(e@),
        },
{
    if str_equal(kind, "area") {
        let rings = match read_ids(f, "rings") {
            Ok(v) => v,
            Err(e) => return Err(e),
        };
        let holes = match read_ids(f, "holes") {
            Ok(v) => v,
            Err(e) => return Err(e),
        };
        Ok(ShapeDoc::Area { rings, holes })
    } else if str_equal(kind, "way") {
        match get_member(f, "legs") {
            Some(Json::Array(ls)) => match read_legs(ls) {
                Ok(legs) => Ok(ShapeDoc::Way { legs }),
                Err(e) => Err(e),
            },
            _ => Err(owned("way: missing legs")),
        }
    } else if str_equal(kind, "line") {
        match get_str(f, "border") {
            Some(b) => match read_id(b.as_str()) {
                Ok(border) => Ok(ShapeDoc::Line { border }),
                Err(e) => Err(e),
            },
            None => Err(owned("line: border")),
        }
    } else if str_equal(kind, "memory") {
        match read_at(f, "memory: missing at") {
            Ok(at) => Ok(ShapeDoc::Memory { at }),
            Err(e) => Err(e),
        }
    } else if str_equal(kind, "point") {
        match read_at(f, "point: missing at") {
            Ok(at) => Ok(ShapeDoc::Point { at }),
            Err(e) => Err(e),
        }
    } else {
        Err(concat3("feature: unknown kind '", kind, "'"))
    }
}

fn read_feature(key: &str, f: &Json) -> (r: Result<(u64, FeatureDoc), String>)
    ensures
        match r {
            Ok(x) => feature_entry(key@, *f) == Ok::<(u64, FeatureView), Seq<char>>((x.0, x.1@)),
            Err(e) => feature_entry(key@, *f) == Err::<(u64, FeatureView), Seq<char>>(e@),
        },
{
    let kind = match get_str(f, "kind") {
        Some(s) => s,
        None => return Err(owned("feature: missing kind")),
    };
    let entity = match get_str(f, "entity") {
        Some(s) => s.clone(),
        None => return Err(owned("feature: missing entity")),
    };
    let name = match get_str(f, "name") {
        Some(s) => s.clone(),
        None => return Err(owned("feature: missing name")),
    };
    let shape = match read_shape(f, kind.as_str()) {
        Ok(x) => x,
        Err(e) => return Err(e),
    };
    let doc = FeatureDoc { entity, name, shape };
    let id = feature_id_of(&doc);
    let declared = match read_id(key) {
        Ok(v) => v,
        Err(e) => return Err(e),
    };
    if declared != id {
        return Err(concat3("feature ", key, ": content does not match its id"));
    }
    Ok((declared, doc))
}

fn read_border(key: &str, v: &Json) -> (r: Result<(u64, Vec<PointText>), String>)
    ensures
        match r {
            Ok(x) => border_entry(key@, *v) == Ok::<(u64, Seq<PointView>), Seq<char>>((x.0, points_view(x.1@))),
            Err(e) => border_entry(key@, *v) == Err::<(u64, Seq<PointView>), Seq<char>>(e@),
        },
{
    let pts = match v {
        Json::Array(pts) => pts,
        _ => return Err(owned("border: not an array")),
    };
    let mut out: Vec<PointText> = Vec::new();
    let mut i: usize = 0;
    proof {
        assert(pts@.take(0) =~= Seq::<Json>::empty());
        assert(points_view(out@) =~= Seq::<PointView>::empty());
    }
    while i < pts.len()
        invariant
            *v == Json::Array(*pts),
            i <= pts@.len(),
            try_map(pts@.take(i as int), border_point_reader()) == Ok::<Seq<PointView>, Seq<char>>(points_view(out@)),
        decreases pts@.len() - i,
    {
        proof {
            assert(pts@.take(i + 1).drop_last() =~= pts@.take(i as int));
            assert(pts@.take(i + 1).last() == pts@[i as int]);
        }
        match read_point(&pts[i], "border point: not [x,y,z]") {
            Ok(p) => {
                let ghost before = points_view(out@);
                let ghost pv = p@;
                out.push(p);
                proof {
                    assert(points_view(out@) =~= before.push(pv));
                }
            },
            Err(e) => {
                proof {
                    lemma_try_map_err(pts@, border_point_reader(), i + 1);
                }
                return Err(e);
            },
        }
        i += 1;
    }
    proof {
        assert(pts@.take(pts@.len() as int) =~= pts@);
    }
    let id = border_id_of(&out);
    let declared = match read_id(key) {
        Ok(d) => d,
        Err(e) => return Err(e),
    };
    if declared != id {
        return Err(concat3("border ", key, ": content does not match its id"));
    }
    Ok((declared, out))
}

fn read_snapshot(key: &str, v: &Json) -> (r: Result<(u64, Vec<u64>), String>)
    ensures
        match r {
            Ok(x) => snapshot_entry(key@, *v) == Ok::<(u64, Seq<u64>), Seq<char>>((x.0, x.1@)),
            Err(e) => snapshot_entry(key@, *v) == Err::<(u64, Seq<u64>), Seq<char>>(e@),
        },
{
    let items = match v {
        Json::Array(items) => items,
        _ => return Err(owned("snapshot: not an array")),
    };
    let ghost rd = snapshot_id_reader();
    let mut set: Vec<u64> = Vec::new();
    let ghost mut raw: Seq<u64> = Seq::empty();
    let mut i: usize = 0;
    proof {
        assert(items@.take(0) =~= Seq::<Json>::empty());
    }
    while i < items.len()
        invariant
            rd == snapshot_id_reader(),
            *v == Json::Array(*items),
            i <= items@.len(),
            try_map(items@.take(i as int), rd) == Ok::<Seq<u64>, Seq<char>>(raw),
            set@ == id_set(raw),
        decreases items@.len() - i,
    {
        proof {
            assert(items@.take(i + 1).drop_last() =~= items@.take(i as int));
            assert(items@.take(i + 1).last() == items@[i as int]);
        }
        let id = match &items[i] {
            Json::Str(s) => match read_id(s.as_str()) {
                Ok(v) => v,
                Err(e) => {
                    proof {
                        lemma_try_map_err(items@, rd, i + 1);
                    }
                    return Err(e);
                },
            },
            _ => {
                proof {
                    lemma_try_map_err(items@, rd, i + 1);
                }
                return Err(owned("snapshot id"));
            },
        };
        insert_id_into(&mut set, id);
        proof {
            assert(raw.push(id).drop_last() =~= raw);
            raw = raw.push(id);
        }
        i += 1;
    }
    proof {
        assert(items@.take(items@.len() as int) =~= items@);
    }
    let id = snapshot_id_of(&set);
    let declared = match read_id(key) {
        Ok(d) => d,
        Err(e) => return Err(e),
    };
    if declared != id {
        return Err(concat3("snapshot ", key, ": content does not match its id"));
    }
    Ok((declared, set))
}

fn read_moment(m: &Json) -> (r: Result<(TimePoint, u64), String>)
    ensures
        match r {
            Ok(x) => moment_of(*m) == Ok::<(TimePoint, u64), Seq<char>>(x),
            Err(e) => moment_of(*m) == Err::<(TimePoint, u64), Seq<char>>(e@),
        },
{
    let p = match m {
        Json::Array(p) => p,
        _ => return Err(owned("moment: not a pair")),
    };
    if p.len() != 2 {
        return Err(owned("moment: not a pair"));
    }
    let t = match read_time(&p[0]) {
        Ok(t) => t,
        Err(e) => return Err(e),
    };
    match &p[1] {
        Json::Str(s) => match read_id(s.as_str()) {
            Ok(sid) => Ok((t, sid)),
            Err(e) => Err(e),
        },
        _ => Err(owned("moment: snapshot id")),
    }
}

/// A refusal among the first `k` moments is the refusal of them all.
proof fn lemma_world_of_err(ms: Seq<Json>, name: Seq<char>, k: int)
    requires
        0 <= k <= ms.len(),
        world_of(ms.take(k), name) is Err,
    ensures
        world_of(ms, name) == world_of(ms.take(k), name),
    decreases ms.len(),
{
    if k < ms.len() {
        assert(ms.drop_last().take(k) =~= ms.take(k));
        lemma_world_of_err(ms.drop_last(), name, k);
    } else {
        assert(ms.take(k) =~= ms);
    }
}

fn read_layer(name: &str, v: &Json) -> (r: Result<(LayerKind, World), String>)
    ensures
        match r {
            Ok(x) => layer_entry(name@, *v) == Ok::<(LayerKind, Map<TimePoint, SnapshotId>), Seq<char>>((x.0, x.1@))
                && x.1.wf(),
            Err(e) => layer_entry(name@, *v) == Err::<(LayerKind, Map<TimePoint, SnapshotId>), Seq<char>>(e@),
        },
{
    let ms = match v {
        Json::Array(ms) => ms,
        _ => return Err(owned("layer: not an array")),
    };
    let mut world = World::default();
    let mut i: usize = 0;
    proof {
        assert(ms@.take(0) =~= Seq::<Json>::empty());
    }
    while i < ms.len()
        invariant
            *v == Json::Array(*ms),
            i <= ms@.len(),
            world.wf(),
            world_of(ms@.take(i as int), name@) == Ok::<Map<TimePoint, SnapshotId>, Seq<char>>(world@),
        decreases ms@.len() - i,
    {
        proof {
            assert(ms@.take(i + 1).drop_last() =~= ms@.take(i as int));
            assert(ms@.take(i + 1).last() == ms@[i as int]);
        }
        let (t, sid) = match read_moment(&ms[i]) {
            Ok(x) => x,
            Err(e) => {
                proof {
                    lemma_world_of_err(ms@, name@, i + 1);
                }
                return Err(e);
            },
        };
        let ghost w0 = world@;
        match world.insert(t, SnapshotId(sid)) {
            Ok(()) => {
                proof {
                    if w0.contains_key(t) {
                        assert(w0.insert(t, SnapshotId(sid)) =~= w0);
                    }
                }
            },
            Err(_) => {
                proof {
                    lemma_world_of_err(ms@, name@, i + 1);
                }
                return Err(concat3("layer ", name, ": two snapshots at one instant"));
            },
        }
        i += 1;
    }
    proof {
        assert(ms@.take(ms@.len() as int) =~= ms@);
    }
    match layer_from(name) {
        Ok(k) => Ok((k, world)),
        Err(e) => Err(e),
    }
}

fn read_provenance(key: &str, p: &Json) -> (r: Result<(u64, ProvenanceDoc), String>)
    ensures
        match r {
            Ok(x) => provenance_entry(key@, *p) == Ok::<(u64, ProvenanceView), Seq<char>>((x.0, x.1@)),
            Err(e) => provenance_entry(key@, *p) == Err::<(u64, ProvenanceView), Seq<char>>(e@),
        },
{
    let w = match get_str(p, "witness") {
        Some(w) => w,
        None => return Err(owned("provenance: witness")),
    };
    let witness = match witness_from(w.as_str()) {
        Ok(x) => x,
        Err(e) => return Err(e),
    };
    let id = match read_id(key) {
        Ok(v) => v,
        Err(e) => return Err(e),
    };
    let mut verses: Vec<String> = Vec::new();
    match get_member(p, "verses") {
        Some(Json::Array(items)) => {
            read_string_items(items, &mut verses);
            proof {
                assert(Seq::<Seq<char>>::empty() + string_items(items@) =~= string_items(items@));
            }
        },
        _ => {},
    }
    proof {
        assert(verses@.map_values(|v: String| v@) =~= match json_array(member(*p, "verses"@)) {
            Some(items) => string_items(items),
            None => Seq::empty(),
        });
    }
    let note = match get_str(p, "note") {
        Some(n) => n.clone(),
        None => String::new(),
    };
    Ok((id, ProvenanceDoc { witness, verses, note }))
}

fn read_section<'a>(doc: &'a Json, name: &str) -> (r: Result<&'a Vec<(String, Json)>, String>)
    ensures
        match r {
            Ok(es) => section(*doc, name@) == Ok::<Seq<(String, Json)>, Seq<char>>(es@),
            Err(e) => section(*doc, name@) == Err::<Seq<(String, Json)>, Seq<char>>(e@),
        },
{
    match get_member(doc, name) {
        Some(Json::Object(es)) => Ok(es),
        _ => Err(concat3("canon: missing '", name, "'")),
    }
}

fn read_borders(es: &Vec<(String, Json)>) -> (r: Result<Vec<(u64, Vec<PointText>)>, String>)
    ensures
        match r {
            Ok(v) => try_map_members(es@, border_reader()) == Ok::<Seq<(u64, Seq<PointView>)>, Seq<char>>(v@.map_values(|b: (u64, Vec<PointText>)| (b.0, points_view(b.1@)))),
            Err(e) => try_map_members(es@, border_reader()) == Err::<Seq<(u64, Seq<PointView>)>, Seq<char>>(e@),
        },
{
    let mut out: Vec<(u64, Vec<PointText>)> = Vec::new();
    let mut i: usize = 0;
    proof {
        assert(es@.take(0) =~= Seq::<(String, Json)>::empty());
        assert(out@.map_values(|b: (u64, Vec<PointText>)| (b.0, points_view(b.1@))) =~= Seq::<(u64, Seq<PointView>)>::empty());
    }
    while i < es.len()
        invariant
            i <= es@.len(),
            try_map_members(es@.take(i as int), border_reader()) == Ok::<Seq<(u64, Seq<PointView>)>, Seq<char>>(out@.map_values(|b: (u64, Vec<PointText>)| (b.0, points_view(b.1@)))),
        decreases es@.len() - i,
    {
        proof {
            assert(es@.take(i + 1).drop_last() =~= es@.take(i as int));
            assert(es@.take(i + 1).last() == es@[i as int]);
        }
        match read_border(es[i].0.as_str(), &es[i].1) {
            Ok(x) => {
                let ghost before = out@.map_values(|b: (u64, Vec<PointText>)| (b.0, points_view(b.1@)));
                let ghost xv = (|b: (u64, Vec<PointText>)| (b.0, points_view(b.1@)))(x);
                out.push(x);
                proof {
                    assert(out@.map_values(|b: (u64, Vec<PointText>)| (b.0, points_view(b.1@))) =~= before.push(xv));
                }
            },
            Err(e) => {
                proof {
                    lemma_try_map_members_err(es@, border_reader(), i + 1);
                }
                return Err(e);
            },
        }
        i += 1;
    }
    proof {
        assert(es@.take(es@.len() as int) =~= es@);
    }
    Ok(out)
}

fn read_features(es: &Vec<(String, Json)>) -> (r: Result<Vec<(u64, FeatureDoc)>, String>)
    ensures
        match r {
            Ok(v) => try_map_members(es@, feature_reader()) == Ok::<Seq<(u64, FeatureView)>, Seq<char>>(v@.map_values(|f: (u64, FeatureDoc)| (f.0, f.1@))),
            Err(e) => try_map_members(es@, feature_reader()) == Err::<Seq<(u64, FeatureView)>, Seq<char>>(e@),
        },
{
    let mut out: Vec<(u64, FeatureDoc)> = Vec::new();
    let mut i: usize = 0;
    proof {
        assert(es@.take(0) =~= Seq::<(String, Json)>::empty());
        assert(out@.map_values(|f: (u64, FeatureDoc)| (f.0, f.1@)) =~= Seq::<(u64, FeatureView)>::empty());
    }
    while i < es.len()
        invariant
            i <= es@.len(),
            try_map_members(es@.take(i as int), feature_reader()) == Ok::<Seq<(u64, FeatureView)>, Seq<char>>(out@.map_values(|f: (u64, FeatureDoc)| (f.0, f.1@))),
        decreases es@.len() - i,
    {
        proof {
            assert(es@.take(i + 1).drop_last() =~= es@.take(i as int));
            assert(es@.take(i + 1).last() == es@[i as int]);
        }
        match read_feature(es[i].0.as_str(), &es[i].1) {
            Ok(x) => {
                let ghost before = out@.map_values(|f: (u64, FeatureDoc)| (f.0, f.1@));
                let ghost xv = (|f: (u64, FeatureDoc)| (f.0, f.1@))(x);
                out.push(x);
                proof {
                    assert(out@.map_values(|f: (u64, FeatureDoc)| (f.0, f.1@)) =~= before.push(xv));
                }
            },
            Err(e) => {
                proof {
                    lemma_try_map_members_err(es@, feature_reader(), i + 1);
                }
                return Err(e);
            },
        }
        i += 1;
    }
    proof {
        assert(es@.take(es@.len() as int) =~= es@);
    }
    Ok(out)
}

fn read_snapshots(es: &Vec<(String, Json)>) -> (r: Result<Vec<(u64, Vec<u64>)>, String>)
    ensures
        match r {
            Ok(v) => try_map_members(es@, snapshot_reader()) == Ok::<Seq<(u64, Seq<u64>)>, Seq<char>>(v@.map_values(|x: (u64, Vec<u64>)| (x.0, x.1@))),
            Err(e) => try_map_members(es@, snapshot_reader()) == Err::<Seq<(u64, Seq<u64>)>, Seq<char>>(e@),
        },
{
    let mut out: Vec<(u64, Vec<u64>)> = Vec::new();
    let mut i: usize = 0;
    proof {
        assert(es@.take(0) =~= Seq::<(String, Json)>::empty());
        assert(out@.map_values(|x: (u64, Vec<u64>)| (x.0, x.1@)) =~= Seq::<(u64, Seq<u64>)>::empty());
    }
    while i < es.len()
        invariant
            i <= es@.len(),
            try_map_members(es@.take(i as int), snapshot_reader()) == Ok::<Seq<(u64, Seq<u64>)>, Seq<char>>(out@.map_values(|x: (u64, Vec<u64>)| (x.0, x.1@))),
        decreases es@.len() - i,
    {
        proof {
            assert(es@.take(i + 1).drop_last() =~= es@.take(i as int));
            assert(es@.take(i + 1).last() == es@[i as int]);
        }
        match read_snapshot(es[i].0.as_str(), &es[i].1) {
            Ok(x) => {
                let ghost before = out@.map_values(|x: (u64, Vec<u64>)| (x.0, x.1@));
                let ghost xv = (|x: (u64, Vec<u64>)| (x.0, x.1@))(x);
                out.push(x);
                proof {
                    assert(out@.map_values(|x: (u64, Vec<u64>)| (x.0, x.1@)) =~= before.push(xv));
                }
            },
            Err(e) => {
                proof {
                    lemma_try_map_members_err(es@, snapshot_reader(), i + 1);
                }
                return Err(e);
            },
        }
        i += 1;
    }
    proof {
        assert(es@.take(es@.len() as int) =~= es@);
    }
    Ok(out)
}

fn read_provenances(es: &Vec<(String, Json)>) -> (r: Result<Vec<(u64, ProvenanceDoc)>, String>)
    ensures
        match r {
            Ok(v) => try_map_members(es@, provenance_reader()) == Ok::<Seq<(u64, ProvenanceView)>, Seq<char>>(v@.map_values(|p: (u64, ProvenanceDoc)| (p.0, p.1@))),
            Err(e) => try_map_members(es@, provenance_reader()) == Err::<Seq<(u64, ProvenanceView)>, Seq<char>>(e@),
        },
{
    let mut out: Vec<(u64, ProvenanceDoc)> = Vec::new();
    let mut i: usize = 0;
    proof {
        assert(es@.take(0) =~= Seq::<(String, Json)>::empty());
        assert(out@.map_values(|p: (u64, ProvenanceDoc)| (p.0, p.1@)) =~= Seq::<(u64, ProvenanceView)>::empty());
    }
    while i < es.len()
        invariant
            i <= es@.len(),
            try_map_members(es@.take(i as int), provenance_reader()) == Ok::<Seq<(u64, ProvenanceView)>, Seq<char>>(out@.map_values(|p: (u64, ProvenanceDoc)| (p.0, p.1@))),
        decreases es@.len() - i,
    {
        proof {
            assert(es@.take(i + 1).drop_last() =~= es@.take(i as int));
            assert(es@.take(i + 1).last() == es@[i as int]);
        }
        match read_provenance(es[i].0.as_str(), &es[i].1) {
            Ok(x) => {
                let ghost before = out@.map_values(|p: (u64, ProvenanceDoc)| (p.0, p.1@));
                let ghost xv = (|p: (u64, ProvenanceDoc)| (p.0, p.1@))(x);
                out.push(x);
                proof {
                    assert(out@.map_values(|p: (u64, ProvenanceDoc)| (p.0, p.1@)) =~= before.push(xv));
                }
            },
            Err(e) => {
                proof {
                    lemma_try_map_members_err(es@, provenance_reader(), i + 1);
                }
                return Err(e);
            },
        }
        i += 1;
    }
    proof {
        assert(es@.take(es@.len() as int) =~= es@);
    }
    Ok(out)
}

fn read_layers(es: &Vec<(String, Json)>) -> (r: Result<Vec<(LayerKind, World)>, String>)
    ensures
        match r {
            Ok(v) => try_map_members(es@, layer_reader()) == Ok::<Seq<(LayerKind, Map<TimePoint, SnapshotId>)>, Seq<char>>(
                v@.map_values(|l: (LayerKind, World)| (l.0, l.1@)),
            ) && forall|l: int| 0 <= l < v@.len() ==> (#[trigger] v@[l]).1.wf(),
            Err(e) => try_map_members(es@, layer_reader()) == Err::<Seq<(LayerKind, Map<TimePoint, SnapshotId>)>, Seq<char>>(e@),
        },
{
    let mut out: Vec<(LayerKind, World)> = Vec::new();
    let mut i: usize = 0;
    proof {
        assert(es@.take(0) =~= Seq::<(String, Json)>::empty());
        assert(out@.map_values(|l: (LayerKind, World)| (l.0, l.1@)) =~= Seq::<(LayerKind, Map<TimePoint, SnapshotId>)>::empty());
    }
    while i < es.len()
        invariant
            i <= es@.len(),
            try_map_members(es@.take(i as int), layer_reader()) == Ok::<Seq<(LayerKind, Map<TimePoint, SnapshotId>)>, Seq<char>>(
                out@.map_values(|l: (LayerKind, World)| (l.0, l.1@)),
            ),
            forall|l: int| 0 <= l < out@.len() ==> (#[trigger] out@[l]).1.wf(),
        decreases es@.len() - i,
    {
        proof {
            assert(es@.take(i + 1).drop_last() =~= es@.take(i as int));
            assert(es@.take(i + 1).last() == es@[i as int]);
        }
        match read_layer(es[i].0.as_str(), &es[i].1) {
            Ok(x) => {
                let ghost before = out@.map_values(|l: (LayerKind, World)| (l.0, l.1@));
                let ghost xv = (x.0, x.1@);
                out.push(x);
                proof {
                    assert(out@.map_values(|l: (LayerKind, World)| (l.0, l.1@)) =~= before.push(xv));
                }
            },
            Err(e) => {
                proof {
                    lemma_try_map_members_err(es@, layer_reader(), i + 1);
                }
                return Err(e);
            },
        }
        i += 1;
    }
    proof {
        assert(es@.take(es@.len() as int) =~= es@);
    }
    Ok(out)
}

/// Reads a parsed canon file: every section in turn, every content id
/// recomputed and checked against the id it is declared under.
pub fn canon_from_json(doc: &Json) -> (r: Result<CanonDoc, String>)
    ensures
        match r {
            Ok(d) => spec_canon_of(*doc) == Ok::<CanonDocView, Seq<char>>(d@) && d.wf(),
            Err(e) => spec_canon_of(*doc) == Err::<CanonDocView, Seq<char>>(e@),
        },
{
    let bs = match read_section(doc, "borders") {
        Ok(x) => x,
        Err(e) => return Err(e),
    };
    let borders = match read_borders(bs) {
        Ok(x) => x,
        Err(e) => return Err(e),
    };
    let fs = match read_section(doc, "features") {
        Ok(x) => x,
        Err(e) => return Err(e),
    };
    let features = match read_features(fs) {
        Ok(x) => x,
        Err(e) => return Err(e),
    };
    let ss = match read_section(doc, "snapshots") {
        Ok(x) => x,
        Err(e) => return Err(e),
    };
    let snapshots = match read_snapshots(ss) {
        Ok(x) => x,
        Err(e) => return Err(e),
    };
    let ls = match read_section(doc, "layers") {
        Ok(x) => x,
        Err(e) => return Err(e),
    };
    let layers = match read_layers(ls) {
        Ok(x) => x,
        Err(e) => return Err(e),
    };
    let ps = match read_section(doc, "provenance") {
        Ok(x) => x,
        Err(e) => return Err(e),
    };
    let provenance = match read_provenances(ps) {
        Ok(x) => x,
        Err(e) => return Err(e),
    };
    let d = CanonDoc { borders, features, snapshots, layers, provenance };
    proof {
        assert(d@.borders == borders@.map_values(|b: (u64, Vec<PointText>)| (b.0, points_view(b.1@))));
    }
    Ok(d)
}

/// Loads a canon file: the bytes must parse as JSON, then read as
/// `canon_from_json` reads them.
pub fn canon_from_bytes(bytes: &[u8]) -> (r: Result<CanonDoc, String>)
    ensures
        match r {
            Ok(d) => spec_canon_of_bytes(bytes@) == Ok::<CanonDocView, Seq<char>>(d@) && d.wf(),
            Err(e) => spec_canon_of_bytes(bytes@) == Err::<CanonDocView, Seq<char>>(e@),
        },
{
    match parse_json_bytes(bytes) {
        Ok(doc) => canon_from_json(&doc),
        Err(e) => Err(concat2("canon: bad json: ", e.as_str())),
    }
}

// ---------------------------------------------------------- writing

/// An id as the file writes it: sixteen hex digits.
pub open spec fn id_json(id: u64) -> JsonView {
    JsonView::Str(hex_digits(id as nat, 16))
}

/// A timestamp as an object with its members in key order: `d` and `m`
/// where present, and `y`.
pub open spec fn time_json(t: TimePoint) -> JsonView {
    JsonView::Object(
        match t.day {
            Some(d) => seq![("d"@, JsonView::Number(decimal_text(d as nat)))],
            None => Seq::empty(),
        } + match t.month {
            Some(m) => seq![("m"@, JsonView::Number(decimal_text(m as nat)))],
            None => Seq::empty(),
        } + seq![("y"@, JsonView::Number(int_text(t.year as int)))],
    )
}

pub open spec fn point_json(p: PointView) -> JsonView {
    JsonView::Array(seq![JsonView::Number(p.0), JsonView::Number(p.1), JsonView::Number(p.2)])
}

pub open spec fn ids_json(ids: Seq<u64>) -> JsonView {
    JsonView::Array(ids.map_values(|i: u64| id_json(i)))
}

pub open spec fn leg_json(l: LegView) -> JsonView {
    JsonView::Object(
        seq![
            ("border"@, id_json(l.border)),
            ("from"@, JsonView::Str(l.from)),
            ("span"@, JsonView::Array(seq![time_json(l.start), time_json(l.end)])),
            ("to"@, JsonView::Str(l.to)),
        ],
    )
}

/// A feature as an object with its members in key order.
pub open spec fn feature_json(f: FeatureView) -> JsonView {
    let e = ("entity"@, JsonView::Str(f.entity));
    let n = ("name"@, JsonView::Str(f.name));
    match f.shape {
        ShapeView::Area { rings, holes } => JsonView::Object(
            seq![e, ("holes"@, ids_json(holes)), ("kind"@, JsonView::Str("area"@)), n, ("rings"@, ids_json(rings))],
        ),
        ShapeView::Way { legs } => JsonView::Object(
            seq![e, ("kind"@, JsonView::Str("way"@)), ("legs"@, JsonView::Array(legs.map_values(|l: LegView| leg_json(l)))), n],
        ),
        ShapeView::Point { at } => JsonView::Object(
            seq![("at"@, point_json(at)), e, ("kind"@, JsonView::Str("point"@)), n],
        ),
        ShapeView::Line { border } => JsonView::Object(
            seq![("border"@, id_json(border)), e, ("kind"@, JsonView::Str("line"@)), n],
        ),
        ShapeView::Memory { at } => JsonView::Object(
            seq![("at"@, point_json(at)), e, ("kind"@, JsonView::Str("memory"@)), n],
        ),
    }
}

pub open spec fn provenance_json(p: ProvenanceView) -> JsonView {
    JsonView::Object(
        seq![
            ("note"@, JsonView::Str(p.note)),
            ("verses"@, JsonView::Array(p.verses.map_values(|v: Seq<char>| JsonView::Str(v)))),
            ("witness"@, JsonView::Str(spec_witness_name(p.witness))),
        ],
    )
}

/// A layer's moments in time order, each `[timestamp, snapshot id]`.
pub open spec fn moments_json(ms: Seq<(TimePoint, SnapshotId)>) -> JsonView {
    JsonView::Array(ms.map_values(|m: (TimePoint, SnapshotId)| JsonView::Array(seq![time_json(m.0), id_json(m.1.0)])))
}

/// The canon file a doc is written as: the sections in key order, each
/// holding the doc's entries in its order, layers' moments in time
/// order.
pub open spec fn spec_canon_json(d: CanonDoc) -> JsonView {
    JsonView::Object(
        seq![
            ("borders"@, JsonView::Object(d@.borders.map_values(|b: (u64, Seq<PointView>)|
                (hex_digits(b.0 as nat, 16), JsonView::Array(b.1.map_values(|p: PointView| point_json(p))))))),
            ("features"@, JsonView::Object(d@.features.map_values(|f: (u64, FeatureView)|
                (hex_digits(f.0 as nat, 16), feature_json(f.1))))),
            ("layers"@, JsonView::Object(d.layers@.map_values(|l: (LayerKind, World)|
                (spec_layer_name(l.0), moments_json(l.1.entries()))))),
            ("provenance"@, JsonView::Object(d@.provenance.map_values(|p: (u64, ProvenanceView)|
                (hex_digits(p.0 as nat, 16), provenance_json(p.1))))),
            ("snapshots"@, JsonView::Object(d@.snapshots.map_values(|x: (u64, Seq<u64>)|
                (hex_digits(x.0 as nat, 16), ids_json(x.1))))),
        ],
    )
}

fn id_to_json(id: u64) -> (j: Json)
    ensures
        json_view(j) == id_json(id),
{
    Json::Str(hex(id))
}

fn member_of(key: &str, v: Json) -> (m: (String, Json))
    ensures
        m.0@ == key@,
        m.1 == v,
{
    (owned(key), v)
}

fn time_to_json(t: TimePoint) -> (j: Json)
    ensures
        json_view(j) == time_json(t),
{
    let mut es: Vec<(String, Json)> = Vec::new();
    match t.day {
        Some(d) => es.push(member_of("d", Json::Number(decimal(d as usize)))),
        None => {},
    }
    match t.month {
        Some(m) => es.push(member_of("m", Json::Number(decimal(m as usize)))),
        None => {},
    }
    es.push(member_of("y", Json::Number(int_to_text(t.year))));
    proof {
        lemma_members_view(es@);
        let want = match t.day {
            Some(d) => seq![("d"@, JsonView::Number(decimal_text(d as nat)))],
            None => Seq::empty(),
        } + match t.month {
            Some(m) => seq![("m"@, JsonView::Number(decimal_text(m as nat)))],
            None => Seq::empty(),
        } + seq![("y"@, JsonView::Number(int_text(t.year as int)))];
        assert(members_view(es@) =~= want);
    }
    Json::Object(es)
}

fn point_to_json(p: &PointText) -> (j: Json)
    ensures
        json_view(j) == point_json(p@),
{
    let mut v: Vec<Json> = Vec::new();
    v.push(Json::Number(p.x.clone()));
    v.push(Json::Number(p.y.clone()));
    v.push(Json::Number(p.z.clone()));
    proof {
        lemma_items_view(v@);
        assert(items_view(v@) =~= seq![JsonView::Number(p.x@), JsonView::Number(p.y@), JsonView::Number(p.z@)]);
    }
    Json::Array(v)
}

fn ids_to_json(ids: &Vec<u64>) -> (j: Json)
    ensures
        json_view(j) == ids_json(ids@),
{
    let mut v: Vec<Json> = Vec::new();
    let mut i: usize = 0;
    while i < ids.len()
        invariant
            i <= ids@.len(),
            v@.len() == i,
            forall|k: int| 0 <= k < i ==> json_view(#[trigger] v@[k]) == id_json(ids@[k]),
        decreases ids@.len() - i,
    {
        v.push(id_to_json(ids[i]));
        i += 1;
    }
    proof {
        lemma_items_view(v@);
        assert(items_view(v@) =~= ids@.map_values(|i: u64| id_json(i)));
    }
    Json::Array(v)
}

fn leg_to_json(l: &LegDoc) -> (j: Json)
    ensures
        json_view(j) == leg_json(l@),
{
    let mut span: Vec<Json> = Vec::new();
    span.push(time_to_json(l.start));
    span.push(time_to_json(l.end));
    proof {
        lemma_items_view(span@);
        assert(items_view(span@) =~= seq![time_json(l.start), time_json(l.end)]);
    }
    let mut es: Vec<(String, Json)> = Vec::new();
    es.push(member_of("border", id_to_json(l.border)));
    es.push(member_of("from", Json::Str(l.from.clone())));
    es.push(member_of("span", Json::Array(span)));
    es.push(member_of("to", Json::Str(l.to.clone())));
    proof {
        lemma_members_view(es@);
        assert(members_view(es@) =~= seq![
            ("border"@, id_json(l.border)),
            ("from"@, JsonView::Str(l.from@)),
            ("span"@, JsonView::Array(seq![time_json(l.start), time_json(l.end)])),
            ("to"@, JsonView::Str(l.to@)),
        ]);
    }
    Json::Object(es)
}

fn legs_to_json(ls: &Vec<LegDoc>) -> (j: Json)
    ensures
        json_view(j) == JsonView::Array(ls@.map_values(|l: LegDoc| l@).map_values(|l: LegView| leg_json(l))),
{
    let mut v: Vec<Json> = Vec::new();
    let mut i: usize = 0;
    while i < ls.len()
        invariant
            i <= ls@.len(),
            v@.len() == i,
            forall|k: int| 0 <= k < i ==> json_view(#[trigger] v@[k]) == leg_json(ls@[k]@),
        decreases ls@.len() - i,
    {
        v.push(leg_to_json(&ls[i]));
        i += 1;
    }
    proof {
        lemma_items_view(v@);
        assert(items_view(v@) =~= ls@.map_values(|l: LegDoc| l@).map_values(|l: LegView| leg_json(l)));
    }
    Json::Array(v)
}

fn feature_to_json(f: &FeatureDoc) -> (j: Json)
    ensures
        json_view(j) == feature_json(f@),
{
    let e = member_of("entity", Json::Str(f.entity.clone()));
    let n = member_of("name", Json::Str(f.name.clone()));
    let ghost ev = ("entity"@, JsonView::Str(f.entity@));
    let ghost nv = ("name"@, JsonView::Str(f.name@));
    let mut es: Vec<(String, Json)> = Vec::new();
    match &f.shape {
        ShapeDoc::Area { rings, holes } => {
            es.push(e);
            es.push(member_of("holes", ids_to_json(holes)));
            es.push(member_of("kind", Json::Str(owned("area"))));
            es.push(n);
            es.push(member_of("rings", ids_to_json(rings)));
            proof {
                lemma_members_view(es@);
                assert(members_view(es@) =~= seq![ev, ("holes"@, ids_json(holes@)), ("kind"@, JsonView::Str("area"@)), nv,
                    ("rings"@, ids_json(rings@))]);
            }
        },
        ShapeDoc::Way { legs } => {
            es.push(e);
            es.push(member_of("kind", Json::Str(owned("way"))));
            es.push(member_of("legs", legs_to_json(legs)));
            es.push(n);
            proof {
                lemma_members_view(es@);
                assert(members_view(es@) =~= seq![ev, ("kind"@, JsonView::Str("way"@)),
                    ("legs"@, JsonView::Array(legs@.map_values(|l: LegDoc| l@).map_values(|l: LegView| leg_json(l)))), nv]);
            }
        },
        ShapeDoc::Point { at } => {
            es.push(member_of("at", point_to_json(at)));
            es.push(e);
            es.push(member_of("kind", Json::Str(owned("point"))));
            es.push(n);
            proof {
                lemma_members_view(es@);
                assert(members_view(es@) =~= seq![("at"@, point_json(at@)), ev, ("kind"@, JsonView::Str("point"@)), nv]);
            }
        },
        ShapeDoc::Line { border } => {
            es.push(member_of("border", id_to_json(*border)));
            es.push(e);
            es.push(member_of("kind", Json::Str(owned("line"))));
            es.push(n);
            proof {
                lemma_members_view(es@);
                assert(members_view(es@) =~= seq![("border"@, id_json(*border)), ev, ("kind"@, JsonView::Str("line"@)), nv]);
            }
        },
        ShapeDoc::Memory { at } => {
            es.push(member_of("at", point_to_json(at)));
            es.push(e);
            es.push(member_of("kind", Json::Str(owned("memory"))));
            es.push(n);
            proof {
                lemma_members_view(es@);
                assert(members_view(es@) =~= seq![("at"@, point_json(at@)), ev, ("kind"@, JsonView::Str("memory"@)), nv]);
            }
        },
    }
    Json::Object(es)
}

fn provenance_to_json(p: &ProvenanceDoc) -> (j: Json)
    ensures
        json_view(j) == provenance_json(p@),
{
    let mut vs: Vec<Json> = Vec::new();
    let mut i: usize = 0;
    while i < p.verses.len()
        invariant
            i <= p.verses@.len(),
            vs@.len() == i,
            forall|k: int| 0 <= k < i ==> json_view(#[trigger] vs@[k]) == JsonView::Str(p.verses@[k]@),
        decreases p.verses@.len() - i,
    {
        vs.push(Json::Str(p.verses[i].clone()));
        i += 1;
    }
    proof {
        lemma_items_view(vs@);
        assert(items_view(vs@) =~= p@.verses.map_values(|v: Seq<char>| JsonView::Str(v)));
    }
    let mut es: Vec<(String, Json)> = Vec::new();
    es.push(member_of("note", Json::Str(p.note.clone())));
    es.push(member_of("verses", Json::Array(vs)));
    es.push(member_of("witness", Json::Str(owned(witness_name(&p.witness)))));
    proof {
        lemma_members_view(es@);
        assert(members_view(es@) =~= seq![
            ("note"@, JsonView::Str(p.note@)),
            ("verses"@, JsonView::Array(p@.verses.map_values(|v: Seq<char>| JsonView::Str(v)))),
            ("witness"@, JsonView::Str(spec_witness_name(p.witness))),
        ]);
    }
    Json::Object(es)
}

fn moments_to_json(w: &World) -> (j: Json)
    ensures
        json_view(j) == moments_json(w.entries()),
{
    let ms = w.moments();
    let mut v: Vec<Json> = Vec::new();
    let mut i: usize = 0;
    while i < ms.len()
        invariant
            ms@ == w.entries(),
            i <= ms@.len(),
            v@.len() == i,
            forall|k: int| 0 <= k < i ==> json_view(#[trigger] v@[k]) == JsonView::Array(
                seq![time_json(ms@[k].0), id_json(ms@[k].1.0)],
            ),
        decreases ms@.len() - i,
    {
        let mut pair: Vec<Json> = Vec::new();
        pair.push(time_to_json(ms[i].0));
        pair.push(id_to_json(ms[i].1.0));
        proof {
            lemma_items_view(pair@);
            assert(items_view(pair@) =~= seq![time_json(ms@[i as int].0), id_json(ms@[i as int].1.0)]);
        }
        v.push(Json::Array(pair));
        i += 1;
    }
    proof {
        lemma_items_view(v@);
        assert(items_view(v@) =~= w.entries().map_values(|m: (TimePoint, SnapshotId)|
            JsonView::Array(seq![time_json(m.0), id_json(m.1.0)])));
    }
    Json::Array(v)
}

/// Writes a doc as a canon file: the sections in key order, each entry
/// under its id, in the doc's order; a layer's moments in time order.
pub fn canon_to_json(d: &CanonDoc) -> (j: Json)
    ensures
        json_view(j) == spec_canon_json(*d),
        canon_doc_ok(*d) ==> spec_canon_of(j) == Ok::<CanonDocView, Seq<char>>(d@),
{
    let mut bs: Vec<(String, Json)> = Vec::new();
    let mut i: usize = 0;
    while i < d.borders.len()
        invariant
            i <= d.borders@.len(),
            bs@.len() == i,
            forall|k: int| 0 <= k < i ==> (#[trigger] bs@[k]).0@ == hex_digits(d.borders@[k].0 as nat, 16)
                && json_view(bs@[k].1) == JsonView::Array(points_view(d.borders@[k].1@).map_values(|p: PointView| point_json(p))),
        decreases d.borders@.len() - i,
    {
        let ps = &d.borders[i].1;
        let mut v: Vec<Json> = Vec::new();
        let mut k: usize = 0;
        while k < ps.len()
            invariant
                k <= ps@.len(),
                v@.len() == k,
                forall|q: int| 0 <= q < k ==> json_view(#[trigger] v@[q]) == point_json(ps@[q]@),
            decreases ps@.len() - k,
        {
            v.push(point_to_json(&ps[k]));
            k += 1;
        }
        proof {
            lemma_items_view(v@);
            assert(items_view(v@) =~= points_view(ps@).map_values(|p: PointView| point_json(p)));
        }
        bs.push((hex(d.borders[i].0), Json::Array(v)));
        i += 1;
    }
    let mut fs: Vec<(String, Json)> = Vec::new();
    let mut i: usize = 0;
    while i < d.features.len()
        invariant
            i <= d.features@.len(),
            fs@.len() == i,
            forall|k: int| 0 <= k < i ==> (#[trigger] fs@[k]).0@ == hex_digits(d.features@[k].0 as nat, 16)
                && json_view(fs@[k].1) == feature_json(d.features@[k].1@),
        decreases d.features@.len() - i,
    {
        fs.push((hex(d.features[i].0), feature_to_json(&d.features[i].1)));
        i += 1;
    }
    let mut ls: Vec<(String, Json)> = Vec::new();
    let mut i: usize = 0;
    while i < d.layers.len()
        invariant
            i <= d.layers@.len(),
            ls@.len() == i,
            forall|k: int| 0 <= k < i ==> (#[trigger] ls@[k]).0@ == spec_layer_name(d.layers@[k].0)
                && json_view(ls@[k].1) == moments_json(d.layers@[k].1.entries()),
        decreases d.layers@.len() - i,
    {
        ls.push((owned(layer_name(&d.layers[i].0)), moments_to_json(&d.layers[i].1)));
        i += 1;
    }
    let mut ps: Vec<(String, Json)> = Vec::new();
    let mut i: usize = 0;
    while i < d.provenance.len()
        invariant
            i <= d.provenance@.len(),
            ps@.len() == i,
            forall|k: int| 0 <= k < i ==> (#[trigger] ps@[k]).0@ == hex_digits(d.provenance@[k].0 as nat, 16)
                && json_view(ps@[k].1) == provenance_json(d.provenance@[k].1@),
        decreases d.provenance@.len() - i,
    {
        ps.push((hex(d.provenance[i].0), provenance_to_json(&d.provenance[i].1)));
        i += 1;
    }
    let mut ss: Vec<(String, Json)> = Vec::new();
    let mut i: usize = 0;
    while i < d.snapshots.len()
        invariant
            i <= d.snapshots@.len(),
            ss@.len() == i,
            forall|k: int| 0 <= k < i ==> (#[trigger] ss@[k]).0@ == hex_digits(d.snapshots@[k].0 as nat, 16)
                && json_view(ss@[k].1) == ids_json(d.snapshots@[k].1@),
        decreases d.snapshots@.len() - i,
    {
        ss.push((hex(d.snapshots[i].0), ids_to_json(&d.snapshots[i].1)));
        i += 1;
    }
    proof {
        lemma_members_view(bs@);
        lemma_members_view(fs@);
        lemma_members_view(ls@);
        lemma_members_view(ps@);
        lemma_members_view(ss@);
    }
    let ghost bv = members_view(bs@);
    let ghost fv = members_view(fs@);
    let ghost lv = members_view(ls@);
    let ghost pv = members_view(ps@);
    let ghost sv = members_view(ss@);
    let mut root: Vec<(String, Json)> = Vec::new();
    root.push(member_of("borders", Json::Object(bs)));
    root.push(member_of("features", Json::Object(fs)));
    root.push(member_of("layers", Json::Object(ls)));
    root.push(member_of("provenance", Json::Object(ps)));
    root.push(member_of("snapshots", Json::Object(ss)));
    proof {
        lemma_members_view(root@);
        assert(bv =~= d@.borders.map_values(|b: (u64, Seq<PointView>)|
            (hex_digits(b.0 as nat, 16), JsonView::Array(b.1.map_values(|p: PointView| point_json(p))))));
        assert(fv =~= d@.features.map_values(|f: (u64, FeatureView)| (hex_digits(f.0 as nat, 16), feature_json(f.1))));
        assert(lv =~= d.layers@.map_values(|l: (LayerKind, World)| (spec_layer_name(l.0), moments_json(l.1.entries()))));
        assert(pv =~= d@.provenance.map_values(|p: (u64, ProvenanceView)| (hex_digits(p.0 as nat, 16), provenance_json(p.1))));
        assert(sv =~= d@.snapshots.map_values(|x: (u64, Seq<u64>)| (hex_digits(x.0 as nat, 16), ids_json(x.1))));
        assert(members_view(root@) =~= seq![
            ("borders"@, JsonView::Object(bv)),
            ("features"@, JsonView::Object(fv)),
            ("layers"@, JsonView::Object(lv)),
            ("provenance"@, JsonView::Object(pv)),
            ("snapshots"@, JsonView::Object(sv)),
        ]);
    }
    let j = Json::Object(root);
    proof {
        if canon_doc_ok(*d) {
            law_canon_reads_back(j, *d);
        }
    }
    j
}

/// Writes a doc as canon file bytes: `canon_to_json`, pretty-printed.
pub fn canon_to_bytes(d: &CanonDoc) -> (r: Result<Vec<u8>, String>)
    ensures
        match r {
            Ok(b) => spec_json_pretty(spec_canon_json(*d)) == Ok::<Seq<u8>, Seq<char>>(b@),
            Err(e) => spec_json_pretty(spec_canon_json(*d)) == Err::<Seq<u8>, Seq<char>>(e@),
        },
{
    let j = canon_to_json(d);
    json_pretty(&j)
}

// -------------------------------------------------------------- laws

/// Ids in strictly increasing order.
pub open spec fn ids_increasing(s: Seq<u64>) -> bool {
    forall|i: int, j: int| 0 <= i < j < s.len() ==> s[i] < s[j]
}

proof fn lemma_insert_id(s: Seq<u64>, x: u64)
    requires
        ids_increasing(s),
    ensures
        ids_increasing(insert_id(s, x)),
        forall|y: u64| #[trigger] insert_id(s, x).contains(y) <==> s.contains(y) || y == x,
    decreases s.len(),
{
    let r = insert_id(s, x);
    if s.len() == 0 {
        assert(r == seq![x]);
        assert forall|y: u64| r.contains(y) <==> s.contains(y) || y == x by {
            if r.contains(y) {
                assert(r[0] == x);
            }
            if y == x {
                assert(r[0] == x);
            }
        }
    } else if x < s[0] {
        assert(r == seq![x] + s);
        assert forall|i: int, j: int| 0 <= i < j < r.len() implies r[i] < r[j] by {
            if i > 0 {
                assert(r[i] == s[i - 1] && r[j] == s[j - 1]);
            } else {
                assert(r[j] == s[j - 1]);
                if j - 1 > 0 {
                    assert(s[0] < s[j - 1]);
                }
            }
        }
        assert forall|y: u64| r.contains(y) <==> s.contains(y) || y == x by {
            if r.contains(y) {
                let i = choose|i: int| 0 <= i < r.len() && r[i] == y;
                if i > 0 {
                    assert(s[i - 1] == y);
                }
            }
            if s.contains(y) {
                let i = choose|i: int| 0 <= i < s.len() && s[i] == y;
                assert(r[i + 1] == y);
            }
            if y == x {
                assert(r[0] == x);
            }
        }
    } else if x == s[0] {
        assert forall|y: u64| r.contains(y) <==> s.contains(y) || y == x by {
            if y == x {
                assert(s[0] == x);
            }
        }
    } else {
        let t = s.drop_first();
        assert(ids_increasing(t)) by {
            assert forall|i: int, j: int| 0 <= i < j < t.len() implies t[i] < t[j] by {
                assert(t[i] == s[i + 1] && t[j] == s[j + 1]);
            }
        }
        lemma_insert_id(t, x);
        let rt = insert_id(t, x);
        assert(r == seq![s[0]] + rt);
        assert forall|i: int, j: int| 0 <= i < j < r.len() implies r[i] < r[j] by {
            assert(r[j] == rt[j - 1]);
            if i > 0 {
                assert(r[i] == rt[i - 1]);
            } else {
                let y = rt[j - 1];
                assert(rt.contains(y));
                assert(t.contains(y) || y == x);
                if y != x {
                    assert(t.contains(y));
                    let k = choose|k: int| 0 <= k < t.len() && t[k] == y;
                    assert(t[k] == s[k + 1]);
                    assert(s[0] < s[k + 1]);
                }
            }
        }
        assert forall|y: u64| r.contains(y) <==> s.contains(y) || y == x by {
            if r.contains(y) {
                let i = choose|i: int| 0 <= i < r.len() && r[i] == y;
                if i > 0 {
                    assert(rt[i - 1] == y);
                    assert(rt.contains(y));
                    if t.contains(y) {
                        let k = choose|k: int| 0 <= k < t.len() && t[k] == y;
                        assert(s[k + 1] == y);
                    }
                } else {
                    assert(s[0] == y);
                }
            }
            if s.contains(y) {
                let i = choose|i: int| 0 <= i < s.len() && s[i] == y;
                if i > 0 {
                    assert(t[i - 1] == y);
                    assert(t.contains(y));
                    assert(rt.contains(y));
                    let k = choose|k: int| 0 <= k < rt.len() && rt[k] == y;
                    assert(r[k + 1] == y);
                } else {
                    assert(r[0] == y);
                }
            }
            if y == x {
                assert(rt.contains(x));
                let k = choose|k: int| 0 <= k < rt.len() && rt[k] == x;
                assert(r[k + 1] == x);
            }
        }
    }
}

/// A LOADED ID LIST IS A SET: the ids a feature's rings or holes, or a
/// snapshot's features, read as come out in strictly increasing order,
/// each id read exactly once.
pub proof fn law_id_set(ids: Seq<u64>)
    ensures
        ids_increasing(id_set(ids)),
        forall|y: u64| id_set(ids).contains(y) <==> ids.contains(y),
    decreases ids.len(),
{
    if ids.len() > 0 {
        let p = ids.drop_last();
        law_id_set(p);
        lemma_insert_id(id_set(p), ids.last());
        assert forall|y: u64| id_set(ids).contains(y) <==> ids.contains(y) by {
            if p.contains(y) {
                let k = choose|k: int| 0 <= k < p.len() && p[k] == y;
                assert(ids[k] == y);
            }
            if ids.contains(y) {
                let k = choose|k: int| 0 <= k < ids.len() && ids[k] == y;
                if k < ids.len() - 1 {
                    assert(p[k] == y);
                }
            }
        }
    }
}

// ----------------------------------------------- what is written reads back

proof fn lemma_keys_differ()
    ensures
        "d"@ != "m"@ && "d"@ != "y"@ && "m"@ != "y"@,
{
    reveal_strlit("d");
    reveal_strlit("m");
    reveal_strlit("y");
    assert("d"@[0] != "m"@[0] && "d"@[0] != "y"@[0] && "m"@[0] != "y"@[0]);
}

proof fn lemma_number_i64(j: Json, v: int)
    requires
        json_view(j) == JsonView::Number(int_text(v)),
        -0x8000_0000_0000_0000 <= v <= 0x7fff_ffff_ffff_ffff,
    ensures
        json_i64(j) == Some(v),
{
    law_i64_decimal_round_trip(v);
}

proof fn lemma_number_u8(j: Json, m: u8)
    requires
        json_view(j) == JsonView::Number(decimal_text(m as nat)),
    ensures
        opt_u8(Some(j)) == Some(m),
{
    law_u64_decimal_round_trip(m as nat);
}

/// A timestamp as written reads back as itself.
proof fn lemma_time_reads_back(j: Json, t: TimePoint)
    requires
        json_view(j) == time_json(t),
        t.year != 0,
    ensures
        time_of(j) == Ok::<TimePoint, Seq<char>>(t),
{
    lemma_keys_differ();
    match j {
        Json::Object(v) => {
            let es = v@;
            lemma_members_view(es);
            let n = es.len() as int;
            let yv = ("y"@, JsonView::Number(int_text(t.year as int)));
            match (t.day, t.month) {
                (Some(d), Some(m)) => {
                    assert(members_view(es) == seq![("d"@, JsonView::Number(decimal_text(d as nat))),
                        ("m"@, JsonView::Number(decimal_text(m as nat)))] + seq![yv]);
                },
                (Some(d), None) => {
                    assert(members_view(es) == seq![("d"@, JsonView::Number(decimal_text(d as nat)))] + Seq::empty() + seq![yv]);
                },
                (None, Some(m)) => {
                    assert(members_view(es) == Seq::empty() + seq![("m"@, JsonView::Number(decimal_text(m as nat)))] + seq![yv]);
                },
                (None, None) => {
                    assert(members_view(es) == Seq::<(Seq<char>, JsonView)>::empty() + Seq::empty() + seq![yv]);
                },
            }
            assert(members_view(es)[n - 1] == yv);
            assert(es[n - 1].0@ == "y"@);
            lemma_number_i64(es[n - 1].1, t.year as int);
            match (t.day, t.month) {
                (Some(d), Some(m)) => {
                    assert(n == 3);
                    assert(members_view(es)[0] == ("d"@, JsonView::Number(decimal_text(d as nat))));
                    assert(members_view(es)[1] == ("m"@, JsonView::Number(decimal_text(m as nat))));
                    assert(es[0].0@ == "d"@ && es[1].0@ == "m"@);
                    lemma_member_at(es, "y"@, 2, 0);
                    lemma_member_at(es, "m"@, 1, 0);
                    lemma_member_at(es, "d"@, 0, 0);
                    lemma_number_u8(es[0].1, d);
                    lemma_number_u8(es[1].1, m);
                },
                (Some(d), None) => {
                    assert(n == 2);
                    assert(members_view(es)[0] == ("d"@, JsonView::Number(decimal_text(d as nat))));
                    assert(es[0].0@ == "d"@);
                    lemma_member_at(es, "y"@, 1, 0);
                    lemma_member_none(es, "m"@, 0);
                    lemma_member_at(es, "d"@, 0, 0);
                    lemma_number_u8(es[0].1, d);
                },
                (None, Some(m)) => {
                    assert(n == 2);
                    assert(members_view(es)[0] == ("m"@, JsonView::Number(decimal_text(m as nat))));
                    assert(es[0].0@ == "m"@);
                    lemma_member_at(es, "y"@, 1, 0);
                    lemma_member_at(es, "m"@, 0, 0);
                    lemma_member_none(es, "d"@, 0);
                    lemma_number_u8(es[0].1, m);
                },
                (None, None) => {
                    assert(n == 1);
                    lemma_member_at(es, "y"@, 0, 0);
                    lemma_member_none(es, "m"@, 0);
                    lemma_member_none(es, "d"@, 0);
                },
            }
        },
        _ => {},
    }
}

/// A point as written reads back as itself.
proof fn lemma_point_reads_back(j: Json, p: PointView, shape: Seq<char>)
    requires
        json_view(j) == point_json(p),
    ensures
        point_of(j, shape) == Ok::<PointView, Seq<char>>(p),
{
    match j {
        Json::Array(v) => {
            lemma_items_view(v@);
            assert(json_view(v@[0]) == JsonView::Number(p.0));
            assert(json_view(v@[1]) == JsonView::Number(p.1));
            assert(json_view(v@[2]) == JsonView::Number(p.2));
        },
        _ => {},
    }
}

/// Ids as written read back, by either id reader.
proof fn lemma_ids_read_back(items: Seq<Json>, xs: Seq<u64>, key: Seq<char>)
    requires
        items_view(items) == xs.map_values(|i: u64| id_json(i)),
    ensures
        try_map(items, id_reader(key)) == Ok::<Seq<u64>, Seq<char>>(xs),
        try_map(items, snapshot_id_reader()) == Ok::<Seq<u64>, Seq<char>>(xs),
{
    lemma_items_view(items);
    assert(items_view(items).len() == xs.len());
    assert(items.len() == xs.len());
    assert forall|k: int| 0 <= k < items.len() implies id_reader(key)(#[trigger] items[k]) == Ok::<u64, Seq<char>>(xs[k])
        && snapshot_id_reader()(items[k]) == Ok::<u64, Seq<char>>(xs[k]) by {
        assert(items_view(items)[k] == json_view(items[k]));
        assert(xs.map_values(|i: u64| id_json(i))[k] == id_json(xs[k]));
        assert(json_view(items[k]) == id_json(xs[k]));
        law_hex_round_trip(xs[k]);
    }
    lemma_try_map_all(items, id_reader(key), xs);
    lemma_try_map_all(items, snapshot_id_reader(), xs);
}

/// Ids already in increasing order are their own set.
proof fn lemma_id_set_increasing(xs: Seq<u64>)
    requires
        ids_increasing(xs),
    ensures
        id_set(xs) == xs,
    decreases xs.len(),
{
    if xs.len() > 0 {
        let p = xs.drop_last();
        assert(ids_increasing(p)) by {
            assert forall|i: int, j: int| 0 <= i < j < p.len() implies p[i] < p[j] by {
                assert(p[i] == xs[i] && p[j] == xs[j]);
            }
        }
        lemma_id_set_increasing(p);
        lemma_insert_past_all(p, xs.last());
        assert(p.push(xs.last()) =~= xs);
    }
}

/// An id above all of an increasing list goes at its end.
proof fn lemma_insert_past_all(s: Seq<u64>, x: u64)
    requires
        forall|i: int| 0 <= i < s.len() ==> s[i] < x,
    ensures
        insert_id(s, x) == s.push(x),
    decreases s.len(),
{
    if s.len() > 0 {
        let t = s.drop_first();
        assert forall|i: int| 0 <= i < t.len() implies t[i] < x by {
            assert(t[i] == s[i + 1]);
        }
        lemma_insert_past_all(t, x);
        assert(seq![s[0]] + t.push(x) =~= s.push(x));
    } else {
        assert(seq![x] =~= s.push(x));
    }
}

/// A border as written reads back under its id.
proof fn lemma_border_reads_back(key: Seq<char>, j: Json, id: u64, ps: Seq<PointView>)
    requires
        key == hex_digits(id as nat, 16),
        json_view(j) == JsonView::Array(ps.map_values(|p: PointView| point_json(p))),
        id == border_id(ps),
    ensures
        border_entry(key, j) == Ok::<(u64, Seq<PointView>), Seq<char>>((id, ps)),
{
    match j {
        Json::Array(v) => {
            lemma_items_view(v@);
            assert(items_view(v@).len() == ps.len());
            assert(v@.len() == ps.len());
            assert forall|k: int| 0 <= k < v@.len() implies border_point_reader()(#[trigger] v@[k]) == Ok::<PointView, Seq<char>>(ps[k]) by {
                assert(items_view(v@)[k] == json_view(v@[k]));
                assert(ps.map_values(|p: PointView| point_json(p))[k] == point_json(ps[k]));
                assert(json_view(v@[k]) == point_json(ps[k]));
                lemma_point_reads_back(v@[k], ps[k], "border point: not [x,y,z]"@);
            }
            lemma_try_map_all(v@, border_point_reader(), ps);
            law_hex_round_trip(id);
        },
        _ => {},
    }
}

/// A snapshot as written reads back under its id.
proof fn lemma_snapshot_reads_back(key: Seq<char>, j: Json, id: u64, fs: Seq<u64>)
    requires
        key == hex_digits(id as nat, 16),
        json_view(j) == ids_json(fs),
        ids_increasing(fs),
        id == snapshot_id(fs),
    ensures
        snapshot_entry(key, j) == Ok::<(u64, Seq<u64>), Seq<char>>((id, fs)),
{
    match j {
        Json::Array(v) => {
            lemma_ids_read_back(v@, fs, "snapshot"@);
            lemma_id_set_increasing(fs);
            law_hex_round_trip(id);
        },
        _ => {},
    }
}

proof fn lemma_literals()
    ensures
        "border"@[0] == 'b' && "from"@[0] == 'f' && "span"@[0] == 's' && "to"@[0] == 't',
        "entity"@[0] == 'e' && "holes"@[0] == 'h' && "kind"@[0] == 'k' && "name"@[0] == 'n' && "rings"@[0] == 'r',
        "legs"@[0] == 'l' && "at"@[0] == 'a',
        "area"@[0] == 'a' && "way"@[0] == 'w' && "line"@[0] == 'l' && "memory"@[0] == 'm' && "point"@[0] == 'p',
        "borders"@[0] == 'b' && "features"@[0] == 'f' && "layers"@[0] == 'l' && "provenance"@[0] == 'p'
            && "snapshots"@[0] == 's',
        "note"@[0] == 'n' && "verses"@[0] == 'v' && "witness"@[0] == 'w',
{
    reveal_strlit("border");
    reveal_strlit("from");
    reveal_strlit("span");
    reveal_strlit("to");
    reveal_strlit("entity");
    reveal_strlit("holes");
    reveal_strlit("kind");
    reveal_strlit("name");
    reveal_strlit("rings");
    reveal_strlit("legs");
    reveal_strlit("at");
    reveal_strlit("area");
    reveal_strlit("way");
    reveal_strlit("line");
    reveal_strlit("memory");
    reveal_strlit("point");
    reveal_strlit("borders");
    reveal_strlit("features");
    reveal_strlit("layers");
    reveal_strlit("provenance");
    reveal_strlit("snapshots");
    reveal_strlit("note");
    reveal_strlit("verses");
    reveal_strlit("witness");
}

/// A leg as written reads back as itself.
proof fn lemma_leg_reads_back(j: Json, l: LegView)
    requires
        json_view(j) == leg_json(l),
        l.start.year != 0,
        l.end.year != 0,
    ensures
        leg_of(j) == Ok::<LegView, Seq<char>>(l),
{
    lemma_literals();
    match j {
        Json::Object(v) => {
            let es = v@;
            lemma_members_view(es);
            let ms = seq![
                ("border"@, id_json(l.border)),
                ("from"@, JsonView::Str(l.from)),
                ("span"@, JsonView::Array(seq![time_json(l.start), time_json(l.end)])),
                ("to"@, JsonView::Str(l.to)),
            ];
            assert(members_view(es) == ms);
            assert(members_view(es)[0] == ms[0] && members_view(es)[1] == ms[1] && members_view(es)[2] == ms[2]
                && members_view(es)[3] == ms[3]);
            lemma_member_at(es, "border"@, 0, 0);
            lemma_member_at(es, "from"@, 1, 0);
            lemma_member_at(es, "span"@, 2, 0);
            lemma_member_at(es, "to"@, 3, 0);
            match es[2].1 {
                Json::Array(sv) => {
                    lemma_items_view(sv@);
                    assert(items_view(sv@)[0] == time_json(l.start) && items_view(sv@)[1] == time_json(l.end));
                    lemma_time_reads_back(sv@[0], l.start);
                    lemma_time_reads_back(sv@[1], l.end);
                },
                _ => {},
            }
            law_hex_round_trip(l.border);
        },
        _ => {},
    }
}

/// A feature's shape a loaded canon can hold: border id sets in
/// increasing order, legs dated to real years.
pub open spec fn shape_ok(s: ShapeView) -> bool {
    match s {
        ShapeView::Area { rings, holes } => ids_increasing(rings) && ids_increasing(holes),
        ShapeView::Way { legs } => forall|k: int| 0 <= k < legs.len() ==> (#[trigger] legs[k]).start.year != 0 && legs[k].end.year != 0,
        _ => true,
    }
}

proof fn lemma_ids_member(es: Seq<(String, Json)>, i: int, key: Seq<char>, xs: Seq<u64>)
    requires
        0 <= i < es.len(),
        members_view(es)[i] == (key, ids_json(xs)),
        es[i].0@ == key,
        member_from(es, key, 0) == Some(es[i].1),
        ids_increasing(xs),
    ensures
        match json_array(member_from(es, key, 0)) {
            Some(items) => try_map(items, id_reader(key)) == Ok::<Seq<u64>, Seq<char>>(xs) && id_set(xs) == xs,
            None => false,
        },
{
    lemma_members_view(es);
    match es[i].1 {
        Json::Array(v) => {
            lemma_ids_read_back(v@, xs, key);
            lemma_id_set_increasing(xs);
        },
        _ => {},
    }
}

/// A feature as written reads back under its id.
#[verifier::spinoff_prover]
#[verifier::rlimit(60)]
proof fn lemma_feature_reads_back(key: Seq<char>, j: Json, id: u64, f: FeatureView)
    requires
        key == hex_digits(id as nat, 16),
        json_view(j) == feature_json(f),
        id == feature_id(f),
        shape_ok(f.shape),
    ensures
        feature_entry(key, j) == Ok::<(u64, FeatureView), Seq<char>>((id, f)),
{
    lemma_literals();
    law_hex_round_trip(id);
    let e = ("entity"@, JsonView::Str(f.entity));
    let n = ("name"@, JsonView::Str(f.name));
    match j {
        Json::Object(v) => {
            let es = v@;
            lemma_members_view(es);
            match f.shape {
                ShapeView::Area { rings, holes } => {
                    let ms = seq![e, ("holes"@, ids_json(holes)), ("kind"@, JsonView::Str("area"@)), n, ("rings"@, ids_json(rings))];
                    assert(members_view(es) == ms);
                    assert(members_view(es)[0] == ms[0] && members_view(es)[1] == ms[1] && members_view(es)[2] == ms[2]
                        && members_view(es)[3] == ms[3] && members_view(es)[4] == ms[4]);
                    lemma_member_at(es, "entity"@, 0, 0);
                    lemma_member_at(es, "holes"@, 1, 0);
                    lemma_member_at(es, "kind"@, 2, 0);
                    lemma_member_at(es, "name"@, 3, 0);
                    lemma_member_at(es, "rings"@, 4, 0);
                    lemma_ids_member(es, 1, "holes"@, holes);
                    lemma_ids_member(es, 4, "rings"@, rings);
                },
                ShapeView::Way { legs } => {
                    let lj = JsonView::Array(legs.map_values(|l: LegView| leg_json(l)));
                    let ms = seq![e, ("kind"@, JsonView::Str("way"@)), ("legs"@, lj), n];
                    assert(members_view(es) == ms);
                    assert(members_view(es)[0] == ms[0] && members_view(es)[1] == ms[1] && members_view(es)[2] == ms[2]
                        && members_view(es)[3] == ms[3]);
                    lemma_member_at(es, "entity"@, 0, 0);
                    lemma_member_at(es, "kind"@, 1, 0);
                    lemma_member_at(es, "legs"@, 2, 0);
                    lemma_member_at(es, "name"@, 3, 0);
                    assert("way"@ != "area"@);
                    match es[2].1 {
                        Json::Array(lv) => {
                            lemma_items_view(lv@);
                            assert(items_view(lv@).len() == legs.len());
                            assert forall|k: int| 0 <= k < lv@.len() implies leg_reader()(#[trigger] lv@[k]) == Ok::<LegView, Seq<char>>(legs[k]) by {
                                assert(items_view(lv@)[k] == json_view(lv@[k]));
                                assert(legs.map_values(|l: LegView| leg_json(l))[k] == leg_json(legs[k]));
                                lemma_leg_reads_back(lv@[k], legs[k]);
                            }
                            lemma_try_map_all(lv@, leg_reader(), legs);
                        },
                        _ => {},
                    }
                },
                ShapeView::Point { at } => {
                    let ms = seq![("at"@, point_json(at)), e, ("kind"@, JsonView::Str("point"@)), n];
                    assert(members_view(es) == ms);
                    assert(members_view(es)[0] == ms[0] && members_view(es)[1] == ms[1] && members_view(es)[2] == ms[2]
                        && members_view(es)[3] == ms[3]);
                    lemma_member_at(es, "at"@, 0, 0);
                    lemma_member_at(es, "entity"@, 1, 0);
                    lemma_member_at(es, "kind"@, 2, 0);
                    lemma_member_at(es, "name"@, 3, 0);
                    assert("point"@ != "area"@ && "point"@ != "way"@ && "point"@ != "line"@ && "point"@ != "memory"@);
                    lemma_point_reads_back(es[0].1, at, "point: missing at"@);
                },
                ShapeView::Line { border } => {
                    let ms = seq![("border"@, id_json(border)), e, ("kind"@, JsonView::Str("line"@)), n];
                    assert(members_view(es) == ms);
                    assert(members_view(es)[0] == ms[0] && members_view(es)[1] == ms[1] && members_view(es)[2] == ms[2]
                        && members_view(es)[3] == ms[3]);
                    lemma_member_at(es, "border"@, 0, 0);
                    lemma_member_at(es, "entity"@, 1, 0);
                    lemma_member_at(es, "kind"@, 2, 0);
                    lemma_member_at(es, "name"@, 3, 0);
                    assert("line"@ != "area"@ && "line"@ != "way"@);
                    law_hex_round_trip(border);
                },
                ShapeView::Memory { at } => {
                    let ms = seq![("at"@, point_json(at)), e, ("kind"@, JsonView::Str("memory"@)), n];
                    assert(members_view(es) == ms);
                    assert(members_view(es)[0] == ms[0] && members_view(es)[1] == ms[1] && members_view(es)[2] == ms[2]
                        && members_view(es)[3] == ms[3]);
                    lemma_member_at(es, "at"@, 0, 0);
                    lemma_member_at(es, "entity"@, 1, 0);
                    lemma_member_at(es, "kind"@, 2, 0);
                    lemma_member_at(es, "name"@, 3, 0);
                    assert("memory"@ != "area"@ && "memory"@ != "way"@ && "memory"@ != "line"@);
                    lemma_point_reads_back(es[0].1, at, "memory: missing at"@);
                },
            }
        },
        _ => {},
    }
}

pub open spec fn moment_json(m: (TimePoint, SnapshotId)) -> JsonView {
    JsonView::Array(seq![time_json(m.0), id_json(m.1.0)])
}

proof fn lemma_moment_reads_back(j: Json, m: (TimePoint, SnapshotId))
    requires
        json_view(j) == moment_json(m),
        m.0.year != 0,
    ensures
        moment_of(j) == Ok::<(TimePoint, u64), Seq<char>>((m.0, m.1.0)),
{
    match j {
        Json::Array(p) => {
            lemma_items_view(p@);
            assert(items_view(p@)[0] == time_json(m.0) && items_view(p@)[1] == id_json(m.1.0));
            lemma_time_reads_back(p@[0], m.0);
            law_hex_round_trip(m.1.0);
        },
        _ => {},
    }
}

proof fn lemma_world_reads_back(items: Seq<Json>, es: Seq<(TimePoint, SnapshotId)>, name: Seq<char>, k: int)
    requires
        items_view(items) == es.map_values(|m: (TimePoint, SnapshotId)| moment_json(m)),
        times_increasing(es),
        forall|i: int| 0 <= i < es.len() ==> (#[trigger] es[i]).0.year != 0,
        0 <= k <= es.len(),
    ensures
        world_of(items.take(k), name) == Ok::<Map<TimePoint, SnapshotId>, Seq<char>>(moments_map(es.take(k))),
    decreases k,
{
    lemma_items_view(items);
    assert(items_view(items).len() == es.len());
    if k == 0 {
        assert(items.take(0) =~= Seq::<Json>::empty());
        assert(moments_map(es.take(0)) =~= Map::<TimePoint, SnapshotId>::empty());
    } else {
        lemma_world_reads_back(items, es, name, k - 1);
        assert(items.take(k).drop_last() =~= items.take(k - 1));
        assert(items.take(k).last() == items[k - 1]);
        assert(items_view(items)[k - 1] == json_view(items[k - 1]));
        assert(es.map_values(|m: (TimePoint, SnapshotId)| moment_json(m))[k - 1] == moment_json(es[k - 1]));
        lemma_moment_reads_back(items[k - 1], es[k - 1]);
        let a = es.take(k - 1);
        let b = es.take(k);
        assert(times_increasing(a));
        assert(times_increasing(b));
        lemma_moments_map(a);
        lemma_moments_map(b);
        let t = es[k - 1].0;
        assert(!moments_map(a).contains_key(t)) by {
            if has_moment(a, t) {
                let i = choose|i: int| 0 <= i < a.len() && (#[trigger] a[i]).0 == t;
                assert(before(es[i].0, es[k - 1].0));
                lemma_before_total_order();
            }
        }
        assert forall|x: TimePoint| moments_map(b).contains_key(x) <==> moments_map(a).insert(t, es[k - 1].1).contains_key(x) by {
            if has_moment(b, x) {
                let i = choose|i: int| 0 <= i < b.len() && (#[trigger] b[i]).0 == x;
                if i < k - 1 {
                    assert(a[i] == b[i]);
                }
            }
            if has_moment(a, x) {
                let i = choose|i: int| 0 <= i < a.len() && (#[trigger] a[i]).0 == x;
                assert(b[i] == a[i]);
            }
            if x == t {
                assert(b[k - 1].0 == t);
            }
        }
        assert forall|x: TimePoint| #[trigger] moments_map(b).contains_key(x) implies moments_map(b)[x] == moments_map(a).insert(t, es[k - 1].1)[x] by {
            if x == t {
                assert(b[k - 1] == es[k - 1]);
            } else {
                let i = choose|i: int| 0 <= i < b.len() && (#[trigger] b[i]).0 == x;
                assert(i < k - 1);
                assert(a[i] == b[i]);
            }
        }
        assert(moments_map(b) =~= moments_map(a).insert(t, es[k - 1].1));
    }
}

/// A layer as written reads back under its name.
proof fn lemma_layer_reads_back(name: Seq<char>, j: Json, kind: LayerKind, w: World)
    requires
        name == spec_layer_name(kind),
        json_view(j) == moments_json(w.entries()),
        w.wf(),
        forall|i: int| 0 <= i < w.entries().len() ==> (#[trigger] w.entries()[i]).0.year != 0,
    ensures
        layer_entry(name, j) == Ok::<(LayerKind, Map<TimePoint, SnapshotId>), Seq<char>>((kind, w@)),
{
    law_layer_names_round_trip(kind, name);
    match j {
        Json::Array(ms) => {
            let es = w.entries();
            assert(es.map_values(|m: (TimePoint, SnapshotId)| JsonView::Array(seq![time_json(m.0), id_json(m.1.0)]))
                =~= es.map_values(|m: (TimePoint, SnapshotId)| moment_json(m)));
            lemma_world_reads_back(ms@, es, name, es.len() as int);
            lemma_items_view(ms@);
            assert(items_view(ms@).len() == es.len());
            assert(ms@.take(ms@.len() as int) =~= ms@);
            assert(es.take(es.len() as int) =~= es);
        },
        _ => {},
    }
}

proof fn lemma_strings_read_back(items: Seq<Json>, vs: Seq<Seq<char>>)
    requires
        items_view(items) == vs.map_values(|v: Seq<char>| JsonView::Str(v)),
    ensures
        string_items(items) == vs,
    decreases items.len(),
{
    lemma_items_view(items);
    assert(items_view(items).len() == vs.len());
    if items.len() > 0 {
        let p = items.drop_last();
        lemma_items_view(p);
        assert(items_view(p) =~= vs.drop_last().map_values(|v: Seq<char>| JsonView::Str(v))) by {
            assert forall|k: int| 0 <= k < p.len() implies items_view(p)[k] == vs.drop_last().map_values(|v: Seq<char>| JsonView::Str(v))[k] by {
                assert(p[k] == items[k]);
                assert(items_view(items)[k] == json_view(items[k]));
                assert(vs.map_values(|v: Seq<char>| JsonView::Str(v))[k] == JsonView::Str(vs[k]));
            }
        }
        lemma_strings_read_back(p, vs.drop_last());
        let n = items.len() - 1;
        assert(items_view(items)[n] == json_view(items[n]));
        assert(vs.map_values(|v: Seq<char>| JsonView::Str(v))[n] == JsonView::Str(vs[n]));
        assert(vs.drop_last().push(vs.last()) =~= vs);
    } else {
        assert(vs =~= Seq::<Seq<char>>::empty());
    }
}

/// A provenance record as written reads back under its id.
proof fn lemma_provenance_reads_back(key: Seq<char>, j: Json, id: u64, p: ProvenanceView)
    requires
        key == hex_digits(id as nat, 16),
        json_view(j) == provenance_json(p),
    ensures
        provenance_entry(key, j) == Ok::<(u64, ProvenanceView), Seq<char>>((id, p)),
{
    lemma_literals();
    law_hex_round_trip(id);
    law_witness_names_round_trip(p.witness, spec_witness_name(p.witness));
    match j {
        Json::Object(v) => {
            let es = v@;
            lemma_members_view(es);
            let ms = seq![
                ("note"@, JsonView::Str(p.note)),
                ("verses"@, JsonView::Array(p.verses.map_values(|v: Seq<char>| JsonView::Str(v)))),
                ("witness"@, JsonView::Str(spec_witness_name(p.witness))),
            ];
            assert(members_view(es) == ms);
            assert(members_view(es)[0] == ms[0] && members_view(es)[1] == ms[1] && members_view(es)[2] == ms[2]);
            lemma_member_at(es, "note"@, 0, 0);
            lemma_member_at(es, "verses"@, 1, 0);
            lemma_member_at(es, "witness"@, 2, 0);
            match es[1].1 {
                Json::Array(vs) => {
                    lemma_strings_read_back(vs@, p.verses);
                },
                _ => {},
            }
        },
        _ => {},
    }
}

/// A doc a file holds faithfully: every entry under its content id,
/// id sets in increasing order, every leg and moment in a real year.
pub open spec fn canon_doc_ok(d: CanonDoc) -> bool {
    &&& d.wf()
    &&& forall|i: int| 0 <= i < d@.borders.len() ==> (#[trigger] d@.borders[i]).0 == border_id(d@.borders[i].1)
    &&& forall|i: int| 0 <= i < d@.features.len() ==> (#[trigger] d@.features[i]).0 == feature_id(d@.features[i].1)
        && shape_ok(d@.features[i].1.shape)
    &&& forall|i: int| 0 <= i < d@.snapshots.len() ==> ids_increasing((#[trigger] d@.snapshots[i]).1)
        && d@.snapshots[i].0 == snapshot_id(d@.snapshots[i].1)
    &&& forall|l: int, i: int| 0 <= l < d.layers@.len() && 0 <= i < d.layers@[l].1.entries().len()
        ==> (#[trigger] d.layers@[l].1.entries()[i]).0.year != 0
}

/// A section's members, read back.
proof fn lemma_section_members<T>(j: Json, f: spec_fn(Seq<char>, Json) -> Result<T, Seq<char>>, xs: Seq<T>, ms: Seq<(Seq<char>, JsonView)>)
    requires
        json_view(j) == JsonView::Object(ms),
        ms.len() == xs.len(),
        forall|k: int, e: (String, Json)| 0 <= k < ms.len() && e.0@ == ms[k].0 && json_view(e.1) == ms[k].1
            ==> #[trigger] f(e.0@, e.1) == Ok::<T, Seq<char>>(#[trigger] xs[k]),
    ensures
        match j {
            Json::Object(v) => try_map_members(v@, f) == Ok::<Seq<T>, Seq<char>>(xs),
            _ => false,
        },
{
    match j {
        Json::Object(v) => {
            lemma_members_view(v@);
            assert forall|k: int| 0 <= k < v@.len() implies f((#[trigger] v@[k]).0@, v@[k].1) == Ok::<T, Seq<char>>(xs[k]) by {
                assert(members_view(v@)[k] == ms[k]);
                assert(f(v@[k].0@, v@[k].1) == Ok::<T, Seq<char>>(xs[k]));
            }
            lemma_try_map_members_all(v@, f, xs);
        },
        _ => {},
    }
}

/// WHAT IS WRITTEN READS BACK: a doc whose entries sit under their
/// content ids, with id sets in increasing order and every leg and
/// moment in a real year, is what loading its file gives back.
pub proof fn law_canon_reads_back(j: Json, d: CanonDoc)
    requires
        json_view(j) == spec_canon_json(d),
        canon_doc_ok(d),
    ensures
        spec_canon_of(j) == Ok::<CanonDocView, Seq<char>>(d@),
{
    lemma_literals();
    let dv = d@;
    let bm = dv.borders.map_values(|b: (u64, Seq<PointView>)|
        (hex_digits(b.0 as nat, 16), JsonView::Array(b.1.map_values(|p: PointView| point_json(p)))));
    let fm = dv.features.map_values(|f: (u64, FeatureView)| (hex_digits(f.0 as nat, 16), feature_json(f.1)));
    let lm = d.layers@.map_values(|l: (LayerKind, World)| (spec_layer_name(l.0), moments_json(l.1.entries())));
    let pm = dv.provenance.map_values(|p: (u64, ProvenanceView)| (hex_digits(p.0 as nat, 16), provenance_json(p.1)));
    let sm = dv.snapshots.map_values(|x: (u64, Seq<u64>)| (hex_digits(x.0 as nat, 16), ids_json(x.1)));
    match j {
        Json::Object(v) => {
            let es = v@;
            lemma_members_view(es);
            let ms = seq![
                ("borders"@, JsonView::Object(bm)),
                ("features"@, JsonView::Object(fm)),
                ("layers"@, JsonView::Object(lm)),
                ("provenance"@, JsonView::Object(pm)),
                ("snapshots"@, JsonView::Object(sm)),
            ];
            assert(members_view(es) == ms);
            assert(members_view(es)[0] == ms[0] && members_view(es)[1] == ms[1] && members_view(es)[2] == ms[2]
                && members_view(es)[3] == ms[3] && members_view(es)[4] == ms[4]);
            lemma_member_at(es, "borders"@, 0, 0);
            lemma_member_at(es, "features"@, 1, 0);
            lemma_member_at(es, "layers"@, 2, 0);
            lemma_member_at(es, "provenance"@, 3, 0);
            lemma_member_at(es, "snapshots"@, 4, 0);
            assert forall|k: int, e: (String, Json)| 0 <= k < bm.len() && e.0@ == bm[k].0 && json_view(e.1) == bm[k].1
                implies #[trigger] border_reader()(e.0@, e.1) == Ok::<(u64, Seq<PointView>), Seq<char>>(#[trigger] dv.borders[k]) by {
                lemma_border_reads_back(e.0@, e.1, dv.borders[k].0, dv.borders[k].1);
            }
            lemma_section_members(es[0].1, border_reader(), dv.borders, bm);
            assert forall|k: int, e: (String, Json)| 0 <= k < fm.len() && e.0@ == fm[k].0 && json_view(e.1) == fm[k].1
                implies #[trigger] feature_reader()(e.0@, e.1) == Ok::<(u64, FeatureView), Seq<char>>(#[trigger] dv.features[k]) by {
                lemma_feature_reads_back(e.0@, e.1, dv.features[k].0, dv.features[k].1);
            }
            lemma_section_members(es[1].1, feature_reader(), dv.features, fm);
            assert forall|k: int, e: (String, Json)| 0 <= k < sm.len() && e.0@ == sm[k].0 && json_view(e.1) == sm[k].1
                implies #[trigger] snapshot_reader()(e.0@, e.1) == Ok::<(u64, Seq<u64>), Seq<char>>(#[trigger] dv.snapshots[k]) by {
                lemma_snapshot_reads_back(e.0@, e.1, dv.snapshots[k].0, dv.snapshots[k].1);
            }
            lemma_section_members(es[4].1, snapshot_reader(), dv.snapshots, sm);
            assert forall|k: int, e: (String, Json)| 0 <= k < lm.len() && e.0@ == lm[k].0 && json_view(e.1) == lm[k].1
                implies #[trigger] layer_reader()(e.0@, e.1) == Ok::<(LayerKind, Map<TimePoint, SnapshotId>), Seq<char>>(
                #[trigger] dv.layers[k],
            ) by {
                let w = d.layers@[k].1;
                assert(w.wf());
                assert forall|i: int| 0 <= i < w.entries().len() implies (#[trigger] w.entries()[i]).0.year != 0 by {
                    assert(d.layers@[k].1.entries()[i] == w.entries()[i]);
                }
                lemma_layer_reads_back(e.0@, e.1, d.layers@[k].0, w);
            }
            lemma_section_members(es[2].1, layer_reader(), dv.layers, lm);
            assert forall|k: int, e: (String, Json)| 0 <= k < pm.len() && e.0@ == pm[k].0 && json_view(e.1) == pm[k].1
                implies #[trigger] provenance_reader()(e.0@, e.1) == Ok::<(u64, ProvenanceView), Seq<char>>(#[trigger] dv.provenance[k]) by {
                lemma_provenance_reads_back(e.0@, e.1, dv.provenance[k].0, dv.provenance[k].1);
            }
            lemma_section_members(es[3].1, provenance_reader(), dv.provenance, pm);
        },
        _ => {},
    }
}

} // verus!
