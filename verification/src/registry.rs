//! THE ENTITY REGISTRY: no witness mints an entity; every witness
//! references the registry. Every minted id stands for itself until a
//! person writes a `Unification` explaining why two minted ids are one
//! real thing. Name equality has NO authority here.
//!
//! What the registry keeps:
//! - `resolve` is TOTAL and ONE-HOP: an unknown id resolves to itself,
//!   and a declared alias is never chased through a second hop — a
//!   chain is a data error, named by `validate`, not silently chased;
//! - `declare` records a reason; it never infers one. The only reason
//!   `observe` itself ever writes is `Unification::SameId`, and only
//!   when it sees a minted id it has already seen;
//! - `observe` merges names into a sorted, deduped list, witnesses
//!   into a list sorted by (witness, layer, minted_as, feature kind),
//!   and keeps the least kind any testimony gave: an entity is a
//!   function of what it has seen, never of the order it arrived in;
//! - `validate` returns EVERY violation it finds, never just the first;
//! - no name normalization for matching anywhere: name equality is not
//!   identity.

use vstd::prelude::*;
use crate::canon::{clone_id, layer_rank, layer_rank_of, witness_rank, witness_rank_of, EntityId, LayerKind, Witness};
use crate::idmap::{lemma_seq_to_map, seq_to_map, strictly_sorted, IdMap};
use crate::text::{
    chars_lt, concat2, concat3, lemma_chars_lt_asym, lemma_chars_lt_irreflexive, lemma_chars_lt_total,
    lemma_chars_lt_trans, owned, str_equal, str_less,
};

verus! {

/// WHAT KIND of real thing an entity is — coarse enough to catch a
/// witness disagreement (a promise mistaken for a polity), fine enough
/// to matter to rendering.
#[derive(Clone, Copy, Debug, PartialEq, Eq, Structural, PartialOrd, Ord)]
pub enum EntityKind {
    Polity,
    District,
    People,
    Allotment,
    Promise,
    Vision,
    Waterbody,
    Terrain,
    Place,
    Route,
}

/// WHY two minted ids are one entity. A written, typed reason — never
/// a string coincidence.
#[derive(Clone, Debug, PartialEq, Eq)]
pub enum Unification {
    /// Two witnesses happened to mint the exact same `EntityId` — not a
    /// claim about the world, just the trivial case of one id appearing
    /// twice. `observe` is the ONLY producer of this variant.
    SameId,
    /// A person looked at both minted ids and said, in their own words,
    /// why they are the same real thing — and where that judgment is
    /// written down for review.
    Declared { reason: String, source: String },
}

pub enum UnificationView {
    SameId,
    Declared { reason: Seq<char>, source: Seq<char> },
}

impl View for Unification {
    type V = UnificationView;

    open spec fn view(&self) -> UnificationView {
        match self {
            Unification::SameId => UnificationView::SameId,
            Unification::Declared { reason, source } => UnificationView::Declared { reason: reason@, source: source@ },
        }
    }
}

/// One witness's testimony to one minted entity: which id it minted,
/// which witness spoke, which layer it spoke into, and what kind of
/// feature it drew ("area", "way", "point", "line", "memory").
#[derive(Clone, Debug, PartialEq, Eq)]
pub struct WitnessRef {
    pub minted_as: EntityId,
    pub witness: Witness,
    pub layer: LayerKind,
    pub kind: &'static str,
}

pub struct WitnessRefView {
    pub minted_as: Seq<char>,
    pub witness: Witness,
    pub layer: LayerKind,
    pub kind: Seq<char>,
}

impl View for WitnessRef {
    type V = WitnessRefView;

    open spec fn view(&self) -> WitnessRefView {
        WitnessRefView { minted_as: self.minted_as@, witness: self.witness, layer: self.layer, kind: self.kind@ }
    }
}

/// One real thing: its canonical id, every name it has been called,
/// what kind of thing it is, and every witness that has spoken to it.
#[derive(Clone, Debug, PartialEq, Eq)]
pub struct Entity {
    pub id: EntityId,
    pub names: Vec<String>,
    pub kind: EntityKind,
    pub witnesses: Vec<WitnessRef>,
}

pub struct EntityView {
    pub id: Seq<char>,
    pub names: Seq<Seq<char>>,
    pub kind: EntityKind,
    pub witnesses: Seq<WitnessRefView>,
}

impl View for Entity {
    type V = EntityView;

    open spec fn view(&self) -> EntityView {
        EntityView {
            id: self.id@,
            names: self.names@.map_values(|n: String| n@),
            kind: self.kind,
            witnesses: self.witnesses@.map_values(|w: WitnessRef| w@),
        }
    }
}

/// Every (minted_as, kind) vote cast for one home.
pub struct KindVotes {
    pub votes: Vec<(EntityId, EntityKind)>,
}

impl View for KindVotes {
    type V = Seq<(Seq<char>, EntityKind)>;

    open spec fn view(&self) -> Seq<(Seq<char>, EntityKind)> {
        self.votes@.map_values(|v: (EntityId, EntityKind)| (v.0@, v.1))
    }
}

/// A law the registry's own data broke — named, not silently fixed.
#[derive(Clone, Debug, PartialEq, Eq)]
pub enum RegistryViolation {
    /// A declared canonical id nothing ever minted — a typo in the data file.
    DanglingCanonical(EntityId),
    /// A -> B -> C: resolution must be one hop, so the data says so directly.
    ChainedUnification { minted: EntityId, via: EntityId },
    /// Two witnesses of one entity disagree about its kind.
    KindConflict { entity: EntityId, a: EntityKind, b: EntityKind },
}

pub enum RegistryViolationView {
    DanglingCanonical(Seq<char>),
    ChainedUnification { minted: Seq<char>, via: Seq<char> },
    KindConflict { entity: Seq<char>, a: EntityKind, b: EntityKind },
}

impl View for RegistryViolation {
    type V = RegistryViolationView;

    open spec fn view(&self) -> RegistryViolationView {
        match self {
            RegistryViolation::DanglingCanonical(c) => RegistryViolationView::DanglingCanonical(c@),
            RegistryViolation::ChainedUnification { minted, via } => RegistryViolationView::ChainedUnification {
                minted: minted@,
                via: via@,
            },
            RegistryViolation::KindConflict { entity, a, b } => RegistryViolationView::KindConflict {
                entity: entity@,
                a: *a,
                b: *b,
            },
        }
    }
}

/// Every fact the registry has been told.
pub struct Registry {
    /// minted -> canonical, written ONLY by `declare`. One hop: never
    /// chased, never rewritten to skip an intermediate.
    aliases: IdMap<EntityId>,
    /// minted -> the reason it unifies with something.
    why: IdMap<Unification>,
    /// Every raw id any witness has ever minted via `observe`.
    minted_ids: IdMap<()>,
    /// home id -> the materialized entity living there right now.
    entities: IdMap<Entity>,
    /// home id -> every (minted_as, kind) vote cast for it.
    kind_votes: IdMap<KindVotes>,
}

/// What the registry knows, as maps over id characters.
pub struct RegistryModel {
    pub aliases: Map<Seq<char>, Seq<char>>,
    pub why: Map<Seq<char>, UnificationView>,
    pub minted: Set<Seq<char>>,
    pub entities: Map<Seq<char>, EntityView>,
    pub votes: Map<Seq<char>, Seq<(Seq<char>, EntityKind)>>,
}

impl View for Registry {
    type V = RegistryModel;

    closed spec fn view(&self) -> RegistryModel {
        RegistryModel {
            aliases: self.aliases.to_map(),
            why: self.why.to_map(),
            minted: self.minted_ids.to_map().dom(),
            entities: self.entities.to_map(),
            votes: self.kind_votes.to_map(),
        }
    }
}

// --------------------------------------------------------- the model

/// Strict string order on names.
pub open spec fn names_sorted(names: Seq<Seq<char>>) -> bool {
    forall|i: int, j: int| 0 <= i < j < names.len() ==> chars_lt(names[i], names[j])
}

/// Testimonies in order of (witness, layer, minted_as), and of the
/// feature kind between two that agree on those three: the whole
/// testimony is the key, so no two different testimonies tie.
pub open spec fn wkey_lt(a: WitnessRefView, b: WitnessRefView) -> bool {
    ||| witness_rank(a.witness) < witness_rank(b.witness)
    ||| witness_rank(a.witness) == witness_rank(b.witness) && layer_rank(a.layer) < layer_rank(b.layer)
    ||| a.witness == b.witness && a.layer == b.layer && chars_lt(a.minted_as, b.minted_as)
    ||| a.witness == b.witness && a.layer == b.layer && a.minted_as == b.minted_as && chars_lt(a.kind, b.kind)
}

/// Declaration order of the entity kinds (their `Ord`).
pub open spec fn kind_rank(k: EntityKind) -> int {
    match k {
        EntityKind::Polity => 0,
        EntityKind::District => 1,
        EntityKind::People => 2,
        EntityKind::Allotment => 3,
        EntityKind::Promise => 4,
        EntityKind::Vision => 5,
        EntityKind::Waterbody => 6,
        EntityKind::Terrain => 7,
        EntityKind::Place => 8,
        EntityKind::Route => 9,
    }
}

/// The earlier of two kinds in declaration order: an entity's kind is
/// the least kind any of its testimonies gave it, whatever order they
/// came in. A disagreement is not settled here; `validate` names it.
pub open spec fn least_kind(a: EntityKind, b: EntityKind) -> EntityKind {
    if kind_rank(b) < kind_rank(a) {
        b
    } else {
        a
    }
}

/// Testimonies in non-decreasing key order.
pub open spec fn witnesses_sorted(ws: Seq<WitnessRefView>) -> bool {
    forall|i: int, j: int| 0 <= i < j < ws.len() ==> !wkey_lt(ws[j], ws[i])
}

/// `names` with `name` added, keeping string order; unchanged if present.
pub open spec fn insert_name(names: Seq<Seq<char>>, name: Seq<char>) -> Seq<Seq<char>> {
    if names.contains(name) {
        names
    } else {
        let k = names.filter(|n: Seq<char>| chars_lt(n, name)).len() as int;
        names.take(k) + seq![name] + names.skip(k)
    }
}

/// Every name of `more`, merged into `names` in turn.
pub open spec fn insert_names(names: Seq<Seq<char>>, more: Seq<Seq<char>>) -> Seq<Seq<char>>
    decreases more.len(),
{
    if more.len() == 0 {
        names
    } else {
        insert_name(insert_names(names, more.drop_last()), more.last())
    }
}

/// Length of the longest prefix of `ws` whose keys are not after `w`'s.
pub open spec fn prefix_not_after(ws: Seq<WitnessRefView>, w: WitnessRefView) -> nat
    decreases ws.len(),
{
    if ws.len() == 0 || wkey_lt(w, ws[0]) {
        0
    } else {
        1 + prefix_not_after(ws.drop_first(), w)
    }
}

/// `w` placed after every testimony whose key is not after its own —
/// a stable sorted insertion.
pub open spec fn insert_by_key(ws: Seq<WitnessRefView>, w: WitnessRefView) -> Seq<WitnessRefView> {
    let k = prefix_not_after(ws, w) as int;
    ws.take(k) + seq![w] + ws.skip(k)
}

/// Every testimony of `more`, inserted into `ws` in turn.
pub open spec fn insert_all(ws: Seq<WitnessRefView>, more: Seq<WitnessRefView>) -> Seq<WitnessRefView>
    decreases more.len(),
{
    if more.len() == 0 {
        ws
    } else {
        insert_by_key(insert_all(ws, more.drop_last()), more.last())
    }
}

/// One-hop resolution in a model.
pub open spec fn spec_resolve(m: RegistryModel, id: Seq<char>) -> Seq<char> {
    if m.aliases.contains_key(id) {
        m.aliases[id]
    } else {
        id
    }
}

/// The registry after `observe(minted, name, kind, w)`.
pub open spec fn after_observe(m: RegistryModel, minted: Seq<char>, name: Seq<char>, kind: EntityKind, w: WitnessRefView) -> RegistryModel {
    let home = spec_resolve(m, minted);
    let base = if m.entities.contains_key(home) {
        m.entities[home]
    } else {
        EntityView { id: home, names: Seq::empty(), kind, witnesses: Seq::empty() }
    };
    let entity = EntityView {
        id: base.id,
        names: insert_name(base.names, name),
        kind: least_kind(base.kind, kind),
        witnesses: insert_by_key(base.witnesses, w),
    };
    let prior = if m.votes.contains_key(home) { m.votes[home] } else { Seq::empty() };
    RegistryModel {
        aliases: m.aliases,
        why: if m.minted.contains(minted) && !m.why.contains_key(minted) {
            m.why.insert(minted, UnificationView::SameId)
        } else {
            m.why
        },
        minted: m.minted.insert(minted),
        entities: m.entities.insert(home, entity),
        votes: m.votes.insert(home, prior.push((minted, kind))),
    }
}

/// The registry after a successful `declare(canonical, minted, why)`:
/// the alias and its reason are written, and whatever entity lived at
/// `minted` moves, names, testimonies and kind votes, into the home
/// that `canonical` resolves to.
pub open spec fn after_declare(m: RegistryModel, canonical: Seq<char>, minted: Seq<char>, why: UnificationView) -> RegistryModel {
    let aliases = m.aliases.insert(minted, canonical);
    let whys = m.why.insert(minted, why);
    if m.entities.contains_key(minted) {
        let moving = m.entities[minted];
        let moved_votes = if m.votes.contains_key(minted) { m.votes[minted] } else { Seq::empty() };
        let entities = m.entities.remove(minted);
        let votes = m.votes.remove(minted);
        let home = if aliases.contains_key(canonical) { aliases[canonical] } else { canonical };
        let base = if entities.contains_key(home) {
            entities[home]
        } else {
            EntityView { id: home, names: Seq::empty(), kind: moving.kind, witnesses: Seq::empty() }
        };
        let merged = EntityView {
            id: base.id,
            names: insert_names(base.names, moving.names),
            kind: least_kind(base.kind, moving.kind),
            witnesses: insert_all(base.witnesses, moving.witnesses),
        };
        let prior = if votes.contains_key(home) { votes[home] } else { Seq::empty() };
        RegistryModel {
            aliases,
            why: whys,
            minted: m.minted,
            entities: entities.insert(home, merged),
            votes: votes.insert(home, prior + moved_votes),
        }
    } else {
        RegistryModel { aliases, why: whys, minted: m.minted, entities: m.entities, votes: m.votes }
    }
}

/// Which check a violation comes from, in the order `validate` runs them.
pub open spec fn violation_rank(v: RegistryViolationView) -> int {
    match v {
        RegistryViolationView::DanglingCanonical(_) => 0,
        RegistryViolationView::ChainedUnification { .. } => 1,
        RegistryViolationView::KindConflict { .. } => 2,
    }
}

/// The id a violation is ordered by within its check.
pub open spec fn violation_key(v: RegistryViolationView) -> Seq<char> {
    match v {
        RegistryViolationView::DanglingCanonical(c) => c,
        RegistryViolationView::ChainedUnification { minted, .. } => minted,
        RegistryViolationView::KindConflict { entity, .. } => entity,
    }
}

/// Every id some alias declares as canonical.
pub open spec fn alias_targets(m: RegistryModel) -> Set<Seq<char>> {
    Set::new(|c: Seq<char>| exists|k: Seq<char>| m.aliases.contains_key(k) && m.aliases[k] == c)
}

/// The first kind other than `k` among the votes from index `from` on.
pub open spec fn first_other_kind(votes: Seq<(Seq<char>, EntityKind)>, k: EntityKind, from: int) -> Option<EntityKind>
    decreases votes.len() - from,
{
    if from < 0 || from >= votes.len() {
        None
    } else if votes[from].1 != k {
        Some(votes[from].1)
    } else {
        first_other_kind(votes, k, from + 1)
    }
}

/// The first vote's kind and the first kind that disagrees with it.
#[verifier::opaque]
pub open spec fn kind_conflict(votes: Seq<(Seq<char>, EntityKind)>) -> Option<(EntityKind, EntityKind)> {
    if votes.len() == 0 {
        None
    } else {
        match first_other_kind(votes, votes[0].1, 1) {
            Some(b) => Some((votes[0].1, b)),
            None => None,
        }
    }
}

/// Violations grouped by check, in the order the checks run, and in
/// strictly increasing id order within each check.
pub open spec fn violations_ordered(v: Seq<RegistryViolationView>) -> bool {
    forall|a: int, b: int| 0 <= a < b < v.len() ==> violation_before(v[a], v[b])
}

/// `x` comes from an earlier check than `y`, or from the same check
/// with a smaller id.
pub open spec fn violation_before(x: RegistryViolationView, y: RegistryViolationView) -> bool {
    ||| violation_rank(x) < violation_rank(y)
    ||| violation_rank(x) == violation_rank(y) && chars_lt(violation_key(x), violation_key(y))
}

/// Violations of one check, in strictly increasing id order.
pub open spec fn keyed_increasing(v: Seq<RegistryViolationView>) -> bool {
    forall|a: int, b: int| 0 <= a < b < v.len() ==> chars_lt(violation_key(v[a]), violation_key(v[b]))
}

/// The `Debug` text of a string: quoted, with escapes.
pub uninterp spec fn spec_debug_text(s: Seq<char>) -> Seq<char>;

/// The registry's own consistency: every entity lives at its own id,
/// with its names in strict string order and its testimonies sorted,
/// and no id is declared an alias of itself.
pub open spec fn model_wf(m: RegistryModel) -> bool {
    &&& forall|k: Seq<char>| #[trigger] m.entities.contains_key(k) ==> {
        &&& m.entities[k].id == k
        &&& names_sorted(m.entities[k].names)
        &&& witnesses_sorted(m.entities[k].witnesses)
    }
    &&& forall|k: Seq<char>| #[trigger] m.aliases.contains_key(k) ==> m.aliases[k] != k
}

impl Registry {
    pub closed spec fn wf(&self) -> bool {
        &&& self.aliases.wf()
        &&& self.why.wf()
        &&& self.minted_ids.wf()
        &&& self.entities.wf()
        &&& self.kind_votes.wf()
        &&& model_wf(self@)
    }
}

// ------------------------------------------------------------ helpers

fn clone_names(v: &Vec<String>) -> (r: Vec<String>)
    ensures
        r@.map_values(|n: String| n@) == v@.map_values(|n: String| n@),
{
    let mut r: Vec<String> = Vec::new();
    let mut i: usize = 0;
    while i < v.len()
        invariant
            i <= v.len(),
            r@.map_values(|n: String| n@) == v@.take(i as int).map_values(|n: String| n@),
        decreases v.len() - i,
    {
        let c = v[i].clone();
        assert(c@ == v@[i as int]@);
        let ghost before = r@;
        assert(before.map_values(|n: String| n@).len() == before.len());
        assert(before.len() == i);
        r.push(c);
        assert(r@ == before.push(c));
        i += 1;
        assert forall|k: int| 0 <= k < i implies r@[k]@ == v@[k]@ by {
            if k < i - 1 {
                assert(r@[k] == before[k]);
                assert(before.map_values(|n: String| n@)[k] == v@.take(i - 1).map_values(|n: String| n@)[k]);
            }
        }
        assert(r@.map_values(|n: String| n@) =~= v@.take(i as int).map_values(|n: String| n@));
    }
    assert(v@.take(v.len() as int) == v@);
    r
}

fn clone_witness(w: &WitnessRef) -> (r: WitnessRef)
    ensures
        r@ == w@,
{
    WitnessRef { minted_as: clone_id(&w.minted_as), witness: w.witness, layer: w.layer, kind: w.kind }
}

fn wkey_less(a: &WitnessRef, b: &WitnessRef) -> (r: bool)
    ensures
        r == wkey_lt(a@, b@),
{
    let wa = witness_rank_of(a.witness);
    let wb = witness_rank_of(b.witness);
    if wa != wb {
        return wa < wb;
    }
    let la = layer_rank_of(a.layer);
    let lb = layer_rank_of(b.layer);
    if la != lb {
        return la < lb;
    }
    assert(a.witness == b.witness && a.layer == b.layer) by {
        assert(witness_rank(a.witness) == witness_rank(b.witness) ==> a.witness == b.witness);
        assert(layer_rank(a.layer) == layer_rank(b.layer) ==> a.layer == b.layer);
    }
    if str_less(a.minted_as.0.as_str(), b.minted_as.0.as_str()) {
        return true;
    }
    if !str_equal(a.minted_as.0.as_str(), b.minted_as.0.as_str()) {
        proof {
            lemma_chars_lt_irreflexive(a.minted_as@);
        }
        return false;
    }
    str_less(a.kind, b.kind)
}

fn kind_rank_of(k: EntityKind) -> (r: u8)
    ensures
        r as int == kind_rank(k),
{
    match k {
        EntityKind::Polity => 0,
        EntityKind::District => 1,
        EntityKind::People => 2,
        EntityKind::Allotment => 3,
        EntityKind::Promise => 4,
        EntityKind::Vision => 5,
        EntityKind::Waterbody => 6,
        EntityKind::Terrain => 7,
        EntityKind::Place => 8,
        EntityKind::Route => 9,
    }
}

fn least_kind_of(a: EntityKind, b: EntityKind) -> (r: EntityKind)
    ensures
        r == least_kind(a, b),
{
    if kind_rank_of(b) < kind_rank_of(a) {
        b
    } else {
        a
    }
}

/// Two kinds of one rank are one kind.
pub(crate) proof fn lemma_kind_rank_injective(a: EntityKind, b: EntityKind)
    ensures
        kind_rank(a) == kind_rank(b) ==> a == b,
{
}

/// Two testimonies are in order one way or the other, or are the same
/// testimony.
pub(crate) proof fn lemma_wkey_lt_total(a: WitnessRefView, b: WitnessRefView)
    ensures
        wkey_lt(a, b) || wkey_lt(b, a) || a == b,
{
    assert(witness_rank(a.witness) == witness_rank(b.witness) ==> a.witness == b.witness);
    assert(layer_rank(a.layer) == layer_rank(b.layer) ==> a.layer == b.layer);
    lemma_chars_lt_total(a.minted_as, b.minted_as);
    lemma_chars_lt_total(a.kind, b.kind);
}

/// Merge `name` into a list kept in strict string order.
pub(crate) fn merge_name(names: &mut Vec<String>, name: &str)
    requires
        names_sorted(old(names)@.map_values(|n: String| n@)),
    ensures
        final(names)@.map_values(|n: String| n@) == insert_name(old(names)@.map_values(|n: String| n@), name@),
        names_sorted(final(names)@.map_values(|n: String| n@)),
{
    let ghost s = names@.map_values(|n: String| n@);
    let mut i: usize = 0;
    while i < names.len() && str_less(names[i].as_str(), name)
        invariant
            s == names@.map_values(|n: String| n@),
            names_sorted(s),
            i <= names.len(),
            forall|j: int| 0 <= j < i ==> chars_lt(#[trigger] s[j], name@),
        decreases names.len() - i,
    {
        i += 1;
    }
    // every name from i on is not before `name`
    proof {
        assert forall|j: int| i <= j < s.len() implies !chars_lt(#[trigger] s[j], name@) by {
            if i < s.len() {
                lemma_chars_lt_total(s[i as int], name@);
                if j > i {
                    if chars_lt(s[j], name@) {
                        assert(chars_lt(s[i as int], s[j]));
                        if s[i as int] == name@ {
                            lemma_chars_lt_asym(s[j], name@);
                        } else {
                            lemma_chars_lt_trans(name@, s[i as int], s[j]);
                            lemma_chars_lt_asym(name@, s[j]);
                        }
                    }
                }
            }
        }
        let f = |n: Seq<char>| chars_lt(n, name@);
        assert(s.take(i as int).filter(f) == s.take(i as int)) by {
            lemma_filter_all(s.take(i as int), f);
        }
        assert(s.skip(i as int).filter(f).len() == 0) by {
            lemma_filter_none(s.skip(i as int), f);
        }
        assert(s == s.take(i as int) + s.skip(i as int));
        Seq::filter_distributes_over_add(s.take(i as int), s.skip(i as int), f);
        assert(s.filter(f).len() == i);
    }
    if i < names.len() && str_equal(names[i].as_str(), name) {
        assert(s.contains(name@)) by {
            assert(s[i as int] == name@);
        }
        return;
    }
    assert(!s.contains(name@)) by {
        if s.contains(name@) {
            let j = choose|j: int| 0 <= j < s.len() && s[j] == name@;
            if j < i {
                lemma_chars_lt_irreflexive(name@);
            } else if j > i {
                lemma_chars_lt_total(s[i as int], name@);
                assert(chars_lt(s[i as int], s[j]));
                lemma_chars_lt_asym(s[i as int], name@);
            }
        }
    }
    names.insert(i, owned(name));
    proof {
        let t = names@.map_values(|n: String| n@);
        assert(t =~= s.take(i as int) + seq![name@] + s.skip(i as int));
        assert forall|a: int, b: int| 0 <= a < b < t.len() implies chars_lt(t[a], t[b]) by {
            if b < i {
                assert(t[a] == s[a] && t[b] == s[b]);
            } else if b == i {
                assert(t[a] == s[a]);
            } else if a < i {
                assert(t[a] == s[a] && t[b] == s[b - 1]);
                lemma_chars_lt_total(s[b - 1], name@);
                lemma_chars_lt_trans(s[a], name@, s[b - 1]);
            } else if a == i {
                assert(t[b] == s[b - 1]);
                lemma_chars_lt_total(s[b - 1], name@);
            } else {
                assert(t[a] == s[a - 1] && t[b] == s[b - 1]);
            }
        }
    }
}

proof fn lemma_filter_all<A>(s: Seq<A>, f: spec_fn(A) -> bool)
    requires
        forall|j: int| 0 <= j < s.len() ==> f(#[trigger] s[j]),
    ensures
        s.filter(f) == s,
    decreases s.len(),
{
    reveal_with_fuel(Seq::<_>::filter, 1);
    if s.len() > 0 {
        lemma_filter_all(s.drop_last(), f);
        assert(f(s[s.len() - 1]));
        assert(s.drop_last().push(s.last()) =~= s);
    }
}

proof fn lemma_filter_none<A>(s: Seq<A>, f: spec_fn(A) -> bool)
    requires
        forall|j: int| 0 <= j < s.len() ==> !f(#[trigger] s[j]),
    ensures
        s.filter(f).len() == 0,
    decreases s.len(),
{
    reveal_with_fuel(Seq::<_>::filter, 1);
    if s.len() > 0 {
        lemma_filter_none(s.drop_last(), f);
        assert(!f(s[s.len() - 1]));
    }
}

pub(crate) proof fn lemma_wkey_lt_trans(a: WitnessRefView, b: WitnessRefView, c: WitnessRefView)
    requires
        wkey_lt(a, b),
        wkey_lt(b, c),
    ensures
        wkey_lt(a, c),
{
    if a.witness == b.witness && a.layer == b.layer && b.witness == c.witness && b.layer == c.layer {
        if chars_lt(a.minted_as, b.minted_as) && chars_lt(b.minted_as, c.minted_as) {
            lemma_chars_lt_trans(a.minted_as, b.minted_as, c.minted_as);
        }
        if chars_lt(a.kind, b.kind) && chars_lt(b.kind, c.kind) {
            lemma_chars_lt_trans(a.kind, b.kind, c.kind);
        }
    }
}

pub(crate) proof fn lemma_wkey_lt_irreflexive(a: WitnessRefView)
    ensures
        !wkey_lt(a, a),
{
    lemma_chars_lt_irreflexive(a.minted_as);
    lemma_chars_lt_irreflexive(a.kind);
}

pub(crate) proof fn lemma_prefix_not_after(ws: Seq<WitnessRefView>, w: WitnessRefView)
    ensures
        prefix_not_after(ws, w) <= ws.len(),
        forall|j: int| 0 <= j < prefix_not_after(ws, w) ==> !wkey_lt(w, #[trigger] ws[j]),
        prefix_not_after(ws, w) < ws.len() ==> wkey_lt(w, ws[prefix_not_after(ws, w) as int]),
    decreases ws.len(),
{
    if ws.len() > 0 && !wkey_lt(w, ws[0]) {
        lemma_prefix_not_after(ws.drop_first(), w);
        assert forall|j: int| 0 <= j < prefix_not_after(ws, w) implies !wkey_lt(w, #[trigger] ws[j]) by {
            if j > 0 {
                assert(ws[j] == ws.drop_first()[j - 1]);
            }
        }
        if prefix_not_after(ws, w) < ws.len() {
            assert(ws[prefix_not_after(ws, w) as int] == ws.drop_first()[prefix_not_after(ws.drop_first(), w) as int]);
        }
    }
}

/// Sorted insertion keeps testimonies sorted.
pub proof fn lemma_insert_by_key_sorted(ws: Seq<WitnessRefView>, w: WitnessRefView)
    requires
        witnesses_sorted(ws),
    ensures
        witnesses_sorted(insert_by_key(ws, w)),
{
    lemma_prefix_not_after(ws, w);
    let k = prefix_not_after(ws, w) as int;
    let t = insert_by_key(ws, w);
    assert(t.len() == ws.len() + 1);
    assert forall|a: int, b: int| 0 <= a < b < t.len() implies !wkey_lt(t[b], t[a]) by {
        if b < k {
            assert(t[a] == ws[a] && t[b] == ws[b]);
        } else if b == k {
            assert(t[a] == ws[a] && t[b] == w);
        } else if a < k {
            assert(t[a] == ws[a] && t[b] == ws[b - 1]);
        } else if a == k {
            assert(t[a] == w && t[b] == ws[b - 1]);
            if wkey_lt(ws[b - 1], w) {
                lemma_wkey_lt_trans(ws[b - 1], w, ws[k]);
                if b - 1 == k {
                    lemma_wkey_lt_irreflexive(ws[k]);
                }
            }
        } else {
            assert(t[a] == ws[a - 1] && t[b] == ws[b - 1]);
        }
    }
}

fn insert_witness(ws: &mut Vec<WitnessRef>, w: WitnessRef)
    ensures
        final(ws)@.map_values(|x: WitnessRef| x@) == insert_by_key(old(ws)@.map_values(|x: WitnessRef| x@), w@),
{
    let ghost s = ws@.map_values(|x: WitnessRef| x@);
    let mut i: usize = 0;
    assert(s.skip(0) == s);
    while i < ws.len() && !wkey_less(&w, &ws[i])
        invariant
            s == ws@.map_values(|x: WitnessRef| x@),
            i <= ws.len(),
            prefix_not_after(s, w@) == i + prefix_not_after(s.skip(i as int), w@),
        decreases ws.len() - i,
    {
        assert(s.skip(i as int)[0] == s[i as int]);
        assert(s.skip(i as int).drop_first() == s.skip(i + 1));
        i += 1;
    }
    proof {
        if i < ws.len() {
            assert(s.skip(i as int)[0] == s[i as int]);
        }
    }
    let ghost wv = w@;
    ws.insert(i, w);
    assert(ws@.map_values(|x: WitnessRef| x@) =~= s.take(i as int) + seq![wv] + s.skip(i as int));
}

impl Registry {
    pub fn new() -> (r: Registry)
        ensures
            r.wf(),
            model_wf(r@),
            r@.aliases == Map::<Seq<char>, Seq<char>>::empty(),
            r@.why == Map::<Seq<char>, UnificationView>::empty(),
            r@.minted == Set::<Seq<char>>::empty(),
            r@.entities == Map::<Seq<char>, EntityView>::empty(),
            r@.votes == Map::<Seq<char>, Seq<(Seq<char>, EntityKind)>>::empty(),
    {
        let r = Registry {
            aliases: IdMap::new(),
            why: IdMap::new(),
            minted_ids: IdMap::new(),
            entities: IdMap::new(),
            kind_votes: IdMap::new(),
        };
        assert(r.minted_ids.to_map().dom() =~= Set::<Seq<char>>::empty());
        r
    }

    /// TOTAL, ONE-HOP resolution: an id nobody ever declared an alias
    /// for resolves to itself.
    pub fn resolve<'a>(&'a self, minted: &'a EntityId) -> (r: &'a EntityId)
        requires
            self.wf(),
        ensures
            r@ == spec_resolve(self@, minted@),
    {
        match self.aliases.get(minted.0.as_str()) {
            Some(c) => c,
            None => minted,
        }
    }

    /// The entity living at `canonical`, if anything has ever observed
    /// or been declared into it.
    pub fn get(&self, canonical: &EntityId) -> (r: Option<&Entity>)
        requires
            self.wf(),
        ensures
            match r {
                Some(e) => self@.entities.contains_key(canonical@) && self@.entities[canonical@] == e@,
                None => !self@.entities.contains_key(canonical@),
            },
    {
        self.entities.get(canonical.0.as_str())
    }

    /// The written reason `minted` unifies with whatever it resolves to
    /// — `None` if nothing has ever unified it with anything.
    pub fn why(&self, minted: &EntityId) -> (r: Option<&Unification>)
        requires
            self.wf(),
        ensures
            match r {
                Some(u) => self@.why.contains_key(minted@) && self@.why[minted@] == u@,
                None => !self@.why.contains_key(minted@),
            },
    {
        self.why.get(minted.0.as_str())
    }

    /// Every entity the registry currently holds, home ids only, in id
    /// order.
    pub fn entities(&self) -> (r: Vec<&Entity>)
        requires
            self.wf(),
        ensures
            forall|i: int, j: int| 0 <= i < j < r@.len() ==> chars_lt(r@[i]@.id, r@[j]@.id),
            forall|i: int| 0 <= i < r@.len() ==> self@.entities.contains_key((#[trigger] r@[i])@.id)
                && self@.entities[r@[i]@.id] == r@[i]@,
            forall|k: Seq<char>| #[trigger] self@.entities.contains_key(k) ==> exists|i: int| 0 <= i < r@.len() && r@[i]@.id == k,
    {
        let ghost ps = self.entities.pairs();
        proof {
            lemma_seq_to_map(ps);
        }
        let mut r: Vec<&Entity> = Vec::new();
        let mut i: usize = 0;
        while i < self.entities.entries.len()
            invariant
                self.wf(),
                ps == self.entities.pairs(),
                i <= ps.len(),
                r@.len() == i,
                forall|j: int| 0 <= j < i ==> r@[j]@ == ps[j].1,
            decreases ps.len() - i,
        {
            r.push(&self.entities.entries[i].1);
            i += 1;
        }
        proof {
            assert forall|j: int| 0 <= j < r@.len() implies r@[j]@.id == ps[j].0 by {
                assert(self@.entities.contains_key(ps[j].0));
                assert(self@.entities[ps[j].0] == ps[j].1);
            }
            assert forall|a: int, b: int| 0 <= a < b < r@.len() implies chars_lt(r@[a]@.id, r@[b]@.id) by {
                assert(r@[a]@.id == ps[a].0 && r@[b]@.id == ps[b].0);
            }
            assert forall|a: int| 0 <= a < r@.len() implies self@.entities.contains_key((#[trigger] r@[a])@.id)
                && self@.entities[r@[a]@.id] == r@[a]@ by {
                assert(r@[a]@.id == ps[a].0);
                assert(self@.entities[ps[a].0] == ps[a].1);
            }
            assert forall|k: Seq<char>| #[trigger] self@.entities.contains_key(k) implies exists|j: int| 0 <= j < r@.len() && r@[j]@.id == k by {
                let j = choose|j: int| 0 <= j < ps.len() && (#[trigger] ps[j]).0 == k;
                assert(self@.entities[ps[j].0] == ps[j].1);
                assert(r@[j]@.id == k);
            }
        }
        r
    }

    /// Record one witness's testimony: `minted` is called `name`, is a
    /// `kind` of thing, and `w` says who said so. If `minted` has
    /// already been declared to resolve elsewhere, this testimony joins
    /// that entity directly (one hop). If `minted` has been seen before
    /// under this exact id, the trivial `Unification::SameId` reason is
    /// recorded for it, UNLESS a written reason already stands. The
    /// entity keeps the least kind its testimonies gave; a disagreement
    /// stays in the kind votes, where `validate` names it.
    pub fn observe(&mut self, minted: EntityId, name: &str, kind: EntityKind, w: WitnessRef)
        requires
            old(self).wf(),
        ensures
            final(self).wf(),
            model_wf(final(self)@),
            final(self)@ == after_observe(old(self)@, minted@, name@, kind, w@),
    {
        let ghost m0 = self@;
        let already = self.minted_ids.find(minted.0.as_str()).is_ok();
        self.minted_ids.set(clone_id(&minted), ());
        if already {
            if self.why.find(minted.0.as_str()).is_err() {
                self.why.set(clone_id(&minted), Unification::SameId);
            }
        }
        assert(self@.aliases == m0.aliases && self@.entities == m0.entities);
        let home = clone_id(self.resolve(&minted));
        let mut votes = match self.kind_votes.take(home.0.as_str()) {
            Some(v) => v,
            None => KindVotes { votes: Vec::new() },
        };
        proof {
            if !m0.votes.contains_key(home@) {
                assert(votes@ =~= Seq::<(Seq<char>, EntityKind)>::empty());
            }
        }
        let ghost prior = votes@;
        let ghost minted_view = minted@;
        votes.votes.push((minted, kind));
        assert(votes@ =~= prior.push((minted_view, kind)));
        self.kind_votes.set(clone_id(&home), votes);
        let mut entity = match self.entities.take(home.0.as_str()) {
            Some(e) => e,
            None => Entity { id: clone_id(&home), names: Vec::new(), kind, witnesses: Vec::new() },
        };
        proof {
            if m0.entities.contains_key(home@) {
                assert(names_sorted(m0.entities[home@].names));
            } else {
                assert(entity@.names =~= Seq::<Seq<char>>::empty());
                assert(entity@.witnesses =~= Seq::<WitnessRefView>::empty());
            }
        }
        let ghost base = entity@;
        entity.kind = least_kind_of(entity.kind, kind);
        merge_name(&mut entity.names, name);
        insert_witness(&mut entity.witnesses, w);
        proof {
            if m0.entities.contains_key(home@) {
                assert(witnesses_sorted(base.witnesses));
            }
            lemma_insert_by_key_sorted(base.witnesses, w@);
        }
        let ghost ent = entity@;
        self.entities.set(home, entity);
        proof {
            let m1 = self@;
            let spec = after_observe(m0, minted_view, name@, kind, w@);
            assert(m1.minted =~= spec.minted);
            assert(m1.votes =~= spec.votes);
            assert(m1.entities =~= spec.entities);
            assert(m1.why =~= spec.why);
            assert forall|k: Seq<char>| #[trigger] m1.entities.contains_key(k) implies {
                &&& m1.entities[k].id == k
                &&& names_sorted(m1.entities[k].names)
                &&& witnesses_sorted(m1.entities[k].witnesses)
            } by {
                if k != home@ {
                    assert(m0.entities.contains_key(k));
                }
            }
        }
    }
}

/// `format!("{:?}", s)`: the `Debug` text of a string.
#[verifier::external_body]
fn debug_text(s: &str) -> (r: String)
    ensures
        r@ == spec_debug_text(s@),
{
    format!("{:?}", s)
}

fn empty_votes() -> (v: KindVotes)
    ensures
        v@ == Seq::<(Seq<char>, EntityKind)>::empty(),
{
    let v = KindVotes { votes: Vec::new() };
    assert(v@ =~= Seq::<(Seq<char>, EntityKind)>::empty());
    v
}

impl Registry {
    /// Declare that `minted` resolves to `canonical`, for the written
    /// `why`. Never infers a reason; never chases `canonical` through
    /// any alias it might already have (that is how a chain gets built,
    /// and `validate` is what catches it). Refuses the two
    /// self-contradictory cases: unifying an id with itself, and
    /// silently redeclaring an id's canonical to something new.
    pub fn declare(&mut self, canonical: EntityId, minted: EntityId, why: Unification) -> (r: Result<(), String>)
        requires
            old(self).wf(),
        ensures
            final(self).wf(),
            model_wf(final(self)@),
            canonical@ == minted@ ==> r is Err && final(self)@ == old(self)@ && r->Err_0@
                == "cannot unify "@ + spec_debug_text(minted@) + " with itself"@,
            canonical@ != minted@ && old(self)@.aliases.contains_key(minted@) && old(self)@.aliases[minted@] != canonical@
                ==> r is Err && final(self)@ == old(self)@ && r->Err_0@ == spec_debug_text(minted@)
                + " is already declared to resolve to "@ + spec_debug_text(old(self)@.aliases[minted@])
                + "; refusing to silently redeclare it to "@ + spec_debug_text(canonical@),
            canonical@ != minted@ && !(old(self)@.aliases.contains_key(minted@) && old(self)@.aliases[minted@] != canonical@)
                ==> r is Ok && final(self)@ == after_declare(old(self)@, canonical@, minted@, why@),
    {
        let ghost m0 = self@;
        if str_equal(canonical.0.as_str(), minted.0.as_str()) {
            let d = debug_text(minted.0.as_str());
            return Err(concat3("cannot unify ", d.as_str(), " with itself"));
        }
        match self.aliases.get(minted.0.as_str()) {
            Some(existing) => {
                if !str_equal(existing.0.as_str(), canonical.0.as_str()) {
                    let a = debug_text(minted.0.as_str());
                    let b = debug_text(existing.0.as_str());
                    let c = debug_text(canonical.0.as_str());
                    let head = concat3(a.as_str(), " is already declared to resolve to ", b.as_str());
                    let tail = concat2("; refusing to silently redeclare it to ", c.as_str());
                    return Err(concat2(head.as_str(), tail.as_str()));
                }
            },
            None => {},
        }
        let ghost why_view = why@;
        self.aliases.set(clone_id(&minted), clone_id(&canonical));
        self.why.set(clone_id(&minted), why);
        let ghost m1 = self@;
        assert(m1.entities == m0.entities);
        assert forall|k: Seq<char>| #[trigger] m1.aliases.contains_key(k) implies m1.aliases[k] != k by {
            if k != minted@ {
                assert(m0.aliases.contains_key(k));
            }
        }
        match self.entities.take(minted.0.as_str()) {
            None => {
                proof {
                    assert(model_wf(self@));
                }
            },
            Some(moving) => {
                let ghost mv = moving@;
                let moved_votes = match self.kind_votes.take(minted.0.as_str()) {
                    Some(v) => v,
                    None => empty_votes(),
                };
                let ghost mvotes = moved_votes@;
                proof {
                    assert(self@.aliases == m1.aliases);
                    assert forall|q: Seq<char>| #[trigger] self@.entities.contains_key(q) implies m0.entities.contains_key(q)
                        && self@.entities[q] == m0.entities[q] by {}
                }
                let home = clone_id(self.resolve(&canonical));
                let ghost ents1 = self.entities.to_map();
                let ghost votes1 = self.kind_votes.to_map();
                let mut target = match self.entities.take(home.0.as_str()) {
                    Some(e) => e,
                    None => Entity { id: clone_id(&home), names: Vec::new(), kind: moving.kind, witnesses: Vec::new() },
                };
                let ghost base = target@;
                proof {
                    if !ents1.contains_key(home@) {
                        assert(base.names =~= Seq::<Seq<char>>::empty());
                        assert(base.witnesses =~= Seq::<WitnessRefView>::empty());
                    } else {
                        assert(m0.entities.contains_key(home@));
                    }
                    assert(m0.entities.contains_key(minted@));
                    assert(names_sorted(base.names));
                    assert(witnesses_sorted(base.witnesses));
                }
                let mut i: usize = 0;
                while i < moving.names.len()
                    invariant
                        mv == moving@,
                        i <= moving.names.len(),
                        names_sorted(target@.names),
                        target@.names == insert_names(base.names, mv.names.take(i as int)),
                        target@.id == base.id,
                        target@.kind == base.kind,
                        target@.witnesses == base.witnesses,
                    decreases moving.names.len() - i,
                {
                    merge_name(&mut target.names, moving.names[i].as_str());
                    proof {
                        assert(mv.names.take(i + 1).drop_last() =~= mv.names.take(i as int));
                        assert(mv.names.take(i + 1).last() == moving.names@[i as int]@);
                    }
                    i += 1;
                }
                assert(mv.names.take(mv.names.len() as int) =~= mv.names);
                let mut j: usize = 0;
                while j < moving.witnesses.len()
                    invariant
                        mv == moving@,
                        j <= moving.witnesses.len(),
                        witnesses_sorted(target@.witnesses),
                        target@.witnesses == insert_all(base.witnesses, mv.witnesses.take(j as int)),
                        target@.names == insert_names(base.names, mv.names),
                        names_sorted(target@.names),
                        target@.id == base.id,
                        target@.kind == base.kind,
                    decreases moving.witnesses.len() - j,
                {
                    let ghost before = target@.witnesses;
                    let w = clone_witness(&moving.witnesses[j]);
                    insert_witness(&mut target.witnesses, w);
                    proof {
                        lemma_insert_by_key_sorted(before, w@);
                        assert(mv.witnesses.take(j + 1).drop_last() =~= mv.witnesses.take(j as int));
                        assert(mv.witnesses.take(j + 1).last() == moving.witnesses@[j as int]@);
                    }
                    j += 1;
                }
                assert(mv.witnesses.take(mv.witnesses.len() as int) =~= mv.witnesses);
                target.kind = least_kind_of(target.kind, moving.kind);
                let ghost merged = target@;
                self.entities.set(clone_id(&home), target);
                let mut tv = match self.kind_votes.take(home.0.as_str()) {
                    Some(v) => v,
                    None => empty_votes(),
                };
                let ghost prior = tv@;
                let mut k: usize = 0;
                while k < moved_votes.votes.len()
                    invariant
                        mvotes == moved_votes@,
                        k <= moved_votes.votes.len(),
                        tv@ == prior + mvotes.take(k as int),
                    decreases moved_votes.votes.len() - k,
                {
                    let (id, kind) = &moved_votes.votes[k];
                    let ghost tv0 = tv.votes@;
                    assert(mvotes[k as int] == (id@, *kind));
                    let cid = clone_id(id);
                    tv.votes.push((cid, *kind));
                    assert(tv.votes@ == tv0.push((cid, *kind)));
                    assert(tv@ =~= tv0.map_values(|v: (EntityId, EntityKind)| (v.0@, v.1)).push((id@, *kind)));
                    assert(mvotes.take(k + 1) =~= mvotes.take(k as int).push(mvotes[k as int]));
                    assert(tv@ =~= prior + mvotes.take(k + 1));
                    k += 1;
                }
                assert(mvotes.take(mvotes.len() as int) =~= mvotes);
                self.kind_votes.set(home, tv);
                proof {
                    let spec = after_declare(m0, canonical@, minted@, why_view);
                    let m2 = self@;
                    assert(m2.aliases == spec.aliases);
                    assert(m2.why == spec.why);
                    assert(m2.minted == spec.minted);
                    assert(m2.entities =~= spec.entities);
                    assert(m2.votes =~= spec.votes);
                    assert forall|q: Seq<char>| #[trigger] m2.entities.contains_key(q) implies {
                        &&& m2.entities[q].id == q
                        &&& names_sorted(m2.entities[q].names)
                        &&& witnesses_sorted(m2.entities[q].witnesses)
                    } by {
                        if q != home@ {
                            assert(m0.entities.contains_key(q));
                        }
                    }
                }
            },
        }
        Ok(())
    }
}

fn views_of(v: &Vec<RegistryViolation>) -> (r: Ghost<Seq<RegistryViolationView>>)
    ensures
        r@ == v@.map_values(|x: RegistryViolation| x@),
{
    Ghost(v@.map_values(|x: RegistryViolation| x@))
}

impl Registry {
    /// Declared canonicals that nothing ever minted, in id order.
    fn dangling(&self) -> (out: Vec<RegistryViolation>)
        requires
            self.wf(),
        ensures
            keyed_increasing(out@.map_values(|x: RegistryViolation| x@)),
            forall|a: int| 0 <= a < out@.len() ==> (#[trigger] out@[a])@ is DanglingCanonical,
            forall|c: Seq<char>| out@.map_values(|x: RegistryViolation| x@).contains(RegistryViolationView::DanglingCanonical(c))
                <==> alias_targets(self@).contains(c) && !self@.minted.contains(c),
    {
        let ghost ap = self.aliases.pairs();
        proof {
            lemma_seq_to_map(ap);
        }
        let mut vals: IdMap<()> = IdMap::new();
        let mut i: usize = 0;
        while i < self.aliases.entries.len()
            invariant
                self.wf(),
                ap == self.aliases.pairs(),
                i <= ap.len(),
                vals.wf(),
                forall|c: Seq<char>| vals.to_map().contains_key(c) <==> exists|t: int| 0 <= t < i && (#[trigger] ap[t]).1 == c,
            decreases ap.len() - i,
        {
            let c = clone_id(&self.aliases.entries[i].1);
            assert(c@ == ap[i as int].1);
            vals.set(c, ());
            proof {
                assert forall|q: Seq<char>| vals.to_map().contains_key(q) implies exists|t: int| 0 <= t < i + 1 && (#[trigger] ap[t]).1 == q by {
                    if q != c@ {
                        let t = choose|t: int| 0 <= t < i && (#[trigger] ap[t]).1 == q;
                    }
                }
                assert forall|q: Seq<char>| (exists|t: int| 0 <= t < i + 1 && (#[trigger] ap[t]).1 == q) implies vals.to_map().contains_key(q) by {
                    let t = choose|t: int| 0 <= t < i + 1 && (#[trigger] ap[t]).1 == q;
                    if t < i {
                        assert(exists|t2: int| 0 <= t2 < i && (#[trigger] ap[t2]).1 == q);
                    }
                }
            }
            i += 1;
        }
        // vals now holds exactly the declared canonicals
        proof {
            assert forall|c: Seq<char>| vals.to_map().contains_key(c) <==> alias_targets(self@).contains(c) by {
                if vals.to_map().contains_key(c) {
                    let t = choose|t: int| 0 <= t < ap.len() && (#[trigger] ap[t]).1 == c;
                    assert(self@.aliases.contains_key(ap[t].0) && self@.aliases[ap[t].0] == c);
                }
                if alias_targets(self@).contains(c) {
                    let k = choose|k: Seq<char>| self@.aliases.contains_key(k) && self@.aliases[k] == c;
                    let t = choose|t: int| 0 <= t < ap.len() && (#[trigger] ap[t]).0 == k;
                    assert(ap[t].1 == c);
                }
            }
        }
        let ghost vp = vals.pairs();
        proof {
            lemma_seq_to_map(vp);
        }
        let mut out: Vec<RegistryViolation> = Vec::new();
        let mut j: usize = 0;
        while j < vals.entries.len()
            invariant
                self.wf(),
                vals.wf(),
                vp == vals.pairs(),
                forall|c: Seq<char>| vals.to_map().contains_key(c) <==> alias_targets(self@).contains(c),
                j <= vp.len(),
                forall|a: int| 0 <= a < out@.len() ==> (#[trigger] out@[a])@ is DanglingCanonical,
                forall|a: int| 0 <= a < out@.len() ==> exists|t: int| 0 <= t < j && violation_key((#[trigger] out@[a])@) == vp[t].0,
                keyed_increasing(out@.map_values(|x: RegistryViolation| x@)),
                forall|c: Seq<char>| out@.map_values(|x: RegistryViolation| x@).contains(RegistryViolationView::DanglingCanonical(c))
                    <==> (exists|t: int| 0 <= t < j && (#[trigger] vp[t]).0 == c) && !self@.minted.contains(c),
            decreases vp.len() - j,
        {
            let c = &vals.entries[j].0;
            assert(c@ == vp[j as int].0);
            let ghost o0 = out@;
            let ghost v0 = out@.map_values(|x: RegistryViolation| x@);
            if self.minted_ids.find(c.0.as_str()).is_err() {
                out.push(RegistryViolation::DanglingCanonical(clone_id(c)));
                proof {
                    let v1 = out@.map_values(|x: RegistryViolation| x@);
                    assert(v1 =~= v0.push(RegistryViolationView::DanglingCanonical(c@)));
                    assert forall|a: int, b: int| 0 <= a < b < v1.len() implies chars_lt(violation_key(v1[a]), violation_key(v1[b])) by {
                        if b == v0.len() {
                            let t = choose|t: int| 0 <= t < j && violation_key((#[trigger] o0[a])@) == vp[t].0;
                            assert(o0[a]@ == v1[a]);
                        } else {
                            assert(v1[a] == v0[a] && v1[b] == v0[b]);
                        }
                    }
                    assert forall|a: int| 0 <= a < out@.len() implies exists|t: int| 0 <= t < j + 1 && violation_key((#[trigger] out@[a])@) == vp[t].0 by {
                        if a < o0.len() {
                            assert(out@[a] == o0[a]);
                            let t = choose|t: int| 0 <= t < j && violation_key((#[trigger] o0[a])@) == vp[t].0;
                        } else {
                            assert(violation_key(out@[a]@) == vp[j as int].0);
                        }
                    }
                    assert forall|q: Seq<char>| v1.contains(RegistryViolationView::DanglingCanonical(q))
                        <==> (exists|t: int| 0 <= t < j + 1 && (#[trigger] vp[t]).0 == q) && !self@.minted.contains(q) by {
                        if v1.contains(RegistryViolationView::DanglingCanonical(q)) {
                            let a = choose|a: int| 0 <= a < v1.len() && v1[a] == RegistryViolationView::DanglingCanonical(q);
                            if a < v0.len() {
                                assert(v0[a] == v1[a]);
                                assert(v0.contains(RegistryViolationView::DanglingCanonical(q)));
                            }
                        }
                        if (exists|t: int| 0 <= t < j + 1 && (#[trigger] vp[t]).0 == q) && !self@.minted.contains(q) {
                            let t = choose|t: int| 0 <= t < j + 1 && (#[trigger] vp[t]).0 == q;
                            if t < j {
                                assert(v0.contains(RegistryViolationView::DanglingCanonical(q)));
                                let a = choose|a: int| 0 <= a < v0.len() && v0[a] == RegistryViolationView::DanglingCanonical(q);
                                assert(v1[a] == v0[a]);
                            } else {
                                assert(v1[v0.len() as int] == RegistryViolationView::DanglingCanonical(q));
                            }
                        }
                    }
                }
            } else {
                proof {
                    assert forall|a: int| 0 <= a < out@.len() implies exists|t: int| 0 <= t < j + 1 && violation_key((#[trigger] out@[a])@) == vp[t].0 by {
                        let t = choose|t: int| 0 <= t < j && violation_key((#[trigger] out@[a])@) == vp[t].0;
                    }
                    assert forall|q: Seq<char>| v0.contains(RegistryViolationView::DanglingCanonical(q))
                        <==> (exists|t: int| 0 <= t < j + 1 && (#[trigger] vp[t]).0 == q) && !self@.minted.contains(q) by {
                        if (exists|t: int| 0 <= t < j + 1 && (#[trigger] vp[t]).0 == q) && !self@.minted.contains(q) {
                            let t = choose|t: int| 0 <= t < j + 1 && (#[trigger] vp[t]).0 == q;
                            assert(t < j);
                        }
                    }
                }
            }
            j += 1;
        }
        proof {
            let v = out@.map_values(|x: RegistryViolation| x@);
            assert forall|c: Seq<char>| v.contains(RegistryViolationView::DanglingCanonical(c))
                <==> alias_targets(self@).contains(c) && !self@.minted.contains(c) by {
                if alias_targets(self@).contains(c) {
                    assert(vals.to_map().contains_key(c));
                    let t = choose|t: int| 0 <= t < vp.len() && (#[trigger] vp[t]).0 == c;
                }
                if v.contains(RegistryViolationView::DanglingCanonical(c)) {
                    let t = choose|t: int| 0 <= t < vp.len() && (#[trigger] vp[t]).0 == c;
                    assert(vals.to_map().contains_key(c));
                }
            }
        }
        out
    }
}

impl Registry {
    /// Aliases whose canonical is itself aliased, in id order.
    fn chained(&self) -> (out: Vec<RegistryViolation>)
        requires
            self.wf(),
        ensures
            keyed_increasing(out@.map_values(|x: RegistryViolation| x@)),
            forall|a: int| 0 <= a < out@.len() ==> (#[trigger] out@[a])@ is ChainedUnification,
            forall|m: Seq<char>, v: Seq<char>|
                out@.map_values(|x: RegistryViolation| x@).contains(RegistryViolationView::ChainedUnification { minted: m, via: v })
                <==> self@.aliases.contains_key(m) && self@.aliases[m] == v && self@.aliases.contains_key(v),
    {
        let ghost ap = self.aliases.pairs();
        proof {
            lemma_seq_to_map(ap);
        }
        let mut out: Vec<RegistryViolation> = Vec::new();
        let mut i: usize = 0;
        while i < self.aliases.entries.len()
            invariant
                self.wf(),
                ap == self.aliases.pairs(),
                i <= ap.len(),
                forall|a: int| 0 <= a < out@.len() ==> (#[trigger] out@[a])@ is ChainedUnification,
                forall|a: int| 0 <= a < out@.len() ==> exists|t: int| 0 <= t < i && violation_key((#[trigger] out@[a])@) == ap[t].0,
                keyed_increasing(out@.map_values(|x: RegistryViolation| x@)),
                forall|m: Seq<char>, v: Seq<char>|
                    out@.map_values(|x: RegistryViolation| x@).contains(RegistryViolationView::ChainedUnification { minted: m, via: v })
                    <==> (exists|t: int| 0 <= t < i && (#[trigger] ap[t]) == (m, v)) && self@.aliases.contains_key(v),
            decreases ap.len() - i,
        {
            let m = &self.aliases.entries[i].0;
            let c = &self.aliases.entries[i].1;
            assert(m@ == ap[i as int].0 && c@ == ap[i as int].1);
            let ghost o0 = out@;
            let ghost v0 = out@.map_values(|x: RegistryViolation| x@);
            if self.aliases.find(c.0.as_str()).is_ok() {
                out.push(RegistryViolation::ChainedUnification { minted: clone_id(m), via: clone_id(c) });
                proof {
                    let nv = RegistryViolationView::ChainedUnification { minted: m@, via: c@ };
                    let v1 = out@.map_values(|x: RegistryViolation| x@);
                    assert(v1 =~= v0.push(nv));
                    assert forall|a: int, b: int| 0 <= a < b < v1.len() implies chars_lt(violation_key(v1[a]), violation_key(v1[b])) by {
                        if b == v0.len() {
                            let t = choose|t: int| 0 <= t < i && violation_key((#[trigger] o0[a])@) == ap[t].0;
                            assert(o0[a]@ == v1[a]);
                        } else {
                            assert(v1[a] == v0[a] && v1[b] == v0[b]);
                        }
                    }
                    assert forall|a: int| 0 <= a < out@.len() implies exists|t: int| 0 <= t < i + 1 && violation_key((#[trigger] out@[a])@) == ap[t].0 by {
                        if a < o0.len() {
                            assert(out@[a] == o0[a]);
                            let t = choose|t: int| 0 <= t < i && violation_key((#[trigger] o0[a])@) == ap[t].0;
                        } else {
                            assert(violation_key(out@[a]@) == ap[i as int].0);
                        }
                    }
                    assert forall|q: Seq<char>, v: Seq<char>|
                        v1.contains(RegistryViolationView::ChainedUnification { minted: q, via: v })
                        <==> (exists|t: int| 0 <= t < i + 1 && (#[trigger] ap[t]) == (q, v)) && self@.aliases.contains_key(v) by {
                        let x = RegistryViolationView::ChainedUnification { minted: q, via: v };
                        if v1.contains(x) {
                            let a = choose|a: int| 0 <= a < v1.len() && v1[a] == x;
                            if a < v0.len() {
                                assert(v0[a] == v1[a]);
                                assert(v0.contains(x));
                            } else {
                                assert(ap[i as int] == (q, v));
                            }
                        }
                        if (exists|t: int| 0 <= t < i + 1 && (#[trigger] ap[t]) == (q, v)) && self@.aliases.contains_key(v) {
                            let t = choose|t: int| 0 <= t < i + 1 && (#[trigger] ap[t]) == (q, v);
                            if t < i {
                                assert(v0.contains(x));
                                let a = choose|a: int| 0 <= a < v0.len() && v0[a] == x;
                                assert(v1[a] == v0[a]);
                            } else {
                                assert(v1[v0.len() as int] == x);
                            }
                        }
                    }
                }
            } else {
                proof {
                    assert forall|a: int| 0 <= a < out@.len() implies exists|t: int| 0 <= t < i + 1 && violation_key((#[trigger] out@[a])@) == ap[t].0 by {
                        let t = choose|t: int| 0 <= t < i && violation_key((#[trigger] out@[a])@) == ap[t].0;
                    }
                    assert forall|q: Seq<char>, v: Seq<char>|
                        v0.contains(RegistryViolationView::ChainedUnification { minted: q, via: v })
                        <==> (exists|t: int| 0 <= t < i + 1 && (#[trigger] ap[t]) == (q, v)) && self@.aliases.contains_key(v) by {
                        if (exists|t: int| 0 <= t < i + 1 && (#[trigger] ap[t]) == (q, v)) && self@.aliases.contains_key(v) {
                            let t = choose|t: int| 0 <= t < i + 1 && (#[trigger] ap[t]) == (q, v);
                            if t == i {
                                assert(c@ == v);
                                assert(false);
                            }
                        }
                    }
                }
            }
            i += 1;
        }
        proof {
            let v = out@.map_values(|x: RegistryViolation| x@);
            assert forall|m: Seq<char>, c: Seq<char>|
                v.contains(RegistryViolationView::ChainedUnification { minted: m, via: c })
                <==> self@.aliases.contains_key(m) && self@.aliases[m] == c && self@.aliases.contains_key(c) by {
                if self@.aliases.contains_key(m) && self@.aliases[m] == c {
                    let t = choose|t: int| 0 <= t < ap.len() && (#[trigger] ap[t]).0 == m;
                    assert(ap[t] == (m, c));
                }
                if exists|t: int| 0 <= t < ap.len() && (#[trigger] ap[t]) == (m, c) {
                    let t = choose|t: int| 0 <= t < ap.len() && (#[trigger] ap[t]) == (m, c);
                    assert(ap[t].0 == m);
                }
            }
        }
        out
    }
}

/// The first vote's kind and the first kind that disagrees with it.
fn conflict_of(votes: &KindVotes) -> (r: Option<(EntityKind, EntityKind)>)
    ensures
        r == kind_conflict(votes@),
{
    reveal(kind_conflict);
    if votes.votes.len() == 0 {
        return None;
    }
    let first = votes.votes[0].1;
    let ghost vs = votes@;
    assert(vs[0].1 == first);
    let mut i: usize = 1;
    while i < votes.votes.len()
        invariant
            vs == votes@,
            vs.len() == votes.votes@.len(),
            vs.len() > 0,
            vs[0].1 == first,
            1 <= i <= vs.len(),
            first_other_kind(vs, first, 1) == first_other_kind(vs, first, i as int),
        decreases vs.len() - i,
    {
        let k = votes.votes[i].1;
        assert(vs[i as int].1 == k);
        if k != first {
            proof {
                reveal(kind_conflict);
            }
            return Some((first, k));
        }
        i += 1;
    }
    proof {
        reveal(kind_conflict);
    }
    None
}

impl Registry {
    /// Homes whose kind votes disagree, in id order.
    #[verifier::rlimit(60)]
    fn conflicts(&self) -> (out: Vec<RegistryViolation>)
        requires
            self.wf(),
        ensures
            keyed_increasing(out@.map_values(|x: RegistryViolation| x@)),
            forall|a: int| 0 <= a < out@.len() ==> (#[trigger] out@[a])@ is KindConflict,
            forall|e: Seq<char>, a: EntityKind, b: EntityKind|
                out@.map_values(|x: RegistryViolation| x@).contains(RegistryViolationView::KindConflict { entity: e, a, b })
                <==> self@.votes.contains_key(e) && kind_conflict(self@.votes[e]) == Some((a, b)),
    {
        let ghost kp = self.kind_votes.pairs();
        proof {
            lemma_seq_to_map(kp);
        }
        let mut out: Vec<RegistryViolation> = Vec::new();
        let mut i: usize = 0;
        while i < self.kind_votes.entries.len()
            invariant
                self.wf(),
                kp == self.kind_votes.pairs(),
                i <= kp.len(),
                forall|a: int| 0 <= a < out@.len() ==> (#[trigger] out@[a])@ is KindConflict,
                forall|a: int| 0 <= a < out@.len() ==> exists|t: int| 0 <= t < i && violation_key((#[trigger] out@[a])@) == kp[t].0,
                keyed_increasing(out@.map_values(|x: RegistryViolation| x@)),
                forall|e: Seq<char>, a: EntityKind, b: EntityKind|
                    out@.map_values(|x: RegistryViolation| x@).contains(RegistryViolationView::KindConflict { entity: e, a, b })
                    <==> exists|t: int| 0 <= t < i && (#[trigger] kp[t]).0 == e && kind_conflict(kp[t].1) == Some((a, b)),
            decreases kp.len() - i,
        {
            let e = &self.kind_votes.entries[i].0;
            assert(e@ == kp[i as int].0 && self.kind_votes.entries@[i as int].1@ == kp[i as int].1);
            let ghost o0 = out@;
            let ghost v0 = out@.map_values(|x: RegistryViolation| x@);
            match conflict_of(&self.kind_votes.entries[i].1) {
                Some((a, b)) => {
                    out.push(RegistryViolation::KindConflict { entity: clone_id(e), a, b });
                    proof {
                        let nv = RegistryViolationView::KindConflict { entity: e@, a, b };
                        let v1 = out@.map_values(|x: RegistryViolation| x@);
                        assert(v1 =~= v0.push(nv));
                        assert forall|x: int, y: int| 0 <= x < y < v1.len() implies chars_lt(violation_key(v1[x]), violation_key(v1[y])) by {
                            if y == v0.len() {
                                let t = choose|t: int| 0 <= t < i && violation_key((#[trigger] o0[x])@) == kp[t].0;
                                assert(o0[x]@ == v1[x]);
                            } else {
                                assert(v1[x] == v0[x] && v1[y] == v0[y]);
                            }
                        }
                        assert forall|x: int| 0 <= x < out@.len() implies exists|t: int| 0 <= t < i + 1 && violation_key((#[trigger] out@[x])@) == kp[t].0 by {
                            if x < o0.len() {
                                assert(out@[x] == o0[x]);
                                let t = choose|t: int| 0 <= t < i && violation_key((#[trigger] o0[x])@) == kp[t].0;
                            } else {
                                assert(violation_key(out@[x]@) == kp[i as int].0);
                            }
                        }
                        assert forall|q: Seq<char>, p: EntityKind, r: EntityKind|
                            v1.contains(RegistryViolationView::KindConflict { entity: q, a: p, b: r })
                            <==> exists|t: int| 0 <= t < i + 1 && (#[trigger] kp[t]).0 == q && kind_conflict(kp[t].1) == Some((p, r)) by {
                            let x = RegistryViolationView::KindConflict { entity: q, a: p, b: r };
                            if v1.contains(x) {
                                let z = choose|z: int| 0 <= z < v1.len() && v1[z] == x;
                                if z < v0.len() {
                                    assert(v0[z] == v1[z]);
                                    assert(v0.contains(x));
                                    let t = choose|t: int| 0 <= t < i && (#[trigger] kp[t]).0 == q && kind_conflict(kp[t].1) == Some((p, r));
                                } else {
                                    assert(kp[i as int].0 == q && kind_conflict(kp[i as int].1) == Some((p, r)));
                                }
                            }
                            if exists|t: int| 0 <= t < i + 1 && (#[trigger] kp[t]).0 == q && kind_conflict(kp[t].1) == Some((p, r)) {
                                let t = choose|t: int| 0 <= t < i + 1 && (#[trigger] kp[t]).0 == q && kind_conflict(kp[t].1) == Some((p, r));
                                if t < i {
                                    assert(v0.contains(x));
                                    let z = choose|z: int| 0 <= z < v0.len() && v0[z] == x;
                                    assert(v1[z] == v0[z]);
                                } else {
                                    assert(v1[v0.len() as int] == x);
                                }
                            }
                        }
                    }
                },
                None => {
                    proof {
                        assert forall|x: int| 0 <= x < out@.len() implies exists|t: int| 0 <= t < i + 1 && violation_key((#[trigger] out@[x])@) == kp[t].0 by {
                            let t = choose|t: int| 0 <= t < i && violation_key((#[trigger] out@[x])@) == kp[t].0;
                        }
                        assert forall|q: Seq<char>, p: EntityKind, r: EntityKind|
                            v0.contains(RegistryViolationView::KindConflict { entity: q, a: p, b: r })
                            <==> exists|t: int| 0 <= t < i + 1 && (#[trigger] kp[t]).0 == q && kind_conflict(kp[t].1) == Some((p, r)) by {
                            if exists|t: int| 0 <= t < i + 1 && (#[trigger] kp[t]).0 == q && kind_conflict(kp[t].1) == Some((p, r)) {
                                let t = choose|t: int| 0 <= t < i + 1 && (#[trigger] kp[t]).0 == q && kind_conflict(kp[t].1) == Some((p, r));
                                if t == i {
                                    assert(false);
                                }
                            }
                        }
                    }
                },
            }
            i += 1;
        }
        proof {
            let v = out@.map_values(|x: RegistryViolation| x@);
            assert forall|e: Seq<char>, a: EntityKind, b: EntityKind|
                v.contains(RegistryViolationView::KindConflict { entity: e, a, b })
                <==> self@.votes.contains_key(e) && kind_conflict(self@.votes[e]) == Some((a, b)) by {
                if self@.votes.contains_key(e) && kind_conflict(self@.votes[e]) == Some((a, b)) {
                    let t = choose|t: int| 0 <= t < kp.len() && (#[trigger] kp[t]).0 == e;
                    assert(self@.votes[kp[t].0] == kp[t].1);
                }
                if exists|t: int| 0 <= t < kp.len() && (#[trigger] kp[t]).0 == e && kind_conflict(kp[t].1) == Some((a, b)) {
                    let t = choose|t: int| 0 <= t < kp.len() && (#[trigger] kp[t]).0 == e && kind_conflict(kp[t].1) == Some((a, b));
                    assert(self@.votes[kp[t].0] == kp[t].1);
                }
            }
        }
        out
    }
}

/// Two ordered runs, every violation of the first from an earlier
/// check than every violation of the second, make one ordered run.
proof fn lemma_ordered_concat(v1: Seq<RegistryViolationView>, v2: Seq<RegistryViolationView>)
    requires
        violations_ordered(v1),
        violations_ordered(v2),
        forall|a: int, b: int| 0 <= a < v1.len() && 0 <= b < v2.len() ==> violation_rank(v1[a]) < violation_rank(v2[b]),
    ensures
        violations_ordered(v1 + v2),
{
    let v = v1 + v2;
    assert forall|a: int, b: int| 0 <= a < b < v.len() implies violation_before(v[a], v[b]) by {
        if b < v1.len() {
            assert(v[a] == v1[a] && v[b] == v1[b]);
        } else if a >= v1.len() {
            let (x, y) = (a - v1.len(), b - v1.len());
            assert(v[a] == v2[x] && v[b] == v2[y]);
            assert(0 <= x < y < v2.len());
        } else {
            let y = b - v1.len();
            assert(v[a] == v1[a] && v[b] == v2[y]);
            assert(violation_rank(v1[a]) < violation_rank(v2[y]));
        }
    }
}

/// One check's run, keyed in increasing order, is an ordered run.
proof fn lemma_keyed_ordered(v: Seq<RegistryViolationView>, r: int)
    requires
        keyed_increasing(v),
        forall|a: int| 0 <= a < v.len() ==> violation_rank(#[trigger] v[a]) == r,
    ensures
        violations_ordered(v),
{
    assert forall|a: int, b: int| 0 <= a < b < v.len() implies violation_before(v[a], v[b]) by {
        assert(violation_rank(v[a]) == r && violation_rank(v[b]) == r);
    }
}

impl Registry {
    /// Every violation the current data commits — never just the
    /// first, so the owner sees the whole list in one run: dangling
    /// canonicals, then chained unifications, then kind conflicts,
    /// each group in id order.
    pub fn validate(&self) -> (out: Vec<RegistryViolation>)
        requires
            self.wf(),
        ensures
            violations_ordered(out@.map_values(|x: RegistryViolation| x@)),
            forall|c: Seq<char>|
                out@.map_values(|x: RegistryViolation| x@).contains(RegistryViolationView::DanglingCanonical(c))
                <==> alias_targets(self@).contains(c) && !self@.minted.contains(c),
            forall|m: Seq<char>, v: Seq<char>|
                out@.map_values(|x: RegistryViolation| x@).contains(RegistryViolationView::ChainedUnification { minted: m, via: v })
                <==> self@.aliases.contains_key(m) && self@.aliases[m] == v && self@.aliases.contains_key(v),
            forall|e: Seq<char>, a: EntityKind, b: EntityKind|
                out@.map_values(|x: RegistryViolation| x@).contains(RegistryViolationView::KindConflict { entity: e, a, b })
                <==> self@.votes.contains_key(e) && kind_conflict(self@.votes[e]) == Some((a, b)),
    {
        let mut out = self.dangling();
        let mut chained = self.chained();
        let mut conflicts = self.conflicts();
        let ghost d = out@.map_values(|x: RegistryViolation| x@);
        let ghost c = chained@.map_values(|x: RegistryViolation| x@);
        let ghost k = conflicts@.map_values(|x: RegistryViolation| x@);
        proof {
            assert forall|a: int| 0 <= a < d.len() implies violation_rank(#[trigger] d[a]) == 0 by {
                assert(out@[a]@ is DanglingCanonical);
            }
            assert forall|a: int| 0 <= a < c.len() implies violation_rank(#[trigger] c[a]) == 1 by {
                assert(chained@[a]@ is ChainedUnification);
            }
            assert forall|a: int| 0 <= a < k.len() implies violation_rank(#[trigger] k[a]) == 2 by {
                assert(conflicts@[a]@ is KindConflict);
            }
            lemma_keyed_ordered(d, 0);
            lemma_keyed_ordered(c, 1);
            lemma_keyed_ordered(k, 2);
            lemma_ordered_concat(d, c);
            assert forall|a: int, b: int| 0 <= a < (d + c).len() && 0 <= b < k.len() implies
                violation_rank((d + c)[a]) < violation_rank(k[b]) by {
                if a < d.len() {
                    assert((d + c)[a] == d[a]);
                } else {
                    assert((d + c)[a] == c[a - d.len()]);
                }
            }
            lemma_ordered_concat(d + c, k);
        }
        out.append(&mut chained);
        out.append(&mut conflicts);
        proof {
            let v = out@.map_values(|x: RegistryViolation| x@);
            assert(v =~= d + c + k);
            assert forall|x: RegistryViolationView| v.contains(x) <==> d.contains(x) || c.contains(x) || k.contains(x) by {
                if v.contains(x) {
                    let a = choose|a: int| 0 <= a < v.len() && v[a] == x;
                    if a < d.len() {
                        assert(d[a] == x);
                    } else if a < d.len() + c.len() {
                        assert(c[a - d.len()] == x);
                    } else {
                        assert(k[a - d.len() - c.len()] == x);
                    }
                }
                if d.contains(x) {
                    let a = choose|a: int| 0 <= a < d.len() && d[a] == x;
                    assert(v[a] == x);
                }
                if c.contains(x) {
                    let a = choose|a: int| 0 <= a < c.len() && c[a] == x;
                    assert(v[a + d.len()] == x);
                }
                if k.contains(x) {
                    let a = choose|a: int| 0 <= a < k.len() && k[a] == x;
                    assert(v[a + d.len() + c.len()] == x);
                }
            }
            assert forall|x: RegistryViolationView| !(x is DanglingCanonical) implies !d.contains(x) by {
                if d.contains(x) {
                    let a = choose|a: int| 0 <= a < d.len() && d[a] == x;
                    assert(violation_rank(d[a]) == 0);
                }
            }
            assert forall|x: RegistryViolationView| !(x is ChainedUnification) implies !c.contains(x) by {
                if c.contains(x) {
                    let a = choose|a: int| 0 <= a < c.len() && c[a] == x;
                    assert(violation_rank(c[a]) == 1);
                }
            }
            assert forall|x: RegistryViolationView| !(x is KindConflict) implies !k.contains(x) by {
                if k.contains(x) {
                    let a = choose|a: int| 0 <= a < k.len() && k[a] == x;
                    assert(violation_rank(k[a]) == 2);
                }
            }
        }
        out
    }
}

impl Default for Registry {
    fn default() -> (r: Registry)
        ensures
            r.wf(),
            r@.aliases == Map::<Seq<char>, Seq<char>>::empty(),
            r@.why == Map::<Seq<char>, UnificationView>::empty(),
            r@.minted == Set::<Seq<char>>::empty(),
            r@.entities == Map::<Seq<char>, EntityView>::empty(),
            r@.votes == Map::<Seq<char>, Seq<(Seq<char>, EntityKind)>>::empty(),
    {
        Registry::new()
    }
}

} // verus!
