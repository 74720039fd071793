//! The canon's identity vocabulary: who an entity is, which layer a
//! fact lives in, and which witness it stands on.

use vstd::prelude::*;

verus! {

/// WHO something is, forever distinct from WHAT it looks like. Atlas
/// node ids verbatim ("rome", "egypt", narrative ids); authored and
/// basemap entities carry their witness prefix ("authored:…",
/// "basemap:…").
#[derive(Clone, Debug, PartialEq, Eq, PartialOrd, Ord, Hash)]
pub struct EntityId(pub String);

impl View for EntityId {
    type V = Seq<char>;

    open spec fn view(&self) -> Seq<char> {
        self.0@
    }
}

/// A copy of an id (the same characters).
pub fn clone_id(e: &EntityId) -> (r: EntityId)
    ensures
        r@ == e@,
{
    EntityId(e.0.clone())
}

/// The layers of the canon. Within Territory, overlap at a moment is a
/// contradiction; across layers, overlap is meaning.
#[derive(Clone, Copy, Debug, PartialEq, Eq, Structural, PartialOrd, Ord, Hash)]
pub enum LayerKind {
    Territory,
    ScriptureClaims,
    Journeys,
    Water,
    Relief,
    Background,
}

/// Which witness a feature's truth stands on, with its grounds.
#[derive(Clone, Copy, Debug, PartialEq, Eq, Structural, PartialOrd, Ord, Hash)]
pub enum Witness {
    Atlas,
    Authored,
    Basemap,
    NaturalEarth,
}

/// Declaration order of the layers (their `Ord`).
pub open spec fn layer_rank(k: LayerKind) -> int {
    match k {
        LayerKind::Territory => 0,
        LayerKind::ScriptureClaims => 1,
        LayerKind::Journeys => 2,
        LayerKind::Water => 3,
        LayerKind::Relief => 4,
        LayerKind::Background => 5,
    }
}

/// Declaration order of the witnesses (their `Ord`).
pub open spec fn witness_rank(w: Witness) -> int {
    match w {
        Witness::Atlas => 0,
        Witness::Authored => 1,
        Witness::Basemap => 2,
        Witness::NaturalEarth => 3,
    }
}

pub fn layer_rank_of(k: LayerKind) -> (r: u8)
    ensures
        r as int == layer_rank(k),
{
    match k {
        LayerKind::Territory => 0,
        LayerKind::ScriptureClaims => 1,
        LayerKind::Journeys => 2,
        LayerKind::Water => 3,
        LayerKind::Relief => 4,
        LayerKind::Background => 5,
    }
}

pub fn witness_rank_of(w: Witness) -> (r: u8)
    ensures
        r as int == witness_rank(w),
{
    match w {
        Witness::Atlas => 0,
        Witness::Authored => 1,
        Witness::Basemap => 2,
        Witness::NaturalEarth => 3,
    }
}

#[derive(Clone, Debug, PartialEq)]
pub struct Provenance {
    pub witness: Witness,
    pub verses: Vec<String>,
    pub note: String,
}

} // verus!
