//! The canon's persisted vocabulary: content ids as sixteen hex
//! digits, and layer and witness names. Loading refuses anything it
//! does not recognize, naming it.

use vstd::prelude::*;
use crate::canon::{LayerKind, Witness};
use crate::text::{
    chars_of, concat2, concat3, hex16, hex_digits, int_error_message, int_error_text, owned, parse_hex_u64,
    spec_parse_hex_u64, str_equal,
};

verus! {

/// A content hash as the canon file writes it: `{:016x}`.
pub fn hex(h: u64) -> (out: String)
    ensures
        out@ == hex_digits(h as nat, 16),
{
    hex16(h)
}

/// A content hash back from its text; the error names the id.
pub fn unhex(s: &str) -> (r: Result<u64, String>)
    ensures
        match spec_parse_hex_u64(s@) {
            Ok(v) => r == Ok::<u64, String>(v as u64),
            Err(e) => r is Err && r->Err_0@ == "bad id '"@ + s@ + "': "@ + int_error_text(e),
        },
{
    let chars = chars_of(s);
    match parse_hex_u64(&chars) {
        Ok(v) => Ok(v),
        Err(e) => {
            let head = concat3("bad id '", s, "': ");
            let msg = int_error_message(e);
            Err(concat2(head.as_str(), msg.as_str()))
        },
    }
}

pub open spec fn spec_layer_name(k: LayerKind) -> Seq<char> {
    match k {
        LayerKind::Territory => "territory"@,
        LayerKind::ScriptureClaims => "scripture-claims"@,
        LayerKind::Journeys => "journeys"@,
        LayerKind::Water => "water"@,
        LayerKind::Relief => "relief"@,
        LayerKind::Background => "background"@,
    }
}

pub fn layer_name(k: &LayerKind) -> (s: &'static str)
    ensures
        s@ == spec_layer_name(*k),
{
    match k {
        LayerKind::Territory => "territory",
        LayerKind::ScriptureClaims => "scripture-claims",
        LayerKind::Journeys => "journeys",
        LayerKind::Water => "water",
        LayerKind::Relief => "relief",
        LayerKind::Background => "background",
    }
}

/// The layer a name spells, if any.
pub open spec fn spec_layer_from(s: Seq<char>) -> Option<LayerKind> {
    if s == "territory"@ {
        Some(LayerKind::Territory)
    } else if s == "scripture-claims"@ {
        Some(LayerKind::ScriptureClaims)
    } else if s == "journeys"@ {
        Some(LayerKind::Journeys)
    } else if s == "water"@ {
        Some(LayerKind::Water)
    } else if s == "relief"@ {
        Some(LayerKind::Relief)
    } else if s == "background"@ {
        Some(LayerKind::Background)
    } else {
        None
    }
}

pub fn layer_from(s: &str) -> (r: Result<LayerKind, String>)
    ensures
        match spec_layer_from(s@) {
            Some(k) => r == Ok::<LayerKind, String>(k),
            None => r is Err && r->Err_0@ == "unknown layer '"@ + s@ + "'"@,
        },
{
    if str_equal(s, "territory") {
        Ok(LayerKind::Territory)
    } else if str_equal(s, "scripture-claims") {
        Ok(LayerKind::ScriptureClaims)
    } else if str_equal(s, "journeys") {
        Ok(LayerKind::Journeys)
    } else if str_equal(s, "water") {
        Ok(LayerKind::Water)
    } else if str_equal(s, "relief") {
        Ok(LayerKind::Relief)
    } else if str_equal(s, "background") {
        Ok(LayerKind::Background)
    } else {
        Err(concat3("unknown layer '", s, "'"))
    }
}

pub open spec fn spec_witness_name(w: Witness) -> Seq<char> {
    match w {
        Witness::Atlas => "atlas"@,
        Witness::Authored => "authored"@,
        Witness::Basemap => "basemap"@,
        Witness::NaturalEarth => "natural-earth"@,
    }
}

pub fn witness_name(w: &Witness) -> (s: &'static str)
    ensures
        s@ == spec_witness_name(*w),
{
    match w {
        Witness::Atlas => "atlas",
        Witness::Authored => "authored",
        Witness::Basemap => "basemap",
        Witness::NaturalEarth => "natural-earth",
    }
}

/// The witness a name spells, if any.
pub open spec fn spec_witness_from(s: Seq<char>) -> Option<Witness> {
    if s == "atlas"@ {
        Some(Witness::Atlas)
    } else if s == "authored"@ {
        Some(Witness::Authored)
    } else if s == "basemap"@ {
        Some(Witness::Basemap)
    } else if s == "natural-earth"@ {
        Some(Witness::NaturalEarth)
    } else {
        None
    }
}

pub fn witness_from(s: &str) -> (r: Result<Witness, String>)
    ensures
        match spec_witness_from(s@) {
            Some(w) => r == Ok::<Witness, String>(w),
            None => r is Err && r->Err_0@ == "unknown witness '"@ + s@ + "'"@,
        },
{
    if str_equal(s, "atlas") {
        Ok(Witness::Atlas)
    } else if str_equal(s, "authored") {
        Ok(Witness::Authored)
    } else if str_equal(s, "basemap") {
        Ok(Witness::Basemap)
    } else if str_equal(s, "natural-earth") {
        Ok(Witness::NaturalEarth)
    } else {
        Err(concat3("unknown witness '", s, "'"))
    }
}

/// Layer names round-trip: what `layer_name` writes, `layer_from`
/// reads back as the same layer, and a name that reads as a layer is
/// exactly that layer's name.
pub proof fn law_layer_names_round_trip(k: LayerKind, s: Seq<char>)
    ensures
        spec_layer_from(spec_layer_name(k)) == Some(k),
        spec_layer_from(s) matches Some(j) ==> spec_layer_name(j) == s,
{
    reveal_strlit("territory");
    reveal_strlit("scripture-claims");
    reveal_strlit("journeys");
    reveal_strlit("water");
    reveal_strlit("relief");
    reveal_strlit("background");
    assert("territory"@.len() == 9 && "scripture-claims"@.len() == 16 && "journeys"@.len() == 8
        && "water"@.len() == 5 && "relief"@.len() == 6 && "background"@.len() == 10);
}

/// Witness names round-trip, in both directions.
pub proof fn law_witness_names_round_trip(w: Witness, s: Seq<char>)
    ensures
        spec_witness_from(spec_witness_name(w)) == Some(w),
        spec_witness_from(s) matches Some(v) ==> spec_witness_name(v) == s,
{
    reveal_strlit("atlas");
    reveal_strlit("authored");
    reveal_strlit("basemap");
    reveal_strlit("natural-earth");
    assert("atlas"@.len() == 5 && "authored"@.len() == 8 && "basemap"@.len() == 7
        && "natural-earth"@.len() == 13);
}

/// THE LAYER FILE NAMES ARE FIXED: each layer kind is written under its
/// own name — territory, scripture-claims, journeys, water, relief,
/// background — and a name reads as a layer exactly when it is that
/// layer's name.
pub proof fn law_layer_file_names(k: LayerKind, s: Seq<char>)
    ensures
        spec_layer_name(k) == (match k {
            LayerKind::Territory => "territory"@,
            LayerKind::ScriptureClaims => "scripture-claims"@,
            LayerKind::Journeys => "journeys"@,
            LayerKind::Water => "water"@,
            LayerKind::Relief => "relief"@,
            LayerKind::Background => "background"@,
        }),
        spec_layer_from(s) == Some(k) <==> s == (match k {
            LayerKind::Territory => "territory"@,
            LayerKind::ScriptureClaims => "scripture-claims"@,
            LayerKind::Journeys => "journeys"@,
            LayerKind::Water => "water"@,
            LayerKind::Relief => "relief"@,
            LayerKind::Background => "background"@,
        }),
{
    law_layer_names_round_trip(k, s);
}

/// THE WITNESS FILE NAMES ARE FIXED: each witness is written under its
/// own name, and a name reads as a witness exactly when it is that
/// witness's name.
pub proof fn law_witness_file_names(w: Witness, s: Seq<char>)
    ensures
        spec_witness_name(w) == (match w {
            Witness::Atlas => "atlas"@,
            Witness::Authored => "authored"@,
            Witness::Basemap => "basemap"@,
            Witness::NaturalEarth => "natural-earth"@,
        }),
        spec_witness_from(s) == Some(w) <==> s == (match w {
            Witness::Atlas => "atlas"@,
            Witness::Authored => "authored"@,
            Witness::Basemap => "basemap"@,
            Witness::NaturalEarth => "natural-earth"@,
        }),
{
    law_witness_names_round_trip(w, s);
}

} // verus!
