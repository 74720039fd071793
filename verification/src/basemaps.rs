//! The historical-basemaps source vocabulary: epoch files and their
//! labels, and the typed, counted exemptions an ingest reports.

use vstd::prelude::*;
use crate::text::{chars_of, parse_i32, spec_parse_i32, strip_prefix};
use crate::world::TimePoint;

verus! {

/// One epoch file: a year (negative = BC, no zero) and its text.
#[derive(Clone, Debug)]
pub struct EpochSource {
    pub year: i32,
    pub label: String,
    pub text: String,
}

/// Typed, counted, enumerable — the atlas's exemption discipline.
#[derive(Clone, Debug, PartialEq)]
pub enum Exemption {
    /// The epoch predates the configured anchor's first event.
    PreAnchorEpoch { label: String, year: i32 },
    /// Features the source leaves anonymous (unattributed land).
    UnnamedFeatures { year: i32, count: usize },
    /// Rings degenerate after quantization (under three points).
    DegenerateRings { year: i32, count: usize },
}

/// Why a source's text could not be read as polygonal features.
#[derive(Clone, Debug, PartialEq)]
pub enum ParseError {
    BadSyntax(String),
    /// Structurally not a feature collection of polygonal features.
    BadShape(&'static str),
}

/// Why an ingest refused its source.
#[derive(Clone, Debug, PartialEq)]
pub enum IngestError {
    Parse(String, ParseError),
    /// Year zero does not exist in the shared chrono vocabulary.
    BadYear(String, i32),
}

/// The moment an epoch stands at: its year, known to the year only.
/// Year zero names no moment and is refused with the epoch's label.
pub fn epoch_moment(year: i32, label: &str) -> (r: Result<TimePoint, IngestError>)
    ensures
        year != 0 ==> r == Ok::<TimePoint, IngestError>(TimePoint { year, month: None, day: None }),
        year == 0 ==> (r matches Err(IngestError::BadYear(l, y)) && l@ == label@ && y == 0),
{
    if year == 0 {
        Err(IngestError::BadYear(label.to_string(), year))
    } else {
        Ok(TimePoint::year_only(year))
    }
}

/// The year an epoch label names: `world_bc<N>` is `-N`, `world_<N>`
/// is `N`, with `N` in the syntax of `i32::from_str`; anything else
/// names no year.
pub open spec fn spec_epoch_year(label: Seq<char>) -> Option<int> {
    let p = "world_"@;
    if label.len() >= p.len() && label.take(p.len() as int) == p {
        let rest = label.skip(p.len() as int);
        if rest.len() >= 2 && rest.take(2) == "bc"@ {
            match spec_parse_i32(rest.skip(2)) {
                Ok(n) => Some(-n),
                Err(_) => None,
            }
        } else {
            match spec_parse_i32(rest) {
                Ok(n) => Some(n),
                Err(_) => None,
            }
        }
    } else {
        None
    }
}

/// "world_bc2000" -> -2000, "world_100" -> 100.
pub fn epoch_year_from_label(label: &str) -> (r: Option<i32>)
    requires
        spec_epoch_year(label@) != Some(0x8000_0000int),
    ensures
        match r {
            Some(y) => spec_epoch_year(label@) == Some(y as int),
            None => spec_epoch_year(label@) is None,
        },
{
    proof {
        reveal_strlit("world_");
        reveal_strlit("bc");
    }
    let chars = chars_of(label);
    let rest = match strip_prefix(&chars, "world_") {
        Some(rest) => rest,
        None => return None,
    };
    match strip_prefix(&rest, "bc") {
        Some(n) => match parse_i32(&n) {
            Ok(y) => {
                assert(y != i32::MIN);
                Some(-y)
            },
            Err(_) => None,
        },
        None => match parse_i32(&rest) {
            Ok(y) => Some(y),
            Err(_) => None,
        },
    }
}

} // verus!
