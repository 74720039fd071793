//! The vendoring client's own logic: an HTTP/1.1 body sent with
//! chunked transfer coding decoded back into the payload, and the
//! atlas API's narrative, event and era payloads read into rows. Every
//! payload is shape-checked; a shape error names its row and field.

use vstd::prelude::*;
use crate::json::{
    field, field_of, get_member, get_str, i32_field, i32_field_of, json_array, json_str, lemma_try_map_err, member,
    parse_json, read_string_items, spec_json_text, str_field, str_field_of, string_items, try_map, Json,
};
use crate::narratives::{EventRow, EventView, NarrativeRow, NarrativeView};
use crate::text::{
    chars_lt, chars_of, concat2, concat3, int_error_message, int_error_text, lemma_chars_lt_asym, lemma_chars_lt_irreflexive,
    lemma_chars_lt_total,
    lemma_chars_lt_trans, owned, parse_hex_usize, spec_parse_hex_usize, str_equal, str_less,
};
use vstd::relations::{sorted_by, total_ordering};
use crate::sorting::lemma_sorted_insert;
use crate::fnv::{be_bytes, fnv_bytes, law_fnv_streams, text_bytes, Fnv, FNV_OFFSET};

verus! {

/// What `String::from_utf8_lossy` makes of `bytes`.
pub uninterp spec fn spec_utf8_lossy(bytes: Seq<u8>) -> Seq<char>;

/// The text of `bytes` read as UTF-8 with invalid sequences replaced:
/// ASCII bytes read as themselves, anything else as
/// `String::from_utf8_lossy` reads it.
pub open spec fn lossy_text(bytes: Seq<u8>) -> Seq<char> {
    if forall|i: int| 0 <= i < bytes.len() ==> #[trigger] bytes[i] < 128 {
        bytes.map_values(|b: u8| b as char)
    } else {
        spec_utf8_lossy(bytes)
    }
}

/// Calls `String::from_utf8_lossy`: the bytes read as UTF-8, every
/// invalid sequence replaced by U+FFFD. The contract claims that the
/// text is a function of the bytes, and that bytes all below 128
/// (ASCII, valid UTF-8 one byte per character) read as themselves;
/// what other bytes read as is left to the name.
#[verifier::external_body]
fn utf8_lossy(bytes: &[u8]) -> (s: String)
    ensures
        s@ == spec_utf8_lossy(bytes@),
        (forall|i: int| 0 <= i < bytes@.len() ==> #[trigger] bytes@[i] < 128) ==> s@ == bytes@.map_values(|b: u8| b as char),
{
    String::from_utf8_lossy(bytes).into_owned()
}

/// `char::is_whitespace`: the Unicode White_Space property.
pub open spec fn unicode_whitespace(c: char) -> bool {
    ||| '\t' <= c && c <= '\r'
    ||| c == ' '
    ||| c == '\u{85}'
    ||| c == '\u{a0}'
    ||| c == '\u{1680}'
    ||| '\u{2000}' <= c && c <= '\u{200a}'
    ||| c == '\u{2028}'
    ||| c == '\u{2029}'
    ||| c == '\u{202f}'
    ||| c == '\u{205f}'
    ||| c == '\u{3000}'
}

/// `s` without its leading whitespace.
pub open spec fn trim_start(s: Seq<char>) -> Seq<char>
    decreases s.len(),
{
    if s.len() > 0 && unicode_whitespace(s[0]) {
        trim_start(s.drop_first())
    } else {
        s
    }
}

/// `s` without its trailing whitespace.
pub open spec fn trim_end(s: Seq<char>) -> Seq<char>
    decreases s.len(),
{
    if s.len() > 0 && unicode_whitespace(s.last()) {
        trim_end(s.drop_last())
    } else {
        s
    }
}

/// `str::trim`.
pub open spec fn spec_trim(s: Seq<char>) -> Seq<char> {
    trim_end(trim_start(s))
}

/// The first CRLF at or after `j`.
pub open spec fn crlf_from(body: Seq<u8>, j: int) -> Option<int>
    decreases body.len() - j,
{
    if j < 0 || j + 1 >= body.len() {
        None
    } else if body[j] == 13 && body[j + 1] == 10 {
        Some(j)
    } else {
        crlf_from(body, j + 1)
    }
}

pub proof fn lemma_crlf_from(body: Seq<u8>, j: int)
    ensures
        crlf_from(body, j) matches Some(k) ==> j <= k && k + 1 < body.len(),
    decreases body.len() - j,
{
    if 0 <= j && j + 1 < body.len() && !(body[j] == 13 && body[j + 1] == 10) {
        lemma_crlf_from(body, j + 1);
    }
}

/// The payload of the chunks from byte `pos` on: each chunk is a size
/// line (hexadecimal, whitespace trimmed) ended by CRLF, that many
/// bytes, and two more; a zero size ends the body.
pub open spec fn spec_dechunk_from(body: Seq<u8>, pos: int) -> Result<Seq<u8>, Seq<char>>
    decreases body.len() - pos,
{
    if pos < 0 {
        Err("chunk: missing size line"@)
    } else {
        match crlf_from(body, pos) {
            None => Err("chunk: missing size line"@),
            Some(le) => match spec_parse_hex_usize(spec_trim(lossy_text(body.subrange(pos, le)))) {
                Err(e) => Err("chunk size: "@ + int_error_text(e)),
                Ok(size) => {
                    let start = le + 2;
                    if size == 0 {
                        Ok(Seq::empty())
                    } else if body.len() - start < size + 2 {
                        Err("chunk: truncated"@)
                    } else {
                        proof {
                            lemma_crlf_from(body, pos);
                        }
                        match spec_dechunk_from(body, start + size + 2) {
                            Ok(o) => Ok(body.subrange(start, start + size) + o),
                            Err(e) => Err(e),
                        }
                    }
                },
            },
        }
    }
}

/// A chunked body decoded.
pub open spec fn spec_dechunk(body: Seq<u8>) -> Result<Seq<u8>, Seq<char>> {
    spec_dechunk_from(body, 0)
}

fn trim_chars(s: &Vec<char>) -> (r: Vec<char>)
    ensures
        r@ == spec_trim(s@),
{
    let mut a: usize = 0;
    assert(s@.skip(0) =~= s@);
    while a < s.len() && (('\t' <= s[a] && s[a] <= '\r') || s[a] == ' ' || s[a] == '\u{85}' || s[a] == '\u{a0}'
        || s[a] == '\u{1680}' || ('\u{2000}' <= s[a] && s[a] <= '\u{200a}') || s[a] == '\u{2028}' || s[a] == '\u{2029}'
        || s[a] == '\u{202f}' || s[a] == '\u{205f}' || s[a] == '\u{3000}')
        invariant
            a <= s@.len(),
            trim_start(s@) == trim_start(s@.skip(a as int)),
        decreases s@.len() - a,
    {
        assert(s@.skip(a as int)[0] == s@[a as int]);
        assert(s@.skip(a as int).drop_first() =~= s@.skip(a + 1));
        a += 1;
    }
    let ghost t = s@.skip(a as int);
    assert(trim_start(s@) == t) by {
        if a < s@.len() {
            assert(t[0] == s@[a as int]);
        }
    }
    let mut b: usize = s.len() - a;
    assert(t.take(b as int) =~= t);
    while b > 0 && (('\t' <= s[a + b - 1] && s[a + b - 1] <= '\r') || s[a + b - 1] == ' ' || s[a + b - 1] == '\u{85}'
        || s[a + b - 1] == '\u{a0}' || s[a + b - 1] == '\u{1680}' || ('\u{2000}' <= s[a + b - 1] && s[a + b - 1] <= '\u{200a}')
        || s[a + b - 1] == '\u{2028}' || s[a + b - 1] == '\u{2029}' || s[a + b - 1] == '\u{202f}'
        || s[a + b - 1] == '\u{205f}' || s[a + b - 1] == '\u{3000}')
        invariant
            t == s@.skip(a as int),
            a <= s@.len(),
            a + b <= s.len(),
            b <= t.len(),
            trim_end(t) == trim_end(t.take(b as int)),
        decreases b,
    {
        assert(t.take(b as int).last() == s@[a + b - 1]);
        assert(t.take(b as int).drop_last() =~= t.take(b - 1));
        b -= 1;
    }
    assert(trim_end(t.take(b as int)) == t.take(b as int)) by {
        if b > 0 {
            assert(t.take(b as int).last() == s@[a + b - 1]);
        }
    }
    let mut r: Vec<char> = Vec::new();
    let mut k: usize = 0;
    while k < b
        invariant
            t == s@.skip(a as int),
            a + b <= s.len(),
            k <= b,
            r@ == t.take(k as int),
        decreases b - k,
    {
        r.push(s[a + k]);
        assert(r@ =~= t.take(k + 1));
        k += 1;
    }
    r
}

/// Decodes a body sent with chunked transfer coding.
pub fn dechunk(body: &[u8]) -> (r: Result<Vec<u8>, String>)
    ensures
        match r {
            Ok(o) => spec_dechunk(body@) == Ok::<Seq<u8>, Seq<char>>(o@),
            Err(e) => spec_dechunk(body@) == Err::<Seq<u8>, Seq<char>>(e@),
        },
{
    let mut out: Vec<u8> = Vec::new();
    let mut pos: usize = 0;
    assert(out@ + Seq::<u8>::empty() =~= out@);
    loop
        invariant
            pos <= body@.len(),
            spec_dechunk(body@) == match spec_dechunk_from(body@, pos as int) {
                Ok(o) => Ok(out@ + o),
                Err(e) => Err::<Seq<u8>, Seq<char>>(e),
            },
        decreases body@.len() - pos,
    {
        let mut j: usize = pos;
        while j < body.len() && j + 1 < body.len() && !(body[j] == 13 && body[j + 1] == 10)
            invariant
                pos <= j <= body@.len(),
                crlf_from(body@, pos as int) == crlf_from(body@, j as int),
            decreases body@.len() - j,
        {
            j += 1;
        }
        if j >= body.len() || j + 1 >= body.len() {
            return Err(owned("chunk: missing size line"));
        }
        let mut line: Vec<u8> = Vec::new();
        let mut k: usize = pos;
        while k < j
            invariant
                pos <= k <= j,
                j < body@.len(),
                line@ == body@.subrange(pos as int, k as int),
            decreases j - k,
        {
            line.push(body[k]);
            assert(line@ =~= body@.subrange(pos as int, k + 1));
            k += 1;
        }
        let text = utf8_lossy(line.as_slice());
        let chars = chars_of(text.as_str());
        let trimmed = trim_chars(&chars);
        let size = match parse_hex_usize(&trimmed) {
            Ok(s) => s,
            Err(e) => {
                let m = int_error_message(e);
                return Err(concat2("chunk size: ", m.as_str()));
            },
        };
        let start = j + 2;
        if size == 0 {
            assert(out@ + Seq::<u8>::empty() =~= out@);
            return Ok(out);
        }
        if size > body.len() - start || body.len() - start - size < 2 {
            return Err(owned("chunk: truncated"));
        }
        let ghost out0 = out@;
        let end = start + size;
        let mut k: usize = start;
        while k < end
            invariant
                end == start + size,
                start <= k <= end,
                end <= body@.len(),
                out@ == out0 + body@.subrange(start as int, k as int),
            decreases end - k,
        {
            out.push(body[k]);
            assert(out@ =~= out0 + body@.subrange(start as int, k + 1));
            k += 1;
        }
        proof {
            let next = (start + size + 2) as int;
            match spec_dechunk_from(body@, next) {
                Ok(o) => {
                    assert(out0 + (body@.subrange(start as int, (start + size) as int) + o) =~= out@ + o);
                },
                Err(e) => {},
            }
        }
        pos = start + size + 2;
    }
}

// ------------------------------------------------------ the readers

/// One era of the atlas chronology.
#[derive(Clone, Debug, PartialEq)]
pub struct EraRow {
    pub id: String,
    pub name: String,
    pub from_year: i32,
    pub to_year: i32,
}

pub struct EraView {
    pub id: Seq<char>,
    pub name: Seq<char>,
    pub from_year: i32,
    pub to_year: i32,
}

impl View for EraRow {
    type V = EraView;

    open spec fn view(&self) -> EraView {
        EraView { id: self.id@, name: self.name@, from_year: self.from_year, to_year: self.to_year }
    }
}

/// The context a row's errors carry: "<kind> '<id>'", with "?" for a
/// row without a string id.
pub open spec fn row_ctx(kind: Seq<char>, row: Json) -> Seq<char> {
    kind + " '"@ + match json_str(member(row, "id"@)) {
        Some(s) => s,
        None => "?"@,
    } + "'"@
}

/// A leg id: a string item.
pub open spec fn leg_reader(ctx: Seq<char>) -> spec_fn(Json) -> Result<Seq<char>, Seq<char>> {
    |j: Json| match j {
        Json::Str(s) => Ok(s@),
        _ => Err(ctx + ": leg id"@),
    }
}

/// One narrative row: `legs` first, then `id`, `name`, `color`.
pub open spec fn narrative_row(row: Json) -> Result<NarrativeView, Seq<char>> {
    let ctx = row_ctx("narrative"@, row);
    match field_of(row, ctx, "legs"@) {
        Err(e) => Err(e),
        Ok(Json::Array(items)) => match try_map(items@, leg_reader(ctx)) {
            Err(e) => Err(e),
            Ok(legs) => match str_field_of(row, ctx, "id"@) {
                Err(e) => Err(e),
                Ok(id) => match str_field_of(row, ctx, "name"@) {
                    Err(e) => Err(e),
                    Ok(name) => match str_field_of(row, ctx, "color"@) {
                        Err(e) => Err(e),
                        Ok(color) => Ok(NarrativeView { id, name, color, legs }),
                    },
                },
            },
        },
        Ok(_) => Err(ctx + ": 'legs' is not an array"@),
    }
}

pub open spec fn narrative_reader() -> spec_fn(Json) -> Result<NarrativeView, Seq<char>> {
    |j: Json| narrative_row(j)
}

/// The narratives payload: an array of narrative rows.
pub open spec fn spec_parse_narratives(text: Seq<char>) -> Result<Seq<NarrativeView>, Seq<char>> {
    match spec_json_text(text) {
        Err(e) => Err("narratives: bad json: "@ + e),
        Ok(doc) => narratives_of(doc),
    }
}

/// The narratives payload, once parsed: an array of narrative rows.
pub open spec fn narratives_of(doc: Json) -> Result<Seq<NarrativeView>, Seq<char>> {
    match doc {
        Json::Array(rows) => try_map(rows@, narrative_reader()),
        _ => Err("narratives: not an array"@),
    }
}

/// A place reference: an object with a string `id`.
pub open spec fn place_reader(ctx: Seq<char>) -> spec_fn(Json) -> Result<Seq<char>, Seq<char>> {
    |j: Json| str_field_of(j, ctx, "id"@)
}

/// The verses of verse groups, in order: each group's `verses` strings.
pub open spec fn group_verses(groups: Seq<Json>) -> Seq<Seq<char>>
    decreases groups.len(),
{
    if groups.len() == 0 {
        Seq::empty()
    } else {
        group_verses(groups.drop_last()) + match json_array(member(groups.last(), "verses"@)) {
            Some(vs) => string_items(vs),
            None => Seq::empty(),
        }
    }
}

/// The verses of witnesses, in order: each witness's `verse_groups`.
pub open spec fn witness_verses(ws: Seq<Json>) -> Seq<Seq<char>>
    decreases ws.len(),
{
    if ws.len() == 0 {
        Seq::empty()
    } else {
        witness_verses(ws.drop_last()) + match json_array(member(ws.last(), "verse_groups"@)) {
            Some(gs) => group_verses(gs),
            None => Seq::empty(),
        }
    }
}

/// An event's verses, gathered from its `witnesses` (none if absent).
pub open spec fn event_verses(v: Json) -> Seq<Seq<char>> {
    match json_array(member(v, "witnesses"@)) {
        Some(ws) => witness_verses(ws),
        None => Seq::empty(),
    }
}

/// An event's date: `when` with `from_year` and `to_year`, or none
/// where `when` is absent or null.
pub open spec fn event_when(v: Json, ctx: Seq<char>) -> Result<Option<(i32, i32)>, Seq<char>> {
    match member(v, "when"@) {
        Some(Json::Null) => Ok(None),
        Some(w) => match i32_field_of(w, ctx, "from_year"@) {
            Err(e) => Err(e),
            Ok(f) => match i32_field_of(w, ctx, "to_year"@) {
                Err(e) => Err(e),
                Ok(t) => Ok(Some((f, t))),
            },
        },
        None => Ok(None),
    }
}

/// One event payload: `when`, then `places`, then `id`, then `title`
/// (or, failing that, `label`).
pub open spec fn event_of(v: Json) -> Result<EventView, Seq<char>> {
    let ctx = row_ctx("event"@, v);
    match event_when(v, ctx) {
        Err(e) => Err(e),
        Ok(when) => match field_of(v, ctx, "places"@) {
            Err(e) => Err(e),
            Ok(Json::Array(items)) => match try_map(items@, place_reader(ctx)) {
                Err(e) => Err(e),
                Ok(places) => match str_field_of(v, ctx, "id"@) {
                    Err(e) => Err(e),
                    Ok(id) => match (match str_field_of(v, ctx, "title"@) {
                        Ok(t) => Ok(t),
                        Err(_) => str_field_of(v, ctx, "label"@),
                    }) {
                        Err(e) => Err(e),
                        Ok(label) => Ok(EventView { id, label, when, places, verses: event_verses(v) }),
                    },
                },
            },
            Ok(_) => Err(ctx + ": 'places' is not an array"@),
        },
    }
}

/// The event payload.
pub open spec fn spec_parse_event(text: Seq<char>) -> Result<EventView, Seq<char>> {
    match spec_json_text(text) {
        Err(e) => Err("event: bad json: "@ + e),
        Ok(v) => event_of(v),
    }
}

/// One era row: `id`, `name`, `from_year`, `to_year`.
pub open spec fn era_row(row: Json) -> Result<EraView, Seq<char>> {
    match str_field_of(row, "era"@, "id"@) {
        Err(e) => Err(e),
        Ok(id) => match str_field_of(row, "era"@, "name"@) {
            Err(e) => Err(e),
            Ok(name) => match i32_field_of(row, "era"@, "from_year"@) {
                Err(e) => Err(e),
                Ok(f) => match i32_field_of(row, "era"@, "to_year"@) {
                    Err(e) => Err(e),
                    Ok(t) => Ok(EraView { id, name, from_year: f, to_year: t }),
                },
            },
        },
    }
}

pub open spec fn era_reader() -> spec_fn(Json) -> Result<EraView, Seq<char>> {
    |j: Json| era_row(j)
}

/// The eras payload: an array of era rows.
pub open spec fn spec_parse_eras(text: Seq<char>) -> Result<Seq<EraView>, Seq<char>> {
    match spec_json_text(text) {
        Err(e) => Err("eras: bad json: "@ + e),
        Ok(doc) => eras_of(doc),
    }
}

/// The eras payload, once parsed: an array of era rows.
pub open spec fn eras_of(doc: Json) -> Result<Seq<EraView>, Seq<char>> {
    match doc {
        Json::Array(rows) => try_map(rows@, era_reader()),
        _ => Err("eras: not an array"@),
    }
}

fn row_context(kind: &str, row: &Json) -> (ctx: String)
    ensures
        ctx@ == row_ctx(kind@, *row),
{
    proof {
        reveal_strlit("?");
    }
    let head = match get_str(row, "id") {
        Some(s) => concat3(kind, " '", s.as_str()),
        None => concat3(kind, " '", "?"),
    };
    concat2(head.as_str(), "'")
}

fn read_legs(items: &Vec<Json>, ctx: &String) -> (r: Result<Vec<String>, String>)
    ensures
        match r {
            Ok(v) => try_map(items@, leg_reader(ctx@)) == Ok::<Seq<Seq<char>>, Seq<char>>(v@.map_values(|x: String| x@)),
            Err(e) => try_map(items@, leg_reader(ctx@)) == Err::<Seq<Seq<char>>, Seq<char>>(e@),
        },
{
    let mut out: Vec<String> = Vec::new();
    let mut i: usize = 0;
    proof {
        assert(items@.take(0) =~= Seq::<Json>::empty());
        assert(out@.map_values(|x: String| x@) =~= Seq::<Seq<char>>::empty());
    }
    while i < items.len()
        invariant
            i <= items@.len(),
            try_map(items@.take(i as int), leg_reader(ctx@)) == Ok::<Seq<Seq<char>>, Seq<char>>(out@.map_values(|x: String| x@)),
        decreases items@.len() - i,
    {
        proof {
            assert(items@.take(i + 1).drop_last() =~= items@.take(i as int));
            assert(items@.take(i + 1).last() == items@[i as int]);
        }
        match &items[i] {
            Json::Str(s) => {
                let ghost before = out@.map_values(|x: String| x@);
                let c = s.clone();
                out.push(c);
                proof {
                    assert(out@.map_values(|x: String| x@) =~= before.push(c@));
                }
            },
            _ => {
                proof {
                    lemma_try_map_err(items@, leg_reader(ctx@), i + 1);
                }
                return Err(concat2(ctx.as_str(), ": leg id"));
            },
        }
        i += 1;
    }
    proof {
        assert(items@.take(items@.len() as int) =~= items@);
    }
    Ok(out)
}

fn read_narrative(row: &Json) -> (r: Result<NarrativeRow, String>)
    ensures
        match r {
            Ok(n) => narrative_row(*row) == Ok::<NarrativeView, Seq<char>>(n@),
            Err(e) => narrative_row(*row) == Err::<NarrativeView, Seq<char>>(e@),
        },
{
    let ctx = row_context("narrative", row);
    let legs = match field(row, ctx.as_str(), "legs") {
        Err(e) => return Err(e),
        Ok(Json::Array(items)) => match read_legs(items, &ctx) {
            Err(e) => return Err(e),
            Ok(legs) => legs,
        },
        Ok(_) => return Err(concat2(ctx.as_str(), ": 'legs' is not an array")),
    };
    let id = match str_field(row, ctx.as_str(), "id") {
        Err(e) => return Err(e),
        Ok(s) => s,
    };
    let name = match str_field(row, ctx.as_str(), "name") {
        Err(e) => return Err(e),
        Ok(s) => s,
    };
    let color = match str_field(row, ctx.as_str(), "color") {
        Err(e) => return Err(e),
        Ok(s) => s,
    };
    Ok(NarrativeRow { id, name, color, legs })
}

/// Reads the narratives payload into rows.
pub fn parse_narratives(json: &str) -> (r: Result<Vec<NarrativeRow>, String>)
    ensures
        match r {
            Ok(v) => spec_parse_narratives(json@) == Ok::<Seq<NarrativeView>, Seq<char>>(v@.map_values(|n: NarrativeRow| n@)),
            Err(e) => spec_parse_narratives(json@) == Err::<Seq<NarrativeView>, Seq<char>>(e@),
        },
{
    match parse_json(json) {
        Ok(doc) => narratives_from_json(&doc),
        Err(e) => Err(concat2("narratives: bad json: ", e.as_str())),
    }
}

/// Reads a parsed narratives payload into rows.
pub fn narratives_from_json(doc: &Json) -> (r: Result<Vec<NarrativeRow>, String>)
    ensures
        match r {
            Ok(v) => narratives_of(*doc) == Ok::<Seq<NarrativeView>, Seq<char>>(v@.map_values(|n: NarrativeRow| n@)),
            Err(e) => narratives_of(*doc) == Err::<Seq<NarrativeView>, Seq<char>>(e@),
        },
{
    let rows = match doc {
        Json::Array(rows) => rows,
        _ => return Err(owned("narratives: not an array")),
    };
    let mut out: Vec<NarrativeRow> = Vec::new();
    let mut i: usize = 0;
    proof {
        assert(rows@.take(0) =~= Seq::<Json>::empty());
        assert(out@.map_values(|n: NarrativeRow| n@) =~= Seq::<NarrativeView>::empty());
    }
    while i < rows.len()
        invariant
            *doc == Json::Array(*rows),
            i <= rows@.len(),
            try_map(rows@.take(i as int), narrative_reader()) == Ok::<Seq<NarrativeView>, Seq<char>>(out@.map_values(|n: NarrativeRow| n@)),
        decreases rows@.len() - i,
    {
        proof {
            assert(rows@.take(i + 1).drop_last() =~= rows@.take(i as int));
            assert(rows@.take(i + 1).last() == rows@[i as int]);
        }
        match read_narrative(&rows[i]) {
            Ok(n) => {
                let ghost before = out@.map_values(|n: NarrativeRow| n@);
                let ghost nv = n@;
                out.push(n);
                proof {
                    assert(out@.map_values(|n: NarrativeRow| n@) =~= before.push(nv));
                }
            },
            Err(e) => {
                proof {
                    lemma_try_map_err(rows@, narrative_reader(), i + 1);
                }
                return Err(e);
            },
        }
        i += 1;
    }
    proof {
        assert(rows@.take(rows@.len() as int) =~= rows@);
    }
    Ok(out)
}

fn read_places(items: &Vec<Json>, ctx: &String) -> (r: Result<Vec<String>, String>)
    ensures
        match r {
            Ok(v) => try_map(items@, place_reader(ctx@)) == Ok::<Seq<Seq<char>>, Seq<char>>(v@.map_values(|x: String| x@)),
            Err(e) => try_map(items@, place_reader(ctx@)) == Err::<Seq<Seq<char>>, Seq<char>>(e@),
        },
{
    let mut out: Vec<String> = Vec::new();
    let mut i: usize = 0;
    proof {
        assert(items@.take(0) =~= Seq::<Json>::empty());
        assert(out@.map_values(|x: String| x@) =~= Seq::<Seq<char>>::empty());
    }
    while i < items.len()
        invariant
            i <= items@.len(),
            try_map(items@.take(i as int), place_reader(ctx@)) == Ok::<Seq<Seq<char>>, Seq<char>>(out@.map_values(|x: String| x@)),
        decreases items@.len() - i,
    {
        proof {
            assert(items@.take(i + 1).drop_last() =~= items@.take(i as int));
            assert(items@.take(i + 1).last() == items@[i as int]);
        }
        match str_field(&items[i], ctx.as_str(), "id") {
            Ok(c) => {
                let ghost before = out@.map_values(|x: String| x@);
                let ghost cv = c@;
                out.push(c);
                proof {
                    assert(out@.map_values(|x: String| x@) =~= before.push(cv));
                }
            },
            Err(e) => {
                proof {
                    lemma_try_map_err(items@, place_reader(ctx@), i + 1);
                }
                return Err(e);
            },
        }
        i += 1;
    }
    proof {
        assert(items@.take(items@.len() as int) =~= items@);
    }
    Ok(out)
}

fn read_group_verses(groups: &Vec<Json>, out: &mut Vec<String>)
    ensures
        final(out)@.map_values(|x: String| x@) == old(out)@.map_values(|x: String| x@) + group_verses(groups@),
{
    let ghost start = out@.map_values(|x: String| x@);
    let mut i: usize = 0;
    proof {
        assert(groups@.take(0) =~= Seq::<Json>::empty());
        assert(start + group_verses(groups@.take(0)) =~= start);
    }
    while i < groups.len()
        invariant
            i <= groups@.len(),
            out@.map_values(|x: String| x@) == start + group_verses(groups@.take(i as int)),
        decreases groups@.len() - i,
    {
        proof {
            assert(groups@.take(i + 1).drop_last() =~= groups@.take(i as int));
            assert(groups@.take(i + 1).last() == groups@[i as int]);
        }
        let ghost before = out@.map_values(|x: String| x@);
        match get_member(&groups[i], "verses") {
            Some(Json::Array(vs)) => {
                read_string_items(vs, out);
                proof {
                    assert(before + string_items(vs@) =~= start + (group_verses(groups@.take(i as int)) + string_items(vs@)));
                }
            },
            _ => {
                proof {
                    assert(before =~= start + (group_verses(groups@.take(i as int)) + Seq::<Seq<char>>::empty()));
                }
            },
        }
        i += 1;
    }
    proof {
        assert(groups@.take(groups@.len() as int) =~= groups@);
    }
}

fn read_event_verses(v: &Json) -> (out: Vec<String>)
    ensures
        out@.map_values(|x: String| x@) == event_verses(*v),
{
    let mut out: Vec<String> = Vec::new();
    proof {
        assert(out@.map_values(|x: String| x@) =~= Seq::<Seq<char>>::empty());
    }
    match get_member(v, "witnesses") {
        Some(Json::Array(ws)) => {
            let ghost start = out@.map_values(|x: String| x@);
            let mut i: usize = 0;
            proof {
                assert(ws@.take(0) =~= Seq::<Json>::empty());
            }
            while i < ws.len()
                invariant
                    i <= ws@.len(),
                    out@.map_values(|x: String| x@) == witness_verses(ws@.take(i as int)),
                decreases ws@.len() - i,
            {
                proof {
                    assert(ws@.take(i + 1).drop_last() =~= ws@.take(i as int));
                    assert(ws@.take(i + 1).last() == ws@[i as int]);
                }
                let ghost before = out@.map_values(|x: String| x@);
                match get_member(&ws[i], "verse_groups") {
                    Some(Json::Array(gs)) => {
                        read_group_verses(gs, &mut out);
                    },
                    _ => {
                        proof {
                            assert(before =~= before + Seq::<Seq<char>>::empty());
                        }
                    },
                }
                i += 1;
            }
            proof {
                assert(ws@.take(ws@.len() as int) =~= ws@);
            }
        },
        _ => {},
    }
    out
}

/// Reads a parsed event payload into its row.
pub fn event_from_json(v: &Json) -> (r: Result<EventRow, String>)
    ensures
        match r {
            Ok(e) => event_of(*v) == Ok::<EventView, Seq<char>>(e@),
            Err(e) => event_of(*v) == Err::<EventView, Seq<char>>(e@),
        },
{
    let ctx = row_context("event", v);
    let when = match get_member(v, "when") {
        Some(Json::Null) => None,
        Some(w) => {
            let f = match i32_field(w, ctx.as_str(), "from_year") {
                Err(e) => return Err(e),
                Ok(f) => f,
            };
            let t = match i32_field(w, ctx.as_str(), "to_year") {
                Err(e) => return Err(e),
                Ok(t) => t,
            };
            Some((f, t))
        },
        None => None,
    };
    let places = match field(v, ctx.as_str(), "places") {
        Err(e) => return Err(e),
        Ok(Json::Array(items)) => match read_places(items, &ctx) {
            Err(e) => return Err(e),
            Ok(p) => p,
        },
        Ok(_) => return Err(concat2(ctx.as_str(), ": 'places' is not an array")),
    };
    let verses = read_event_verses(v);
    let id = match str_field(v, ctx.as_str(), "id") {
        Err(e) => return Err(e),
        Ok(s) => s,
    };
    let label = match str_field(v, ctx.as_str(), "title") {
        Ok(t) => t,
        Err(_) => match str_field(v, ctx.as_str(), "label") {
            Ok(l) => l,
            Err(e) => return Err(e),
        },
    };
    Ok(EventRow { id, label, when, places, verses })
}

/// Reads one event payload into a row.
pub fn parse_event(json: &str) -> (r: Result<EventRow, String>)
    ensures
        match r {
            Ok(e) => spec_parse_event(json@) == Ok::<EventView, Seq<char>>(e@),
            Err(e) => spec_parse_event(json@) == Err::<EventView, Seq<char>>(e@),
        },
{
    match parse_json(json) {
        Ok(doc) => event_from_json(&doc),
        Err(e) => Err(concat2("event: bad json: ", e.as_str())),
    }
}

fn read_era(row: &Json) -> (r: Result<EraRow, String>)
    ensures
        match r {
            Ok(e) => era_row(*row) == Ok::<EraView, Seq<char>>(e@),
            Err(e) => era_row(*row) == Err::<EraView, Seq<char>>(e@),
        },
{
    let id = match str_field(row, "era", "id") {
        Err(e) => return Err(e),
        Ok(s) => s,
    };
    let name = match str_field(row, "era", "name") {
        Err(e) => return Err(e),
        Ok(s) => s,
    };
    let from_year = match i32_field(row, "era", "from_year") {
        Err(e) => return Err(e),
        Ok(n) => n,
    };
    let to_year = match i32_field(row, "era", "to_year") {
        Err(e) => return Err(e),
        Ok(n) => n,
    };
    Ok(EraRow { id, name, from_year, to_year })
}

/// Reads the eras payload into rows.
pub fn parse_eras(json: &str) -> (r: Result<Vec<EraRow>, String>)
    ensures
        match r {
            Ok(v) => spec_parse_eras(json@) == Ok::<Seq<EraView>, Seq<char>>(v@.map_values(|e: EraRow| e@)),
            Err(e) => spec_parse_eras(json@) == Err::<Seq<EraView>, Seq<char>>(e@),
        },
{
    match parse_json(json) {
        Ok(doc) => eras_from_json(&doc),
        Err(e) => Err(concat2("eras: bad json: ", e.as_str())),
    }
}

/// Reads a parsed eras payload into rows.
pub fn eras_from_json(doc: &Json) -> (r: Result<Vec<EraRow>, String>)
    ensures
        match r {
            Ok(v) => eras_of(*doc) == Ok::<Seq<EraView>, Seq<char>>(v@.map_values(|e: EraRow| e@)),
            Err(e) => eras_of(*doc) == Err::<Seq<EraView>, Seq<char>>(e@),
        },
{
    let rows = match doc {
        Json::Array(rows) => rows,
        _ => return Err(owned("eras: not an array")),
    };
    let mut out: Vec<EraRow> = Vec::new();
    let mut i: usize = 0;
    proof {
        assert(rows@.take(0) =~= Seq::<Json>::empty());
        assert(out@.map_values(|e: EraRow| e@) =~= Seq::<EraView>::empty());
    }
    while i < rows.len()
        invariant
            *doc == Json::Array(*rows),
            i <= rows@.len(),
            try_map(rows@.take(i as int), era_reader()) == Ok::<Seq<EraView>, Seq<char>>(out@.map_values(|e: EraRow| e@)),
        decreases rows@.len() - i,
    {
        proof {
            assert(rows@.take(i + 1).drop_last() =~= rows@.take(i as int));
            assert(rows@.take(i + 1).last() == rows@[i as int]);
        }
        match read_era(&rows[i]) {
            Ok(e) => {
                let ghost before = out@.map_values(|e: EraRow| e@);
                let ghost ev = e@;
                out.push(e);
                proof {
                    assert(out@.map_values(|e: EraRow| e@) =~= before.push(ev));
                }
            },
            Err(e) => {
                proof {
                    lemma_try_map_err(rows@, era_reader(), i + 1);
                }
                return Err(e);
            },
        }
        i += 1;
    }
    proof {
        assert(rows@.take(rows@.len() as int) =~= rows@);
    }
    Ok(out)
}

// ------------------------------------------------------------ the pin

/// Payload `i` goes no later than payload `j`: name order, ties kept in
/// the order given.
pub open spec fn payload_first(names: Seq<Seq<char>>, i: int, j: int) -> bool {
    ||| chars_lt(names[i], names[j])
    ||| names[i] == names[j] && i <= j
}

pub open spec fn payload_order(names: Seq<Seq<char>>) -> spec_fn(int, int) -> bool {
    |i: int, j: int| payload_first(names, i, j)
}

/// The payloads' indices in the order they are written and hashed.
pub open spec fn spec_vendor_order(names: Seq<Seq<char>>) -> Seq<int> {
    Seq::new(names.len(), |i: int| i).sort_by(payload_order(names))
}

/// The payloads' (name, bytes), in vendoring order.
pub open spec fn ordered_payloads(payloads: Seq<(String, Vec<u8>)>) -> Seq<(Seq<char>, Seq<u8>)> {
    spec_vendor_order(payloads.map_values(|p: (String, Vec<u8>)| p.0@)).map_values(|i: int| (payloads[i].0@, payloads[i].1@))
}

/// One payload as the pin hashes it: the name's length in characters,
/// the name, the payload's length in bytes, then the bytes.
pub open spec fn pin_entry(e: (Seq<char>, Seq<u8>)) -> Seq<u8> {
    text_bytes(e.0) + be_bytes(e.1.len() as u64) + e.1
}

/// The entries as the pin hashes them, first entry first.
pub open spec fn pin_stream(entries: Seq<(Seq<char>, Seq<u8>)>) -> Seq<u8>
    decreases entries.len(),
{
    if entries.len() == 0 {
        Seq::empty()
    } else {
        pin_stream(entries.drop_last()) + pin_entry(entries.last())
    }
}

/// The pin of entries taken in the order given: FNV-1a over their
/// stream.
pub open spec fn spec_pin_hash(entries: Seq<(Seq<char>, Seq<u8>)>) -> u64 {
    fnv_bytes(FNV_OFFSET, pin_stream(entries))
}

/// Folds one payload into the running hash.
fn hash_entry(h: &mut Fnv, name: &str, bytes: &[u8])
    ensures
        final(h)@ == fnv_bytes(old(h)@, pin_entry((name@, bytes@))),
{
    let ghost h0 = h@;
    h.text(name);
    let ghost mid = text_bytes(name@);
    h.u64(bytes.len() as u64);
    proof {
        law_fnv_streams(h0, mid, be_bytes(bytes@.len() as u64));
    }
    let ghost mid2 = mid + be_bytes(bytes@.len() as u64);
    h.bytes(bytes);
    proof {
        law_fnv_streams(h0, mid2, bytes@);
        assert(mid2 + bytes@ =~= pin_entry((name@, bytes@)));
    }
}

/// Hashes `payloads[order[0]]`, `payloads[order[1]]`, … in turn.
fn hash_in_order(payloads: &[(String, Vec<u8>)], order: &Vec<usize>) -> (h: u64)
    requires
        forall|k: int| 0 <= k < order@.len() ==> (#[trigger] order@[k]) < payloads@.len(),
    ensures
        h == spec_pin_hash(order@.map_values(|i: usize| (payloads@[i as int].0@, payloads@[i as int].1@))),
{
    let ghost es = order@.map_values(|i: usize| (payloads@[i as int].0@, payloads@[i as int].1@));
    let mut h = Fnv::new();
    let mut k: usize = 0;
    proof {
        assert(es.take(0) =~= Seq::<(Seq<char>, Seq<u8>)>::empty());
    }
    while k < order.len()
        invariant
            forall|q: int| 0 <= q < order@.len() ==> (#[trigger] order@[q]) < payloads@.len(),
            es == order@.map_values(|i: usize| (payloads@[i as int].0@, payloads@[i as int].1@)),
            k <= order@.len(),
            h@ == fnv_bytes(FNV_OFFSET, pin_stream(es.take(k as int))),
        decreases order@.len() - k,
    {
        let i = order[k];
        let ghost h0 = h@;
        hash_entry(&mut h, payloads[i].0.as_str(), payloads[i].1.as_slice());
        proof {
            let pre = pin_stream(es.take(k as int));
            law_fnv_streams(FNV_OFFSET, pre, pin_entry(es[k as int]));
            assert(es.take(k + 1).drop_last() =~= es.take(k as int));
            assert(es.take(k + 1).last() == es[k as int]);
        }
        k += 1;
    }
    proof {
        assert(es.take(es.len() as int) =~= es);
    }
    h.finish()
}

proof fn lemma_payload_order_total(names: Seq<Seq<char>>)
    ensures
        total_ordering(payload_order(names)),
{
    let r = payload_order(names);
    assert forall|x: int| #[trigger] r(x, x) by {}
    assert forall|x: int, y: int| #[trigger] r(x, y) && #[trigger] r(y, x) implies x == y by {
        if names[x] != names[y] {
            lemma_chars_lt_asym(names[x], names[y]);
        } else {
            lemma_chars_lt_irreflexive(names[x]);
        }
    }
    assert forall|x: int, y: int, z: int| #[trigger] r(x, y) && #[trigger] r(y, z) implies r(x, z) by {
        if chars_lt(names[x], names[y]) && chars_lt(names[y], names[z]) {
            lemma_chars_lt_trans(names[x], names[y], names[z]);
        }
    }
    assert forall|x: int, y: int| #[trigger] r(x, y) || #[trigger] r(y, x) by {
        lemma_chars_lt_total(names[x], names[y]);
    }
}

/// The payloads' indices in the order they are written and hashed:
/// by name, ties kept in the order given.
pub fn vendor_order(payloads: &[(String, Vec<u8>)]) -> (order: Vec<usize>)
    ensures
        order@.map_values(|i: usize| i as int) == spec_vendor_order(payloads@.map_values(|p: (String, Vec<u8>)| p.0@)),
        forall|k: int| 0 <= k < order@.len() ==> (#[trigger] order@[k]) < payloads@.len(),
{
    let ghost names = payloads@.map_values(|p: (String, Vec<u8>)| p.0@);
    let ghost leq = payload_order(names);
    proof {
        lemma_payload_order_total(names);
    }
    let mut order: Vec<usize> = Vec::new();
    let mut k: usize = 0;
    proof {
        assert(order@.map_values(|i: usize| i as int) =~= Seq::new(names.len(), |i: int| i).take(0));
    }
    while k < payloads.len()
        invariant
            names == payloads@.map_values(|p: (String, Vec<u8>)| p.0@),
            leq == payload_order(names),
            total_ordering(leq),
            k <= payloads@.len(),
            forall|q: int| 0 <= q < order@.len() ==> (#[trigger] order@[q]) < k,
            sorted_by(order@.map_values(|i: usize| i as int), leq),
            order@.map_values(|i: usize| i as int).to_multiset() == Seq::new(names.len(), |i: int| i).take(k as int).to_multiset(),
        decreases payloads@.len() - k,
    {
        let ghost ov = order@.map_values(|i: usize| i as int);
        let mut p: usize = 0;
        while p < order.len() && (str_less(payloads[order[p]].0.as_str(), payloads[k].0.as_str())
            || str_equal(payloads[order[p]].0.as_str(), payloads[k].0.as_str()))
            invariant
                names == payloads@.map_values(|p: (String, Vec<u8>)| p.0@),
                leq == payload_order(names),
                ov == order@.map_values(|i: usize| i as int),
                forall|q: int| 0 <= q < order@.len() ==> (#[trigger] order@[q]) < k,
                k < payloads@.len(),
                p <= order@.len(),
                forall|j: int| 0 <= j < p ==> leq(#[trigger] ov[j], k as int),
            decreases order@.len() - p,
        {
            assert(names[order@[p as int] as int] == payloads@[order@[p as int] as int].0@);
            assert(names[k as int] == payloads@[k as int].0@);
            assert(ov[p as int] == order@[p as int] as int);
            p += 1;
        }
        proof {
            if p < order.len() {
                assert(names[order@[p as int] as int] == payloads@[order@[p as int] as int].0@);
                assert(names[k as int] == payloads@[k as int].0@);
                assert(ov[p as int] == order@[p as int] as int);
                assert(!leq(ov[p as int], k as int));
            }
            assert forall|j: int| 0 <= j < p implies leq(#[trigger] ov[j], k as int) by {}
            lemma_sorted_insert(ov, k as int, p as int, leq);
        }
        order.insert(p, k);
        proof {
            let nv = order@.map_values(|i: usize| i as int);
            assert(nv =~= ov.insert(p as int, k as int));
            vstd::seq_lib::to_multiset_insert(ov, p as int, k as int);
            let all = Seq::new(names.len(), |i: int| i);
            assert(all.take(k + 1) =~= all.take(k as int).push(k as int));
            vstd::seq_lib::to_multiset_build(all.take(k as int), k as int);
        }
        k += 1;
    }
    proof {
        let all = Seq::new(names.len(), |i: int| i);
        assert(all.take(names.len() as int) =~= all);
        all.lemma_sort_by_ensures(leq);
        vstd::seq_lib::lemma_sorted_unique(order@.map_values(|i: usize| i as int), all.sort_by(leq), leq);
    }
    order
}

/// The vendoring pin: the content hash of every payload, in name order
/// — same payloads, same pin. The hash is FNV-1a, whose value does not
/// hang on the machine or the toolchain.
pub fn vendor_pin(payloads: &[(String, Vec<u8>)]) -> (pin: u64)
    ensures
        pin == spec_pin_hash(ordered_payloads(payloads@)),
{
    let order = vendor_order(payloads);
    let h = hash_in_order(payloads, &order);
    proof {
        let names = payloads@.map_values(|p: (String, Vec<u8>)| p.0@);
        let a = order@.map_values(|i: usize| (payloads@[i as int].0@, payloads@[i as int].1@));
        let b = ordered_payloads(payloads@);
        assert(a.len() == b.len());
        assert forall|k: int| 0 <= k < a.len() implies a[k] == b[k] by {
            assert(order@.map_values(|i: usize| i as int)[k] == order@[k] as int);
        }
        assert(a =~= b);
    }
    h
}

/// The (name, bytes) of each payload.
pub open spec fn payload_entries(a: Seq<(String, Vec<u8>)>) -> Seq<(Seq<char>, Seq<u8>)> {
    a.map_values(|p: (String, Vec<u8>)| (p.0@, p.1@))
}

/// Names strictly increase along `s`.
pub open spec fn names_increase(s: Seq<(Seq<char>, Seq<u8>)>) -> bool {
    forall|i: int, j: int| 0 <= i < j < s.len() ==> chars_lt(s[i].0, s[j].0)
}

proof fn lemma_ordered_payloads(a: Seq<(String, Vec<u8>)>)
    requires
        a.map_values(|p: (String, Vec<u8>)| p.0@).no_duplicates(),
    ensures
        names_increase(ordered_payloads(a)),
        forall|e: (Seq<char>, Seq<u8>)| ordered_payloads(a).contains(e) <==> payload_entries(a).contains(e),
{
    let names = a.map_values(|p: (String, Vec<u8>)| p.0@);
    let n = names.len();
    let all = Seq::new(n, |i: int| i);
    let leq = payload_order(names);
    lemma_payload_order_total(names);
    all.lemma_sort_by_ensures(leq);
    let ord = all.sort_by(leq);
    let out = ordered_payloads(a);
    assert(all.no_duplicates());
    all.lemma_multiset_has_no_duplicates();
    ord.lemma_multiset_has_no_duplicates_conv();
    assert forall|x: int| ord.contains(x) <==> 0 <= x < n by {
        vstd::seq_lib::to_multiset_contains(all, x);
        vstd::seq_lib::to_multiset_contains(ord, x);
        if 0 <= x < n {
            assert(all[x] == x);
        }
    }
    assert(ord.len() == n) by {
        vstd::seq_lib::to_multiset_len(all);
        vstd::seq_lib::to_multiset_len(ord);
    }
    assert forall|i: int, j: int| 0 <= i < j < out.len() implies chars_lt(out[i].0, out[j].0) by {
        assert(ord.contains(ord[i]) && ord.contains(ord[j]));
        assert(leq(ord[i], ord[j]));
        assert(ord[i] != ord[j]);
        assert(out[i].0 == names[ord[i]] && out[j].0 == names[ord[j]]);
        assert(names[ord[i]] != names[ord[j]]);
    }
    assert forall|e: (Seq<char>, Seq<u8>)| out.contains(e) <==> payload_entries(a).contains(e) by {
        if out.contains(e) {
            let k = choose|k: int| 0 <= k < out.len() && out[k] == e;
            assert(ord.contains(ord[k]));
            assert(payload_entries(a)[ord[k]] == e);
        }
        if payload_entries(a).contains(e) {
            let i = choose|i: int| 0 <= i < n && payload_entries(a)[i] == e;
            assert(ord.contains(i));
            let k = choose|k: int| 0 <= k < ord.len() && ord[k] == i;
            assert(out[k] == e);
        }
    }
}

proof fn lemma_increasing_unique(s: Seq<(Seq<char>, Seq<u8>)>, t: Seq<(Seq<char>, Seq<u8>)>)
    requires
        names_increase(s),
        names_increase(t),
        forall|e: (Seq<char>, Seq<u8>)| s.contains(e) <==> t.contains(e),
    ensures
        s == t,
    decreases s.len(),
{
    if s.len() == 0 {
        if t.len() > 0 {
            assert(t.contains(t[0]));
        }
        assert(s =~= t);
    } else {
        assert(s.contains(s[0]));
        let j = choose|j: int| 0 <= j < t.len() && t[j] == s[0];
        assert(t.contains(t[0]));
        let i = choose|i: int| 0 <= i < s.len() && s[i] == t[0];
        if j > 0 {
            assert(chars_lt(t[0].0, t[j].0));
            if i > 0 {
                assert(chars_lt(s[0].0, s[i].0));
                lemma_chars_lt_asym(s[0].0, s[i].0);
            } else {
                lemma_chars_lt_irreflexive(s[0].0);
            }
        }
        assert(s[0] == t[0]);
        let s1 = s.drop_first();
        let t1 = t.drop_first();
        assert(names_increase(s1)) by {
            assert forall|a: int, b: int| 0 <= a < b < s1.len() implies chars_lt(s1[a].0, s1[b].0) by {
                assert(s1[a] == s[a + 1] && s1[b] == s[b + 1]);
            }
        }
        assert(names_increase(t1)) by {
            assert forall|a: int, b: int| 0 <= a < b < t1.len() implies chars_lt(t1[a].0, t1[b].0) by {
                assert(t1[a] == t[a + 1] && t1[b] == t[b + 1]);
            }
        }
        assert forall|e: (Seq<char>, Seq<u8>)| s1.contains(e) <==> t1.contains(e) by {
            if s1.contains(e) {
                let a = choose|a: int| 0 <= a < s1.len() && s1[a] == e;
                assert(s[a + 1] == e);
                assert(chars_lt(s[0].0, s[a + 1].0));
                assert(e != s[0]) by {
                    lemma_chars_lt_irreflexive(e.0);
                }
                assert(s.contains(e));
                let b = choose|b: int| 0 <= b < t.len() && t[b] == e;
                assert(b != 0);
                assert(t1[b - 1] == e);
            }
            if t1.contains(e) {
                let a = choose|a: int| 0 <= a < t1.len() && t1[a] == e;
                assert(t[a + 1] == e);
                assert(chars_lt(t[0].0, t[a + 1].0));
                assert(e != t[0]) by {
                    lemma_chars_lt_irreflexive(e.0);
                }
                assert(t.contains(e));
                let b = choose|b: int| 0 <= b < s.len() && s[b] == e;
                assert(b != 0);
                assert(s1[b - 1] == e);
            }
        }
        lemma_increasing_unique(s1, t1);
        assert(s =~= seq![s[0]] + s1);
        assert(t =~= seq![t[0]] + t1);
    }
}

/// SAME PAYLOADS, SAME PIN: two lists holding the same payloads, each
/// under distinct names, are written and hashed in one order, whatever
/// order they were handed in.
pub proof fn law_pin_ignores_order(a: Seq<(String, Vec<u8>)>, b: Seq<(String, Vec<u8>)>)
    requires
        forall|e: (Seq<char>, Seq<u8>)| payload_entries(a).contains(e) <==> payload_entries(b).contains(e),
        a.map_values(|p: (String, Vec<u8>)| p.0@).no_duplicates(),
        b.map_values(|p: (String, Vec<u8>)| p.0@).no_duplicates(),
    ensures
        ordered_payloads(a) == ordered_payloads(b),
        spec_pin_hash(ordered_payloads(a)) == spec_pin_hash(ordered_payloads(b)),
{
    lemma_ordered_payloads(a);
    lemma_ordered_payloads(b);
    lemma_increasing_unique(ordered_payloads(a), ordered_payloads(b));
}

} // verus!
