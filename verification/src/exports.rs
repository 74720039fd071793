//! The atlas export adapter's own logic: verse loci as the atlas
//! writes them ("2KI.5.12"), binding an authored verse range to the one
//! atlas event it clearly attests, and the creation anchor row. The
//! atlas is the dating authority; nothing here re-dates.

use vstd::prelude::*;
use crate::json::{get_member, get_str, json_array, json_i64, json_str, member, number_i64, parse_json, read_string_items, spec_json_text, string_items, Json};
use crate::text::{chars_of, parse_hex_u64, parse_i64, parse_u16, spec_parse_hex_u64, spec_parse_i64, spec_parse_u16, str_equal};

verus! {

/// What reading the atlas artifacts can refuse.
#[derive(Clone, Debug, PartialEq)]
pub enum ExportError {
    BadSyntax(String),
    BadShape(&'static str),
    /// The artifact's format_version is one this adapter doesn't speak.
    UnsupportedFormat(i64),
    /// The two artifacts disagree about the atlas root — they must be
    /// from one compile.
    RootMismatch,
}

/// One atlas event row, kept in binding-friendly form.
#[derive(Clone, Debug)]
pub struct AtlasEvent {
    pub id: String,
    pub label: String,
    pub attestations: Vec<(u8, u16, u16)>,
    pub from_year: i32,
    pub to_year: i32,
}

pub struct AtlasEventView {
    pub id: Seq<char>,
    pub label: Seq<char>,
    pub attestations: Seq<(u8, u16, u16)>,
    pub from_year: i32,
    pub to_year: i32,
}

impl View for AtlasEvent {
    type V = AtlasEventView;

    open spec fn view(&self) -> AtlasEventView {
        AtlasEventView {
            id: self.id@,
            label: self.label@,
            attestations: self.attestations@,
            from_year: self.from_year,
            to_year: self.to_year,
        }
    }
}

// ------------------------------------------------------------ loci

/// The atlas's book abbreviations, in canon order: book `i` is number
/// `i + 1`.
pub open spec fn book_code(i: int) -> (char, char, char) {
    if i == 0 {
        ('G', 'E', 'N')
    } else if i == 1 {
        ('E', 'X', 'O')
    } else if i == 2 {
        ('L', 'E', 'V')
    } else if i == 3 {
        ('N', 'U', 'M')
    } else if i == 4 {
        ('D', 'E', 'U')
    } else if i == 5 {
        ('J', 'O', 'S')
    } else if i == 6 {
        ('J', 'D', 'G')
    } else if i == 7 {
        ('R', 'U', 'T')
    } else if i == 8 {
        ('1', 'S', 'A')
    } else if i == 9 {
        ('2', 'S', 'A')
    } else if i == 10 {
        ('1', 'K', 'I')
    } else if i == 11 {
        ('2', 'K', 'I')
    } else if i == 12 {
        ('1', 'C', 'H')
    } else if i == 13 {
        ('2', 'C', 'H')
    } else if i == 14 {
        ('E', 'Z', 'R')
    } else if i == 15 {
        ('N', 'E', 'H')
    } else if i == 16 {
        ('E', 'S', 'T')
    } else if i == 17 {
        ('J', 'O', 'B')
    } else if i == 18 {
        ('P', 'S', 'A')
    } else if i == 19 {
        ('P', 'R', 'O')
    } else if i == 20 {
        ('E', 'C', 'C')
    } else if i == 21 {
        ('S', 'N', 'G')
    } else if i == 22 {
        ('I', 'S', 'A')
    } else if i == 23 {
        ('J', 'E', 'R')
    } else if i == 24 {
        ('L', 'A', 'M')
    } else if i == 25 {
        ('E', 'Z', 'K')
    } else if i == 26 {
        ('D', 'A', 'N')
    } else if i == 27 {
        ('H', 'O', 'S')
    } else if i == 28 {
        ('J', 'O', 'L')
    } else if i == 29 {
        ('A', 'M', 'O')
    } else if i == 30 {
        ('O', 'B', 'A')
    } else if i == 31 {
        ('J', 'O', 'N')
    } else if i == 32 {
        ('M', 'I', 'C')
    } else if i == 33 {
        ('N', 'A', 'M')
    } else if i == 34 {
        ('H', 'A', 'B')
    } else if i == 35 {
        ('Z', 'E', 'P')
    } else if i == 36 {
        ('H', 'A', 'G')
    } else if i == 37 {
        ('Z', 'E', 'C')
    } else if i == 38 {
        ('M', 'A', 'L')
    } else if i == 39 {
        ('M', 'A', 'T')
    } else if i == 40 {
        ('M', 'R', 'K')
    } else if i == 41 {
        ('L', 'U', 'K')
    } else if i == 42 {
        ('J', 'H', 'N')
    } else if i == 43 {
        ('A', 'C', 'T')
    } else if i == 44 {
        ('R', 'O', 'M')
    } else if i == 45 {
        ('1', 'C', 'O')
    } else if i == 46 {
        ('2', 'C', 'O')
    } else if i == 47 {
        ('G', 'A', 'L')
    } else if i == 48 {
        ('E', 'P', 'H')
    } else if i == 49 {
        ('P', 'H', 'P')
    } else if i == 50 {
        ('C', 'O', 'L')
    } else if i == 51 {
        ('1', 'T', 'H')
    } else if i == 52 {
        ('2', 'T', 'H')
    } else if i == 53 {
        ('1', 'T', 'I')
    } else if i == 54 {
        ('2', 'T', 'I')
    } else if i == 55 {
        ('T', 'I', 'T')
    } else if i == 56 {
        ('P', 'H', 'M')
    } else if i == 57 {
        ('H', 'E', 'B')
    } else if i == 58 {
        ('J', 'A', 'S')
    } else if i == 59 {
        ('1', 'P', 'E')
    } else if i == 60 {
        ('2', 'P', 'E')
    } else if i == 61 {
        ('1', 'J', 'N')
    } else if i == 62 {
        ('2', 'J', 'N')
    } else if i == 63 {
        ('3', 'J', 'N')
    } else if i == 64 {
        ('J', 'U', 'D')
    } else {
        ('R', 'E', 'V')
    }
}

fn book_code_of(i: usize) -> (r: (char, char, char))
    requires
        i < 66,
    ensures
        r == book_code(i as int),
{
    match i {
        0 => ('G', 'E', 'N'),
        1 => ('E', 'X', 'O'),
        2 => ('L', 'E', 'V'),
        3 => ('N', 'U', 'M'),
        4 => ('D', 'E', 'U'),
        5 => ('J', 'O', 'S'),
        6 => ('J', 'D', 'G'),
        7 => ('R', 'U', 'T'),
        8 => ('1', 'S', 'A'),
        9 => ('2', 'S', 'A'),
        10 => ('1', 'K', 'I'),
        11 => ('2', 'K', 'I'),
        12 => ('1', 'C', 'H'),
        13 => ('2', 'C', 'H'),
        14 => ('E', 'Z', 'R'),
        15 => ('N', 'E', 'H'),
        16 => ('E', 'S', 'T'),
        17 => ('J', 'O', 'B'),
        18 => ('P', 'S', 'A'),
        19 => ('P', 'R', 'O'),
        20 => ('E', 'C', 'C'),
        21 => ('S', 'N', 'G'),
        22 => ('I', 'S', 'A'),
        23 => ('J', 'E', 'R'),
        24 => ('L', 'A', 'M'),
        25 => ('E', 'Z', 'K'),
        26 => ('D', 'A', 'N'),
        27 => ('H', 'O', 'S'),
        28 => ('J', 'O', 'L'),
        29 => ('A', 'M', 'O'),
        30 => ('O', 'B', 'A'),
        31 => ('J', 'O', 'N'),
        32 => ('M', 'I', 'C'),
        33 => ('N', 'A', 'M'),
        34 => ('H', 'A', 'B'),
        35 => ('Z', 'E', 'P'),
        36 => ('H', 'A', 'G'),
        37 => ('Z', 'E', 'C'),
        38 => ('M', 'A', 'L'),
        39 => ('M', 'A', 'T'),
        40 => ('M', 'R', 'K'),
        41 => ('L', 'U', 'K'),
        42 => ('J', 'H', 'N'),
        43 => ('A', 'C', 'T'),
        44 => ('R', 'O', 'M'),
        45 => ('1', 'C', 'O'),
        46 => ('2', 'C', 'O'),
        47 => ('G', 'A', 'L'),
        48 => ('E', 'P', 'H'),
        49 => ('P', 'H', 'P'),
        50 => ('C', 'O', 'L'),
        51 => ('1', 'T', 'H'),
        52 => ('2', 'T', 'H'),
        53 => ('1', 'T', 'I'),
        54 => ('2', 'T', 'I'),
        55 => ('T', 'I', 'T'),
        56 => ('P', 'H', 'M'),
        57 => ('H', 'E', 'B'),
        58 => ('J', 'A', 'S'),
        59 => ('1', 'P', 'E'),
        60 => ('2', 'P', 'E'),
        61 => ('1', 'J', 'N'),
        62 => ('2', 'J', 'N'),
        63 => ('3', 'J', 'N'),
        64 => ('J', 'U', 'D'),
        _ => ('R', 'E', 'V'),
    }
}

/// `c` lowercased if it is an ASCII capital, as a code point.
pub open spec fn ascii_lower(c: char) -> int {
    if 'A' <= c && c <= 'Z' {
        c as int + 32
    } else {
        c as int
    }
}

/// `str::eq_ignore_ascii_case`.
pub open spec fn eq_ignore_ascii_case(a: Seq<char>, b: Seq<char>) -> bool {
    a.len() == b.len() && forall|i: int| 0 <= i < a.len() ==> ascii_lower(a[i]) == ascii_lower(b[i])
}

/// The number of the first book from index `i` on whose code matches
/// `book` ignoring ASCII case.
pub open spec fn book_number_from(book: Seq<char>, i: int) -> Option<int>
    decreases 66 - i,
{
    if i < 0 || i >= 66 {
        None
    } else {
        let (a, b, c) = book_code(i);
        if eq_ignore_ascii_case(seq![a, b, c], book) {
            Some(i + 1)
        } else {
            book_number_from(book, i + 1)
        }
    }
}

/// `s` cut at every `sep`, as `str::split` cuts it.
pub open spec fn split_on(s: Seq<char>, sep: char) -> Seq<Seq<char>>
    decreases s.len(),
{
    if s.len() == 0 {
        seq![Seq::empty()]
    } else {
        let p = split_on(s.drop_last(), sep);
        if s.last() == sep {
            p.push(Seq::empty())
        } else {
            p.update(p.len() - 1, p.last().push(s.last()))
        }
    }
}

/// "2KI.5.12" read as (book number, chapter, verse); anything after a
/// third dot is ignored.
pub open spec fn spec_parse_locus(s: Seq<char>) -> Option<(int, int, int)> {
    let parts = split_on(s, '.');
    if parts.len() < 3 {
        None
    } else {
        match (spec_parse_u16(parts[1]), spec_parse_u16(parts[2]), book_number_from(parts[0], 0)) {
            (Ok(c), Ok(v), Some(n)) => Some((n, c, v)),
            _ => None,
        }
    }
}

proof fn lemma_split_nonempty(s: Seq<char>, sep: char)
    ensures
        split_on(s, sep).len() >= 1,
    decreases s.len(),
{
    if s.len() > 0 {
        lemma_split_nonempty(s.drop_last(), sep);
    }
}

proof fn lemma_book_number_range(book: Seq<char>, i: int)
    ensures
        book_number_from(book, i) matches Some(n) ==> 1 <= n <= 66,
    decreases 66 - i,
{
    if 0 <= i < 66 {
        lemma_book_number_range(book, i + 1);
    }
}

fn lower_code(c: char) -> (r: u32)
    ensures
        r as int == ascii_lower(c),
{
    if 'A' <= c && c <= 'Z' {
        c as u32 + 32
    } else {
        c as u32
    }
}

fn book_number(book: &Vec<char>) -> (r: Option<u8>)
    ensures
        match r {
            Some(n) => book_number_from(book@, 0) == Some(n as int),
            None => book_number_from(book@, 0) is None,
        },
{
    proof {
        lemma_book_number_range(book@, 0);
    }
    let mut i: usize = 0;
    while i < 66
        invariant
            i <= 66,
            book_number_from(book@, 0) == book_number_from(book@, i as int),
        decreases 66 - i,
    {
        let (a, b, c) = book_code_of(i);
        let mut same = book.len() == 3;
        if same {
            same = lower_code(a) == lower_code(book[0]) && lower_code(b) == lower_code(book[1])
                && lower_code(c) == lower_code(book[2]);
        }
        proof {
            let code = seq![a, b, c];
            assert(code[0] == a && code[1] == b && code[2] == c);
            if same {
                assert forall|j: int| 0 <= j < code.len() implies ascii_lower(code[j]) == ascii_lower(book@[j]) by {
                    if j == 0 {
                    } else if j == 1 {
                    } else {
                    }
                }
            }
            if eq_ignore_ascii_case(code, book@) {
                assert(ascii_lower(code[0]) == ascii_lower(book@[0]));
                assert(ascii_lower(code[1]) == ascii_lower(book@[1]));
                assert(ascii_lower(code[2]) == ascii_lower(book@[2]));
            }
            assert(same == eq_ignore_ascii_case(code, book@));
        }
        if same {
            proof {
                lemma_book_number_range(book@, i as int);
            }
            return Some((i + 1) as u8);
        }
        i += 1;
    }
    None
}

/// `s` cut at every '.'.
fn split_dots(s: &Vec<char>) -> (parts: Vec<Vec<char>>)
    ensures
        parts@.map_values(|p: Vec<char>| p@) == split_on(s@, '.'),
{
    let mut parts: Vec<Vec<char>> = Vec::new();
    let mut cur: Vec<char> = Vec::new();
    let mut i: usize = 0;
    proof {
        assert(s@.take(0) =~= Seq::<char>::empty());
        assert(parts@.map_values(|p: Vec<char>| p@).push(cur@) =~= split_on(s@.take(0), '.'));
    }
    while i < s.len()
        invariant
            i <= s@.len(),
            parts@.map_values(|p: Vec<char>| p@).push(cur@) == split_on(s@.take(i as int), '.'),
        decreases s@.len() - i,
    {
        let c = s[i];
        let ghost before = parts@.map_values(|p: Vec<char>| p@).push(cur@);
        proof {
            lemma_split_nonempty(s@.take(i as int), '.');
            assert(s@.take(i + 1).drop_last() =~= s@.take(i as int));
            assert(s@.take(i + 1).last() == c);
        }
        if c == '.' {
            let done = cur;
            parts.push(done);
            cur = Vec::new();
            proof {
                assert(parts@.map_values(|p: Vec<char>| p@).push(cur@) =~= before.push(Seq::empty()));
            }
        } else {
            cur.push(c);
            proof {
                assert(parts@.map_values(|p: Vec<char>| p@).push(cur@) =~= before.update(before.len() - 1, before.last().push(c)));
            }
        }
        i += 1;
    }
    parts.push(cur);
    proof {
        assert(s@.take(s@.len() as int) =~= s@);
    }
    parts
}

/// "2KI.5.12" -> (12, 5, 12): (book number, chapter, verse).
pub fn parse_locus(s: &str) -> (r: Option<(u8, u16, u16)>)
    ensures
        match r {
            Some((n, c, v)) => spec_parse_locus(s@) == Some((n as int, c as int, v as int)),
            None => spec_parse_locus(s@) is None,
        },
{
    let chars = chars_of(s);
    let parts = split_dots(&chars);
    proof {
        assert(parts@.map_values(|p: Vec<char>| p@).len() == parts@.len());
    }
    if parts.len() < 3 {
        return None;
    }
    proof {
        let pv = parts@.map_values(|p: Vec<char>| p@);
        assert(pv[0] == parts@[0]@ && pv[1] == parts@[1]@ && pv[2] == parts@[2]@);
    }
    let chapter = match parse_u16(&parts[1]) {
        Ok(c) => c,
        Err(_) => return None,
    };
    let verse = match parse_u16(&parts[2]) {
        Ok(v) => v,
        Err(_) => return None,
    };
    match book_number(&parts[0]) {
        Some(n) => Some((n, chapter, verse)),
        None => None,
    }
}

// ---------------------------------------------------- event binding

/// Lexicographic order on verse loci.
pub open spec fn locus_le(a: (u8, u16, u16), b: (u8, u16, u16)) -> bool {
    ||| a.0 < b.0
    ||| a.0 == b.0 && a.1 < b.1
    ||| a.0 == b.0 && a.1 == b.1 && a.2 <= b.2
}

/// The events as views.
pub open spec fn event_views(events: Seq<AtlasEvent>) -> Seq<AtlasEventView> {
    events.map_values(|e: AtlasEvent| e@)
}

/// How many of event `j`'s attestations fall inside [lo, hi].
pub open spec fn event_hits(ev: Seq<AtlasEventView>, lo: (u8, u16, u16), hi: (u8, u16, u16), j: int) -> nat {
    hits(ev[j].attestations, lo, hi)
}

/// How many of `atts` fall inside [lo, hi].
pub open spec fn hits(atts: Seq<(u8, u16, u16)>, lo: (u8, u16, u16), hi: (u8, u16, u16)) -> nat {
    atts.filter(|v: (u8, u16, u16)| locus_le(lo, v) && locus_le(v, hi)).len()
}

/// Event `i` attests the range more often than every other event does,
/// and at least once.
pub open spec fn clear_winner(events: Seq<AtlasEventView>, lo: (u8, u16, u16), hi: (u8, u16, u16), i: int) -> bool {
    &&& 0 <= i < events.len()
    &&& hits(events[i].attestations, lo, hi) > 0
    &&& forall|j: int| 0 <= j < events.len() && j != i ==> hits(#[trigger] events[j].attestations, lo, hi) < hits(events[i].attestations, lo, hi)
}

fn locus_le_exec(a: (u8, u16, u16), b: (u8, u16, u16)) -> (r: bool)
    ensures
        r == locus_le(a, b),
{
    a.0 < b.0 || (a.0 == b.0 && a.1 < b.1) || (a.0 == b.0 && a.1 == b.1 && a.2 <= b.2)
}

fn count_hits(atts: &Vec<(u8, u16, u16)>, lo: (u8, u16, u16), hi: (u8, u16, u16)) -> (n: usize)
    ensures
        n == hits(atts@, lo, hi),
{
    let ghost f = |v: (u8, u16, u16)| locus_le(lo, v) && locus_le(v, hi);
    let mut n: usize = 0;
    let mut i: usize = 0;
    while i < atts.len()
        invariant
            i <= atts@.len(),
            f == (|v: (u8, u16, u16)| locus_le(lo, v) && locus_le(v, hi)),
            n == atts@.take(i as int).filter(f).len(),
            n <= i,
        decreases atts@.len() - i,
    {
        proof {
            reveal_with_fuel(Seq::<_>::filter, 1);
            assert(atts@.take(i + 1).drop_last() =~= atts@.take(i as int));
        }
        if locus_le_exec(lo, atts[i]) && locus_le_exec(atts[i], hi) {
            n += 1;
        }
        i += 1;
    }
    proof {
        assert(atts@.take(atts@.len() as int) =~= atts@);
    }
    n
}

/// Bind by attestation: the atlas event whose attested verses fall
/// inside the range [book from .. book to] most often, when exactly one
/// does and at least once; ambiguity stays unbound.
pub fn resolve_event(events: &[AtlasEvent], book: u8, from: (u16, u16), to: (u16, u16)) -> (r: Option<(String, i32, i32)>)
    ensures
        match r {
            Some((id, f, t)) => exists|i: int| {
                &&& #[trigger] clear_winner(event_views(events@), (book, from.0, from.1), (book, to.0, to.1), i)
                &&& id@ == events@[i].id@
                &&& f == events@[i].from_year
                &&& t == events@[i].to_year
            },
            None => forall|i: int| !#[trigger] clear_winner(event_views(events@), (book, from.0, from.1), (book, to.0, to.1), i),
        },
{
    let lo = (book, from.0, from.1);
    let hi = (book, to.0, to.1);
    let ghost ev = event_views(events@);
    let mut best: usize = 0;
    let mut best_hits: usize = 0;
    let mut tied = false;
    let mut i: usize = 0;
    while i < events.len()
        invariant
            ev == event_views(events@),
            i <= events@.len(),
            best_hits > 0 ==> best < i,
            best_hits > 0 ==> event_hits(ev, lo, hi, best as int) == best_hits,
            forall|j: int| 0 <= j < i ==> event_hits(ev, lo, hi, j) <= best_hits,
            forall|j: int| 0 <= j < best && best_hits > 0 ==> event_hits(ev, lo, hi, j) < best_hits,
            tied <==> (best_hits > 0 && exists|j: int| best < j < i && event_hits(ev, lo, hi, j) == best_hits),
        decreases events@.len() - i,
    {
        assert(ev[i as int] == events@[i as int]@);
        let n = count_hits(&events[i].attestations, lo, hi);
        assert(n == event_hits(ev, lo, hi, i as int));
        if n > 0 {
            if best_hits > 0 && n < best_hits {
            } else if best_hits > 0 && n == best_hits {
                tied = true;
            } else {
                best = i;
                best_hits = n;
                tied = false;
            }
        }
        i += 1;
    }
    if best_hits == 0 {
        proof {
            assert forall|k: int| !#[trigger] clear_winner(ev, lo, hi, k) by {
                if 0 <= k < ev.len() {
                    assert(event_hits(ev, lo, hi, k) <= 0);
                }
            }
        }
        return None;
    }
    if tied {
        proof {
            let j = choose|j: int| best < j < events@.len() && event_hits(ev, lo, hi, j) == best_hits;
            assert forall|k: int| !#[trigger] clear_winner(ev, lo, hi, k) by {
                if clear_winner(ev, lo, hi, k) {
                    if k != best {
                        assert(event_hits(ev, lo, hi, best as int) < event_hits(ev, lo, hi, k));
                    } else {
                        assert(event_hits(ev, lo, hi, j) < event_hits(ev, lo, hi, k));
                    }
                }
            }
        }
        return None;
    }
    let e = &events[best];
    proof {
        assert(ev[best as int] == events@[best as int]@);
        assert(clear_winner(ev, lo, hi, best as int)) by {
            assert forall|j: int| 0 <= j < ev.len() && j != best implies hits(#[trigger] ev[j].attestations, lo, hi) < hits(ev[best as int].attestations, lo, hi) by {
                assert(event_hits(ev, lo, hi, j) <= best_hits);
                if j > best {
                    assert(event_hits(ev, lo, hi, j) != best_hits);
                }
            }
        }
    }
    Some((e.id.clone(), e.from_year, e.to_year))
}

/// The atlas's creation anchor row, when present: (year, citation) of
/// the first row whose id is "creation".
pub fn creation_anchor(anchors: &[(String, i32, String)]) -> (r: Option<(i32, String)>)
    ensures
        match r {
            Some((y, c)) => exists|i: int| {
                &&& 0 <= i < anchors@.len()
                &&& anchors@[i].0@ == "creation"@
                &&& (forall|j: int| 0 <= j < i ==> anchors@[j].0@ != "creation"@)
                &&& y == anchors@[i].1
                &&& c@ == anchors@[i].2@
            },
            None => forall|i: int| 0 <= i < anchors@.len() ==> anchors@[i].0@ != "creation"@,
        },
{
    let mut i: usize = 0;
    while i < anchors.len()
        invariant
            i <= anchors@.len(),
            forall|j: int| 0 <= j < i ==> anchors@[j].0@ != "creation"@,
        decreases anchors@.len() - i,
    {
        if str_equal(anchors[i].0.as_str(), "creation") {
            let c = anchors[i].2.clone();
            return Some((anchors[i].1, c));
        }
        i += 1;
    }
    None
}

// ------------------------------------------------------ loading

/// The format this adapter reads. A bump atlas-side without one here
/// is a loud error, never a silent misparse.
pub const SUPPORTED_FORMAT_VERSION: i64 = 1;

/// One gazetteer place: its atlas id, canonical name, coordinates (as
/// the artifact writes the numbers), aliases, attestations and
/// provenance.
#[derive(Clone, Debug)]
pub struct PlaceRow {
    pub id: String,
    pub canonical: String,
    pub lat: String,
    pub lon: String,
    pub aliases: Vec<String>,
    pub attestations: Vec<String>,
    pub provenance: Option<String>,
}

pub struct PlaceRowView {
    pub id: Seq<char>,
    pub canonical: Seq<char>,
    pub lat: Seq<char>,
    pub lon: Seq<char>,
    pub aliases: Seq<Seq<char>>,
    pub attestations: Seq<Seq<char>>,
    pub provenance: Option<Seq<char>>,
}

impl View for PlaceRow {
    type V = PlaceRowView;

    open spec fn view(&self) -> PlaceRowView {
        PlaceRowView {
            id: self.id@,
            canonical: self.canonical@,
            lat: self.lat@,
            lon: self.lon@,
            aliases: self.aliases@.map_values(|a: String| a@),
            attestations: self.attestations@.map_values(|a: String| a@),
            provenance: match &self.provenance {
                Some(p) => Some(p@),
                None => None,
            },
        }
    }
}

/// An event's resolved placement: its years (the end never before the
/// start), its place in the chronology's order, and whether the text
/// itself dates it.
#[derive(Clone, Copy, Debug, PartialEq, Eq, Structural)]
pub struct Placement {
    pub from_year: i32,
    pub to_year: i32,
    pub seq: u32,
    pub textual: bool,
}

/// A named span of the chronology.
#[derive(Clone, Debug)]
pub struct ChronoSpan {
    pub label: String,
    pub from_year: i32,
    pub to_year: i32,
}

/// The loaded authority: everything the builders need to bind. Places,
/// events and placements in artifact order (event `i`'s placement is
/// `placements[i]`).
pub struct AtlasExports {
    pub root: u64,
    /// (id, year, citation) anchor rows — creation lives here.
    pub anchors: Vec<(String, i32, String)>,
    pub places: Vec<PlaceRow>,
    pub events: Vec<AtlasEvent>,
    pub placements: Vec<Placement>,
    pub spans: Vec<ChronoSpan>,
}

pub struct AtlasExportsView {
    pub root: u64,
    pub anchors: Seq<(Seq<char>, i32, Seq<char>)>,
    pub places: Seq<PlaceRowView>,
    pub events: Seq<AtlasEventView>,
    pub placements: Seq<Placement>,
    pub spans: Seq<(Seq<char>, i32, i32)>,
}

impl View for AtlasExports {
    type V = AtlasExportsView;

    open spec fn view(&self) -> AtlasExportsView {
        AtlasExportsView {
            root: self.root,
            anchors: self.anchors@.map_values(|a: (String, i32, String)| (a.0@, a.1, a.2@)),
            places: self.places@.map_values(|p: PlaceRow| p@),
            events: self.events@.map_values(|e: AtlasEvent| e@),
            placements: self.placements@,
            spans: self.spans@.map_values(|s: ChronoSpan| (s.label@, s.from_year, s.to_year)),
        }
    }
}

/// Export errors as contracts speak of them.
pub enum ExportErrorView {
    BadSyntax(Seq<char>),
    BadShape(Seq<char>),
    UnsupportedFormat(i64),
    RootMismatch,
}

pub open spec fn export_error_view(e: ExportError) -> ExportErrorView {
    match e {
        ExportError::BadSyntax(m) => ExportErrorView::BadSyntax(m@),
        ExportError::BadShape(m) => ExportErrorView::BadShape(m@),
        ExportError::UnsupportedFormat(v) => ExportErrorView::UnsupportedFormat(v),
        ExportError::RootMismatch => ExportErrorView::RootMismatch,
    }
}

/// An artifact's atlas root: its `format_version` must be the one this
/// adapter speaks, and its `atlas_version_root` a hexadecimal `u64`.
pub open spec fn artifact_root(v: Json) -> Result<u64, ExportErrorView> {
    match member(v, "format_version"@) {
        None => Err(ExportErrorView::BadShape("no format_version"@)),
        Some(x) => match json_i64(x) {
            None => Err(ExportErrorView::BadShape("no format_version"@)),
            Some(fv) => if fv != 1 {
                Err(ExportErrorView::UnsupportedFormat(fv as i64))
            } else {
                match json_str(member(v, "atlas_version_root"@)) {
                    None => Err(ExportErrorView::BadShape("no atlas_version_root"@)),
                    Some(r) => match spec_parse_hex_u64(r) {
                        Ok(h) => Ok(h as u64),
                        Err(_) => Err(ExportErrorView::BadShape("bad root hex"@)),
                    },
                }
            },
        },
    }
}

/// The strings of an optional array member; none when it is absent.
pub open spec fn strings_of(v: Option<Json>) -> Seq<Seq<char>> {
    match json_array(v) {
        Some(items) => string_items(items),
        None => Seq::empty(),
    }
}

/// Whether an optional member is a number.
pub open spec fn is_number(v: Option<Json>) -> bool {
    v matches Some(Json::Number(_))
}

/// The text of a number member.
pub open spec fn number_text(v: Option<Json>) -> Seq<char> {
    match v {
        Some(Json::Number(t)) => t@,
        _ => Seq::empty(),
    }
}

/// One gazetteer place row.
pub open spec fn place_row(p: Json) -> Result<PlaceRowView, ExportErrorView> {
    match json_str(member(p, "id"@)) {
        None => Err(ExportErrorView::BadShape("place id"@)),
        Some(id) => match json_str(member(p, "canonical"@)) {
            None => Err(ExportErrorView::BadShape("place canonical"@)),
            Some(canonical) => if !(is_number(member(p, "lat"@)) && is_number(member(p, "lon"@))) {
                Err(ExportErrorView::BadShape("place lat/lon"@))
            } else {
                Ok(PlaceRowView {
                    id,
                    canonical,
                    lat: number_text(member(p, "lat"@)),
                    lon: number_text(member(p, "lon"@)),
                    aliases: strings_of(member(p, "aliases"@)),
                    attestations: strings_of(member(p, "attestations"@)),
                    provenance: json_str(member(p, "provenance"@)),
                })
            },
        },
    }
}

/// Every place row, in order; the first bad row decides the error.
pub open spec fn places_of(items: Seq<Json>) -> Result<Seq<PlaceRowView>, ExportErrorView>
    decreases items.len(),
{
    if items.len() == 0 {
        Ok(Seq::empty())
    } else {
        match places_of(items.drop_last()) {
            Err(e) => Err(e),
            Ok(done) => match place_row(items.last()) {
                Err(e) => Err(e),
                Ok(p) => Ok(done.push(p)),
            },
        }
    }
}

/// The verse loci among strings, in order; unreadable ones are skipped.
pub open spec fn loci_of(ss: Seq<Seq<char>>) -> Seq<(u8, u16, u16)>
    decreases ss.len(),
{
    if ss.len() == 0 {
        Seq::empty()
    } else {
        loci_of(ss.drop_last()) + match spec_parse_locus(ss.last()) {
            Some((n, c, v)) => seq![(n as u8, c as u16, v as u16)],
            None => Seq::empty(),
        }
    }
}

/// One chronology event row, the `k`-th: the event and its placement.
/// Its years must name moments (no year zero once read as `i32`).
pub open spec fn event_row(e: Json, k: int) -> Result<(AtlasEventView, Placement), ExportErrorView> {
    match json_str(member(e, "id"@)) {
        None => Err(ExportErrorView::BadShape("event id"@)),
        Some(id) => match member(e, "placement"@) {
            None => Err(ExportErrorView::BadShape("event placement"@)),
            Some(pl) => match (json_i64_of(member(pl, "from_year"@)), json_i64_of(member(pl, "to_year"@))) {
                (Some(fy), Some(ty)) => {
                    let hi = if ty >= fy { ty } else { fy };
                    if fy as i32 == 0 || hi as i32 == 0 {
                        Err(ExportErrorView::BadShape("year zero in chronology"@))
                    } else {
                        Ok((
                            AtlasEventView {
                                id,
                                label: match json_str(member(e, "label"@)) {
                                    Some(l) => l,
                                    None => Seq::empty(),
                                },
                                attestations: loci_of(strings_of(member(e, "attestations"@))),
                                from_year: fy as i32,
                                to_year: ty as i32,
                            },
                            Placement {
                                from_year: fy as i32,
                                to_year: hi as i32,
                                seq: k as u32,
                                textual: json_str(member(pl, "basis"@)) == Some("Textual"@),
                            },
                        ))
                    }
                },
                _ => Err(ExportErrorView::BadShape("placement years"@)),
            },
        },
    }
}

/// `as_i64` of an optional member.
pub open spec fn json_i64_of(v: Option<Json>) -> Option<int> {
    match v {
        Some(x) => json_i64(x),
        None => None,
    }
}

/// Every event row, in order, with its placement.
pub open spec fn events_of(items: Seq<Json>) -> Result<Seq<(AtlasEventView, Placement)>, ExportErrorView>
    decreases items.len(),
{
    if items.len() == 0 {
        Ok(Seq::empty())
    } else {
        match events_of(items.drop_last()) {
            Err(e) => Err(e),
            Ok(done) => match event_row(items.last(), items.len() - 1) {
                Err(e) => Err(e),
                Ok(x) => Ok(done.push(x)),
            },
        }
    }
}

/// The chronology's spans: rows with a label and both years; others
/// are skipped.
pub open spec fn spans_of(items: Seq<Json>) -> Seq<(Seq<char>, i32, i32)>
    decreases items.len(),
{
    if items.len() == 0 {
        Seq::empty()
    } else {
        let s = items.last();
        spans_of(items.drop_last()) + match (json_str(member(s, "label"@)), json_i64_of(member(s, "from"@)), json_i64_of(member(s, "to"@))) {
            (Some(l), Some(f), Some(t)) => seq![(l, f as i32, t as i32)],
            _ => Seq::empty(),
        }
    }
}

/// The chronology's anchors: rows with an id and a year at `at.year`;
/// others are skipped. A missing citation reads as empty.
pub open spec fn anchors_of(items: Seq<Json>) -> Seq<(Seq<char>, i32, Seq<char>)>
    decreases items.len(),
{
    if items.len() == 0 {
        Seq::empty()
    } else {
        let a = items.last();
        anchors_of(items.drop_last()) + match (json_str(member(a, "id"@)), json_i64_of(at_year(a))) {
            (Some(id), Some(y)) => seq![
                (id, y as i32, match json_str(member(a, "citation"@)) {
                    Some(c) => c,
                    None => Seq::empty(),
                }),
            ],
            _ => Seq::empty(),
        }
    }
}

/// The `year` member of an anchor's `at`.
pub open spec fn at_year(a: Json) -> Option<Json> {
    match member(a, "at"@) {
        Some(t) => member(t, "year"@),
        None => None,
    }
}

/// The items of an optional array member; none when it is absent.
pub open spec fn items_of(v: Option<Json>) -> Seq<Json> {
    match json_array(v) {
        Some(items) => items,
        None => Seq::empty(),
    }
}

/// What loading the two artifacts gives: both must parse, speak the
/// supported format and name one atlas root; then the gazetteer's
/// places and the chronology's events must read.
pub open spec fn spec_load_exports(gazetteer: Seq<char>, chronology: Seq<char>) -> Result<AtlasExportsView, ExportErrorView> {
    match spec_json_text(gazetteer) {
        Err(e) => Err(ExportErrorView::BadSyntax(e)),
        Ok(g) => match spec_json_text(chronology) {
            Err(e) => Err(ExportErrorView::BadSyntax(e)),
            Ok(c) => exports_of(g, c),
        },
    }
}

/// What the two parsed artifacts give: both speak the supported format
/// and name one atlas root; then the gazetteer's places and the
/// chronology's events must read.
pub open spec fn exports_of(gazetteer: Json, chronology: Json) -> Result<AtlasExportsView, ExportErrorView> {
    match artifact_root(gazetteer) {
        Err(e) => Err(e),
        Ok(gr) => match artifact_root(chronology) {
            Err(e) => Err(e),
            Ok(cr) => if gr != cr {
                Err(ExportErrorView::RootMismatch)
            } else {
                match json_array(member(gazetteer, "places"@)) {
                    None => Err(ExportErrorView::BadShape("no places"@)),
                    Some(ps) => match places_of(ps) {
                        Err(e) => Err(e),
                        Ok(places) => match json_array(member(chronology, "events"@)) {
                            None => Err(ExportErrorView::BadShape("no events"@)),
                            Some(es) => match events_of(es) {
                                Err(e) => Err(e),
                                Ok(rows) => Ok(AtlasExportsView {
                                    root: gr,
                                    anchors: anchors_of(items_of(member(chronology, "anchors"@))),
                                    places,
                                    events: rows.map_values(|r: (AtlasEventView, Placement)| r.0),
                                    placements: rows.map_values(|r: (AtlasEventView, Placement)| r.1),
                                    spans: spans_of(items_of(member(chronology, "spans"@))),
                                }),
                            },
                        },
                    },
                }
            },
        },
    }
}

fn root_exec(v: &Json) -> (r: Result<u64, ExportError>)
    ensures
        match r {
            Ok(h) => artifact_root(*v) == Ok::<u64, ExportErrorView>(h),
            Err(e) => artifact_root(*v) == Err::<u64, ExportErrorView>(export_error_view(e)),
        },
{
    let fv = match get_member(v, "format_version") {
        None => return Err(ExportError::BadShape("no format_version")),
        Some(x) => match number_i64(x) {
            None => return Err(ExportError::BadShape("no format_version")),
            Some(fv) => fv,
        },
    };
    if fv != SUPPORTED_FORMAT_VERSION {
        return Err(ExportError::UnsupportedFormat(fv));
    }
    let root = match get_str(v, "atlas_version_root") {
        None => return Err(ExportError::BadShape("no atlas_version_root")),
        Some(r) => r,
    };
    match parse_hex_u64(&chars_of(root.as_str())) {
        Ok(h) => Ok(h),
        Err(_) => Err(ExportError::BadShape("bad root hex")),
    }
}

fn strings_exec(v: Option<&Json>) -> (out: Vec<String>)
    ensures
        out@.map_values(|x: String| x@) == strings_of(match v {
            Some(x) => Some(*x),
            None => None,
        }),
{
    let mut out: Vec<String> = Vec::new();
    match v {
        Some(Json::Array(items)) => {
            read_string_items(items, &mut out);
            proof {
                assert(out@.map_values(|x: String| x@) =~= Seq::<Seq<char>>::empty() + string_items(items@));
            }
        },
        _ => {
            proof {
                assert(out@.map_values(|x: String| x@) =~= Seq::<Seq<char>>::empty());
            }
        },
    }
    out
}

pub open spec fn opt_json(v: Option<&Json>) -> Option<Json> {
    match v {
        Some(x) => Some(*x),
        None => None,
    }
}

fn read_place(p: &Json) -> (r: Result<PlaceRow, ExportError>)
    ensures
        match r {
            Ok(row) => place_row(*p) == Ok::<PlaceRowView, ExportErrorView>(row@),
            Err(e) => place_row(*p) == Err::<PlaceRowView, ExportErrorView>(export_error_view(e)),
        },
{
    let id = match get_str(p, "id") {
        None => return Err(ExportError::BadShape("place id")),
        Some(s) => s.clone(),
    };
    let canonical = match get_str(p, "canonical") {
        None => return Err(ExportError::BadShape("place canonical")),
        Some(s) => s.clone(),
    };
    let (lat, lon) = match (get_member(p, "lat"), get_member(p, "lon")) {
        (Some(Json::Number(a)), Some(Json::Number(b))) => (a.clone(), b.clone()),
        _ => return Err(ExportError::BadShape("place lat/lon")),
    };
    let aliases = strings_exec(get_member(p, "aliases"));
    let attestations = strings_exec(get_member(p, "attestations"));
    let provenance = match get_str(p, "provenance") {
        Some(s) => Some(s.clone()),
        None => None,
    };
    let row = PlaceRow { id, canonical, lat, lon, aliases, attestations, provenance };
    proof {
        assert(row@ == place_row(*p)->Ok_0);
    }
    Ok(row)
}

fn i64_member(v: &Json, key: &str) -> (r: Option<i64>)
    ensures
        match r {
            Some(n) => json_i64_of(member(*v, key@)) == Some(n as int),
            None => json_i64_of(member(*v, key@)) is None,
        },
{
    match get_member(v, key) {
        Some(x) => number_i64(x),
        None => None,
    }
}

fn loci_exec(ss: &Vec<String>) -> (out: Vec<(u8, u16, u16)>)
    ensures
        out@ == loci_of(ss@.map_values(|x: String| x@)),
{
    let ghost sv = ss@.map_values(|x: String| x@);
    let mut out: Vec<(u8, u16, u16)> = Vec::new();
    let mut i: usize = 0;
    while i < ss.len()
        invariant
            sv == ss@.map_values(|x: String| x@),
            i <= ss@.len(),
            out@ == loci_of(sv.take(i as int)),
        decreases ss.len() - i,
    {
        proof {
            assert(sv.take(i as int + 1).drop_last() =~= sv.take(i as int));
            assert(sv.take(i as int + 1).last() == ss@[i as int]@);
        }
        match parse_locus(ss[i].as_str()) {
            Some(l) => {
                out.push(l);
                proof {
                    assert(out@ =~= loci_of(sv.take(i as int + 1)));
                }
            },
            None => {
                proof {
                    assert(loci_of(sv.take(i as int + 1)) =~= loci_of(sv.take(i as int)));
                }
            },
        }
        i += 1;
    }
    proof {
        assert(sv.take(ss@.len() as int) =~= sv);
    }
    out
}

fn read_event(e: &Json, k: usize) -> (r: Result<(AtlasEvent, Placement), ExportError>)
    ensures
        match r {
            Ok((ev, pl)) => event_row(*e, k as int) == Ok::<(AtlasEventView, Placement), ExportErrorView>((ev@, pl)),
            Err(x) => event_row(*e, k as int) == Err::<(AtlasEventView, Placement), ExportErrorView>(export_error_view(x)),
        },
{
    let id = match get_str(e, "id") {
        None => return Err(ExportError::BadShape("event id")),
        Some(s) => s.clone(),
    };
    let pl = match get_member(e, "placement") {
        None => return Err(ExportError::BadShape("event placement")),
        Some(pl) => pl,
    };
    let (fy, ty) = match (i64_member(pl, "from_year"), i64_member(pl, "to_year")) {
        (Some(fy), Some(ty)) => (fy, ty),
        _ => return Err(ExportError::BadShape("placement years")),
    };
    let hi = if ty >= fy { ty } else { fy };
    if fy as i32 == 0 || hi as i32 == 0 {
        return Err(ExportError::BadShape("year zero in chronology"));
    }
    let label = match get_str(e, "label") {
        Some(l) => l.clone(),
        None => crate::text::owned(""),
    };
    let att = get_member(e, "attestations");
    assert(opt_json(att) == member(*e, "attestations"@));
    let texts = strings_exec(att);
    let attestations = loci_exec(&texts);
    let textual = match get_str(pl, "basis") {
        Some(b) => str_equal(b.as_str(), "Textual"),
        None => false,
    };
    proof {
        reveal_strlit("");
        reveal_strlit("Textual");
        assert(attestations@ == loci_of(strings_of(member(*e, "attestations"@))));
        assert(label@ == match json_str(member(*e, "label"@)) {
            Some(l) => l,
            None => Seq::<char>::empty(),
        });
    }
    let ev = AtlasEvent { id, label, attestations, from_year: fy as i32, to_year: ty as i32 };
    let placement = Placement { from_year: fy as i32, to_year: hi as i32, seq: k as u32, textual };
    proof {
        let want = event_row(*e, k as int)->Ok_0.0;
        assert(ev@.id == want.id);
        assert(ev@.label == want.label);
        assert(ev@.attestations == want.attestations);
        assert(ev@ == want);
    }
    Ok((ev, placement))
}

fn read_spans(items: &Vec<Json>) -> (out: Vec<ChronoSpan>)
    ensures
        out@.map_values(|s: ChronoSpan| (s.label@, s.from_year, s.to_year)) == spans_of(items@),
{
    let mut out: Vec<ChronoSpan> = Vec::new();
    let mut i: usize = 0;
    while i < items.len()
        invariant
            i <= items@.len(),
            out@.map_values(|s: ChronoSpan| (s.label@, s.from_year, s.to_year)) == spans_of(items@.take(i as int)),
        decreases items.len() - i,
    {
        let s = &items[i];
        proof {
            assert(items@.take(i as int + 1).drop_last() =~= items@.take(i as int));
            assert(items@.take(i as int + 1).last() == *s);
        }
        let ghost before = out@.map_values(|s: ChronoSpan| (s.label@, s.from_year, s.to_year));
        match (get_str(s, "label"), i64_member(s, "from"), i64_member(s, "to")) {
            (Some(l), Some(f), Some(t)) => {
                out.push(ChronoSpan { label: l.clone(), from_year: f as i32, to_year: t as i32 });
                proof {
                    assert(out@.map_values(|s: ChronoSpan| (s.label@, s.from_year, s.to_year)) =~= spans_of(items@.take(i as int + 1)));
                }
            },
            _ => {
                proof {
                    assert(spans_of(items@.take(i as int + 1)) =~= before);
                }
            },
        }
        i += 1;
    }
    proof {
        assert(items@.take(items@.len() as int) =~= items@);
    }
    out
}

fn read_anchors(items: &Vec<Json>) -> (out: Vec<(String, i32, String)>)
    ensures
        out@.map_values(|a: (String, i32, String)| (a.0@, a.1, a.2@)) == anchors_of(items@),
{
    let mut out: Vec<(String, i32, String)> = Vec::new();
    let mut i: usize = 0;
    while i < items.len()
        invariant
            i <= items@.len(),
            out@.map_values(|a: (String, i32, String)| (a.0@, a.1, a.2@)) == anchors_of(items@.take(i as int)),
        decreases items.len() - i,
    {
        let a = &items[i];
        proof {
            assert(items@.take(i as int + 1).drop_last() =~= items@.take(i as int));
            assert(items@.take(i as int + 1).last() == *a);
        }
        let ghost before = out@.map_values(|a: (String, i32, String)| (a.0@, a.1, a.2@));
        let year = match get_member(a, "at") {
            Some(t) => i64_member(t, "year"),
            None => None,
        };
        match (get_str(a, "id"), year) {
            (Some(id), Some(y)) => {
                let citation = match get_str(a, "citation") {
                    Some(c) => c.clone(),
                    None => crate::text::owned(""),
                };
                proof {
                    reveal_strlit("");
                    assert(citation@ == match json_str(member(*a, "citation"@)) {
                        Some(c) => c,
                        None => Seq::<char>::empty(),
                    });
                    assert(json_i64_of(at_year(*a)) == Some(y as int));
                }
                let ghost old_out = out@;
                out.push((id.clone(), y as i32, citation));
                proof {
                    assert(out@.map_values(|a: (String, i32, String)| (a.0@, a.1, a.2@)) =~= old_out.map_values(|a: (String, i32, String)| (a.0@, a.1, a.2@)).push((id@, y as i32, citation@)));
                    assert(out@.map_values(|a: (String, i32, String)| (a.0@, a.1, a.2@)) =~= anchors_of(items@.take(i as int + 1)));
                }
            },
            _ => {
                proof {
                    assert(anchors_of(items@.take(i as int + 1)) =~= before);
                }
            },
        }
        i += 1;
    }
    proof {
        assert(items@.take(items@.len() as int) =~= items@);
    }
    out
}

fn array_items(v: Option<&Json>) -> (r: Option<&Vec<Json>>)
    ensures
        match r {
            Some(items) => json_array(opt_json(v)) == Some(items@),
            None => json_array(opt_json(v)) is None,
        },
{
    match v {
        Some(Json::Array(items)) => Some(items),
        _ => None,
    }
}

/// Load the gazetteer and chronology artifacts: both must parse, speak
/// the supported format and name one atlas root.
pub fn load_exports(gazetteer_text: &str, chronology_text: &str) -> (r: Result<AtlasExports, ExportError>)
    ensures
        match r {
            Ok(x) => spec_load_exports(gazetteer_text@, chronology_text@) == Ok::<AtlasExportsView, ExportErrorView>(x@),
            Err(e) => spec_load_exports(gazetteer_text@, chronology_text@) == Err::<AtlasExportsView, ExportErrorView>(export_error_view(e)),
        },
{
    let g = match parse_json(gazetteer_text) {
        Ok(g) => g,
        Err(e) => return Err(ExportError::BadSyntax(e)),
    };
    let c = match parse_json(chronology_text) {
        Ok(c) => c,
        Err(e) => return Err(ExportError::BadSyntax(e)),
    };
    exports_from_json(&g, &c)
}

/// Reads the two parsed artifacts: the same checks and rows as
/// `load_exports`, after the parse.
pub fn exports_from_json(g: &Json, c: &Json) -> (r: Result<AtlasExports, ExportError>)
    ensures
        match r {
            Ok(x) => exports_of(*g, *c) == Ok::<AtlasExportsView, ExportErrorView>(x@),
            Err(e) => exports_of(*g, *c) == Err::<AtlasExportsView, ExportErrorView>(export_error_view(e)),
        },
{
    let g_root = match root_exec(g) {
        Ok(h) => h,
        Err(e) => return Err(e),
    };
    let c_root = match root_exec(c) {
        Ok(h) => h,
        Err(e) => return Err(e),
    };
    if g_root != c_root {
        return Err(ExportError::RootMismatch);
    }
    // ---- gazetteer ----
    let ps = match array_items(get_member(g, "places")) {
        None => return Err(ExportError::BadShape("no places")),
        Some(ps) => ps,
    };
    let mut places: Vec<PlaceRow> = Vec::new();
    let mut i: usize = 0;
    proof {
        assert(ps@.take(0) =~= Seq::<Json>::empty());
        assert(places@.map_values(|p: PlaceRow| p@) =~= Seq::<PlaceRowView>::empty());
    }
    while i < ps.len()
        invariant
            artifact_root(*g) == Ok::<u64, ExportErrorView>(g_root),
            artifact_root(*c) == Ok::<u64, ExportErrorView>(c_root),
            g_root == c_root,
            json_array(member(*g, "places"@)) == Some(ps@),
            i <= ps@.len(),
            places_of(ps@.take(i as int)) == Ok::<Seq<PlaceRowView>, ExportErrorView>(places@.map_values(|p: PlaceRow| p@)),
        decreases ps.len() - i,
    {
        proof {
            assert(ps@.take(i as int + 1).drop_last() =~= ps@.take(i as int));
            assert(ps@.take(i as int + 1).last() == ps@[i as int]);
        }
        match read_place(&ps[i]) {
            Ok(row) => {
                let ghost old_places = places@;
                places.push(row);
                proof {
                    assert(places@.map_values(|p: PlaceRow| p@) =~= old_places.map_values(|p: PlaceRow| p@).push(row@));
                }
            },
            Err(e) => {
                proof {
                    lemma_places_err(ps@, i as int + 1);
                }
                return Err(e);
            },
        }
        i += 1;
    }
    proof {
        assert(ps@.take(ps@.len() as int) =~= ps@);
    }
    // ---- chronology ----
    let es = match array_items(get_member(c, "events")) {
        None => return Err(ExportError::BadShape("no events")),
        Some(es) => es,
    };
    let mut events: Vec<AtlasEvent> = Vec::new();
    let mut placements: Vec<Placement> = Vec::new();
    let mut k: usize = 0;
    let ghost pv = places@.map_values(|p: PlaceRow| p@);
    proof {
        assert(es@.take(0) =~= Seq::<Json>::empty());
        assert(events@.map_values(|e: AtlasEvent| e@) =~= Seq::<AtlasEventView>::empty());
    }
    while k < es.len()
        invariant
            artifact_root(*g) == Ok::<u64, ExportErrorView>(g_root),
            artifact_root(*c) == Ok::<u64, ExportErrorView>(c_root),
            g_root == c_root,
            json_array(member(*g, "places"@)) == Some(ps@),
            places_of(ps@) == Ok::<Seq<PlaceRowView>, ExportErrorView>(pv),
            json_array(member(*c, "events"@)) == Some(es@),
            k <= es@.len(),
            events@.len() == k,
            placements@.len() == k,
            events_of(es@.take(k as int)) is Ok,
            events_of(es@.take(k as int))->Ok_0.map_values(|r: (AtlasEventView, Placement)| r.0) == events@.map_values(|e: AtlasEvent| e@),
            events_of(es@.take(k as int))->Ok_0.map_values(|r: (AtlasEventView, Placement)| r.1) == placements@,
        decreases es.len() - k,
    {
        proof {
            assert(es@.take(k as int + 1).drop_last() =~= es@.take(k as int));
            assert(es@.take(k as int + 1).last() == es@[k as int]);
            assert(es@.take(k as int + 1).len() - 1 == k);
        }
        match read_event(&es[k], k) {
            Ok((ev, pl)) => {
                let ghost done = events_of(es@.take(k as int))->Ok_0;
                let ghost old_events = events@;
                let ghost old_pl = placements@;
                events.push(ev);
                placements.push(pl);
                proof {
                    let now = events_of(es@.take(k as int + 1))->Ok_0;
                    assert(now == done.push((ev@, pl)));
                    assert(events@.map_values(|e: AtlasEvent| e@) =~= old_events.map_values(|e: AtlasEvent| e@).push(ev@));
                    assert(now.map_values(|r: (AtlasEventView, Placement)| r.0) =~= events@.map_values(|e: AtlasEvent| e@));
                    assert(now.map_values(|r: (AtlasEventView, Placement)| r.1) =~= placements@);
                }
            },
            Err(e) => {
                proof {
                    lemma_events_err(es@, k as int + 1);
                }
                return Err(e);
            },
        }
        k += 1;
    }
    proof {
        assert(es@.take(es@.len() as int) =~= es@);
    }
    let empty: Vec<Json> = Vec::new();
    let span_items = match array_items(get_member(c, "spans")) {
        Some(items) => items,
        None => &empty,
    };
    let spans = read_spans(span_items);
    let anchor_items = match array_items(get_member(c, "anchors")) {
        Some(items) => items,
        None => &empty,
    };
    let anchors = read_anchors(anchor_items);
    proof {
        assert(empty@ =~= Seq::<Json>::empty());
    }
    let out = AtlasExports { root: g_root, anchors, places, events, placements, spans };
    proof {
        let rows = events_of(es@)->Ok_0;
        assert(out@.anchors =~= anchors_of(items_of(member(*c, "anchors"@))));
        assert(out@.spans =~= spans_of(items_of(member(*c, "spans"@))));
        assert(out@.events =~= rows.map_values(|r: (AtlasEventView, Placement)| r.0));
        assert(out@.placements =~= rows.map_values(|r: (AtlasEventView, Placement)| r.1));
        assert(out@.places =~= places_of(ps@)->Ok_0);
    }
    Ok(out)
}

proof fn lemma_places_err(items: Seq<Json>, k: int)
    requires
        0 <= k <= items.len(),
        places_of(items.take(k)) is Err,
    ensures
        places_of(items) == places_of(items.take(k)),
    decreases items.len(),
{
    if k < items.len() {
        assert(items.drop_last().take(k) =~= items.take(k));
        lemma_places_err(items.drop_last(), k);
    } else {
        assert(items.take(k) =~= items);
    }
}

proof fn lemma_events_err(items: Seq<Json>, k: int)
    requires
        0 <= k <= items.len(),
        events_of(items.take(k)) is Err,
    ensures
        events_of(items) == events_of(items.take(k)),
    decreases items.len(),
{
    if k < items.len() {
        assert(items.drop_last().take(k) =~= items.take(k));
        lemma_events_err(items.drop_last(), k);
    } else {
        assert(items.take(k) =~= items);
    }
}

// ------------------------------------------------------ binding places

/// What `str::to_lowercase` makes of a text: the Unicode lowercase
/// mapping, character by character (one character may become several).
pub uninterp spec fn spec_lowercase(s: Seq<char>) -> Seq<char>;

/// Calls `str::to_lowercase`. The contract claims only that the result
/// is a function of the text; which mapping Unicode gives is not
/// stated.
#[verifier::external_body]
fn lowercase(s: &str) -> (r: String)
    ensures
        r@ == spec_lowercase(s@),
{
    s.to_lowercase()
}

/// A parenthetical opens at `i`: " (".
pub open spec fn paren_at(s: Seq<char>, i: int) -> bool {
    0 <= i && i + 1 < s.len() && s[i] == ' ' && s[i + 1] == '('
}

/// A waypoint name without its parenthetical: the text before the
/// first " (", or all of it.
pub open spec fn bare_name(s: Seq<char>) -> Seq<char> {
    if exists|i: int| #[trigger] paren_at(s, i) {
        let i = choose|i: int| #[trigger] paren_at(s, i) && forall|j: int| 0 <= j < i ==> !paren_at(s, j);
        s.take(i)
    } else {
        s
    }
}

/// The names a place answers to, lowercased: its canonical name first,
/// then its aliases.
pub open spec fn place_names(p: PlaceRowView) -> Seq<Seq<char>> {
    seq![spec_lowercase(p.canonical)] + p.aliases.map_values(|a: Seq<char>| spec_lowercase(a))
}

/// The first place, from index `i` on, that answers to `key`.
pub open spec fn first_place_from(places: Seq<PlaceRowView>, key: Seq<char>, i: int) -> Option<int>
    decreases places.len() - i,
{
    if i < 0 || i >= places.len() {
        None
    } else if place_names(places[i]).contains(key) {
        Some(i)
    } else {
        first_place_from(places, key, i + 1)
    }
}

/// Canonical-first, alias-as-correction-layer resolution: the first
/// place answering to the name, lowercased; failing that, to the name
/// without its parenthetical.
pub open spec fn spec_resolve_place(places: Seq<PlaceRowView>, name: Seq<char>) -> Option<int> {
    match first_place_from(places, spec_lowercase(name), 0) {
        Some(i) => Some(i),
        None => first_place_from(places, spec_lowercase(bare_name(name)), 0),
    }
}

fn bare_of(name: &str) -> (r: String)
    ensures
        r@ == bare_name(name@),
{
    let cs = chars_of(name);
    let n = cs.len();
    let mut i: usize = 0;
    while n > 0 && i < n - 1
        invariant
            n == cs@.len(),
            cs@ == name@,
            forall|j: int| 0 <= j < i ==> !#[trigger] paren_at(cs@, j),
        decreases cs.len() - i,
    {
        if cs[i] == ' ' && cs[i + 1] == '(' {
            let mut out: Vec<char> = Vec::new();
            let mut k: usize = 0;
            while k < i
                invariant
                    k <= i,
                    i < cs@.len(),
                    out@ == cs@.take(k as int),
                decreases i - k,
            {
                out.push(cs[k]);
                proof {
                    assert(cs@.take(k as int + 1) =~= cs@.take(k as int).push(cs@[k as int]));
                }
                k += 1;
            }
            proof {
                let s = name@;
                assert(paren_at(s, i as int));
                assert(paren_at(s, i as int) && forall|j: int| 0 <= j < i ==> !paren_at(s, j));
                let c = choose|x: int| #[trigger] paren_at(s, x) && forall|j: int| 0 <= j < x ==> !paren_at(s, j);
                if c < i {
                    assert(!paren_at(s, c));
                } else if c > i {
                    assert(!paren_at(s, i as int));
                }
                assert(out@ == s.take(i as int));
            }
            return crate::text::string_of(&out);
        }
        i += 1;
    }
    proof {
        let s = name@;
        assert forall|x: int| !#[trigger] paren_at(s, x) by {
            if paren_at(s, x) {
                assert(x < i);
            }
        }
    }
    crate::text::owned(name)
}

fn first_place(places: &Vec<PlaceRow>, key: &str) -> (r: Option<usize>)
    ensures
        match r {
            Some(i) => i < places@.len() && first_place_from(places@.map_values(|p: PlaceRow| p@), key@, 0) == Some(i as int),
            None => first_place_from(places@.map_values(|p: PlaceRow| p@), key@, 0) is None,
        },
{
    let ghost pv = places@.map_values(|p: PlaceRow| p@);
    let mut i: usize = 0;
    while i < places.len()
        invariant
            pv == places@.map_values(|p: PlaceRow| p@),
            i <= places@.len(),
            first_place_from(pv, key@, 0) == first_place_from(pv, key@, i as int),
        decreases places.len() - i,
    {
        let p = &places[i];
        let canon = lowercase(p.canonical.as_str());
        let mut hit = str_equal(canon.as_str(), key);
        proof {
            let ns = place_names(pv[i as int]);
            assert(pv[i as int] == p@);
            assert(ns[0] == canon@);
            assert(ns.take(1) =~= seq![canon@]);
            assert(hit == ns.take(1).contains(key@)) by {
                if ns.take(1).contains(key@) {
                    let j = choose|j: int| 0 <= j < 1 && ns.take(1)[j] == key@;
                }
                if hit {
                    assert(ns.take(1)[0] == key@);
                }
            }
        }
        let mut a: usize = 0;
        while a < p.aliases.len() && !hit
            invariant
                pv == places@.map_values(|p: PlaceRow| p@),
                i < places@.len(),
                p == &places@[i as int],
                pv[i as int] == p@,
                a <= p.aliases@.len(),
                hit == place_names(pv[i as int]).take(a as int + 1).contains(key@),
            decreases p.aliases.len() - a,
        {
            let l = lowercase(p.aliases[a].as_str());
            hit = str_equal(l.as_str(), key);
            proof {
                let ns = place_names(pv[i as int]);
                assert(p@.aliases[a as int] == p.aliases@[a as int]@);
                assert(ns[a as int + 1] == l@);
                assert(ns.take(a as int + 2) =~= ns.take(a as int + 1).push(l@));
                if hit {
                    assert(ns.take(a as int + 2)[a as int + 1] == key@);
                }
            }
            a += 1;
        }
        proof {
            let ns = place_names(pv[i as int]);
            assert(ns[0] == canon@);
            assert(ns.take(1) =~= seq![canon@]);
            if hit {
                let t = ns.take(a as int + 1);
                let j = choose|j: int| 0 <= j < t.len() && t[j] == key@;
                assert(ns[j] == key@);
            } else {
                assert(a == p.aliases@.len());
                assert(ns.take(a as int + 1) =~= ns);
            }
        }
        if hit {
            return Some(i);
        }
        i += 1;
    }
    None
}

impl AtlasExports {
    /// Canonical-first, alias-as-correction-layer place resolution:
    /// the place's atlas id and its coordinates (latitude, longitude)
    /// as the artifact writes them. Parentheticals in our waypoint
    /// names ("Kiriath-jearim (Baalah)") are stripped when the whole
    /// name answers to nothing.
    pub fn resolve_place(&self, name: &str) -> (r: Option<(String, String, String)>)
        ensures
            match r {
                Some((id, lat, lon)) => spec_resolve_place(self@.places, name@) matches Some(i) && {
                    &&& id@ == self@.places[i].id
                    &&& lat@ == self@.places[i].lat
                    &&& lon@ == self@.places[i].lon
                },
                None => spec_resolve_place(self@.places, name@) is None,
            },
    {
        let ghost pv = self@.places;
        assert(pv == self.places@.map_values(|p: PlaceRow| p@));
        let whole = lowercase(name);
        let found = match first_place(&self.places, whole.as_str()) {
            Some(i) => Some(i),
            None => {
                let bare = bare_of(name);
                let key = lowercase(bare.as_str());
                first_place(&self.places, key.as_str())
            },
        };
        assert(match found {
            Some(i) => i < self.places@.len() && spec_resolve_place(pv, name@) == Some(i as int),
            None => spec_resolve_place(pv, name@) is None,
        });
        match found {
            Some(i) => {
                let p = &self.places[i];
                proof {
                    assert(self@.places[i as int] == p@);
                }
                Some((p.id.clone(), p.lat.clone(), p.lon.clone()))
            },
            None => None,
        }
    }

    /// Bind by attestation: the one atlas event clearly attested inside
    /// the verse range, as `resolve_event` says.
    pub fn resolve_event(&self, book: u8, from: (u16, u16), to: (u16, u16)) -> (r: Option<(String, i32, i32)>)
        ensures
            match r {
                Some((id, f, t)) => exists|i: int| {
                    &&& #[trigger] clear_winner(event_views(self.events@), (book, from.0, from.1), (book, to.0, to.1), i)
                    &&& id@ == self.events@[i].id@
                    &&& f == self.events@[i].from_year
                    &&& t == self.events@[i].to_year
                },
                None => forall|i: int| !#[trigger] clear_winner(event_views(self.events@), (book, from.0, from.1), (book, to.0, to.1), i),
            },
    {
        resolve_event(self.events.as_slice(), book, from, to)
    }

    /// The atlas's creation anchor row, when present, as
    /// `creation_anchor` says.
    pub fn creation_anchor(&self) -> (r: Option<(i32, String)>)
        ensures
            match r {
                Some((y, c)) => exists|i: int| {
                    &&& 0 <= i < self.anchors@.len()
                    &&& self.anchors@[i].0@ == "creation"@
                    &&& (forall|j: int| 0 <= j < i ==> self.anchors@[j].0@ != "creation"@)
                    &&& y == self.anchors@[i].1
                    &&& c@ == self.anchors@[i].2@
                },
                None => forall|i: int| 0 <= i < self.anchors@.len() ==> self.anchors@[i].0@ != "creation"@,
            },
    {
        creation_anchor(self.anchors.as_slice())
    }
}

} // verus!
