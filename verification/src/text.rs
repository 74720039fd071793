//! Text helpers over the character view of strings: building strings,
//! comparing them in Rust's order, and the integer syntax of
//! `str::parse` / `from_str_radix`, stated and implemented exactly.

use vstd::prelude::*;
use vstd::string::*;
use vstd::arithmetic::power::pow;

verus! {

/// The characters of `s`, in order.
pub fn chars_of(s: &str) -> (out: Vec<char>)
    ensures
        out@ == s@,
{
    let mut out: Vec<char> = Vec::new();
    for c in it: s.chars()
        invariant
            it.seq() == s@,
            out@ == s@.take(it.index() as int),
    {
        out.push(c);
    }
    out
}

/// `String::push`: appends one character.
#[verifier::external_body]
pub(crate) fn push_char(s: &mut String, c: char)
    ensures
        final(s)@ == old(s)@.push(c),
{
    s.push(c);
}

/// `c` with an ASCII capital turned into its small letter.
pub open spec fn ascii_lowercase(c: char) -> char {
    if 'A' <= c && c <= 'Z' {
        ((c as u32) + 32) as char
    } else {
        c
    }
}

/// `char::to_ascii_lowercase`: ASCII letters 'A' to 'Z' map to 'a' to
/// 'z', every other character is unchanged.
pub(crate) fn to_ascii_lowercase(c: char) -> (r: char)
    ensures
        r == ascii_lowercase(c),
{
    if 'A' <= c && c <= 'Z' {
        let b: u8 = c as u8;
        assert(b as u32 == c as u32);
        (b + 32) as char
    } else {
        c
    }
}

/// `char::is_ascii_alphanumeric`.
pub open spec fn ascii_alphanumeric(c: char) -> bool {
    ('0' <= c && c <= '9') || ('a' <= c && c <= 'z') || ('A' <= c && c <= 'Z')
}

/// A string holding exactly `chars`.
pub fn string_of(chars: &Vec<char>) -> (out: String)
    ensures
        out@ == chars@,
{
    let mut out = String::new();
    let mut i: usize = 0;
    while i < chars.len()
        invariant
            i <= chars.len(),
            out@ == chars@.take(i as int),
        decreases chars.len() - i,
    {
        push_char(&mut out, chars[i]);
        i += 1;
        assert(chars@.take(i as int) == chars@.take(i - 1).push(chars@[i - 1]));
    }
    assert(chars@.take(chars.len() as int) == chars@);
    out
}

/// A fresh string with the characters of `s`.
pub fn owned(s: &str) -> (out: String)
    ensures
        out@ == s@,
{
    String::from_str(s)
}

/// The characters of each string.
pub open spec fn string_views(s: Seq<String>) -> Seq<Seq<char>> {
    s.map_values(|x: String| x@)
}

/// `a` followed by `b`, as a new string.
pub fn concat2(a: &str, b: &str) -> (out: String)
    ensures
        out@ == a@ + b@,
{
    let mut out = String::from_str(a);
    out.append(b);
    out
}

/// `a`, `b`, `c` in sequence, as a new string.
pub fn concat3(a: &str, b: &str, c: &str) -> (out: String)
    ensures
        out@ == a@ + b@ + c@,
{
    let mut out = String::from_str(a);
    out.append(b);
    out.append(c);
    out
}

// ------------------------------------------------------------ order

/// Rust's order on strings: lexicographic by code point (UTF-8 byte
/// order and code point order agree), a proper prefix first.
pub open spec fn chars_lt(a: Seq<char>, b: Seq<char>) -> bool
    decreases a.len(),
{
    if b.len() == 0 {
        false
    } else if a.len() == 0 {
        true
    } else if (a[0] as int) < (b[0] as int) {
        true
    } else if a[0] == b[0] {
        chars_lt(a.drop_first(), b.drop_first())
    } else {
        false
    }
}

pub open spec fn chars_le(a: Seq<char>, b: Seq<char>) -> bool {
    chars_lt(a, b) || a == b
}

pub proof fn lemma_chars_lt_irreflexive(a: Seq<char>)
    ensures
        !chars_lt(a, a),
    decreases a.len(),
{
    if a.len() > 0 {
        lemma_chars_lt_irreflexive(a.drop_first());
    }
}

pub proof fn lemma_chars_lt_trans(a: Seq<char>, b: Seq<char>, c: Seq<char>)
    requires
        chars_lt(a, b),
        chars_lt(b, c),
    ensures
        chars_lt(a, c),
    decreases a.len(),
{
    if a.len() > 0 && b.len() > 0 && c.len() > 0 && a[0] == b[0] && b[0] == c[0] {
        lemma_chars_lt_trans(a.drop_first(), b.drop_first(), c.drop_first());
    }
}

pub proof fn lemma_chars_lt_total(a: Seq<char>, b: Seq<char>)
    ensures
        chars_lt(a, b) || chars_lt(b, a) || a == b,
    decreases a.len(),
{
    if a.len() > 0 && b.len() > 0 {
        if a[0] == b[0] {
            lemma_chars_lt_total(a.drop_first(), b.drop_first());
            if a.drop_first() == b.drop_first() {
                assert(a == seq![a[0]] + a.drop_first());
                assert(b == seq![b[0]] + b.drop_first());
            }
        } else {
            assert((a[0] as int) != (b[0] as int));
        }
    } else if a.len() == 0 && b.len() == 0 {
        assert(a == b);
    }
}

pub proof fn lemma_chars_lt_asym(a: Seq<char>, b: Seq<char>)
    requires
        chars_lt(a, b),
    ensures
        !chars_lt(b, a),
        a != b,
{
    if chars_lt(b, a) {
        lemma_chars_lt_trans(a, b, a);
        lemma_chars_lt_irreflexive(a);
    }
    lemma_chars_lt_irreflexive(a);
}

/// Is `a` before `b` in Rust's string order?
pub fn str_less(a: &str, b: &str) -> (r: bool)
    ensures
        r == chars_lt(a@, b@),
{
    let x = chars_of(a);
    let y = chars_of(b);
    let mut i: usize = 0;
    assert(x@.skip(0) == x@ && y@.skip(0) == y@);
    while i < x.len() && i < y.len()
        invariant
            x@ == a@,
            y@ == b@,
            i <= x.len(),
            i <= y.len(),
            x@.take(i as int) == y@.take(i as int),
            chars_lt(a@, b@) == chars_lt(x@.skip(i as int), y@.skip(i as int)),
        decreases x.len() - i,
    {
        if x[i] < y[i] {
            return true;
        }
        if x[i] != y[i] {
            return false;
        }
        assert(x@.skip(i as int).drop_first() == x@.skip(i + 1));
        assert(y@.skip(i as int).drop_first() == y@.skip(i + 1));
        assert(x@.take(i + 1) == x@.take(i as int).push(x@[i as int]));
        assert(y@.take(i + 1) == y@.take(i as int).push(y@[i as int]));
        i += 1;
    }
    i < y.len()
}

/// Character-wise equality of two strings.
pub fn str_equal(a: &str, b: &str) -> (r: bool)
    ensures
        r == (a@ == b@),
{
    let x = chars_of(a);
    let y = chars_of(b);
    if x.len() != y.len() {
        return false;
    }
    let mut i: usize = 0;
    while i < x.len()
        invariant
            x@ == a@,
            y@ == b@,
            x.len() == y.len(),
            i <= x.len(),
            forall|k: int| 0 <= k < i ==> x@[k] == y@[k],
        decreases x.len() - i,
    {
        if x[i] != y[i] {
            return false;
        }
        i += 1;
    }
    assert(x@ =~= y@);
    true
}

/// Whether `pat` occurs in `s` at `i`.
pub open spec fn occurs_at(s: Seq<char>, pat: Seq<char>, i: int) -> bool {
    0 <= i && i + pat.len() <= s.len() && s.subrange(i, i + pat.len()) == pat
}

/// Whether `pat` occurs anywhere in `s` (`str::contains`).
pub open spec fn contains_text(s: Seq<char>, pat: Seq<char>) -> bool {
    exists|i: int| occurs_at(s, pat, i)
}

/// `str::contains` on characters.
pub fn has_text(s: &Vec<char>, pat: &str) -> (r: bool)
    ensures
        r == contains_text(s@, pat@),
{
    let p = chars_of(pat);
    if p.len() > s.len() {
        return false;
    }
    let last = s.len() - p.len();
    proof {
        assert forall|k: int| occurs_at(s@, pat@, k) implies k <= last by {}
    }
    let mut i: usize = 0;
    while i <= last
        invariant
            p@ == pat@,
            p.len() <= s.len(),
            last == s.len() - p.len(),
            i <= last + 1,
            forall|k: int| 0 <= k < i ==> !occurs_at(s@, pat@, k),
        decreases last + 1 - i,
    {
        let mut j: usize = 0;
        let mut same = true;
        while j < p.len()
            invariant
                p@ == pat@,
                i <= last,
                last == s.len() - p.len(),
                j <= p.len(),
                same <==> forall|q: int| 0 <= q < j ==> s@[i + q] == p@[q],
            decreases p.len() - j,
        {
            if s[i + j] != p[j] {
                same = false;
            }
            j += 1;
        }
        if same {
            assert(s@.subrange(i as int, i + p.len()) =~= p@);
            assert(occurs_at(s@, pat@, i as int));
            return true;
        } else {
            assert(!occurs_at(s@, pat@, i as int)) by {
                if occurs_at(s@, pat@, i as int) {
                    assert forall|q: int| 0 <= q < p.len() implies s@[i + q] == p@[q] by {
                        assert(s@.subrange(i as int, i + p.len())[q] == s@[i + q]);
                    }
                }
            }
        }
        i += 1;
    }
    false
}

/// Does `s` begin with `prefix`? When it does, the rest is returned.
pub fn strip_prefix(s: &Vec<char>, prefix: &str) -> (r: Option<Vec<char>>)
    ensures
        match r {
            Some(rest) => s@.len() >= prefix@.len() && s@.take(prefix@.len() as int) == prefix@
                && rest@ == s@.skip(prefix@.len() as int),
            None => !(s@.len() >= prefix@.len() && s@.take(prefix@.len() as int) == prefix@),
        },
{
    let p = chars_of(prefix);
    if p.len() > s.len() {
        return None;
    }
    let mut i: usize = 0;
    while i < p.len()
        invariant
            p@ == prefix@,
            p.len() <= s.len(),
            i <= p.len(),
            forall|k: int| 0 <= k < i ==> s@[k] == p@[k],
        decreases p.len() - i,
    {
        if s[i] != p[i] {
            assert(s@.take(p@.len() as int)[i as int] != p@[i as int]);
            return None;
        }
        i += 1;
    }
    assert(s@.take(p@.len() as int) =~= p@);
    let mut rest: Vec<char> = Vec::new();
    let mut j: usize = p.len();
    while j < s.len()
        invariant
            p.len() <= j <= s.len(),
            rest@ == s@.subrange(p.len() as int, j as int),
        decreases s.len() - j,
    {
        rest.push(s[j]);
        j += 1;
        assert(rest@ =~= s@.subrange(p.len() as int, j as int));
    }
    assert(s@.subrange(p.len() as int, s.len() as int) =~= s@.skip(p.len() as int));
    Some(rest)
}

// -------------------------------------------------- integer syntax

/// Why a numeral was refused, as `core::num::IntErrorKind` names it.
#[derive(Clone, Copy, Debug, PartialEq, Eq)]
pub enum IntError {
    Empty,
    InvalidDigit,
    PosOverflow,
    NegOverflow,
}

/// The value of an ASCII digit in `radix` (2..=36), as `char::to_digit`.
pub open spec fn digit_value(c: char, radix: nat) -> Option<nat> {
    let v: int = if '0' <= c && c <= '9' {
        (c as u32) - ('0' as u32)
    } else if 'a' <= c && c <= 'z' {
        (c as u32) - ('a' as u32) + 10
    } else if 'A' <= c && c <= 'Z' {
        (c as u32) - ('A' as u32) + 10
    } else {
        -1
    };
    if 0 <= v < radix {
        Some(v as nat)
    } else {
        None
    }
}

/// Left-to-right accumulation of digits onto `acc`; the first bad
/// digit or the first step beyond `max` decides the error.
pub open spec fn scan_digits(ds: Seq<char>, radix: nat, acc: nat, max: nat, neg: bool) -> Result<nat, IntError>
    decreases ds.len(),
{
    if ds.len() == 0 {
        Ok(acc)
    } else {
        match digit_value(ds[0], radix) {
            None => Err(IntError::InvalidDigit),
            Some(d) => {
                let next = acc * radix + d;
                if next > max {
                    Err(if neg { IntError::NegOverflow } else { IntError::PosOverflow })
                } else {
                    scan_digits(ds.drop_first(), radix, next, max, neg)
                }
            }
        }
    }
}

/// `from_str_radix` for an integer type whose largest value is
/// `max_pos` and, if it is signed, whose smallest is `-max_neg`.
pub open spec fn parse_int(s: Seq<char>, radix: nat, signed: bool, max_pos: nat, max_neg: nat) -> Result<int, IntError> {
    if s.len() == 0 {
        Err(IntError::Empty)
    } else if (s[0] == '+' || s[0] == '-') && s.len() == 1 {
        Err(IntError::InvalidDigit)
    } else if s[0] == '+' {
        match scan_digits(s.drop_first(), radix, 0, max_pos, false) {
            Ok(v) => Ok(v as int),
            Err(e) => Err(e),
        }
    } else if s[0] == '-' && signed {
        match scan_digits(s.drop_first(), radix, 0, max_neg, true) {
            Ok(v) => Ok(-v),
            Err(e) => Err(e),
        }
    } else {
        match scan_digits(s, radix, 0, max_pos, false) {
            Ok(v) => Ok(v as int),
            Err(e) => Err(e),
        }
    }
}

/// `i32::from_str`.
pub open spec fn spec_parse_i32(s: Seq<char>) -> Result<int, IntError> {
    parse_int(s, 10, true, 0x7fff_ffff, 0x8000_0000)
}

/// `i64::from_str`.
pub open spec fn spec_parse_i64(s: Seq<char>) -> Result<int, IntError> {
    parse_int(s, 10, true, 0x7fff_ffff_ffff_ffff, 0x8000_0000_0000_0000)
}

/// `u16::from_str`.
pub open spec fn spec_parse_u16(s: Seq<char>) -> Result<int, IntError> {
    parse_int(s, 10, false, 0xffff, 0)
}

/// `u64::from_str`.
pub open spec fn spec_parse_u64(s: Seq<char>) -> Result<int, IntError> {
    parse_int(s, 10, false, 0xffff_ffff_ffff_ffff, 0)
}

/// `u64::from_str_radix(_, 16)`.
pub open spec fn spec_parse_hex_u64(s: Seq<char>) -> Result<int, IntError> {
    parse_int(s, 16, false, 0xffff_ffff_ffff_ffff, 0)
}

/// `usize::from_str_radix(_, 16)`.
pub open spec fn spec_parse_hex_usize(s: Seq<char>) -> Result<int, IntError> {
    parse_int(s, 16, false, usize::MAX as nat, 0)
}

fn digit_of(c: char, radix: u64) -> (r: Option<u64>)
    requires
        radix == 10 || radix == 16,
    ensures
        match r {
            Some(d) => digit_value(c, radix as nat) == Some(d as nat),
            None => digit_value(c, radix as nat) is None,
        },
{
    let v: u64 = if '0' <= c && c <= '9' {
        (c as u32 - '0' as u32) as u64
    } else if 'a' <= c && c <= 'z' {
        (c as u32 - 'a' as u32 + 10) as u64
    } else if 'A' <= c && c <= 'Z' {
        (c as u32 - 'A' as u32 + 10) as u64
    } else {
        return None;
    };
    if v < radix {
        Some(v)
    } else {
        None
    }
}

proof fn lemma_scan_step(ds: Seq<char>, radix: nat, acc: nat, max: nat, neg: bool, i: int)
    requires
        0 <= i < ds.len(),
    ensures
        scan_digits(ds.skip(i), radix, acc, max, neg) == (match digit_value(ds[i], radix) {
            None => Err(IntError::InvalidDigit),
            Some(d) => {
                if acc * radix + d > max {
                    Err(if neg { IntError::NegOverflow } else { IntError::PosOverflow })
                } else {
                    scan_digits(ds.skip(i + 1), radix, acc * radix + d, max, neg)
                }
            }
        }),
{
    assert(ds.skip(i).drop_first() == ds.skip(i + 1));
}

/// Runs `scan_digits` over `ds[start..]` from zero.
fn scan(ds: &Vec<char>, start: usize, radix: u64, max: u64, neg: bool) -> (r: Result<u64, IntError>)
    requires
        radix == 10 || radix == 16,
        start <= ds.len(),
        max >= 16,
    ensures
        match r {
            Ok(v) => scan_digits(ds@.skip(start as int), radix as nat, 0, max as nat, neg) == Ok::<nat, IntError>(v as nat),
            Err(e) => scan_digits(ds@.skip(start as int), radix as nat, 0, max as nat, neg) == Err::<nat, IntError>(e),
        },
{
    let mut acc: u64 = 0;
    let mut i: usize = start;
    while i < ds.len()
        invariant
            radix == 10 || radix == 16,
            max >= 16,
            start <= i <= ds.len(),
            acc <= max,
            scan_digits(ds@.skip(start as int), radix as nat, 0, max as nat, neg)
                == scan_digits(ds@.skip(i as int), radix as nat, acc as nat, max as nat, neg),
        decreases ds.len() - i,
    {
        proof {
            lemma_scan_step(ds@, radix as nat, acc as nat, max as nat, neg, i as int);
        }
        match digit_of(ds[i], radix) {
            None => {
                return Err(IntError::InvalidDigit);
            },
            Some(d) => {
                let err = if neg { IntError::NegOverflow } else { IntError::PosOverflow };
                let lim: u64 = (max - d) / radix;
                if acc > lim {
                    proof {
                        assert(acc * radix + d > max) by (nonlinear_arith)
                            requires
                                acc > lim,
                                lim as int == (max as int - d as int) / (radix as int),
                                radix > 0,
                                d <= max,
                        ;
                    }
                    return Err(err);
                }
                proof {
                    assert(acc * radix + d <= max) by (nonlinear_arith)
                        requires
                            acc <= lim,
                            lim as int == (max as int - d as int) / (radix as int),
                            radix > 0,
                            d <= max,
                    ;
                }
                acc = acc * radix + d;
            },
        }
        i += 1;
    }
    assert(ds@.skip(i as int).len() == 0);
    Ok(acc)
}

proof fn lemma_scan_bound(ds: Seq<char>, radix: nat, acc: nat, max: nat, neg: bool)
    requires
        acc <= max,
    ensures
        scan_digits(ds, radix, acc, max, neg) matches Ok(v) ==> v <= max,
    decreases ds.len(),
{
    if ds.len() > 0 {
        if let Some(d) = digit_value(ds[0], radix) {
            if acc * radix + d <= max {
                lemma_scan_bound(ds.drop_first(), radix, acc * radix + d, max, neg);
            }
        }
    }
}

/// Shared front end of the integer parsers below.
fn parse_with(s: &Vec<char>, radix: u64, signed: bool, max_pos: u64, max_neg: u64) -> (r: Result<(bool, u64), IntError>)
    requires
        radix == 10 || radix == 16,
        max_pos >= 16,
        signed ==> max_neg >= 16,
    ensures
        match r {
            Ok((neg, v)) => parse_int(s@, radix as nat, signed, max_pos as nat, max_neg as nat)
                == Ok::<int, IntError>(if neg { -(v as int) } else { v as int }),
            Err(e) => parse_int(s@, radix as nat, signed, max_pos as nat, max_neg as nat) == Err::<int, IntError>(e),
        },
{
    if s.len() == 0 {
        return Err(IntError::Empty);
    }
    if (s[0] == '+' || s[0] == '-') && s.len() == 1 {
        return Err(IntError::InvalidDigit);
    }
    if s[0] == '+' {
        assert(s@.skip(1) == s@.drop_first());
        match scan(s, 1, radix, max_pos, false) {
            Ok(v) => Ok((false, v)),
            Err(e) => Err(e),
        }
    } else if s[0] == '-' && signed {
        assert(s@.skip(1) == s@.drop_first());
        match scan(s, 1, radix, max_neg, true) {
            Ok(v) => Ok((true, v)),
            Err(e) => Err(e),
        }
    } else {
        assert(s@.skip(0) == s@);
        match scan(s, 0, radix, max_pos, false) {
            Ok(v) => Ok((false, v)),
            Err(e) => Err(e),
        }
    }
}

/// `str::parse::<i32>` on a character sequence.
pub fn parse_i32(s: &Vec<char>) -> (r: Result<i32, IntError>)
    ensures
        match r {
            Ok(v) => spec_parse_i32(s@) == Ok::<int, IntError>(v as int),
            Err(e) => spec_parse_i32(s@) == Err::<int, IntError>(e),
        },
{
    match parse_with(s, 10, true, 0x7fff_ffff, 0x8000_0000) {
        Ok((neg, v)) => {
            proof {
                if s@.len() > 0 && s@[0] == '-' && s@.len() > 1 {
                    lemma_scan_bound(s@.drop_first(), 10, 0, 0x8000_0000, true);
                } else if s@.len() > 0 && s@[0] == '+' {
                    lemma_scan_bound(s@.drop_first(), 10, 0, 0x7fff_ffff, false);
                } else {
                    lemma_scan_bound(s@, 10, 0, 0x7fff_ffff, false);
                }
            }
            if neg {
                if v == 0x8000_0000 {
                    Ok(i32::MIN)
                } else {
                    Ok(-(v as i32))
                }
            } else {
                Ok(v as i32)
            }
        },
        Err(e) => Err(e),
    }
}

/// `str::parse::<i64>` on a character sequence.
pub fn parse_i64(s: &Vec<char>) -> (r: Result<i64, IntError>)
    ensures
        match r {
            Ok(v) => spec_parse_i64(s@) == Ok::<int, IntError>(v as int),
            Err(e) => spec_parse_i64(s@) == Err::<int, IntError>(e),
        },
{
    match parse_with(s, 10, true, 0x7fff_ffff_ffff_ffff, 0x8000_0000_0000_0000) {
        Ok((neg, v)) => {
            proof {
                if s@.len() > 0 && s@[0] == '-' && s@.len() > 1 {
                    lemma_scan_bound(s@.drop_first(), 10, 0, 0x8000_0000_0000_0000, true);
                } else if s@.len() > 0 && s@[0] == '+' {
                    lemma_scan_bound(s@.drop_first(), 10, 0, 0x7fff_ffff_ffff_ffff, false);
                } else {
                    lemma_scan_bound(s@, 10, 0, 0x7fff_ffff_ffff_ffff, false);
                }
            }
            if neg {
                if v == 0x8000_0000_0000_0000 {
                    Ok(i64::MIN)
                } else {
                    Ok(-(v as i64))
                }
            } else {
                Ok(v as i64)
            }
        },
        Err(e) => Err(e),
    }
}

/// `str::parse::<u16>` on a character sequence.
pub fn parse_u16(s: &Vec<char>) -> (r: Result<u16, IntError>)
    ensures
        match r {
            Ok(v) => spec_parse_u16(s@) == Ok::<int, IntError>(v as int),
            Err(e) => spec_parse_u16(s@) == Err::<int, IntError>(e),
        },
{
    match parse_with(s, 10, false, 0xffff, 0) {
        Ok((neg, v)) => {
            proof {
                if s@.len() > 0 && s@[0] == '+' {
                    lemma_scan_bound(s@.drop_first(), 10, 0, 0xffff, false);
                } else {
                    lemma_scan_bound(s@, 10, 0, 0xffff, false);
                }
            }
            Ok(v as u16)
        },
        Err(e) => Err(e),
    }
}

/// `str::parse::<u64>` on a character sequence.
pub fn parse_u64(s: &Vec<char>) -> (r: Result<u64, IntError>)
    ensures
        match r {
            Ok(v) => spec_parse_u64(s@) == Ok::<int, IntError>(v as int),
            Err(e) => spec_parse_u64(s@) == Err::<int, IntError>(e),
        },
{
    match parse_with(s, 10, false, 0xffff_ffff_ffff_ffff, 0) {
        Ok((neg, v)) => Ok(v),
        Err(e) => Err(e),
    }
}

/// `u64::from_str_radix(_, 16)` on a character sequence.
pub fn parse_hex_u64(s: &Vec<char>) -> (r: Result<u64, IntError>)
    ensures
        match r {
            Ok(v) => spec_parse_hex_u64(s@) == Ok::<int, IntError>(v as int),
            Err(e) => spec_parse_hex_u64(s@) == Err::<int, IntError>(e),
        },
{
    match parse_with(s, 16, false, 0xffff_ffff_ffff_ffff, 0) {
        Ok((neg, v)) => Ok(v),
        Err(e) => Err(e),
    }
}

/// `usize::from_str_radix(_, 16)` on a character sequence.
pub fn parse_hex_usize(s: &Vec<char>) -> (r: Result<usize, IntError>)
    ensures
        match r {
            Ok(v) => spec_parse_hex_usize(s@) == Ok::<int, IntError>(v as int),
            Err(e) => spec_parse_hex_usize(s@) == Err::<int, IntError>(e),
        },
{
    match parse_with(s, 16, false, usize::MAX as u64, 0) {
        Ok((neg, v)) => {
            proof {
                if s@.len() > 0 && s@[0] == '+' {
                    lemma_scan_bound(s@.drop_first(), 16, 0, usize::MAX as nat, false);
                } else {
                    lemma_scan_bound(s@, 16, 0, usize::MAX as nat, false);
                }
            }
            Ok(v as usize)
        },
        Err(e) => Err(e),
    }
}

/// The Display text of `core::num::ParseIntError` for each kind.
pub open spec fn int_error_text(e: IntError) -> Seq<char> {
    match e {
        IntError::Empty => "cannot parse integer from empty string"@,
        IntError::InvalidDigit => "invalid digit found in string"@,
        IntError::PosOverflow => "number too large to fit in target type"@,
        IntError::NegOverflow => "number too small to fit in target type"@,
    }
}

pub fn int_error_message(e: IntError) -> (out: String)
    ensures
        out@ == int_error_text(e),
{
    match e {
        IntError::Empty => owned("cannot parse integer from empty string"),
        IntError::InvalidDigit => owned("invalid digit found in string"),
        IntError::PosOverflow => owned("number too large to fit in target type"),
        IntError::NegOverflow => owned("number too small to fit in target type"),
    }
}

// -------------------------------------------------- decimal output

/// The decimal digit character for `d < 10`.
pub open spec fn dec_char(d: nat) -> char {
    ((48 + d) as u8) as char
}

/// `n` in decimal, most significant digit first, no leading zeros.
pub open spec fn decimal_text(n: nat) -> Seq<char>
    decreases n,
{
    if n < 10 {
        seq![dec_char(n)]
    } else {
        decimal_text(n / 10).push(dec_char(n % 10))
    }
}

fn push_decimal(n: usize, out: &mut Vec<char>)
    ensures
        final(out)@ == old(out)@ + decimal_text(n as nat),
    decreases n,
{
    if n >= 10 {
        push_decimal(n / 10, out);
    }
    let d = (n % 10) as u8;
    let c = (48u8 + d) as char;
    let ghost before = out@;
    out.push(c);
    proof {
        if n >= 10 {
            assert(before + decimal_text(n as nat) == (before + decimal_text((n / 10) as nat)).push(c));
        } else {
            assert(decimal_text(n as nat) == seq![c]);
        }
    }
}

/// `format!("{}", n)` for an index or a count.
pub fn decimal(n: usize) -> (out: String)
    ensures
        out@ == decimal_text(n as nat),
{
    let mut digits: Vec<char> = Vec::new();
    push_decimal(n, &mut digits);
    assert(digits@ == decimal_text(n as nat));
    string_of(&digits)
}

// ------------------------------------------------------ hex output

/// The lowercase hex digit for `d < 16`.
pub open spec fn hex_char(d: nat) -> char {
    if d < 10 {
        ((48 + d) as u8) as char
    } else {
        ((87 + d) as u8) as char
    }
}

/// The last `n` hex digits of `h`, most significant first, zero-padded.
pub open spec fn hex_digits(h: nat, n: nat) -> Seq<char>
    decreases n,
{
    if n == 0 {
        Seq::empty()
    } else {
        hex_digits(h / 16, (n - 1) as nat).push(hex_char(h % 16))
    }
}

fn hex_char_of(d: u64) -> (c: char)
    requires
        d < 16,
    ensures
        c == hex_char(d as nat),
{
    if d < 10 {
        (48u8 + d as u8) as char
    } else {
        (87u8 + d as u8) as char
    }
}

/// `format!("{:016x}", h)`: sixteen lowercase hex digits.
pub fn hex16(h: u64) -> (out: String)
    ensures
        out@ == hex_digits(h as nat, 16),
{
    let mut digits: Vec<char> = Vec::new();
    let mut k: usize = 0;
    let mut rest: u64 = h;
    while k < 16
        invariant
            k <= 16,
            digits@.len() == k,
            hex_digits(h as nat, 16) == hex_digits(rest as nat, (16 - k) as nat) + digits@,
        decreases 16 - k,
    {
        let d = rest % 16;
        let c = hex_char_of(d);
        assert(hex_digits(rest as nat, (16 - k) as nat) == hex_digits((rest / 16) as nat, (16 - k - 1) as nat).push(c));
        let mut next: Vec<char> = Vec::new();
        next.push(c);
        let mut j: usize = 0;
        while j < digits.len()
            invariant
                j <= digits.len(),
                next@ == seq![c] + digits@.take(j as int),
            decreases digits.len() - j,
        {
            next.push(digits[j]);
            j += 1;
            assert(digits@.take(j as int) == digits@.take(j - 1).push(digits@[j - 1]));
        }
        assert(digits@.take(digits.len() as int) == digits@);
        assert(hex_digits((rest / 16) as nat, (16 - k - 1) as nat).push(c) + digits@
            == hex_digits((rest / 16) as nat, (16 - k - 1) as nat) + (seq![c] + digits@));
        digits = next;
        rest = rest / 16;
        k += 1;
    }
    assert(hex_digits(rest as nat, 0) + digits@ == digits@);
    string_of(&digits)
}

proof fn lemma_scan_push(s: Seq<char>, c: char, radix: nat, acc: nat, max: nat, neg: bool)
    ensures
        scan_digits(s.push(c), radix, acc, max, neg) == (match scan_digits(s, radix, acc, max, neg) {
            Ok(v) => scan_digits(seq![c], radix, v, max, neg),
            Err(e) => Err(e),
        }),
    decreases s.len(),
{
    if s.len() == 0 {
        assert(s.push(c) == seq![c]);
    } else {
        assert(s.push(c).drop_first() == s.drop_first().push(c));
        assert(s.push(c)[0] == s[0]);
        if let Some(d) = digit_value(s[0], radix) {
            if acc * radix + d <= max {
                lemma_scan_push(s.drop_first(), c, radix, acc * radix + d, max, neg);
            }
        }
    }
}

proof fn lemma_hex_char_value(d: nat)
    requires
        d < 16,
    ensures
        digit_value(hex_char(d), 16) == Some(d),
{
}

proof fn lemma_scan_hex_digits(h: nat, n: nat)
    requires
        1 <= n <= 16,
    ensures
        scan_digits(hex_digits(h, n), 16, 0, 0xffff_ffff_ffff_ffff, false)
            == Ok::<nat, IntError>(h % (vstd::arithmetic::power::pow(16, n) as nat)),
    decreases n,
{
    vstd::arithmetic::power::lemma_pow_positive(16, n);
    let p = pow(16, n);
    let d = h % 16;
    lemma_hex_char_value(d);
    if n == 1 {
        assert(hex_digits(h / 16, 0) == Seq::<char>::empty());
        assert(hex_digits(h, 1) == Seq::<char>::empty().push(hex_char(d)));
        assert(Seq::<char>::empty().push(hex_char(d)) == seq![hex_char(d)]);
        assert(p == 16) by {
            vstd::arithmetic::power::lemma_pow1(16);
        }
        assert(seq![hex_char(d)].drop_first() == Seq::<char>::empty());
        assert(scan_digits(Seq::<char>::empty(), 16, d, 0xffff_ffff_ffff_ffff, false) == Ok::<nat, IntError>(d));
        assert(scan_digits(seq![hex_char(d)], 16, 0, 0xffff_ffff_ffff_ffff, false) == Ok::<nat, IntError>(d));
    } else {
        let q = pow(16, (n - 1) as nat);
        vstd::arithmetic::power::lemma_pow_positive(16, (n - 1) as nat);
        let prev = hex_digits(h / 16, (n - 1) as nat);
        lemma_scan_hex_digits(h / 16, (n - 1) as nat);
        lemma_scan_push(prev, hex_char(d), 16, 0, 0xffff_ffff_ffff_ffff, false);
        let v = (h / 16) % (q as nat);
        assert(p == 16 * q) by {
            vstd::arithmetic::power::lemma_pow_adds(16, 1, (n - 1) as nat);
            vstd::arithmetic::power::lemma_pow1(16);
        }
        vstd::arithmetic::div_mod::lemma_mod_breakdown(h as int, 16, q);
        assert(h % (p as nat) == 16 * v + d);
        assert(q <= 0x1000_0000_0000_0000) by {
            vstd::arithmetic::power::lemma_pow_increases(16, (n - 1) as nat, 15);
            reveal_with_fuel(pow, 16);
        }
        assert(v < q) by {
            vstd::arithmetic::div_mod::lemma_mod_bound((h / 16) as int, q);
        }
        assert(v * 16 + d <= 0xffff_ffff_ffff_ffff);
        assert(hex_digits(h, n) == prev.push(hex_char(d)));
        assert(seq![hex_char(d)].drop_first() == Seq::<char>::empty());
        assert(scan_digits(Seq::<char>::empty(), 16, v * 16 + d, 0xffff_ffff_ffff_ffff, false) == Ok::<nat, IntError>(v * 16 + d));
        assert(scan_digits(seq![hex_char(d)], 16, v, 0xffff_ffff_ffff_ffff, false) == Ok::<nat, IntError>(v * 16 + d));
    }
}

/// Content ids round-trip through their text: parsing the sixteen hex
/// digits of `h` gives back `h`.
pub proof fn law_hex_round_trip(h: u64)
    ensures
        spec_parse_hex_u64(hex_digits(h as nat, 16)) == Ok::<int, IntError>(h as int),
{
    lemma_scan_hex_digits(h as nat, 16);
    assert(pow(16, 16) == 0x1_0000_0000_0000_0000) by {
        reveal_with_fuel(pow, 17);
    }
    vstd::arithmetic::div_mod::lemma_small_mod(h as nat, 0x1_0000_0000_0000_0000);
    let s = hex_digits(h as nat, 16);
    assert(s.len() == 16) by {
        lemma_hex_digits_len(h as nat, 16);
    }
    lemma_hex_digits_first(h as nat, 16);
}

proof fn lemma_hex_digits_len(h: nat, n: nat)
    ensures
        hex_digits(h, n).len() == n,
    decreases n,
{
    if n > 0 {
        lemma_hex_digits_len(h / 16, (n - 1) as nat);
    }
}

proof fn lemma_hex_digits_first(h: nat, n: nat)
    requires
        n == 16,
    ensures
        hex_digits(h, n)[0] != '+' && hex_digits(h, n)[0] != '-',
{
    lemma_hex_digits_all(h, n);
    lemma_hex_digits_len(h, n);
}

proof fn lemma_hex_digits_all(h: nat, n: nat)
    ensures
        forall|i: int| 0 <= i < hex_digits(h, n).len() ==> (#[trigger] hex_digits(h, n)[i] != '+') && hex_digits(h, n)[i] != '-',
    decreases n,
{
    if n > 0 {
        lemma_hex_digits_all(h / 16, (n - 1) as nat);
        let d = h % 16;
        lemma_hex_char_value(d);
        let prev = hex_digits(h / 16, (n - 1) as nat);
        assert(digit_value('+', 16) is None);
        assert(digit_value('-', 16) is None);
        assert forall|i: int| 0 <= i < hex_digits(h, n).len() implies (#[trigger] hex_digits(h, n)[i] != '+')
            && hex_digits(h, n)[i] != '-' by {
            if i < prev.len() {
                assert(hex_digits(h, n)[i] == prev[i]);
            } else {
                assert(hex_digits(h, n)[i] == hex_char(d));
            }
        }
    }
}

/// An integer in decimal, with a minus sign when negative.
pub open spec fn int_text(v: int) -> Seq<char> {
    if v < 0 {
        "-"@ + decimal_text((-v) as nat)
    } else {
        decimal_text(v as nat)
    }
}

/// `format!("{}", v)` for an `i32`.
pub fn int_to_text(v: i32) -> (s: String)
    ensures
        s@ == int_text(v as int),
{
    if v < 0 {
        let m: i64 = -(v as i64);
        let d = decimal(m as usize);
        concat2("-", d.as_str())
    } else {
        decimal(v as usize)
    }
}

proof fn lemma_dec_char_value(d: nat)
    requires
        d < 10,
    ensures
        digit_value(dec_char(d), 10) == Some(d),
        dec_char(d) != '+' && dec_char(d) != '-',
{
}

proof fn lemma_scan_decimal(n: nat, max: nat, neg: bool)
    requires
        n <= max,
    ensures
        scan_digits(decimal_text(n), 10, 0, max, neg) == Ok::<nat, IntError>(n),
        decimal_text(n).len() >= 1,
        decimal_text(n)[0] != '+' && decimal_text(n)[0] != '-',
    decreases n,
{
    lemma_dec_char_value(n % 10);
    if n < 10 {
        assert(n % 10 == n);
        assert(decimal_text(n) == seq![dec_char(n)]);
        assert(seq![dec_char(n)].drop_first() =~= Seq::<char>::empty());
    } else {
        lemma_scan_decimal(n / 10, max, neg);
        let prev = decimal_text(n / 10);
        let c = dec_char(n % 10);
        lemma_scan_push(prev, c, 10, 0, max, neg);
        assert(decimal_text(n) == prev.push(c));
        assert(seq![c].drop_first() =~= Seq::<char>::empty());
        assert((n / 10) * 10 + n % 10 == n);
        assert(scan_digits(Seq::<char>::empty(), 10, (n / 10) * 10 + n % 10, max, neg) == Ok::<nat, IntError>(n));
        assert(scan_digits(seq![c], 10, n / 10, max, neg) == Ok::<nat, IntError>(n));
        assert(prev.push(c)[0] == prev[0]);
    }
}

/// Numbers round-trip through their decimal text: `u64::from_str`
/// reads back what `decimal_text` writes.
pub proof fn law_u64_decimal_round_trip(n: nat)
    requires
        n <= 0xffff_ffff_ffff_ffff,
    ensures
        spec_parse_u64(decimal_text(n)) == Ok::<int, IntError>(n as int),
{
    lemma_scan_decimal(n, 0xffff_ffff_ffff_ffff, false);
}

/// Integers round-trip through their decimal text: `i64::from_str`
/// reads back what `int_text` writes.
pub proof fn law_i64_decimal_round_trip(v: int)
    requires
        -0x8000_0000_0000_0000 <= v <= 0x7fff_ffff_ffff_ffff,
    ensures
        spec_parse_i64(int_text(v)) == Ok::<int, IntError>(v),
{
    if v < 0 {
        let m = (-v) as nat;
        lemma_scan_decimal(m, 0x8000_0000_0000_0000, true);
        reveal_strlit("-");
        let s = "-"@ + decimal_text(m);
        assert(s[0] == '-');
        assert(s.drop_first() =~= decimal_text(m));
    } else {
        lemma_scan_decimal(v as nat, 0x7fff_ffff_ffff_ffff, false);
    }
}

} // verus!
