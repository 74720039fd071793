//! The encoders' plain-text pieces: escaping label text for SVG, and
//! the resource kinds of the retained scene with their wire codes and
//! manifest names.

use vstd::prelude::*;
use crate::text::{chars_of, push_char};

verus! {

/// `s` with every `c` replaced by `r`, as `str::replace` with a
/// character pattern does.
pub open spec fn replace_char(s: Seq<char>, c: char, r: Seq<char>) -> Seq<char>
    decreases s.len(),
{
    if s.len() == 0 {
        s
    } else {
        replace_char(s.drop_last(), c, r) + if s.last() == c {
            r
        } else {
            seq![s.last()]
        }
    }
}

/// The escaped text: '&' first, then '<', then '>'.
pub open spec fn spec_esc(s: Seq<char>) -> Seq<char> {
    replace_char(replace_char(replace_char(s, '&', "&amp;"@), '<', "&lt;"@), '>', "&gt;"@)
}

proof fn lemma_replace_concat(a: Seq<char>, b: Seq<char>, c: char, r: Seq<char>)
    ensures
        replace_char(a + b, c, r) == replace_char(a, c, r) + replace_char(b, c, r),
    decreases b.len(),
{
    if b.len() == 0 {
        assert(a + b =~= a);
        assert(replace_char(a, c, r) + replace_char(b, c, r) =~= replace_char(a, c, r));
    } else {
        lemma_replace_concat(a, b.drop_last(), c, r);
        assert((a + b).drop_last() =~= a + b.drop_last());
        assert((a + b).last() == b.last());
        assert(replace_char(a, c, r) + replace_char(b, c, r) =~= replace_char(a, c, r) + replace_char(b.drop_last(), c, r)
            + (if b.last() == c { r } else { seq![b.last()] }));
    }
}

proof fn lemma_replace_one(x: char, c: char, r: Seq<char>)
    ensures
        replace_char(seq![x], c, r) == if x == c { r } else { seq![x] },
{
    assert(seq![x].drop_last() =~= Seq::<char>::empty());
    assert(replace_char(Seq::<char>::empty(), c, r) == Seq::<char>::empty());
    assert(seq![x].last() == x);
    assert(Seq::<char>::empty() + r =~= r);
    assert(Seq::<char>::empty() + seq![x] =~= seq![x]);
}

proof fn lemma_esc_push(s: Seq<char>, x: char)
    ensures
        spec_esc(s.push(x)) == spec_esc(s) + spec_esc(seq![x]),
{
    assert(s.push(x) =~= s + seq![x]);
    let a = replace_char(s, '&', "&amp;"@);
    let b = replace_char(seq![x], '&', "&amp;"@);
    lemma_replace_concat(s, seq![x], '&', "&amp;"@);
    lemma_replace_concat(a, b, '<', "&lt;"@);
    let a2 = replace_char(a, '<', "&lt;"@);
    let b2 = replace_char(b, '<', "&lt;"@);
    lemma_replace_concat(a2, b2, '>', "&gt;"@);
}

proof fn lemma_replace_absent(s: Seq<char>, c: char, r: Seq<char>)
    requires
        !s.contains(c),
    ensures
        replace_char(s, c, r) == s,
    decreases s.len(),
{
    if s.len() > 0 {
        assert(!s.drop_last().contains(c)) by {
            if s.drop_last().contains(c) {
                let i = choose|i: int| 0 <= i < s.drop_last().len() && s.drop_last()[i] == c;
                assert(s[i] == c);
            }
        }
        lemma_replace_absent(s.drop_last(), c, r);
        assert(s[s.len() - 1] != c);
        assert(s.drop_last() + seq![s.last()] =~= s);
    }
}

/// What one character escapes to.
proof fn lemma_esc_one(x: char)
    ensures
        spec_esc(seq![x]) == if x == '&' {
            "&amp;"@
        } else if x == '<' {
            "&lt;"@
        } else if x == '>' {
            "&gt;"@
        } else {
            seq![x]
        },
{
    reveal_strlit("&amp;");
    reveal_strlit("&lt;");
    reveal_strlit("&gt;");
    lemma_replace_one(x, '&', "&amp;"@);
    let a = replace_char(seq![x], '&', "&amp;"@);
    if x == '&' {
        assert(!a.contains('<')) by {
            assert(a =~= seq!['&', 'a', 'm', 'p', ';']);
        }
        lemma_replace_absent(a, '<', "&lt;"@);
        assert(!a.contains('>')) by {
            assert(a =~= seq!['&', 'a', 'm', 'p', ';']);
        }
        lemma_replace_absent(a, '>', "&gt;"@);
    } else {
        lemma_replace_one(x, '<', "&lt;"@);
        let b = replace_char(seq![x], '<', "&lt;"@);
        if x == '<' {
            assert(!b.contains('>')) by {
                assert(b =~= seq!['&', 'l', 't', ';']);
            }
            lemma_replace_absent(b, '>', "&gt;"@);
        } else {
            lemma_replace_one(x, '>', "&gt;"@);
        }
    }
}

/// Escapes text for SVG: '&' as "&amp;", '<' as "&lt;", '>' as "&gt;".
pub fn esc(text: &str) -> (out: String)
    ensures
        out@ == spec_esc(text@),
{
    let chars = chars_of(text);
    let mut out = String::new();
    let mut i: usize = 0;
    proof {
        assert(chars@.take(0) =~= Seq::<char>::empty());
        assert(out@ =~= spec_esc(Seq::<char>::empty()));
    }
    while i < chars.len()
        invariant
            i <= chars@.len(),
            out@ == spec_esc(chars@.take(i as int)),
        decreases chars@.len() - i,
    {
        let c = chars[i];
        proof {
            assert(chars@.take(i + 1) =~= chars@.take(i as int).push(c));
            lemma_esc_push(chars@.take(i as int), c);
            lemma_esc_one(c);
            reveal_strlit("&amp;");
            reveal_strlit("&lt;");
            reveal_strlit("&gt;");
        }
        let ghost before = out@;
        if c == '&' {
            push_char(&mut out, '&');
            push_char(&mut out, 'a');
            push_char(&mut out, 'm');
            push_char(&mut out, 'p');
            push_char(&mut out, ';');
            assert(out@ =~= before + "&amp;"@);
        } else if c == '<' {
            push_char(&mut out, '&');
            push_char(&mut out, 'l');
            push_char(&mut out, 't');
            push_char(&mut out, ';');
            assert(out@ =~= before + "&lt;"@);
        } else if c == '>' {
            push_char(&mut out, '&');
            push_char(&mut out, 'g');
            push_char(&mut out, 't');
            push_char(&mut out, ';');
            assert(out@ =~= before + "&gt;"@);
        } else {
            push_char(&mut out, c);
            assert(out@ =~= before + seq![c]);
        }
        i += 1;
    }
    proof {
        assert(chars@.take(chars@.len() as int) =~= chars@);
    }
    out
}

/// What a resource's vertices mean to a renderer.
#[derive(Clone, Copy, Debug, PartialEq, Eq, Structural)]
pub enum ResourceKind {
    /// An open polyline: consecutive vertices are stroke segments.
    LineStrip,
    /// A closed ring: last vertex connects to first (fills/outlines).
    RingLoop,
    /// Independent points (markers).
    Points,
}

/// The kind's code in a resource packet.
pub open spec fn spec_wire(k: ResourceKind) -> u32 {
    match k {
        ResourceKind::LineStrip => 0,
        ResourceKind::RingLoop => 1,
        ResourceKind::Points => 2,
    }
}

/// The kind's name in the scene manifest.
pub open spec fn spec_kind_name(k: ResourceKind) -> Seq<char> {
    match k {
        ResourceKind::LineStrip => "line"@,
        ResourceKind::RingLoop => "ring"@,
        ResourceKind::Points => "points"@,
    }
}

impl ResourceKind {
    pub fn wire(self) -> (r: u32)
        ensures
            r == spec_wire(self),
    {
        match self {
            ResourceKind::LineStrip => 0,
            ResourceKind::RingLoop => 1,
            ResourceKind::Points => 2,
        }
    }

    pub fn name(self) -> (r: &'static str)
        ensures
            r@ == spec_kind_name(self),
    {
        match self {
            ResourceKind::LineStrip => "line",
            ResourceKind::RingLoop => "ring",
            ResourceKind::Points => "points",
        }
    }
}

/// Distinct kinds have distinct wire codes and distinct names.
pub proof fn law_resource_kinds_distinct(a: ResourceKind, b: ResourceKind)
    ensures
        a != b ==> spec_wire(a) != spec_wire(b),
        a != b ==> spec_kind_name(a) != spec_kind_name(b),
{
    reveal_strlit("line");
    reveal_strlit("ring");
    reveal_strlit("points");
    if a != b {
        if spec_kind_name(a) == spec_kind_name(b) {
            assert(spec_kind_name(a).len() == spec_kind_name(b).len());
            assert(spec_kind_name(a)[0] == spec_kind_name(b)[0]);
        }
    }
}

} // verus!
