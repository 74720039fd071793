//! Entity naming for the bridge from the interval-timeline model into
//! the canon: a region's label becomes the slug its entity id carries.

use vstd::prelude::*;
use crate::text::{ascii_alphanumeric, ascii_lowercase, chars_of, string_of, to_ascii_lowercase};

verus! {

/// The words of a label: its maximal runs of ASCII letters and digits,
/// lowercased.
pub open spec fn slug_words(s: Seq<char>) -> Seq<Seq<char>>
    decreases s.len(),
{
    if s.len() == 0 {
        Seq::empty()
    } else {
        let w = slug_words(s.drop_last());
        let c = s.last();
        if !ascii_alphanumeric(c) {
            w
        } else if s.len() >= 2 && ascii_alphanumeric(s[s.len() - 2]) {
            w.update(w.len() - 1, w.last().push(ascii_lowercase(c)))
        } else {
            w.push(seq![ascii_lowercase(c)])
        }
    }
}

/// Words joined by single dashes.
pub open spec fn join_dashed(ws: Seq<Seq<char>>) -> Seq<char>
    decreases ws.len(),
{
    if ws.len() == 0 {
        Seq::empty()
    } else if ws.len() == 1 {
        ws[0]
    } else {
        join_dashed(ws.drop_last()) + seq!['-'] + ws.last()
    }
}

/// A label's slug: its words joined by dashes ("Kiriath-jearim
/// (Baalah)" is "kiriath-jearim-baalah").
pub open spec fn spec_slug(s: Seq<char>) -> Seq<char> {
    join_dashed(slug_words(s))
}

/// A label ending in a letter or digit has a last word, and every word
/// holds at least one character.
proof fn lemma_slug_words(s: Seq<char>)
    ensures
        s.len() > 0 && ascii_alphanumeric(s.last()) ==> slug_words(s).len() > 0,
        forall|k: int| 0 <= k < slug_words(s).len() ==> (#[trigger] slug_words(s)[k]).len() > 0,
    decreases s.len(),
{
    if s.len() > 0 {
        let p = s.drop_last();
        lemma_slug_words(p);
        if s.len() >= 2 {
            assert(p.last() == s[s.len() - 2]);
        }
        let w = slug_words(p);
        assert forall|k: int| 0 <= k < slug_words(s).len() implies (#[trigger] slug_words(s)[k]).len() > 0 by {
            if k < w.len() {
                assert(w[k].len() > 0);
            }
        }
    }
}

/// Extending the last word extends the joined text.
proof fn lemma_join_extend(ws: Seq<Seq<char>>, c: char)
    requires
        ws.len() > 0,
    ensures
        join_dashed(ws.update(ws.len() - 1, ws.last().push(c))) == join_dashed(ws).push(c),
{
    let u = ws.update(ws.len() - 1, ws.last().push(c));
    if ws.len() == 1 {
        assert(u[0] == ws[0].push(c));
    } else {
        assert(u.drop_last() =~= ws.drop_last());
        assert(u.last() == ws.last().push(c));
        assert(join_dashed(ws.drop_last()) + seq!['-'] + ws.last().push(c) =~= (join_dashed(ws.drop_last()) + seq!['-'] + ws.last()).push(c));
    }
}

/// The joined text of nonempty words is nonempty.
proof fn lemma_join_nonempty(ws: Seq<Seq<char>>)
    requires
        ws.len() > 0,
        ws.last().len() > 0,
    ensures
        join_dashed(ws).len() > 0,
{
}

/// Turns a label into the slug its entity id carries: ASCII letters and
/// digits lowercased, every other run of characters one dash, no dash
/// at either end.
pub fn slug(label: &str) -> (out: String)
    ensures
        out@ == spec_slug(label@),
{
    let chars = chars_of(label);
    let ghost s = chars@;
    let mut out: Vec<char> = Vec::new();
    let mut dash = false;
    let mut i: usize = 0;
    proof {
        assert(s.take(0) =~= Seq::<char>::empty());
    }
    while i < chars.len()
        invariant
            s == chars@,
            i <= s.len(),
            out@ == join_dashed(slug_words(s.take(i as int))) + if dash { seq!['-'] } else { Seq::<char>::empty() },
            dash <==> (slug_words(s.take(i as int)).len() > 0 && i > 0 && !ascii_alphanumeric(s[i - 1])),
            out@.len() == 0 <==> slug_words(s.take(i as int)).len() == 0,
        decreases s.len() - i,
    {
        let ch = chars[i];
        let ghost p = s.take(i as int);
        let ghost q = s.take(i + 1);
        proof {
            assert(q.drop_last() =~= p);
            assert(q.last() == ch);
            if i > 0 {
                assert(q[q.len() - 2] == s[i - 1]);
                assert(p.last() == s[i - 1]);
            }
            lemma_slug_words(p);
            lemma_slug_words(q);
        }
        let ghost before = out@;
        if ('0' <= ch && ch <= '9') || ('a' <= ch && ch <= 'z') || ('A' <= ch && ch <= 'Z') {
            let lower = to_ascii_lowercase(ch);
            out.push(lower);
            proof {
                let w = slug_words(p);
                if i > 0 && ascii_alphanumeric(s[i - 1]) {
                    lemma_join_extend(w, lower);
                } else if w.len() > 0 {
                    assert(join_dashed(w.push(seq![lower])) =~= join_dashed(w) + seq!['-'] + seq![lower]) by {
                        assert(w.push(seq![lower]).drop_last() =~= w);
                    }
                    assert(out@ =~= join_dashed(w) + seq!['-'] + seq![lower]);
                } else {
                    assert(out@ =~= seq![lower]);
                    assert(join_dashed(w.push(seq![lower])) == seq![lower]);
                }
                assert(out@ =~= join_dashed(slug_words(q)));
            }
            dash = false;
        } else if !dash && out.len() > 0 {
            out.push('-');
        } else {
        }
        if !(('0' <= ch && ch <= '9') || ('a' <= ch && ch <= 'z') || ('A' <= ch && ch <= 'Z')) {
            dash = out.len() > 0;
            proof {
                assert(slug_words(q) == slug_words(p));
            }
        }
        i += 1;
    }
    if dash {
        out.pop();
    }
    proof {
        assert(s.take(s.len() as int) =~= s);
        assert(out@ =~= join_dashed(slug_words(s)));
    }
    string_of(&out)
}

} // verus!
