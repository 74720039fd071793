//! A parsed JSON document as the library's readers walk it, with the
//! field accessors they share: `serde_json` parses, the readers decide.

use vstd::prelude::*;
use crate::text::{chars_of, concat2, concat3, parse_i64, parse_u64, spec_parse_i64, spec_parse_u64, str_equal};

verus! {


/// A parsed JSON document: object members in the parser's key order,
/// numbers as their text.
#[derive(Debug)]
pub enum Json {
    Null,
    Bool(bool),
    Number(String),
    Str(String),
    Array(Vec<Json>),
    Object(Vec<(String, Json)>),
}

#[verifier::external_type_specification]
#[verifier::external_body]
pub struct ExJsonValue(serde_json::Value);

/// What `serde_json::from_str::<Value>` makes of a text: the document,
/// or its error's message.
pub uninterp spec fn spec_json_text(text: Seq<char>) -> Result<Json, Seq<char>>;

/// Parses `text` with `serde_json::from_str::<serde_json::Value>` and
/// hands the document over as a `Json`, or the parser's error message
/// (`Display`). The contract claims only that the outcome is a function
/// of the text.
#[verifier::external_body]
pub(crate) fn parse_json(text: &str) -> (r: Result<Json, String>)
    ensures
        match r {
            Ok(doc) => spec_json_text(text@) == Ok::<Json, Seq<char>>(doc),
            Err(e) => spec_json_text(text@) == Err::<Json, Seq<char>>(e@),
        },
{
    match serde_json::from_str::<serde_json::Value>(text) {
        Ok(v) => Ok(json_of(v)),
        Err(e) => Err(e.to_string()),
    }
}

/// What `serde_json::from_slice::<Value>` makes of bytes: the document,
/// or its error's message.
pub uninterp spec fn spec_json_bytes(bytes: Seq<u8>) -> Result<Json, Seq<char>>;

/// Parses `bytes` with `serde_json::from_slice::<serde_json::Value>`
/// and hands the document over as a `Json`, or the parser's error
/// message (`Display`). The contract claims only that the outcome is a
/// function of the bytes.
#[verifier::external_body]
pub(crate) fn parse_json_bytes(bytes: &[u8]) -> (r: Result<Json, String>)
    ensures
        match r {
            Ok(doc) => spec_json_bytes(bytes@) == Ok::<Json, Seq<char>>(doc),
            Err(e) => spec_json_bytes(bytes@) == Err::<Json, Seq<char>>(e@),
        },
{
    match serde_json::from_slice::<serde_json::Value>(bytes) {
        Ok(v) => Ok(json_of(v)),
        Err(e) => Err(e.to_string()),
    }
}

/// What `serde_json::to_vec_pretty` writes for a document: the bytes,
/// or its error's message.
pub uninterp spec fn spec_json_pretty(doc: JsonView) -> Result<Seq<u8>, Seq<char>>;

/// Hands the document to `serde_json::to_vec_pretty` as a
/// `serde_json::Value` (numbers parsed from their text by
/// `Number::from_str`, whose error is handed back as its message). The
/// contract claims only that the outcome is a function of the
/// document's contents.
#[verifier::external_body]
pub(crate) fn json_pretty(doc: &Json) -> (r: Result<Vec<u8>, String>)
    ensures
        match r {
            Ok(b) => spec_json_pretty(json_view(*doc)) == Ok::<Seq<u8>, Seq<char>>(b@),
            Err(e) => spec_json_pretty(json_view(*doc)) == Err::<Seq<u8>, Seq<char>>(e@),
        },
{
    match value_of(doc) {
        Ok(v) => serde_json::to_vec_pretty(&v).map_err(|e| e.to_string()),
        Err(e) => Err(e),
    }
}

/// Moves a `Json` into a `serde_json::Value`, variant for variant;
/// used only by `json_pretty`.
#[verifier::external_body]
fn value_of(doc: &Json) -> Result<serde_json::Value, String> {
    Ok(match doc {
        Json::Null => serde_json::Value::Null,
        Json::Bool(b) => serde_json::Value::Bool(*b),
        Json::Number(t) => serde_json::Value::Number(t.parse::<serde_json::Number>().map_err(|e| e.to_string())?),
        Json::Str(s) => serde_json::Value::String(s.clone()),
        Json::Array(a) => serde_json::Value::Array(a.iter().map(value_of).collect::<Result<_, _>>()?),
        Json::Object(es) => serde_json::Value::Object(
            es.iter().map(|(k, v)| Ok((k.clone(), value_of(v)?))).collect::<Result<_, String>>()?,
        ),
    })
}

/// Moves a `serde_json::Value` into a `Json`, variant for variant
/// (numbers by their `Display` text); used only by the two parsers.
#[verifier::external_body]
fn json_of(v: serde_json::Value) -> Json {
    match v {
        serde_json::Value::Null => Json::Null,
        serde_json::Value::Bool(b) => Json::Bool(b),
        serde_json::Value::Number(n) => Json::Number(n.to_string()),
        serde_json::Value::String(s) => Json::Str(s),
        serde_json::Value::Array(a) => Json::Array(a.into_iter().map(json_of).collect()),
        serde_json::Value::Object(o) => Json::Object(o.into_iter().map(|(k, x)| (k, json_of(x))).collect()),
    }
}

/// A document by its contents: every string and number text by its
/// characters.
pub enum JsonView {
    Null,
    Bool(bool),
    Number(Seq<char>),
    Str(Seq<char>),
    Array(Seq<JsonView>),
    Object(Seq<(Seq<char>, JsonView)>),
}

/// The contents of a document.
pub open spec fn json_view(j: Json) -> JsonView
    decreases j,
{
    match j {
        Json::Null => JsonView::Null,
        Json::Bool(b) => JsonView::Bool(b),
        Json::Number(t) => JsonView::Number(t@),
        Json::Str(s) => JsonView::Str(s@),
        Json::Array(a) => JsonView::Array(items_view(a@)),
        Json::Object(es) => JsonView::Object(members_view(es@)),
    }
}

/// The contents of array items, in order.
pub open spec fn items_view(s: Seq<Json>) -> Seq<JsonView>
    decreases s,
{
    if s.len() == 0 {
        Seq::empty()
    } else {
        items_view(s.subrange(0, s.len() - 1)).push(json_view(s[s.len() - 1]))
    }
}

/// The contents of object members, in order.
pub open spec fn members_view(s: Seq<(String, Json)>) -> Seq<(Seq<char>, JsonView)>
    decreases s,
{
    if s.len() == 0 {
        Seq::empty()
    } else {
        members_view(s.subrange(0, s.len() - 1)).push((s[s.len() - 1].0@, json_view(s[s.len() - 1].1)))
    }
}

/// The contents of items, item by item.
pub proof fn lemma_items_view(s: Seq<Json>)
    ensures
        items_view(s).len() == s.len(),
        forall|i: int| 0 <= i < s.len() ==> #[trigger] items_view(s)[i] == json_view(s[i]),
    decreases s.len(),
{
    if s.len() > 0 {
        let p = s.subrange(0, s.len() - 1);
        lemma_items_view(p);
        assert forall|i: int| 0 <= i < s.len() implies #[trigger] items_view(s)[i] == json_view(s[i]) by {
            if i < s.len() - 1 {
                assert(p[i] == s[i]);
            }
        }
    }
}

/// The contents of members, member by member.
pub proof fn lemma_members_view(s: Seq<(String, Json)>)
    ensures
        members_view(s).len() == s.len(),
        forall|i: int| 0 <= i < s.len() ==> #[trigger] members_view(s)[i] == (s[i].0@, json_view(s[i].1)),
    decreases s.len(),
{
    if s.len() > 0 {
        let p = s.subrange(0, s.len() - 1);
        lemma_members_view(p);
        assert forall|i: int| 0 <= i < s.len() implies #[trigger] members_view(s)[i] == (s[i].0@, json_view(s[i].1)) by {
            if i < s.len() - 1 {
                assert(p[i] == s[i]);
            }
        }
    }
}

/// The member `key` of object members `es` from index `k` on.
pub open spec fn member_from(es: Seq<(String, Json)>, key: Seq<char>, k: int) -> Option<Json>
    decreases es.len() - k,
{
    if k < 0 || k >= es.len() {
        None
    } else if es[k].0@ == key {
        Some(es[k].1)
    } else {
        member_from(es, key, k + 1)
    }
}

/// `Value::get(key)`: the member `key` of an object, `None` for
/// anything else.
pub open spec fn member(v: Json, key: Seq<char>) -> Option<Json> {
    match v {
        Json::Object(es) => member_from(es@, key, 0),
        _ => None,
    }
}

/// `as_str` of an optional value.
pub open spec fn json_str(v: Option<Json>) -> Option<Seq<char>> {
    match v {
        Some(Json::Str(s)) => Some(s@),
        _ => None,
    }
}

/// `as_bool` of an optional value.
pub open spec fn json_bool(v: Option<Json>) -> Option<bool> {
    match v {
        Some(Json::Bool(b)) => Some(b),
        _ => None,
    }
}

/// `as_array` of an optional value.
pub open spec fn json_array(v: Option<Json>) -> Option<Seq<Json>> {
    match v {
        Some(Json::Array(a)) => Some(a@),
        _ => None,
    }
}

pub(crate) fn get_member<'a>(v: &'a Json, key: &str) -> (r: Option<&'a Json>)
    ensures
        match r {
            Some(x) => member(*v, key@) == Some(*x),
            None => member(*v, key@) is None,
        },
{
    match v {
        Json::Object(es) => {
            let mut k: usize = 0;
            while k < es.len()
                invariant
                    k <= es@.len(),
                    member(*v, key@) == member_from(es@, key@, k as int),
                decreases es@.len() - k,
            {
                if str_equal(es[k].0.as_str(), key) {
                    return Some(&es[k].1);
                }
                k += 1;
            }
            None
        },
        _ => None,
    }
}

pub(crate) fn get_str<'a>(v: &'a Json, key: &str) -> (r: Option<&'a String>)
    ensures
        match r {
            Some(s) => json_str(member(*v, key@)) == Some(s@),
            None => json_str(member(*v, key@)) is None,
        },
{
    match get_member(v, key) {
        Some(Json::Str(s)) => Some(s),
        _ => None,
    }
}


/// `as_i64` of a number: its text read as an `i64`.
pub open spec fn json_i64(v: Json) -> Option<int> {
    match v {
        Json::Number(t) => match spec_parse_i64(t@) {
            Ok(n) => Some(n),
            Err(_) => None,
        },
        _ => None,
    }
}

/// `as_u64` of a number: its text read as a `u64`.
pub open spec fn json_u64(v: Json) -> Option<int> {
    match v {
        Json::Number(t) => match spec_parse_u64(t@) {
            Ok(n) => Some(n),
            Err(_) => None,
        },
        _ => None,
    }
}

pub(crate) fn number_u64(v: &Json) -> (r: Option<u64>)
    ensures
        match r {
            Some(n) => json_u64(*v) == Some(n as int),
            None => json_u64(*v) is None,
        },
{
    match v {
        Json::Number(t) => {
            let chars = chars_of(t.as_str());
            match parse_u64(&chars) {
                Ok(n) => Some(n),
                Err(_) => None,
            }
        },
        _ => None,
    }
}

/// Every member of an object read by `f` with its key, in order; the
/// first member `f` refuses decides the error.
pub open spec fn try_map_members<T>(es: Seq<(String, Json)>, f: spec_fn(Seq<char>, Json) -> Result<T, Seq<char>>) -> Result<Seq<T>, Seq<char>>
    decreases es.len(),
{
    if es.len() == 0 {
        Ok(Seq::empty())
    } else {
        match try_map_members(es.drop_last(), f) {
            Err(e) => Err(e),
            Ok(done) => match f(es.last().0@, es.last().1) {
                Err(e) => Err(e),
                Ok(x) => Ok(done.push(x)),
            },
        }
    }
}

/// An error among the first `k` members is the error of them all.
pub proof fn lemma_try_map_members_err<T>(es: Seq<(String, Json)>, f: spec_fn(Seq<char>, Json) -> Result<T, Seq<char>>, k: int)
    requires
        0 <= k <= es.len(),
        try_map_members(es.take(k), f) is Err,
    ensures
        try_map_members(es, f) == try_map_members(es.take(k), f),
    decreases es.len(),
{
    if k < es.len() {
        assert(es.drop_last().take(k) =~= es.take(k));
        lemma_try_map_members_err(es.drop_last(), f, k);
    } else {
        assert(es.take(k) =~= es);
    }
}

/// A required member, or the message naming it missing.
pub open spec fn field_of(v: Json, ctx: Seq<char>, name: Seq<char>) -> Result<Json, Seq<char>> {
    match member(v, name) {
        Some(x) => Ok(x),
        None => Err(ctx + ": missing field '"@ + name + "'"@),
    }
}

/// A required string member.
pub open spec fn str_field_of(v: Json, ctx: Seq<char>, name: Seq<char>) -> Result<Seq<char>, Seq<char>> {
    match field_of(v, ctx, name) {
        Err(e) => Err(e),
        Ok(Json::Str(s)) => Ok(s@),
        Ok(_) => Err(ctx + ": field '"@ + name + "' is not a string"@),
    }
}

/// A required integer member, as `i64` then truncated to `i32`.
pub open spec fn i32_field_of(v: Json, ctx: Seq<char>, name: Seq<char>) -> Result<i32, Seq<char>> {
    match field_of(v, ctx, name) {
        Err(e) => Err(e),
        Ok(x) => match json_i64(x) {
            Some(n) => Ok(n as i32),
            None => Err(ctx + ": field '"@ + name + "' is not a number"@),
        },
    }
}

pub(crate) fn field<'a>(v: &'a Json, ctx: &str, name: &str) -> (r: Result<&'a Json, String>)
    ensures
        match r {
            Ok(x) => field_of(*v, ctx@, name@) == Ok::<Json, Seq<char>>(*x),
            Err(e) => field_of(*v, ctx@, name@) == Err::<Json, Seq<char>>(e@),
        },
{
    match get_member(v, name) {
        Some(x) => Ok(x),
        None => {
            let head = concat3(ctx, ": missing field '", name);
            Err(concat2(head.as_str(), "'"))
        },
    }
}

pub(crate) fn str_field(v: &Json, ctx: &str, name: &str) -> (r: Result<String, String>)
    ensures
        match r {
            Ok(s) => str_field_of(*v, ctx@, name@) == Ok::<Seq<char>, Seq<char>>(s@),
            Err(e) => str_field_of(*v, ctx@, name@) == Err::<Seq<char>, Seq<char>>(e@),
        },
{
    match field(v, ctx, name) {
        Err(e) => Err(e),
        Ok(Json::Str(s)) => Ok(s.clone()),
        Ok(_) => {
            let head = concat3(ctx, ": field '", name);
            Err(concat2(head.as_str(), "' is not a string"))
        },
    }
}

pub(crate) fn number_i64(v: &Json) -> (r: Option<i64>)
    ensures
        match r {
            Some(n) => json_i64(*v) == Some(n as int),
            None => json_i64(*v) is None,
        },
{
    match v {
        Json::Number(t) => {
            let chars = chars_of(t.as_str());
            match parse_i64(&chars) {
                Ok(n) => Some(n),
                Err(_) => None,
            }
        },
        _ => None,
    }
}

pub(crate) fn i32_field(v: &Json, ctx: &str, name: &str) -> (r: Result<i32, String>)
    ensures
        match r {
            Ok(n) => i32_field_of(*v, ctx@, name@) == Ok::<i32, Seq<char>>(n),
            Err(e) => i32_field_of(*v, ctx@, name@) == Err::<i32, Seq<char>>(e@),
        },
{
    match field(v, ctx, name) {
        Err(e) => Err(e),
        Ok(x) => match number_i64(x) {
            Some(n) => Ok(n as i32),
            None => {
                let head = concat3(ctx, ": field '", name);
                Err(concat2(head.as_str(), "' is not a number"))
            },
        },
    }
}

/// Every item read by `f`, in order; the first item `f` refuses
/// decides the error.
pub open spec fn try_map<T>(items: Seq<Json>, f: spec_fn(Json) -> Result<T, Seq<char>>) -> Result<Seq<T>, Seq<char>>
    decreases items.len(),
{
    if items.len() == 0 {
        Ok(Seq::empty())
    } else {
        match try_map(items.drop_last(), f) {
            Err(e) => Err(e),
            Ok(done) => match f(items.last()) {
                Err(e) => Err(e),
                Ok(x) => Ok(done.push(x)),
            },
        }
    }
}

/// An error among the first `k` items is the error of them all.
pub proof fn lemma_try_map_err<T>(items: Seq<Json>, f: spec_fn(Json) -> Result<T, Seq<char>>, k: int)
    requires
        0 <= k <= items.len(),
        try_map(items.take(k), f) is Err,
    ensures
        try_map(items, f) == try_map(items.take(k), f),
    decreases items.len(),
{
    if k < items.len() {
        assert(items.drop_last().take(k) =~= items.take(k));
        lemma_try_map_err(items.drop_last(), f, k);
    } else {
        assert(items.take(k) =~= items);
    }
}

/// The string items of an array, in order; others are skipped.
pub open spec fn string_items(items: Seq<Json>) -> Seq<Seq<char>>
    decreases items.len(),
{
    if items.len() == 0 {
        Seq::empty()
    } else {
        string_items(items.drop_last()) + match items.last() {
            Json::Str(s) => seq![s@],
            _ => Seq::empty(),
        }
    }
}

pub(crate) fn read_string_items(items: &Vec<Json>, out: &mut Vec<String>)
    ensures
        final(out)@.map_values(|x: String| x@) == old(out)@.map_values(|x: String| x@) + string_items(items@),
{
    let ghost start = out@.map_values(|x: String| x@);
    let mut i: usize = 0;
    proof {
        assert(items@.take(0) =~= Seq::<Json>::empty());
        assert(start + string_items(items@.take(0)) =~= start);
    }
    while i < items.len()
        invariant
            i <= items@.len(),
            out@.map_values(|x: String| x@) == start + string_items(items@.take(i as int)),
        decreases items@.len() - i,
    {
        proof {
            assert(items@.take(i + 1).drop_last() =~= items@.take(i as int));
            assert(items@.take(i + 1).last() == items@[i as int]);
        }
        let ghost before = out@.map_values(|x: String| x@);
        match &items[i] {
            Json::Str(s) => {
                let c = s.clone();
                out.push(c);
                proof {
                    assert(out@.map_values(|x: String| x@) =~= before.push(c@));
                    assert(before.push(c@) =~= start + (string_items(items@.take(i as int)) + seq![c@]));
                }
            },
            _ => {
                proof {
                    assert(before =~= start + (string_items(items@.take(i as int)) + Seq::<Seq<char>>::empty()));
                }
            },
        }
        i += 1;
    }
    proof {
        assert(items@.take(items@.len() as int) =~= items@);
    }
}

/// Items each read as `xs` says read, together, as `xs`.
pub proof fn lemma_try_map_all<T>(items: Seq<Json>, f: spec_fn(Json) -> Result<T, Seq<char>>, xs: Seq<T>)
    requires
        items.len() == xs.len(),
        forall|k: int| 0 <= k < items.len() ==> f(#[trigger] items[k]) == Ok::<T, Seq<char>>(xs[k]),
    ensures
        try_map(items, f) == Ok::<Seq<T>, Seq<char>>(xs),
    decreases items.len(),
{
    if items.len() > 0 {
        let p = items.drop_last();
        assert forall|k: int| 0 <= k < p.len() implies f(#[trigger] p[k]) == Ok::<T, Seq<char>>(xs.drop_last()[k]) by {
            assert(p[k] == items[k]);
        }
        lemma_try_map_all(p, f, xs.drop_last());
        assert(f(items[items.len() - 1]) == Ok::<T, Seq<char>>(xs[xs.len() - 1]));
        assert(xs.drop_last().push(xs.last()) =~= xs);
    } else {
        assert(xs =~= Seq::<T>::empty());
    }
}

/// Members each read as `xs` says read, together, as `xs`.
pub proof fn lemma_try_map_members_all<T>(es: Seq<(String, Json)>, f: spec_fn(Seq<char>, Json) -> Result<T, Seq<char>>, xs: Seq<T>)
    requires
        es.len() == xs.len(),
        forall|k: int| 0 <= k < es.len() ==> f((#[trigger] es[k]).0@, es[k].1) == Ok::<T, Seq<char>>(xs[k]),
    ensures
        try_map_members(es, f) == Ok::<Seq<T>, Seq<char>>(xs),
    decreases es.len(),
{
    if es.len() > 0 {
        let p = es.drop_last();
        assert forall|k: int| 0 <= k < p.len() implies f((#[trigger] p[k]).0@, p[k].1) == Ok::<T, Seq<char>>(xs.drop_last()[k]) by {
            assert(p[k] == es[k]);
        }
        lemma_try_map_members_all(p, f, xs.drop_last());
        assert(f(es[es.len() - 1].0@, es[es.len() - 1].1) == Ok::<T, Seq<char>>(xs[xs.len() - 1]));
        assert(xs.drop_last().push(xs.last()) =~= xs);
    } else {
        assert(xs =~= Seq::<T>::empty());
    }
}

/// The member `key` is the first member under that key.
pub proof fn lemma_member_at(es: Seq<(String, Json)>, key: Seq<char>, i: int, k: int)
    requires
        0 <= k <= i < es.len(),
        es[i].0@ == key,
        forall|j: int| k <= j < i ==> (#[trigger] es[j]).0@ != key,
    ensures
        member_from(es, key, k) == Some(es[i].1),
    decreases i - k,
{
    if k < i {
        lemma_member_at(es, key, i, k + 1);
    }
}

/// No member is under `key`.
pub proof fn lemma_member_none(es: Seq<(String, Json)>, key: Seq<char>, k: int)
    requires
        0 <= k,
        forall|j: int| k <= j < es.len() ==> (#[trigger] es[j]).0@ != key,
    ensures
        member_from(es, key, k) is None,
    decreases es.len() - k,
{
    if k < es.len() {
        lemma_member_none(es, key, k + 1);
    }
}

} // verus!
