//! JSON values as the library holds them, and their mathematical form.
use vstd::prelude::*;

use crate::text::str_eq;

verus! {

/// A JSON number: an unsigned or a negative integer, or a float held by
/// the bits of its IEEE 754 binary64 value.
#[derive(Debug, Clone, Copy, PartialEq, Eq, Structural)]
pub enum JsonNumber {
    PosInt(u64),
    NegInt(i64),
    FloatBits(u64),
}

/// A JSON value; an object keeps its entries in order, each key once.
#[derive(Debug)]
pub enum JsonValue {
    Null,
    Bool(bool),
    Number(JsonNumber),
    String(String),
    Array(Vec<JsonValue>),
    Object(Vec<(String, JsonValue)>),
}

/// The mathematical form of a JSON value, strings taken as their characters.
pub enum JsonView {
    Null,
    Bool(bool),
    Number(JsonNumber),
    String(Seq<char>),
    Array(Seq<JsonView>),
    Object(Seq<(Seq<char>, JsonView)>),
}

/// The mathematical form of a JSON value.
pub open spec fn json_view(v: JsonValue) -> JsonView
    decreases v,
{
    match v {
        JsonValue::Null => JsonView::Null,
        JsonValue::Bool(b) => JsonView::Bool(b),
        JsonValue::Number(n) => JsonView::Number(n),
        JsonValue::String(s) => JsonView::String(s@),
        JsonValue::Array(items) => JsonView::Array(items_view(items@)),
        JsonValue::Object(entries) => JsonView::Object(entries_view(entries@)),
    }
}

/// The mathematical form of the items of an array.
pub open spec fn items_view(s: Seq<JsonValue>) -> Seq<JsonView>
    decreases s,
{
    if s.len() == 0 {
        Seq::empty()
    } else {
        items_view(s.subrange(0, s.len() - 1)).push(json_view(s[s.len() - 1]))
    }
}

/// The mathematical form of the entries of an object.
pub open spec fn entries_view(s: Seq<(String, JsonValue)>) -> Seq<(Seq<char>, JsonView)>
    decreases s,
{
    if s.len() == 0 {
        Seq::empty()
    } else {
        entries_view(s.subrange(0, s.len() - 1)).push((s[s.len() - 1].0@, json_view(s[s.len() - 1].1)))
    }
}

impl View for JsonValue {
    type V = JsonView;

    open spec fn view(&self) -> JsonView {
        json_view(*self)
    }
}

/// The value of the first entry of an object named `key`.
pub open spec fn entry(entries: Seq<(Seq<char>, JsonView)>, key: Seq<char>) -> Option<JsonView>
    decreases entries.len(),
{
    if entries.len() == 0 {
        None
    } else if entries[0].0 == key {
        Some(entries[0].1)
    } else {
        entry(entries.drop_first(), key)
    }
}

/// A JSON value's size, counting every value it holds.
pub open spec fn json_size(v: JsonValue) -> nat
    decreases v,
{
    match v {
        JsonValue::Array(items) => 1 + items_size(items@),
        JsonValue::Object(entries) => 1 + entries_size(entries@),
        _ => 1,
    }
}

pub open spec fn items_size(s: Seq<JsonValue>) -> nat
    decreases s,
{
    if s.len() == 0 {
        0
    } else {
        items_size(s.subrange(0, s.len() - 1)) + json_size(s[s.len() - 1])
    }
}

pub open spec fn entries_size(s: Seq<(String, JsonValue)>) -> nat
    decreases s,
{
    if s.len() == 0 {
        0
    } else {
        entries_size(s.subrange(0, s.len() - 1)) + json_size(s[s.len() - 1].1)
    }
}

/// Each item's size is part of the size of the items.
pub proof fn lemma_items_size(s: Seq<JsonValue>, i: int)
    requires
        0 <= i < s.len(),
    ensures
        json_size(s[i]) <= items_size(s),
    decreases s.len(),
{
    if i < s.len() - 1 {
        lemma_items_size(s.subrange(0, s.len() - 1), i);
    }
}

/// Each entry's size is part of the size of the entries.
pub proof fn lemma_entries_size(s: Seq<(String, JsonValue)>, i: int)
    requires
        0 <= i < s.len(),
    ensures
        json_size(s[i].1) <= entries_size(s),
    decreases s.len(),
{
    if i < s.len() - 1 {
        lemma_entries_size(s.subrange(0, s.len() - 1), i);
    }
}

/// The view of the items is taken item by item.
pub proof fn lemma_items_view(s: Seq<JsonValue>)
    ensures
        items_view(s).len() == s.len(),
        forall|i: int| 0 <= i < s.len() ==> #[trigger] items_view(s)[i] == json_view(s[i]),
    decreases s.len(),
{
    if s.len() > 0 {
        lemma_items_view(s.subrange(0, s.len() - 1));
    }
}

/// The view of the entries is taken entry by entry.
pub proof fn lemma_entries_view(s: Seq<(String, JsonValue)>)
    ensures
        entries_view(s).len() == s.len(),
        forall|i: int|
            0 <= i < s.len() ==> #[trigger] entries_view(s)[i] == (s[i].0@, json_view(s[i].1)),
    decreases s.len(),
{
    if s.len() > 0 {
        lemma_entries_view(s.subrange(0, s.len() - 1));
    }
}

/// Taking one more item adds its view.
pub proof fn lemma_items_view_take(s: Seq<JsonValue>, i: int)
    requires
        0 <= i < s.len(),
    ensures
        items_view(s.take(i + 1)) == items_view(s.take(i)).push(json_view(s[i])),
{
    assert(s.take(i + 1).subrange(0, i) =~= s.take(i));
}

/// Taking one more entry adds its view.
pub proof fn lemma_entries_view_take(s: Seq<(String, JsonValue)>, i: int)
    requires
        0 <= i < s.len(),
    ensures
        entries_view(s.take(i + 1)) == entries_view(s.take(i)).push((s[i].0@, json_view(s[i].1))),
{
    assert(s.take(i + 1).subrange(0, i) =~= s.take(i));
}

/// Pushing an item adds its view.
pub proof fn lemma_items_view_push(s: Seq<JsonValue>, x: JsonValue)
    ensures
        items_view(s.push(x)) == items_view(s).push(json_view(x)),
{
    assert(s.push(x).subrange(0, s.len() as int) =~= s);
}

/// Pushing an entry adds its view.
pub proof fn lemma_entries_view_push(s: Seq<(String, JsonValue)>, x: (String, JsonValue))
    ensures
        entries_view(s.push(x)) == entries_view(s).push((x.0@, json_view(x.1))),
{
    assert(s.push(x).subrange(0, s.len() as int) =~= s);
}

/// A copy of a JSON value.
pub fn clone_json(v: &JsonValue) -> (r: JsonValue)
    ensures
        r@ == v@,
    decreases json_size(*v),
{
    match v {
        JsonValue::Null => JsonValue::Null,
        JsonValue::Bool(b) => JsonValue::Bool(*b),
        JsonValue::Number(n) => JsonValue::Number(*n),
        JsonValue::String(s) => JsonValue::String(s.clone()),
        JsonValue::Array(items) => {
            let mut out: Vec<JsonValue> = Vec::new();
            let mut i: usize = 0;
            while i < items.len()
                invariant
                    *v == JsonValue::Array(*items),
                    i <= items.len(),
                    items_view(out@) == items_view(items@.take(i as int)),
                decreases items.len() - i,
            {
                proof {
                    lemma_items_size(items@, i as int);
                    lemma_items_view_take(items@, i as int);
                }
                let c = clone_json(&items[i]);
                proof {
                    lemma_items_view_push(out@, c);
                }
                out.push(c);
                i = i + 1;
            }
            assert(items@.take(items.len() as int) =~= items@);
            JsonValue::Array(out)
        },
        JsonValue::Object(entries) => {
            let mut out: Vec<(String, JsonValue)> = Vec::new();
            let mut i: usize = 0;
            while i < entries.len()
                invariant
                    *v == JsonValue::Object(*entries),
                    i <= entries.len(),
                    entries_view(out@) == entries_view(entries@.take(i as int)),
                decreases entries.len() - i,
            {
                proof {
                    lemma_entries_size(entries@, i as int);
                    lemma_entries_view_take(entries@, i as int);
                }
                let c = clone_json(&entries[i].1);
                let k = entries[i].0.clone();
                proof {
                    lemma_entries_view_push(out@, (k, c));
                }
                out.push((k, c));
                i = i + 1;
            }
            assert(entries@.take(entries.len() as int) =~= entries@);
            JsonValue::Object(out)
        },
    }
}

/// The value of the first entry of an object named `key`.
pub fn get<'a>(entries: &'a Vec<(String, JsonValue)>, key: &str) -> (r: Option<&'a JsonValue>)
    ensures
        match r {
            Some(x) => entry(entries_view(entries@), key@) == Some(x@),
            None => entry(entries_view(entries@), key@) is None,
        },
{
    proof {
        lemma_entries_view(entries@);
    }
    let ghost es = entries_view(entries@);
    let mut i: usize = 0;
    assert(es.skip(0) =~= es);
    while i < entries.len()
        invariant
            i <= entries.len(),
            es == entries_view(entries@),
            es.len() == entries@.len(),
            forall|k: int| 0 <= k < entries@.len() ==> #[trigger] es[k] == (entries@[k].0@, json_view(entries@[k].1)),
            entry(es, key@) == entry(es.skip(i as int), key@),
        decreases entries.len() - i,
    {
        assert(es.skip(i as int)[0] == es[i as int]);
        assert(es.skip(i as int).drop_first() =~= es.skip(i + 1));
        if str_eq(entries[i].0.as_str(), key) {
            return Some(&entries[i].1);
        }
        i = i + 1;
    }
    None
}

} // verus!
