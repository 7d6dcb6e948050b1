//! JSON values as plain data, read by the crate `serde_json`.

use crate::text::same_text;
use serde_json::Value;
use vstd::prelude::*;

verus! {

/// What a JSON value holds. A number is known by its readings as a 64-bit integer
/// and as a 64-bit real, the latter by its bits.
pub enum JsonView {
    Null,
    Bool(bool),
    Number(Option<i64>, Option<u64>),
    Str(Seq<char>),
    Array(Seq<JsonView>),
    Object(Seq<(Seq<char>, JsonView)>),
}

/// The value of the first field with that key, if there is one.
pub open spec fn field(fields: Seq<(Seq<char>, JsonView)>, key: Seq<char>) -> Option<JsonView>
    decreases fields.len(),
{
    if fields.len() == 0 {
        None
    } else if fields[0].0 == key {
        Some(fields[0].1)
    } else {
        field(fields.drop_first(), key)
    }
}

/// The value of a field stands in one of the fields.
pub proof fn lemma_field(fields: Seq<(Seq<char>, JsonView)>, key: Seq<char>)
    requires
        field(fields, key) is Some,
    ensures
        exists|i: int| 0 <= i < fields.len() && #[trigger] fields[i].1 == field(fields, key)->0,
    decreases fields.len(),
{
    if fields[0].0 == key {
        assert(fields[0].1 == field(fields, key)->0);
    } else {
        let rest = fields.drop_first();
        lemma_field(rest, key);
        let i = choose|i: int| 0 <= i < rest.len() && #[trigger] rest[i].1 == field(rest, key)->0;
        assert(fields[i + 1].1 == field(fields, key)->0);
    }
}

/// The items of a member lie below the value that has it.
pub proof fn lemma_items_are_smaller(v: JsonView, key: Seq<char>)
    requires
        v.get(key) is Some,
        v.get(key)->0.as_array() is Some,
    ensures
        decreases_to!(v => v.get(key)->0.as_array()->0),
{
    let fields = v->Object_0;
    lemma_field(fields, key);
    let i = choose|i: int| 0 <= i < fields.len() && #[trigger] fields[i].1 == field(fields, key)->0;
    let member = fields[i].1;
    assert(decreases_to!(v => v->Object_0));
    assert(decreases_to!(fields => fields[i]));
    assert(decreases_to!(fields[i] => fields[i].1));
    assert(decreases_to!(member => member->Array_0));
}

impl JsonView {
    /// The member of an object; other values have none.
    pub open spec fn get(self, key: Seq<char>) -> Option<JsonView> {
        match self {
            JsonView::Object(fields) => field(fields, key),
            _ => None,
        }
    }

    /// The value as a 64-bit integer, if it is one.
    pub open spec fn as_i64(self) -> Option<i64> {
        match self {
            JsonView::Number(whole, _) => whole,
            _ => None,
        }
    }

    /// The bits of the value as a 64-bit real, if it is a number.
    pub open spec fn as_real(self) -> Option<u64> {
        match self {
            JsonView::Number(_, bits) => bits,
            _ => None,
        }
    }

    /// The text of a string.
    pub open spec fn as_str(self) -> Option<Seq<char>> {
        match self {
            JsonView::Str(s) => Some(s),
            _ => None,
        }
    }

    /// The items of an array.
    pub open spec fn as_array(self) -> Option<Seq<JsonView>> {
        match self {
            JsonView::Array(items) => Some(items),
            _ => None,
        }
    }
}

/// A JSON value.
#[derive(Debug)]
pub enum Json {
    Null,
    Bool(bool),
    /// A number: its reading as a 64-bit integer, if it is one, and the bits of its
    /// reading as a 64-bit real.
    Number(Option<i64>, Option<u64>),
    Str(String),
    Array(Vec<Json>),
    Object(Vec<(String, Json)>),
}

/// What a JSON value holds.
pub open spec fn json_view(json: Json) -> JsonView
    decreases json,
{
    match json {
        Json::Null => JsonView::Null,
        Json::Bool(b) => JsonView::Bool(b),
        Json::Number(whole, bits) => JsonView::Number(whole, bits),
        Json::Str(s) => JsonView::Str(s@),
        Json::Array(items) => JsonView::Array(
            Seq::new(
                items@.len(),
                |i: int|
                    if 0 <= i < items@.len() {
                        json_view(items@[i])
                    } else {
                        JsonView::Null
                    },
            ),
        ),
        Json::Object(fields) => JsonView::Object(
            Seq::new(
                fields@.len(),
                |i: int|
                    if 0 <= i < fields@.len() {
                        (fields@[i].0@, json_view(fields@[i].1))
                    } else {
                        (seq![], JsonView::Null)
                    },
            ),
        ),
    }
}

impl View for Json {
    type V = JsonView;

    open spec fn view(&self) -> JsonView {
        json_view(*self)
    }
}

/// A parsed JSON document.
#[verifier::external_type_specification]
#[verifier::external_body]
pub struct ExValue(serde_json::Value);

/// Why a text is no JSON document.
#[verifier::external_type_specification]
#[verifier::external_body]
pub struct ExJsonError(serde_json::Error);

/// What a parsed document holds.
pub uninterp spec fn content_of(value: Value) -> JsonView;

/// What a text holds as a JSON document, if it is one.
pub uninterp spec fn document_of(text: Seq<char>) -> Option<JsonView>;

/// A parsed value with its outermost layer opened.
enum Layer<'a> {
    Null,
    Bool(bool),
    Number(Option<i64>, Option<u64>),
    Str(&'a String),
    Array(&'a Vec<Value>),
    Object(Vec<(&'a String, &'a Value)>),
}

/// What a value with that outermost layer holds.
spec fn layer_content(layer: Layer) -> JsonView {
    match layer {
        Layer::Null => JsonView::Null,
        Layer::Bool(b) => JsonView::Bool(b),
        Layer::Number(whole, bits) => JsonView::Number(whole, bits),
        Layer::Str(s) => JsonView::Str(s@),
        Layer::Array(items) => JsonView::Array(
            Seq::new(items@.len(), |i: int| content_of(items@[i])),
        ),
        Layer::Object(fields) => JsonView::Object(
            Seq::new(fields@.len(), |i: int| (fields@[i].0@, content_of(*fields@[i].1))),
        ),
    }
}

/// `serde_json::from_str` into a `Value`. Claimed: whether the text is a document,
/// and what that holds, depends on the text alone.
#[verifier::external_body]
fn parse_value(text: &str) -> (r: Result<Value, serde_json::Error>)
    ensures
        match r {
            Ok(value) => document_of(text@) == Some(content_of(value)),
            Err(_) => document_of(text@) is None,
        },
{
    serde_json::from_str(text)
}

/// Tells the variants of a `serde_json::Value` apart; a number is read by
/// `Number::as_i64` and `Number::as_f64`, an object by `Map::iter`. Claimed: the
/// layer and the contents of what lies below it are the contents of the value.
#[verifier::external_body]
fn open_layer<'a>(value: &'a Value) -> (r: Layer<'a>)
    ensures
        layer_content(r) == content_of(*value),
{
    match value {
        Value::Null => Layer::Null,
        Value::Bool(b) => Layer::Bool(*b),
        Value::Number(n) => Layer::Number(n.as_i64(), n.as_f64().map(|x| x.to_bits())),
        Value::String(s) => Layer::Str(s),
        Value::Array(items) => Layer::Array(items),
        Value::Object(fields) => Layer::Object(fields.iter().collect()),
    }
}

impl Json {
    /// Copies a parsed document.
    pub(crate) fn from_value(value: &Value) -> (r: Json)
        ensures
            r@ == content_of(*value),
        decreases content_of(*value),
    {
        match open_layer(value) {
            Layer::Null => Json::Null,
            Layer::Bool(b) => Json::Bool(b),
            Layer::Number(whole, bits) => Json::Number(whole, bits),
            Layer::Str(s) => Json::Str(s.clone()),
            Layer::Array(items) => {
                let ghost all = Seq::new(items@.len(), |i: int| content_of(items@[i]));
                let mut out: Vec<Json> = Vec::new();
                let mut i: usize = 0;
                while i < items.len()
                    invariant
                        i <= items@.len(),
                        out@.len() == i,
                        all == Seq::new(items@.len(), |i: int| content_of(items@[i])),
                        content_of(*value) == JsonView::Array(all),
                        forall|j: int| 0 <= j < i ==> (#[trigger] out@[j])@ == all[j],
                    decreases items@.len() - i,
                {
                    assert(decreases_to!(content_of(*value) => content_of(*value)->Array_0));
                    assert(decreases_to!(all => all[i as int]));
                    out.push(Self::from_value(&items[i]));
                    i += 1;
                }
                let r = Json::Array(out);
                assert(r@->Array_0 =~= all);
                r
            },
            Layer::Object(fields) => {
                let ghost all = Seq::new(
                    fields@.len(),
                    |i: int| (fields@[i].0@, content_of(*fields@[i].1)),
                );
                let mut out: Vec<(String, Json)> = Vec::new();
                let mut i: usize = 0;
                while i < fields.len()
                    invariant
                        i <= fields@.len(),
                        out@.len() == i,
                        all == Seq::new(
                            fields@.len(),
                            |i: int| (fields@[i].0@, content_of(*fields@[i].1)),
                        ),
                        content_of(*value) == JsonView::Object(all),
                        forall|j: int|
                            0 <= j < i ==> (#[trigger] out@[j]).0@ == all[j].0 && out@[j].1@
                                == all[j].1,
                    decreases fields@.len() - i,
                {
                    assert(decreases_to!(content_of(*value) => content_of(*value)->Object_0));
                    assert(decreases_to!(all => all[i as int]));
                    assert(decreases_to!(all[i as int] => all[i as int].1));
                    let key: &String = fields[i].0;
                    out.push((key.clone(), Self::from_value(fields[i].1)));
                    i += 1;
                }
                let r = Json::Object(out);
                assert(r@->Object_0 =~= all);
                r
            },
        }
    }

    /// Reads a JSON document.
    pub fn parse(text: &str) -> (r: Result<Json, serde_json::Error>)
        ensures
            match r {
                Ok(json) => document_of(text@) == Some(json@),
                Err(_) => document_of(text@) is None,
            },
    {
        match parse_value(text) {
            Ok(value) => Ok(Self::from_value(&value)),
            Err(e) => Err(e),
        }
    }

    /// The member of an object; other values have none.
    pub fn get(&self, key: &str) -> (r: Option<&Json>)
        ensures
            match r {
                Some(json) => self@.get(key@) == Some(json@),
                None => self@.get(key@) is None,
            },
    {
        match self {
            Json::Object(fields) => {
                let ghost all = self@->Object_0;
                assert(all.skip(0) =~= all);
                let mut i: usize = 0;
                while i < fields.len()
                    invariant
                        i <= fields@.len(),
                        all.len() == fields@.len(),
                        forall|j: int|
                            0 <= j < all.len() ==> #[trigger] all[j] == (
                                fields@[j].0@,
                                fields@[j].1@,
                            ),
                        field(all, key@) == field(all.skip(i as int), key@),
                        self@ == JsonView::Object(all),
                    decreases fields@.len() - i,
                {
                    proof {
                        assert(all.skip(i as int)[0] == all[i as int]);
                        assert(all.skip(i as int).drop_first() =~= all.skip(i + 1));
                    }
                    if same_text(fields[i].0.as_str(), key) {
                        return Some(&fields[i].1);
                    }
                    i += 1;
                }
                None
            },
            _ => None,
        }
    }

    /// The value as a 64-bit integer, if it is one.
    pub fn as_i64(&self) -> (r: Option<i64>)
        ensures
            r == self@.as_i64(),
    {
        match self {
            Json::Number(whole, _) => *whole,
            _ => None,
        }
    }

    /// The bits of the value as a 64-bit real, if it is a number.
    pub fn as_real(&self) -> (r: Option<u64>)
        ensures
            r == self@.as_real(),
    {
        match self {
            Json::Number(_, bits) => *bits,
            _ => None,
        }
    }

    /// The text of a string.
    pub fn as_str(&self) -> (r: Option<&String>)
        ensures
            match r {
                Some(s) => self@.as_str() == Some(s@),
                None => self@.as_str() is None,
            },
    {
        match self {
            Json::Str(s) => Some(s),
            _ => None,
        }
    }

    /// The items of an array.
    pub fn as_array(&self) -> (r: Option<&Vec<Json>>)
        ensures
            match r {
                Some(items) => self@.as_array() == Some(
                    Seq::new(items@.len(), |i: int| items@[i]@),
                ),
                None => self@.as_array() is None,
            },
    {
        match self {
            Json::Array(items) => {
                assert(self@->Array_0 =~= Seq::new(items@.len(), |i: int| items@[i]@));
                Some(items)
            },
            _ => None,
        }
    }
}

} // verus!
