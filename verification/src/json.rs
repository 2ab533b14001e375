//! JSON values as the control API and the option maps read and build them.
//!
//! A value is a tree of plain values here. An outside crate parses its text and prints it.

use crate::text::{owned, same};
use nextjson::{Number, Value};
use vstd::prelude::*;
use vstd::string::*;
use vstd::utf8::{decode_utf8, valid_utf8};

verus! {

/// A JSON value.
#[derive(Debug)]
pub enum Json {
    Null,
    Bool(bool),
    /// A number that is not negative.
    Uint(u64),
    /// A number below zero.
    Int(i64),
    /// Any other number: what it comes to as an integer of either kind, and its text.
    Wide { signed: Option<i64>, unsigned: Option<u64>, text: String },
    Text(String),
    Array(Vec<Json>),
    /// An object, its entries in order.
    Object(Vec<(String, Json)>),
}

/// A JSON value as a mathematical value.
#[verifier::ext_equal]
pub enum JsonView {
    Null,
    Bool(bool),
    Uint(u64),
    Int(i64),
    Wide(Option<i64>, Option<u64>, Seq<char>),
    Text(Seq<char>),
    Array(Seq<JsonView>),
    Object(Seq<(Seq<char>, JsonView)>),
}

/// A value as a mathematical value.
pub open spec fn json_view(j: Json) -> JsonView
    decreases j,
{
    match j {
        Json::Null => JsonView::Null,
        Json::Bool(b) => JsonView::Bool(b),
        Json::Uint(n) => JsonView::Uint(n),
        Json::Int(n) => JsonView::Int(n),
        Json::Wide { signed, unsigned, text } => JsonView::Wide(signed, unsigned, text@),
        Json::Text(s) => JsonView::Text(s@),
        Json::Array(v) => JsonView::Array(
            Seq::new(
                v@.len(),
                |i: int|
                    if 0 <= i < v@.len() {
                        json_view(v@[i])
                    } else {
                        JsonView::Null
                    },
            ),
        ),
        Json::Object(v) => JsonView::Object(
            Seq::new(
                v@.len(),
                |i: int|
                    if 0 <= i < v@.len() {
                        (v@[i].0@, json_view(v@[i].1))
                    } else {
                        (Seq::empty(), JsonView::Null)
                    },
            ),
        ),
    }
}

impl View for Json {
    type V = JsonView;

    open spec fn view(&self) -> JsonView {
        json_view(*self)
    }
}

/// The items of an array as mathematical values.
pub open spec fn items_view(v: Seq<Json>) -> Seq<JsonView> {
    Seq::new(v.len(), |i: int| v[i]@)
}

/// The entries of an object as mathematical values.
pub open spec fn entries_view(v: Seq<(String, Json)>) -> Seq<(Seq<char>, JsonView)> {
    Seq::new(v.len(), |i: int| (v[i].0@, v[i].1@))
}

/// The view of an array is that of its items, the view of an object that of its entries.
pub proof fn lemma_json_view(j: Json)
    ensures
        j is Array ==> j@ == JsonView::Array(items_view(j->Array_0@)),
        j is Object ==> j@ == JsonView::Object(entries_view(j->Object_0@)),
{
    match j {
        Json::Array(v) => {
            assert(json_view(j)->Array_0 =~= items_view(v@));
        },
        Json::Object(v) => {
            assert(json_view(j)->Object_0 =~= entries_view(v@));
        },
        _ => {},
    }
}

/// The value of the first entry with a key.
pub open spec fn entry(entries: Seq<(Seq<char>, JsonView)>, key: Seq<char>) -> Option<JsonView>
    decreases entries.len(),
{
    if entries.len() == 0 {
        None
    } else if entries[0].0 == key {
        Some(entries[0].1)
    } else {
        entry(entries.skip(1), key)
    }
}

impl JsonView {
    /// The value under a key, in an object.
    pub open spec fn get(self, key: Seq<char>) -> Option<JsonView> {
        match self {
            JsonView::Object(entries) => entry(entries, key),
            _ => None,
        }
    }

    pub open spec fn as_str(self) -> Option<Seq<char>> {
        match self {
            JsonView::Text(s) => Some(s),
            _ => None,
        }
    }

    pub open spec fn as_bool(self) -> Option<bool> {
        match self {
            JsonView::Bool(b) => Some(b),
            _ => None,
        }
    }

    /// The number that a value comes to, where it fits.
    pub open spec fn as_u64(self) -> Option<u64> {
        match self {
            JsonView::Uint(n) => Some(n),
            JsonView::Int(n) => if n >= 0 {
                Some(n as u64)
            } else {
                None
            },
            JsonView::Wide(_, unsigned, _) => unsigned,
            _ => None,
        }
    }

    pub open spec fn as_i64(self) -> Option<i64> {
        match self {
            JsonView::Uint(n) => if n <= i64::MAX {
                Some(n as i64)
            } else {
                None
            },
            JsonView::Int(n) => Some(n),
            JsonView::Wide(signed, _, _) => signed,
            _ => None,
        }
    }
}

// ---------------------------------------------------------------------------
// Text
// ---------------------------------------------------------------------------

/// A value of the crate that reads and writes the text.
#[verifier::external_type_specification]
#[verifier::external_body]
pub struct ExValue(Value);

/// What such a value holds.
pub uninterp spec fn value_held(v: Value) -> JsonView;

/// The text of such a value, nothing where it has none.
pub uninterp spec fn value_text(v: Value) -> Option<Seq<char>>;

/// The value that a JSON text spells, or what is wrong with the text.
pub uninterp spec fn json_parsed(text: Seq<char>) -> Result<JsonView, Seq<char>>;

/// The value that the bytes of a JSON text spell, or what is wrong with them.
pub uninterp spec fn json_read(bytes: Seq<u8>) -> Result<JsonView, Seq<char>>;

/// The JSON text of a value, nothing where it has none.
pub uninterp spec fn json_text(v: JsonView) -> Option<Seq<char>>;

/// Take a `nextjson::Value` apart, variant by variant: what it holds. A number that is
/// neither a `u64` nor an `i64` keeps what `Number::as_i64` and `Number::as_u64` make of
/// it, and its text.
#[verifier::external_body]
fn from_value(v: Value) -> (r: Json)
    ensures
        r@ == value_held(v),
{
    match v {
        Value::Null => Json::Null,
        Value::Bool(b) => Json::Bool(b),
        Value::Number(Number::U64(n)) => Json::Uint(n),
        Value::Number(Number::I64(n)) => Json::Int(n),
        Value::Number(n) => Json::Wide { signed: n.as_i64(), unsigned: n.as_u64(), text: nextjson::to_string(&n).unwrap_or_default() },
        Value::String(s) => Json::Text(s),
        Value::Array(items) => Json::Array(items.into_iter().map(from_value).collect()),
        Value::Object(map) => Json::Object(map.into_iter().map(|(k, v)| (k, from_value(v))).collect()),
    }
}

/// Build the `nextjson::Value` of a value, variant by variant: what prints it is a function
/// of the value alone. A number that is neither a `u64` nor an `i64` is read back from its
/// text. How the text looks is left unsaid.
#[verifier::external_body]
fn to_value(j: &Json) -> (r: Value)
    ensures
        value_text(r) == json_text(j@),
{
    match j {
        Json::Null => Value::Null,
        Json::Bool(b) => Value::from(*b),
        Json::Uint(n) => Value::from(*n),
        Json::Int(n) => Value::from(*n),
        Json::Wide { text, .. } => nextjson::from_str(text).unwrap_or(Value::Null),
        Json::Text(s) => Value::from(s.clone()),
        Json::Array(items) => Value::Array(items.iter().map(to_value).collect()),
        Json::Object(entries) => Value::Object(entries.iter().map(|e| (e.0.clone(), to_value(&e.1))).collect()),
    }
}

/// `nextjson::from_str`: the value that a text spells, or the text of the error. Both depend
/// on the text alone.
#[verifier::external_body]
fn decode_text(text: &str) -> (r: Result<Value, String>)
    ensures
        match json_parsed(text@) {
            Ok(v) => r is Ok && value_held(r->Ok_0) == v,
            Err(e) => r is Err && r->Err_0@ == e,
        },
{
    nextjson::from_str(text).map_err(|e: nextjson::Error| e.to_string())
}

/// `nextjson::from_slice`: the value that bytes spell, or the text of the error. Both depend
/// on the bytes alone, and are those of the text where the bytes are UTF-8.
#[verifier::external_body]
fn decode_bytes(bytes: &[u8]) -> (r: Result<Value, String>)
    ensures
        match json_read(bytes@) {
            Ok(v) => r is Ok && value_held(r->Ok_0) == v,
            Err(e) => r is Err && r->Err_0@ == e,
        },
        valid_utf8(bytes@) ==> match json_parsed(decode_utf8(bytes@)) {
            Ok(v) => r is Ok && value_held(r->Ok_0) == v,
            Err(e) => r is Err && r->Err_0@ == e,
        },
{
    nextjson::from_slice(bytes).map_err(|e: nextjson::Error| e.to_string())
}

/// `nextjson::to_string`: the text of a value, a function of the value; nothing where it is
/// refused.
#[verifier::external_body]
fn encode_value(v: &Value) -> (r: Option<String>)
    ensures
        match value_text(*v) {
            Some(t) => r is Some && r->Some_0@ == t,
            None => r is None,
        },
{
    nextjson::to_string(v).ok()
}

/// Parse a JSON text.
pub fn parse_json(text: &str) -> (r: Result<Json, String>)
    ensures
        match json_parsed(text@) {
            Ok(v) => r is Ok && r->Ok_0@ == v,
            Err(e) => r is Err && r->Err_0@ == e,
        },
{
    match decode_text(text) {
        Ok(v) => Ok(from_value(v)),
        Err(e) => Err(e),
    }
}

/// Parse the bytes of a JSON text.
pub fn read_json(bytes: &[u8]) -> (r: Result<Json, String>)
    ensures
        match json_read(bytes@) {
            Ok(v) => r is Ok && r->Ok_0@ == v,
            Err(e) => r is Err && r->Err_0@ == e,
        },
        valid_utf8(bytes@) ==> json_read(bytes@) == json_parsed(decode_utf8(bytes@)),
{
    match decode_bytes(bytes) {
        Ok(v) => Ok(from_value(v)),
        Err(e) => Err(e),
    }
}

/// The JSON text of a value, nothing where it has none.
pub fn print_json(j: &Json) -> (r: Option<String>)
    ensures
        match json_text(j@) {
            Some(t) => r is Some && r->Some_0@ == t,
            None => r is None,
        },
{
    encode_value(&to_value(j))
}

// ---------------------------------------------------------------------------
// Reading and building
// ---------------------------------------------------------------------------

/// The value of the first entry with a key.
pub fn find_entry<'a>(entries: &'a Vec<(String, Json)>, key: &str) -> (r: Option<&'a Json>)
    ensures
        match entry(entries_view(entries@), key@) {
            None => r is None,
            Some(v) => r is Some && r->Some_0@ == v,
        },
{
    let ghost all = entries_view(entries@);
    let mut i: usize = 0;
    proof {
        assert(all.skip(0) =~= all);
    }
    while i < entries.len()
        invariant
            i <= entries@.len(),
            all == entries_view(entries@),
            entry(all, key@) == entry(all.skip(i as int), key@),
        decreases entries@.len() - i,
    {
        if same(entries[i].0.as_str(), key) {
            return Some(&entries[i].1);
        }
        proof {
            assert(all.skip(i as int).skip(1) =~= all.skip(i + 1));
        }
        i = i + 1;
    }
    None
}

impl Json {
    /// The value under a key, in an object.
    pub fn get(&self, key: &str) -> (r: Option<&Json>)
        ensures
            match self@.get(key@) {
                None => r is None,
                Some(v) => r is Some && r->Some_0@ == v,
            },
    {
        proof {
            lemma_json_view(*self);
        }
        match self {
            Json::Object(entries) => find_entry(entries, key),
            _ => None,
        }
    }

    /// The text, where the value is one.
    pub fn as_str(&self) -> (r: Option<&str>)
        ensures
            match self@.as_str() {
                None => r is None,
                Some(s) => r is Some && r->Some_0@ == s,
            },
    {
        match self {
            Json::Text(s) => Some(s.as_str()),
            _ => None,
        }
    }

    /// The truth value, where the value is one.
    pub fn as_bool(&self) -> (r: Option<bool>)
        ensures
            r == self@.as_bool(),
    {
        match self {
            Json::Bool(b) => Some(*b),
            _ => None,
        }
    }

    /// The number, where the value is one that fits.
    pub fn as_u64(&self) -> (r: Option<u64>)
        ensures
            r == self@.as_u64(),
    {
        match self {
            Json::Uint(n) => Some(*n),
            Json::Int(n) => if *n >= 0 {
                Some(*n as u64)
            } else {
                None
            },
            Json::Wide { unsigned, .. } => *unsigned,
            _ => None,
        }
    }

    /// The number, where the value is one that fits.
    pub fn as_i64(&self) -> (r: Option<i64>)
        ensures
            r == self@.as_i64(),
    {
        match self {
            Json::Uint(n) => if *n <= 0x7fff_ffff_ffff_ffff {
                Some(*n as i64)
            } else {
                None
            },
            Json::Int(n) => Some(*n),
            Json::Wide { signed, .. } => *signed,
            _ => None,
        }
    }

    pub fn is_null(&self) -> (r: bool)
        ensures
            r == (self@ == JsonView::Null),
    {
        match self {
            Json::Null => true,
            _ => false,
        }
    }

    /// A text value.
    pub fn text(s: &str) -> (r: Json)
        ensures
            r@ == JsonView::Text(s@),
    {
        Json::Text(owned(s))
    }

    /// An object of entries.
    pub fn object(entries: Vec<(String, Json)>) -> (r: Json)
        ensures
            r@ == JsonView::Object(entries_view(entries@)),
    {
        let r = Json::Object(entries);
        proof {
            lemma_json_view(r);
        }
        r
    }

    /// An array of items.
    pub fn array(items: Vec<Json>) -> (r: Json)
        ensures
            r@ == JsonView::Array(items_view(items@)),
    {
        let r = Json::Array(items);
        proof {
            lemma_json_view(r);
        }
        r
    }
}

/// Append an entry.
pub fn put(entries: &mut Vec<(String, Json)>, key: &str, value: Json)
    ensures
        entries_view(final(entries)@) == entries_view(old(entries)@).push((key@, value@)),
{
    entries.push((owned(key), value));
    proof {
        assert(entries_view(entries@) =~= entries_view(old(entries)@).push((key@, value@)));
    }
}

/// Append an item.
pub fn append(items: &mut Vec<Json>, value: Json)
    ensures
        items_view(final(items)@) == items_view(old(items)@).push(value@),
{
    items.push(value);
    proof {
        assert(items_view(items@) =~= items_view(old(items)@).push(value@));
    }
}

/// The position of the first entry with a key, or the number of entries.
pub open spec fn position_of(entries: Seq<(Seq<char>, JsonView)>, key: Seq<char>) -> int
    decreases entries.len(),
{
    if entries.len() == 0 || entries[0].0 == key {
        0
    } else {
        1 + position_of(entries.skip(1), key)
    }
}

/// Entries with the value under a key set: in its place where the key is there, at the
/// end where it is not.
pub open spec fn inserted(
    entries: Seq<(Seq<char>, JsonView)>,
    key: Seq<char>,
    value: JsonView,
) -> Seq<(Seq<char>, JsonView)> {
    let i = position_of(entries, key);
    if i < entries.len() {
        entries.update(i, (key, value))
    } else {
        entries.push((key, value))
    }
}

/// The first entry with a key stands at its position.
pub proof fn lemma_position_of(entries: Seq<(Seq<char>, JsonView)>, key: Seq<char>)
    ensures
        0 <= position_of(entries, key) <= entries.len(),
        position_of(entries, key) < entries.len() ==> entries[position_of(entries, key)].0 == key,
        entry(entries, key) == if position_of(entries, key) < entries.len() {
            Some(entries[position_of(entries, key)].1)
        } else {
            None
        },
        forall|j: int| 0 <= j < position_of(entries, key) ==> (#[trigger] entries[j]).0 != key,
    decreases entries.len(),
{
    if entries.len() > 0 && entries[0].0 != key {
        let rest = entries.skip(1);
        lemma_position_of(rest, key);
        assert forall|j: int| 0 <= j < position_of(entries, key) implies (
        #[trigger] entries[j]).0 != key by {
            if j > 0 {
                assert(rest[j - 1] == entries[j]);
            }
        }
    }
}

/// What was put under a key is what is found there, and nothing else has changed.
pub proof fn lemma_inserted(
    entries: Seq<(Seq<char>, JsonView)>,
    key: Seq<char>,
    value: JsonView,
    other: Seq<char>,
)
    ensures
        entry(inserted(entries, key, value), other) == if other == key {
            Some(value)
        } else {
            entry(entries, other)
        },
    decreases entries.len(),
{
    let all = inserted(entries, key, value);
    lemma_position_of(entries, key);
    if entries.len() == 0 {
        assert(all =~= seq![(key, value)]);
        assert(all.skip(1) =~= Seq::empty());
        assert(entry(all.skip(1), other) is None);
    } else if entries[0].0 == key {
        assert(all[0] == (key, value));
        assert(all.skip(1) =~= entries.skip(1));
    } else {
        let rest = entries.skip(1);
        lemma_inserted(rest, key, value, other);
        lemma_position_of(rest, key);
        assert(all[0] == entries[0]);
        assert(all.skip(1) =~= inserted(rest, key, value));
    }
}

/// Set the value under a key.
pub fn insert(entries: &mut Vec<(String, Json)>, key: &str, value: Json)
    ensures
        entries_view(final(entries)@) == inserted(entries_view(old(entries)@), key@, value@),
{
    let ghost all = entries_view(entries@);
    let mut i: usize = 0;
    proof {
        assert(all.skip(0) =~= all);
    }
    while i < entries.len()
        invariant_except_break
            i <= entries@.len(),
        invariant
            entries@ == old(entries)@,
            all == entries_view(entries@),
            position_of(all, key@) == i + position_of(all.skip(i as int), key@),
        ensures
            i == position_of(all, key@),
            i <= entries@.len(),
        decreases entries@.len() - i,
    {
        if same(entries[i].0.as_str(), key) {
            assert(all.skip(i as int)[0].0 == key@);
            break;
        }
        proof {
            assert(all.skip(i as int).skip(1) =~= all.skip(i + 1));
        }
        i = i + 1;
    }
    if i < entries.len() {
        entries.set(i, (owned(key), value));
        proof {
            assert(entries_view(entries@) =~= all.update(i as int, (key@, value@)));
        }
    } else {
        put(entries, key, value);
    }
}

/// The same items in a list of their own.
pub fn copy_items(items: &Vec<Json>) -> (r: Vec<Json>)
    ensures
        items_view(r@) == items_view(items@),
    decreases items,
{
    let mut r: Vec<Json> = Vec::new();
    let mut i: usize = 0;
    while i < items.len()
        invariant
            i <= items@.len(),
            items_view(r@) == items_view(items@).take(i as int),
        decreases items@.len() - i,
    {
        assert(decreases_to!(items => items@[i as int]));
        append(&mut r, items[i].copy());
        proof {
            assert(items_view(items@).take(i + 1) =~= items_view(items@).take(i as int).push(
                items@[i as int]@,
            ));
        }
        i = i + 1;
    }
    proof {
        assert(items_view(items@).take(i as int) =~= items_view(items@));
    }
    r
}

/// The same entries in a list of their own.
pub fn copy_entries(entries: &Vec<(String, Json)>) -> (r: Vec<(String, Json)>)
    ensures
        entries_view(r@) == entries_view(entries@),
    decreases entries,
{
    let mut r: Vec<(String, Json)> = Vec::new();
    let mut i: usize = 0;
    while i < entries.len()
        invariant
            i <= entries@.len(),
            entries_view(r@) == entries_view(entries@).take(i as int),
        decreases entries@.len() - i,
    {
        assert(decreases_to!(entries@ => entries@[i as int]));
        assert(decreases_to!(entries@[i as int] => entries@[i as int].1));
        put(&mut r, entries[i].0.as_str(), entries[i].1.copy());
        proof {
            assert(entries_view(entries@).take(i + 1) =~= entries_view(entries@).take(
                i as int,
            ).push((entries@[i as int].0@, entries@[i as int].1@)));
        }
        i = i + 1;
    }
    proof {
        assert(entries_view(entries@).take(i as int) =~= entries_view(entries@));
    }
    r
}

impl Json {
    /// The same value once more.
    pub fn copy(&self) -> (r: Json)
        ensures
            r@ == self@,
        decreases self,
    {
        proof {
            lemma_json_view(*self);
        }
        match self {
            Json::Null => Json::Null,
            Json::Bool(b) => Json::Bool(*b),
            Json::Uint(n) => Json::Uint(*n),
            Json::Int(n) => Json::Int(*n),
            Json::Wide { signed, unsigned, text } => Json::Wide {
                signed: *signed,
                unsigned: *unsigned,
                text: owned(text.as_str()),
            },
            Json::Text(s) => Json::Text(owned(s.as_str())),
            Json::Array(v) => Json::array(copy_items(v)),
            Json::Object(v) => Json::object(copy_entries(v)),
        }
    }
}

} // verus!
