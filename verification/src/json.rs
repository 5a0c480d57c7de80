//! JSON trees, and their texts.

use crate::text;
use vstd::prelude::*;
use vstd::string::*;

verus! {

/// A JSON tree. A number is kept as its text; an object keeps the order of its
/// members.
#[derive(Debug, PartialEq)]
pub enum Json {
    Null,
    Bool(bool),
    Number(String),
    Str(String),
    Array(Vec<Json>),
    Object(Vec<(String, Json)>),
}

/// A JSON tree.
#[verifier::ext_equal]
pub enum JsonV {
    Null,
    Bool(bool),
    Number(Seq<char>),
    Str(Seq<char>),
    Array(Seq<JsonV>),
    Object(Seq<MemberV>),
}

/// A member of an object.
#[verifier::ext_equal]
pub struct MemberV {
    pub key: Seq<char>,
    pub value: JsonV,
}

pub open spec fn json_view(j: Json) -> JsonV
    decreases j,
{
    match j {
        Json::Null => JsonV::Null,
        Json::Bool(b) => JsonV::Bool(b),
        Json::Number(n) => JsonV::Number(n@),
        Json::Str(s) => JsonV::Str(s@),
        Json::Array(v) => JsonV::Array(items_view(v@)),
        Json::Object(v) => JsonV::Object(members_view(v@)),
    }
}

pub open spec fn items_view(s: Seq<Json>) -> Seq<JsonV>
    decreases s,
{
    Seq::new(
        s.len(),
        |i: int|
            if 0 <= i < s.len() {
                json_view(s[i])
            } else {
                arbitrary()
            },
    )
}

pub open spec fn members_view(s: Seq<(String, Json)>) -> Seq<MemberV>
    decreases s,
{
    Seq::new(
        s.len(),
        |i: int|
            if 0 <= i < s.len() {
                MemberV { key: s[i].0@, value: json_view(s[i].1) }
            } else {
                arbitrary()
            },
    )
}

impl View for Json {
    type V = JsonV;

    open spec fn view(&self) -> JsonV {
        json_view(*self)
    }
}

pub broadcast proof fn lemma_members_push(s: Seq<(String, Json)>, x: (String, Json))
    ensures
        #[trigger] members_view(s.push(x)) == members_view(s).push(
            MemberV { key: x.0@, value: json_view(x.1) },
        ),
{
    assert(members_view(s.push(x)) =~= members_view(s).push(
        MemberV { key: x.0@, value: json_view(x.1) },
    ));
}

/// Whether two trees are the same.
pub fn json_eq(a: &Json, b: &Json) -> (r: bool)
    ensures
        r == (a@ == b@),
    decreases a,
{
    match (a, b) {
        (Json::Null, Json::Null) => true,
        (Json::Bool(x), Json::Bool(y)) => *x == *y,
        (Json::Number(x), Json::Number(y)) => text::str_eq(x.as_str(), y.as_str()),
        (Json::Str(x), Json::Str(y)) => text::str_eq(x.as_str(), y.as_str()),
        (Json::Array(x), Json::Array(y)) => {
            if x.len() != y.len() {
                assert(items_view(x@).len() != items_view(y@).len());
                return false;
            }
            let mut i: usize = 0;
            while i < x.len()
                invariant
                    i <= x.len(),
                    x.len() == y.len(),
                    decreases_to!(a => x),
                    a@ == JsonV::Array(items_view(x@)),
                    b@ == JsonV::Array(items_view(y@)),
                    forall|j: int| 0 <= j < i ==> items_view(x@)[j] == items_view(y@)[j],
                decreases x.len() - i,
            {
                if !json_eq(&x[i], &y[i]) {
                    assert(items_view(x@)[i as int] != items_view(y@)[i as int]);
                    return false;
                }
                i += 1;
            }
            assert(items_view(x@) =~= items_view(y@));
            true
        },
        (Json::Object(x), Json::Object(y)) => {
            if x.len() != y.len() {
                assert(members_view(x@).len() != members_view(y@).len());
                return false;
            }
            let mut i: usize = 0;
            while i < x.len()
                invariant
                    i <= x.len(),
                    x.len() == y.len(),
                    decreases_to!(a => x),
                    a@ == JsonV::Object(members_view(x@)),
                    b@ == JsonV::Object(members_view(y@)),
                    forall|j: int| 0 <= j < i ==> members_view(x@)[j] == members_view(y@)[j],
                decreases x.len() - i,
            {
                if !text::str_eq(x[i].0.as_str(), y[i].0.as_str()) || !json_eq(&x[i].1, &y[i].1) {
                    assert(members_view(x@)[i as int] != members_view(y@)[i as int]);
                    return false;
                }
                i += 1;
            }
            assert(members_view(x@) =~= members_view(y@));
            true
        },
        _ => false,
    }
}

// ───────────────────────── members of a tree ─────────────────────────

/// The value of the first member of that key among those from `i` on.
pub open spec fn member_from(m: Seq<MemberV>, key: Seq<char>, i: nat) -> Option<JsonV>
    decreases m.len() - i,
{
    if i >= m.len() {
        None
    } else if m[i as int].key == key {
        Some(m[i as int].value)
    } else {
        member_from(m, key, i + 1)
    }
}

impl JsonV {
    /// The value of an object's member.
    pub open spec fn get(self, key: Seq<char>) -> Option<JsonV> {
        match self {
            JsonV::Object(m) => member_from(m, key, 0),
            _ => None,
        }
    }
}

impl Json {
    /// The value of an object's member.
    pub fn get(&self, key: &str) -> (r: Option<&Json>)
        ensures
            match r {
                Some(v) => self@.get(key@) == Some(v@),
                None => self@.get(key@) is None,
            },
    {
        match self {
            Json::Object(m) => {
                let mut i: usize = 0;
                while i < m.len()
                    invariant
                        i <= m.len(),
                        self@ == JsonV::Object(members_view(m@)),
                        member_from(members_view(m@), key@, i as nat) == member_from(
                            members_view(m@),
                            key@,
                            0,
                        ),
                    decreases m.len() - i,
                {
                    if text::str_eq(m[i].0.as_str(), key) {
                        return Some(&m[i].1);
                    }
                    i += 1;
                }
                None
            },
            _ => None,
        }
    }
}

// ───────────────────────── texts of trees ─────────────────────────

/// `serde_json::Value`, carried through as it is.
#[verifier::external_type_specification]
#[verifier::external_body]
pub struct ExValue(serde_json::Value);

/// The `serde_json::Value` that stands for a tree.
pub uninterp spec fn value_of(j: JsonV) -> serde_json::Value;

/// Builds the `serde_json::Value` of a tree with serde_json's constructors,
/// node by node; a number text is read by `serde_json::from_str`, and one that
/// it refuses becomes null. The value is [`value_of`] the tree.
#[verifier::external_body]
fn to_value(j: &Json) -> (r: serde_json::Value)
    ensures
        r == value_of(j@),
{
    match j {
        Json::Null => serde_json::Value::Null,
        Json::Bool(b) => serde_json::Value::Bool(*b),
        Json::Number(n) => serde_json::from_str(n).unwrap_or(serde_json::Value::Null),
        Json::Str(s) => serde_json::Value::String(s.clone()),
        Json::Array(v) => serde_json::Value::Array(v.iter().map(to_value).collect()),
        Json::Object(m) => {
            serde_json::Value::Object(m.iter().map(|(k, v)| (k.clone(), to_value(v))).collect())
        }
    }
}

/// The text that `serde_json::to_string` writes for a value.
pub uninterp spec fn value_text(v: serde_json::Value) -> Seq<char>;

/// `serde_json::to_string` on a value, which cannot fail; the text is
/// [`value_text`].
#[verifier::external_body]
fn value_to_string(v: &serde_json::Value) -> (r: String)
    ensures
        r@ == value_text(*v),
{
    serde_json::to_string(v).unwrap_or_default()
}

/// The text that `serde_json::to_string_pretty` writes for a value.
pub uninterp spec fn value_pretty(v: serde_json::Value) -> Seq<char>;

/// `serde_json::to_string_pretty` on a value, which cannot fail; the text is
/// [`value_pretty`].
#[verifier::external_body]
fn value_to_string_pretty(v: &serde_json::Value) -> (r: String)
    ensures
        r@ == value_pretty(*v),
{
    serde_json::to_string_pretty(v).unwrap_or_default()
}

/// The text of a tree on one line.
pub open spec fn compact_text(j: JsonV) -> Seq<char> {
    value_text(value_of(j))
}

/// The text of a tree, indented.
pub open spec fn pretty_text(j: JsonV) -> Seq<char> {
    value_pretty(value_of(j))
}

/// The text of a tree on one line.
pub fn compact(j: &Json) -> (r: String)
    ensures
        r@ == compact_text(j@),
{
    value_to_string(&to_value(j))
}

/// The text of a tree, indented.
pub fn pretty(j: &Json) -> (r: String)
    ensures
        r@ == pretty_text(j@),
{
    value_to_string_pretty(&to_value(j))
}

// ───────────────────────── reading trees ─────────────────────────

/// `serde_json::Error`, carried through as it is.
#[verifier::external_type_specification]
#[verifier::external_body]
pub struct ExError(serde_json::Error);

/// What `serde_json::from_slice` reads from bytes.
pub uninterp spec fn value_read(b: Seq<u8>) -> core::result::Result<
    serde_json::Value,
    serde_json::Error,
>;

/// `serde_json::from_slice` to a `serde_json::Value`; what it reads is
/// [`value_read`].
#[verifier::external_body]
fn read_value(b: &[u8]) -> (r: core::result::Result<serde_json::Value, serde_json::Error>)
    ensures
        r == value_read(b@),
{
    serde_json::from_slice(b)
}

/// The text of a `serde_json::Error`.
pub uninterp spec fn error_text(e: serde_json::Error) -> Seq<char>;

/// `to_string` on a `serde_json::Error`; the text is [`error_text`].
#[verifier::external_body]
fn error_to_string(e: &serde_json::Error) -> (r: String)
    ensures
        r@ == error_text(*e),
{
    e.to_string()
}

/// The tree that a `serde_json::Value` holds.
pub uninterp spec fn tree_of(v: serde_json::Value) -> JsonV;

/// Takes a `serde_json::Value` apart, node by node; a number is kept as the text
/// that its `to_string` gives. The tree is [`tree_of`] the value.
#[verifier::external_body]
fn from_value(v: serde_json::Value) -> (r: Json)
    ensures
        r@ == tree_of(v),
{
    match v {
        serde_json::Value::Null => Json::Null,
        serde_json::Value::Bool(b) => Json::Bool(b),
        serde_json::Value::Number(n) => Json::Number(n.to_string()),
        serde_json::Value::String(s) => Json::Str(s),
        serde_json::Value::Array(a) => Json::Array(a.into_iter().map(from_value).collect()),
        serde_json::Value::Object(m) => {
            Json::Object(m.into_iter().map(|(k, x)| (k, from_value(x))).collect())
        }
    }
}

/// The tree that bytes hold, or why they hold none.
pub open spec fn read_text(b: Seq<u8>) -> core::result::Result<JsonV, Seq<char>> {
    match value_read(b) {
        Ok(v) => Ok(tree_of(v)),
        Err(e) => Err(error_text(e)),
    }
}

/// Reads a tree from bytes.
pub fn read(b: &[u8]) -> (r: core::result::Result<Json, String>)
    ensures
        match (r, read_text(b@)) {
            (Ok(j), Ok(t)) => j@ == t,
            (Err(m), Err(t)) => m@ == t,
            _ => false,
        },
{
    match read_value(b) {
        Ok(v) => Ok(from_value(v)),
        Err(e) => Err(error_to_string(&e)),
    }
}

// ───────────────────────── parts of a tree ─────────────────────────

impl JsonV {
    /// The items of an array.
    pub open spec fn as_array(self) -> Option<Seq<JsonV>> {
        match self {
            JsonV::Array(v) => Some(v),
            _ => None,
        }
    }

    /// The text of a string.
    pub open spec fn as_str(self) -> Option<Seq<char>> {
        match self {
            JsonV::Str(s) => Some(s),
            _ => None,
        }
    }
}

impl Json {
    /// The items of an array.
    pub fn as_array(&self) -> (r: Option<&Vec<Json>>)
        ensures
            match r {
                Some(v) => self@.as_array() == Some(items_view(v@)),
                None => self@.as_array() is None,
            },
    {
        match self {
            Json::Array(v) => Some(v),
            _ => None,
        }
    }

    /// The text of a string.
    pub fn as_str(&self) -> (r: Option<&str>)
        ensures
            match r {
                Some(s) => self@.as_str() == Some(s@),
                None => self@.as_str() is None,
            },
    {
        match self {
            Json::Str(s) => Some(s.as_str()),
            _ => None,
        }
    }
}

/// The `i`th item of a list.
pub open spec fn item(s: Seq<JsonV>, i: nat) -> Option<JsonV> {
    if i < s.len() {
        Some(s[i as int])
    } else {
        None
    }
}

/// The text of the `i`th item, where it is a string.
pub open spec fn str_item(s: Seq<JsonV>, i: nat) -> Option<Seq<char>> {
    if i < s.len() {
        s[i as int].as_str()
    } else {
        None
    }
}

/// The items of the `i`th item, where it is an array.
pub open spec fn array_item(s: Seq<JsonV>, i: nat) -> Option<Seq<JsonV>> {
    if i < s.len() {
        s[i as int].as_array()
    } else {
        None
    }
}

/// The text of the `i`th item, where it is a string.
pub fn str_at(v: &Vec<Json>, i: usize) -> (r: Option<&str>)
    ensures
        match r {
            Some(s) => str_item(items_view(v@), i as nat) == Some(s@),
            None => str_item(items_view(v@), i as nat) is None,
        },
{
    if i < v.len() {
        assert(items_view(v@)[i as int] == v@[i as int]@);
        v[i].as_str()
    } else {
        None
    }
}

/// The items of the `i`th item, where it is an array.
pub fn array_at(v: &Vec<Json>, i: usize) -> (r: Option<&Vec<Json>>)
    ensures
        match r {
            Some(a) => array_item(items_view(v@), i as nat) == Some(items_view(a@)),
            None => array_item(items_view(v@), i as nat) is None,
        },
{
    if i < v.len() {
        assert(items_view(v@)[i as int] == v@[i as int]@);
        v[i].as_array()
    } else {
        None
    }
}

} // verus!
