//! JSON values, and the parser that reads them from text.

use vstd::prelude::*;

use crate::json::{doc_text, hex_digit, Doc};
use crate::text::{decimal, same_text};

verus! {

/// What a JSON text denotes.
pub enum JsonView {
    Null,
    Bool(bool),
    /// A number: its value where it is a `u64`, and its notation.
    Number(Option<u64>, Seq<char>),
    Text(Seq<char>),
    Array(Seq<JsonView>),
    Object(Map<Seq<char>, JsonView>),
}

/// A JSON value.
#[derive(Debug)]
pub enum Json {
    Null,
    Bool(bool),
    /// A number: its value where it is a `u64`, and its notation.
    Number(Option<u64>, String),
    Text(String),
    Array(Vec<Json>),
    /// Members by name. Of two members with one name the later one counts.
    Object(Vec<(String, Json)>),
}

/// The members of an object by name. Of two with one name the later counts.
pub open spec fn object_of(members: Seq<(Seq<char>, JsonView)>) -> Map<Seq<char>, JsonView>
    decreases members.len(),
{
    if members.len() == 0 {
        Map::empty()
    } else {
        object_of(members.drop_last()).insert(members.last().0, members.last().1)
    }
}

impl View for Json {
    type V = JsonView;

    open spec fn view(&self) -> JsonView
        decreases self,
    {
        match self {
            Json::Null => JsonView::Null,
            Json::Bool(b) => JsonView::Bool(*b),
            Json::Number(n, notation) => JsonView::Number(*n, notation@),
            Json::Text(s) => JsonView::Text(s@),
            Json::Array(items) => JsonView::Array(json_items(items@)),
            Json::Object(members) => JsonView::Object(object_of(json_members(members@))),
        }
    }
}

pub open spec fn json_items(items: Seq<Json>) -> Seq<JsonView>
    decreases items,
{
    Seq::new(
        items.len(),
        |i: int|
            if 0 <= i < items.len() {
                items[i].view()
            } else {
                arbitrary()
            },
    )
}

pub open spec fn json_members(members: Seq<(String, Json)>) -> Seq<(Seq<char>, JsonView)>
    decreases members,
{
    Seq::new(
        members.len(),
        |i: int|
            if 0 <= i < members.len() {
                (members[i].0@, members[i].1.view())
            } else {
                arbitrary()
            },
    )
}

#[verifier::external_type_specification]
#[verifier::external_body]
pub struct ExValue(serde_json::Value);

/// What a parsed value holds.
pub uninterp spec fn value_contents(v: serde_json::Value) -> JsonView;

/// What `serde_json::from_slice` makes of a text: the value, or the message of
/// its error.
pub uninterp spec fn parsed_json(bytes: Seq<u8>) -> Result<JsonView, Seq<char>>;

pub open spec fn value_items(items: Seq<serde_json::Value>) -> Seq<JsonView> {
    Seq::new(items.len(), |i: int| value_contents(items[i]))
}

pub open spec fn value_members(members: Seq<(String, serde_json::Value)>) -> Seq<
    (Seq<char>, JsonView),
> {
    Seq::new(members.len(), |i: int| (members[i].0@, value_contents(members[i].1)))
}

/// The string holds nothing that JSON has to escape.
pub open spec fn plain(s: Seq<char>) -> bool {
    forall|i: int|
        0 <= i < s.len() ==> {
            &&& #[trigger] s[i] != '"'
            &&& s[i] != '\\'
            &&& s[i] >= ' '
        }
}

pub open spec fn names(members: Seq<(Seq<char>, Doc)>) -> Seq<Seq<char>> {
    Seq::new(members.len(), |i: int| members[i].0)
}

/// The text is JSON: what is written as it is needs no escapes, no object
/// names a member twice, and at most `depth` arrays and objects lie within
/// each other.
pub open spec fn readable(d: Doc, depth: nat) -> bool
    decreases d,
{
    match d {
        Doc::Number(_) | Doc::Bool(_) | Doc::Text(_) => true,
        Doc::Quoted(s) => plain(s),
        Doc::Array(items) => {
            &&& depth > 0
            &&& forall|i: int|
                0 <= i < items.len() ==> readable(#[trigger] items[i], (depth - 1) as nat)
        },
        Doc::Object(members) => {
            &&& depth > 0
            &&& names(members).no_duplicates()
            &&& forall|i: int|
                0 <= i < members.len() ==> {
                    &&& plain((#[trigger] members[i]).0)
                    &&& readable(members[i].1, (depth - 1) as nat)
                }
        },
    }
}

/// What a JSON text denotes.
pub open spec fn doc_value(d: Doc) -> JsonView
    decreases d,
{
    match d {
        Doc::Number(n) => JsonView::Number(Some(n), decimal(n as nat)),
        Doc::Bool(b) => JsonView::Bool(b),
        Doc::Text(s) => JsonView::Text(s),
        Doc::Quoted(s) => JsonView::Text(s),
        Doc::Array(items) => JsonView::Array(doc_values(items)),
        Doc::Object(members) => JsonView::Object(object_of(doc_members(members))),
    }
}

pub open spec fn doc_values(items: Seq<Doc>) -> Seq<JsonView>
    decreases items,
{
    Seq::new(
        items.len(),
        |i: int|
            if 0 <= i < items.len() {
                doc_value(items[i])
            } else {
                arbitrary()
            },
    )
}

pub open spec fn doc_members(members: Seq<(Seq<char>, Doc)>) -> Seq<(Seq<char>, JsonView)>
    decreases members,
{
    Seq::new(
        members.len(),
        |i: int|
            if 0 <= i < members.len() {
                (members[i].0, doc_value(members[i].1))
            } else {
                arbitrary()
            },
    )
}

/// The deepest nesting of arrays and objects that the parser follows.
pub open spec fn depth_limit() -> nat {
    127
}

/// The bytes are the text `d` and a line break, and the parser follows it to
/// its end.
pub open spec fn spells(bytes: Seq<u8>, d: Doc) -> bool {
    &&& bytes == doc_text(d) + seq![0x0au8]
    &&& readable(d, depth_limit())
}

/// `serde_json::from_slice`: the value that a JSON text denotes, or an error,
/// by the bytes alone. A text that follows the JSON grammar, closed by a line
/// break, is read as what it denotes, down to the parser's recursion limit of
/// 127 nested arrays and objects. Which other texts are read, and which error
/// comes, is left to the names.
#[verifier::external_body]
fn parse_value(bytes: &[u8]) -> (r: Result<serde_json::Value, String>)
    ensures
        r is Ok ==> parsed_json(bytes@) == Ok::<JsonView, Seq<char>>(value_contents(r->Ok_0)),
        r is Err ==> parsed_json(bytes@) == Err::<JsonView, Seq<char>>(r->Err_0@),
        forall|d: Doc| #[trigger]
            spells(bytes@, d) ==> r is Ok && value_contents(r->Ok_0) == doc_value(d),
{
    serde_json::from_slice(bytes).map_err(|e: serde_json::Error| e.to_string())
}

/// A parsed value, taken apart by one level.
enum Parts {
    Null,
    Bool(bool),
    Number(Option<u64>, String),
    Text(String),
    Array(Vec<serde_json::Value>),
    Object(Vec<(String, serde_json::Value)>),
}

/// The variants of `serde_json::Value`, with the notation of a number from its
/// `Display` and its value from `Number::as_u64`. An object names no member
/// twice.
#[verifier::external_body]
fn take_apart(v: serde_json::Value) -> (r: Parts)
    ensures
        match r {
            Parts::Null => value_contents(v) == JsonView::Null,
            Parts::Bool(b) => value_contents(v) == JsonView::Bool(b),
            Parts::Number(n, s) => value_contents(v) == JsonView::Number(n, s@),
            Parts::Text(s) => value_contents(v) == JsonView::Text(s@),
            Parts::Array(items) => value_contents(v) == JsonView::Array(value_items(items@)),
            Parts::Object(members) => {
                &&& value_contents(v) == JsonView::Object(object_of(value_members(members@)))
                &&& forall|i: int, j: int|
                    0 <= i < j < members@.len() ==> (#[trigger] members@[i]).0@ != (
                    #[trigger] members@[j]).0@
            },
        },
{
    match v {
        serde_json::Value::Null => Parts::Null,
        serde_json::Value::Bool(b) => Parts::Bool(b),
        serde_json::Value::Number(n) => Parts::Number(n.as_u64(), n.to_string()),
        serde_json::Value::String(s) => Parts::Text(s),
        serde_json::Value::Array(items) => Parts::Array(items),
        serde_json::Value::Object(members) => Parts::Object(members.into_iter().collect()),
    }
}

proof fn lemma_object_members(members: Seq<(Seq<char>, JsonView)>, i: int)
    requires
        0 <= i < members.len(),
        forall|a: int, b: int| 0 <= a < b < members.len() ==> members[a].0 != members[b].0,
    ensures
        object_of(members).dom().finite(),
        object_of(members).contains_key(members[i].0),
        object_of(members)[members[i].0] == members[i].1,
    decreases members.len(),
{
    lemma_object_finite(members.drop_last());
    if i < members.len() - 1 {
        assert(members.drop_last()[i] == members[i]);
        lemma_object_members(members.drop_last(), i);
        assert(members[i].0 != members[members.len() - 1].0);
    }
}

proof fn lemma_object_finite(members: Seq<(Seq<char>, JsonView)>)
    ensures
        object_of(members).dom().finite(),
    decreases members.len(),
{
    if members.len() > 0 {
        lemma_object_finite(members.drop_last());
    }
}

/// The parsed value as a value of this library.
fn to_json(v: serde_json::Value) -> (r: Json)
    ensures
        r@ == value_contents(v),
    decreases value_contents(v),
{
    match take_apart(v) {
        Parts::Null => Json::Null,
        Parts::Bool(b) => Json::Bool(b),
        Parts::Number(n, s) => Json::Number(n, s),
        Parts::Text(s) => Json::Text(s),
        Parts::Array(items) => {
            let ghost all = items@;
            let mut out: Vec<Json> = Vec::new();
            for item in it: items
                invariant
                    it.seq() == all,
                    value_contents(v) == JsonView::Array(value_items(all)),
                    out@.len() == it.index(),
                    forall|i: int|
                        0 <= i < out@.len() ==> (#[trigger] out@[i])@ == value_contents(all[i]),
            {
                proof {
                    let w = value_contents(v);
                    let k = it.index() as int;
                    assert(w->Array_0[k] == value_contents(item));
                    assert(decreases_to!(w => w->Array_0));
                    assert(decreases_to!(w->Array_0 => w->Array_0[k]));
                }
                out.push(to_json(item));
            }
            proof {
                assert(json_items(out@) =~= value_items(all));
            }
            Json::Array(out)
        },
        Parts::Object(members) => {
            let ghost all = members@;
            let mut out: Vec<(String, Json)> = Vec::new();
            for member in it: members
                invariant
                    it.seq() == all,
                    value_contents(v) == JsonView::Object(object_of(value_members(all))),
                    forall|i: int, j: int|
                        0 <= i < j < all.len() ==> (#[trigger] all[i]).0@ != (
                        #[trigger] all[j]).0@,
                    out@.len() == it.index(),
                    forall|i: int|
                        0 <= i < out@.len() ==> (#[trigger] out@[i]).0@ == all[i].0@
                            && out@[i].1@ == value_contents(all[i].1),
            {
                proof {
                    let k = it.index() as int;
                    assert(value_members(all)[k] == (all[k].0@, value_contents(all[k].1)));
                    lemma_object_members(value_members(all), k);
                    let w = value_contents(v);
                    let key = all[k].0@;
                    assert(decreases_to!(w => w->Object_0));
                    assert(decreases_to!(w->Object_0 => w->Object_0[key]));
                }
                let (name, value) = member;
                out.push((name, to_json(value)));
            }
            proof {
                assert(json_members(out@) =~= value_members(all));
            }
            Json::Object(out)
        },
    }
}

/// Reads a JSON text.
pub fn read_json(bytes: &[u8]) -> (r: Result<Json, String>)
    ensures
        r is Ok ==> parsed_json(bytes@) == Ok::<JsonView, Seq<char>>(r->Ok_0@),
        r is Err ==> parsed_json(bytes@) == Err::<JsonView, Seq<char>>(r->Err_0@),
        forall|d: Doc| #[trigger] spells(bytes@, d) ==> r is Ok && r->Ok_0@ == doc_value(d),
{
    match parse_value(bytes) {
        Ok(v) => Ok(to_json(v)),
        Err(message) => Err(message),
    }
}

/// A character of a string, as `serde_json` writes it.
pub open spec fn char_notation(c: char) -> Seq<char> {
    if c == '"' || c == '\\' {
        seq!['\\', c]
    } else if c == '\n' {
        seq!['\\', 'n']
    } else if c == '\r' {
        seq!['\\', 'r']
    } else if c == '\t' {
        seq!['\\', 't']
    } else if c == '\u{8}' {
        seq!['\\', 'b']
    } else if c == '\u{c}' {
        seq!['\\', 'f']
    } else if !(c >= ' ') {
        seq![
            '\\',
            'u',
            '0',
            '0',
            hex_digit(c as int / 16) as char,
            hex_digit(c as int % 16) as char,
        ]
    } else {
        seq![c]
    }
}

/// The characters of a string, each as `serde_json` writes it.
pub open spec fn chars_notation(s: Seq<char>) -> Seq<char>
    decreases s.len(),
{
    if s.len() == 0 {
        Seq::empty()
    } else {
        chars_notation(s.drop_last()) + char_notation(s.last())
    }
}

/// How `serde_json` writes a string: between quotes and with escapes.
pub open spec fn string_notation(s: Seq<char>) -> Seq<char> {
    seq!['"'] + chars_notation(s) + seq!['"']
}

/// `Display` of a `serde_json::Value` that holds a string: the string between
/// quotes, with a backslash before quotes and backslashes, the short escapes
/// of JSON, and `\u00` and two digits for the other control characters before
/// the space.
#[verifier::external_body]
fn write_string(s: &str) -> (r: String)
    ensures
        r@ == string_notation(s@),
{
    serde_json::Value::String(s.to_owned()).to_string()
}

/// The notation of a value that is neither an array nor an object.
pub open spec fn scalar_notation(v: JsonView) -> Seq<char> {
    match v {
        JsonView::Null => "null"@,
        JsonView::Bool(b) => if b {
            "true"@
        } else {
            "false"@
        },
        JsonView::Number(_, notation) => notation,
        JsonView::Text(s) => string_notation(s),
        _ => ""@,
    }
}

/// The notation of a value that is neither an array nor an object.
pub fn scalar_text(v: &Json) -> (r: String)
    ensures
        r@ == scalar_notation(v@),
{
    match v {
        Json::Null => "null".to_owned(),
        Json::Bool(b) => if *b {
            "true".to_owned()
        } else {
            "false".to_owned()
        },
        Json::Number(_, notation) => notation.clone(),
        Json::Text(s) => write_string(s.as_str()),
        _ => "".to_owned(),
    }
}

/// The member of that name.
pub open spec fn field(m: Map<Seq<char>, JsonView>, key: Seq<char>) -> Option<JsonView> {
    if m.contains_key(key) {
        Some(m[key])
    } else {
        None
    }
}

/// The member of that name, if it is a `u64`.
pub open spec fn number_field(m: Map<Seq<char>, JsonView>, key: Seq<char>) -> Option<u64> {
    match field(m, key) {
        Some(JsonView::Number(n, _)) => n,
        _ => None,
    }
}

/// The member of that name, if it is a string.
pub open spec fn text_field(m: Map<Seq<char>, JsonView>, key: Seq<char>) -> Option<Seq<char>> {
    match field(m, key) {
        Some(JsonView::Text(s)) => Some(s),
        _ => None,
    }
}

/// Whether the member of that name is `true`.
pub open spec fn flag_field(m: Map<Seq<char>, JsonView>, key: Seq<char>) -> bool {
    field(m, key) == Some(JsonView::Bool(true))
}

/// What the members of an object say by name.
pub open spec fn object_view(members: Seq<(String, Json)>) -> Map<Seq<char>, JsonView> {
    object_of(json_members(members))
}

proof fn lemma_lookup(members: Seq<(Seq<char>, JsonView)>, key: Seq<char>, i: int)
    requires
        -1 <= i < members.len(),
        i >= 0 ==> members[i].0 == key,
        forall|j: int| i < j < members.len() ==> (#[trigger] members[j]).0 != key,
    ensures
        field(object_of(members), key) == (if i >= 0 {
            Some(members[i].1)
        } else {
            None
        }),
    decreases members.len(),
{
    if members.len() > 0 && i < members.len() - 1 {
        let front = members.drop_last();
        assert(members[members.len() - 1].0 != key);
        assert(i >= 0 ==> front[i] == members[i]);
        assert forall|j: int| i < j < front.len() implies (#[trigger] front[j]).0 != key by {
            assert(front[j] == members[j]);
        }
        lemma_lookup(front, key, i);
    }
}

/// The member of that name.
pub fn find_member<'a>(members: &'a Vec<(String, Json)>, key: &str) -> (r: Option<&'a Json>)
    ensures
        field(object_view(members@), key@) == match r {
            Some(v) => Some(v@),
            None => None,
        },
{
    let ghost all = json_members(members@);
    let mut i: usize = members.len();
    while i > 0
        invariant
            i <= members@.len(),
            all == json_members(members@),
            forall|j: int| i <= j < all.len() ==> (#[trigger] all[j]).0 != key@,
        decreases i,
    {
        i -= 1;
        if same_text(&members[i].0, key) {
            proof {
                lemma_lookup(all, key@, i as int);
            }
            return Some(&members[i].1);
        }
    }
    proof {
        lemma_lookup(all, key@, -1);
    }
    None
}

/// The member of that name, if it is a `u64`.
pub fn find_number(members: &Vec<(String, Json)>, key: &str) -> (r: Option<u64>)
    ensures
        r == number_field(object_view(members@), key@),
{
    match find_member(members, key) {
        Some(Json::Number(n, _)) => *n,
        _ => None,
    }
}

/// The member of that name, if it is a string.
pub fn find_text<'a>(members: &'a Vec<(String, Json)>, key: &str) -> (r: Option<&'a String>)
    ensures
        text_field(object_view(members@), key@) == match r {
            Some(s) => Some(s@),
            None => None,
        },
{
    match find_member(members, key) {
        Some(Json::Text(s)) => Some(s),
        _ => None,
    }
}

/// Whether the member of that name is `true`.
pub fn find_flag(members: &Vec<(String, Json)>, key: &str) -> (r: bool)
    ensures
        r == flag_field(object_view(members@), key@),
{
    match find_member(members, key) {
        Some(Json::Bool(b)) => *b,
        _ => false,
    }
}

} // verus!
