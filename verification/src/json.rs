//! JSON values, their compact text, and reading and writing them with `serde_json`.

use vstd::prelude::*;
use vstd::utf8::*;
use crate::json_order::{arrange, arranged, law_arranged_is_ordered, law_ordered_is_arranged};
use crate::mcp_writers::json_span::well_formed;
use crate::order::lex_less;
use crate::text::{decimal, hex_digit, same};

verus! {

/// The declaration of the outside type `serde_json::Value`.
#[verifier::external_type_specification]
#[verifier::external_body]
pub struct ExValue(serde_json::Value);

/// The declaration of the outside type `serde_json::Number`.
#[verifier::external_type_specification]
#[verifier::external_body]
pub struct ExNumber(serde_json::Number);

/// A number as `serde_json` holds it. Only [`parse_json`], [`copy_json`] and [`number_of`] make
/// one.
#[derive(Debug, PartialEq)]
pub struct JsonNumber {
    raw: serde_json::Number,
}

/// A JSON value. The members of an object that was read stand in the order of their keys.
#[derive(Debug, PartialEq)]
pub enum Json {
    Null,
    Bool(bool),
    Number(JsonNumber),
    Text(String),
    List(Vec<Json>),
    Object(Vec<(String, Json)>),
}

/// What a [`Json`] holds; of a number its value as `u64` and `i64` and its text.
pub ghost enum JsonTree {
    Null,
    Bool(bool),
    Number(Option<u64>, Option<i64>, Seq<char>),
    Text(Seq<char>),
    List(Seq<JsonTree>),
    Object(Seq<(Seq<char>, JsonTree)>),
}

/// What `serde_json::Number::as_u64` gives: the value, where it is a 64-bit unsigned integer.
pub uninterp spec fn number_u64(n: serde_json::Number) -> Option<u64>;

/// What `serde_json::Number::as_i64` gives: the value, where it is a 64-bit signed integer.
pub uninterp spec fn number_i64(n: serde_json::Number) -> Option<i64>;

/// What `serde_json::Number::to_string` gives.
pub uninterp spec fn number_text(n: serde_json::Number) -> Seq<char>;

impl JsonNumber {
    pub closed spec fn unsigned_value(self) -> Option<u64> {
        number_u64(self.raw)
    }

    pub closed spec fn signed_value(self) -> Option<i64> {
        number_i64(self.raw)
    }

    pub closed spec fn digits(self) -> Seq<char> {
        number_text(self.raw)
    }
}

pub open spec fn tree(json: Json) -> JsonTree
    decreases json,
{
    match json {
        Json::Null => JsonTree::Null,
        Json::Bool(b) => JsonTree::Bool(b),
        Json::Number(n) => JsonTree::Number(n.unsigned_value(), n.signed_value(), n.digits()),
        Json::Text(s) => JsonTree::Text(s@),
        Json::List(items) => JsonTree::List(
            Seq::new(
                items@.len(),
                |i: int|
                    if 0 <= i < items@.len() {
                        tree(items@[i])
                    } else {
                        JsonTree::Null
                    },
            ),
        ),
        Json::Object(members) => JsonTree::Object(
            Seq::new(
                members@.len(),
                |i: int|
                    if 0 <= i < members@.len() {
                        (members@[i].0@, tree(members@[i].1))
                    } else {
                        (Seq::empty(), JsonTree::Null)
                    },
            ),
        ),
    }
}

impl View for Json {
    type V = JsonTree;

    open spec fn view(&self) -> JsonTree {
        tree(*self)
    }
}

/// A character as it stands in a JSON string.
pub open spec fn escaped(c: char) -> Seq<char> {
    if c == '"' {
        seq!['\\', '"']
    } else if c == '\\' {
        seq!['\\', '\\']
    } else if c == '\u{8}' {
        seq!['\\', 'b']
    } else if c == '\u{c}' {
        seq!['\\', 'f']
    } else if c == '\n' {
        seq!['\\', 'n']
    } else if c == '\r' {
        seq!['\\', 'r']
    } else if c == '\t' {
        seq!['\\', 't']
    } else if !(c >= ' ') {
        seq!['\\', 'u', '0', '0', hex_digit(c as int / 16), hex_digit(c as int % 16)]
    } else {
        seq![c]
    }
}

pub open spec fn escaped_all(s: Seq<char>) -> Seq<char>
    decreases s.len(),
{
    if s.len() == 0 {
        s
    } else {
        escaped(s[0]) + escaped_all(s.drop_first())
    }
}

/// The text as a JSON string, quotes included.
pub open spec fn quoted(s: Seq<char>) -> Seq<char> {
    seq!['"'] + escaped_all(s) + seq!['"']
}

/// The JSON text of a value without any white space.
pub open spec fn compact(v: JsonTree) -> Seq<char>
    decreases v,
{
    match v {
        JsonTree::Null => seq!['n', 'u', 'l', 'l'],
        JsonTree::Bool(true) => seq!['t', 'r', 'u', 'e'],
        JsonTree::Bool(false) => seq!['f', 'a', 'l', 's', 'e'],
        JsonTree::Number(_, _, text) => text,
        JsonTree::Text(s) => quoted(s),
        JsonTree::List(items) => if items.len() == 0 {
            seq!['[', ']']
        } else {
            seq!['['] + compact(items[0]) + compact_items(items.drop_first()) + seq![']']
        },
        JsonTree::Object(members) => if members.len() == 0 {
            seq!['{', '}']
        } else {
            seq!['{'] + quoted(members[0].0) + seq![':'] + compact(members[0].1) + compact_members(
                members.drop_first(),
            ) + seq!['}']
        },
    }
}

/// The items of a list that follow another one.
pub open spec fn compact_items(items: Seq<JsonTree>) -> Seq<char>
    decreases items,
{
    if items.len() == 0 {
        Seq::empty()
    } else {
        seq![','] + compact(items[0]) + compact_items(items.drop_first())
    }
}

/// The members of an object that follow another one.
pub open spec fn compact_members(members: Seq<(Seq<char>, JsonTree)>) -> Seq<char>
    decreases members,
{
    if members.len() == 0 {
        Seq::empty()
    } else {
        seq![','] + quoted(members[0].0) + seq![':'] + compact(members[0].1) + compact_members(
            members.drop_first(),
        )
    }
}

pub open spec fn member_keys_ascend(members: Seq<(Seq<char>, JsonTree)>) -> bool {
    forall|i: int, j: int|
        0 <= i < j < members.len() ==> lex_less((#[trigger] members[i]).0, (#[trigger] members[j]).0)
}

/// In every object the keys come in ascending order.
pub open spec fn ordered(v: JsonTree) -> bool
    decreases v,
{
    match v {
        JsonTree::List(items) => forall|i: int| 0 <= i < items.len() ==> ordered(#[trigger] items[i]),
        JsonTree::Object(members) => member_keys_ascend(members) && forall|i: int|
            0 <= i < members.len() ==> ordered((#[trigger] members[i]).1),
        _ => true,
    }
}

/// Whether the value holds no number and nests no deeper than `depth`.
pub open spec fn plain(v: JsonTree, depth: nat) -> bool
    decreases v,
{
    match v {
        JsonTree::Number(_, _, _) => false,
        JsonTree::List(items) => depth > 0 && forall|i: int|
            0 <= i < items.len() ==> plain(#[trigger] items[i], (depth - 1) as nat),
        JsonTree::Object(members) => depth > 0 && forall|i: int|
            0 <= i < members.len() ==> plain((#[trigger] members[i]).1, (depth - 1) as nat),
        _ => true,
    }
}

/// Whether a number is a 64-bit integer, with its decimal text.
pub open spec fn is_integer(unsigned: Option<u64>, signed: Option<i64>, text: Seq<char>) -> bool {
    match unsigned {
        Some(n) => text == decimal(n as int) && signed == if n <= i64::MAX {
            Some(n as i64)
        } else {
            None
        },
        None => signed matches Some(n) && n < 0 && text == decimal(n as int),
    }
}

/// Whether the numbers in the value are 64-bit integers, and it nests no deeper than `depth`.
pub open spec fn whole(v: JsonTree, depth: nat) -> bool
    decreases v,
{
    match v {
        JsonTree::Number(unsigned, signed, text) => is_integer(unsigned, signed, text),
        JsonTree::List(items) => depth > 0 && forall|i: int|
            0 <= i < items.len() ==> whole(#[trigger] items[i], (depth - 1) as nat),
        JsonTree::Object(members) => depth > 0 && forall|i: int|
            0 <= i < members.len() ==> whole((#[trigger] members[i]).1, (depth - 1) as nat),
        _ => true,
    }
}

/// A value without numbers has no other numbers than integers.
pub proof fn law_plain_is_whole(v: JsonTree, depth: nat)
    requires
        plain(v, depth),
    ensures
        whole(v, depth),
    decreases v,
{
    match v {
        JsonTree::List(items) => {
            assert forall|i: int| 0 <= i < items.len() implies whole(
                #[trigger] items[i],
                (depth - 1) as nat,
            ) by {
                law_plain_is_whole(items[i], (depth - 1) as nat);
            }
        },
        JsonTree::Object(members) => {
            assert forall|i: int| 0 <= i < members.len() implies whole(
                (#[trigger] members[i]).1,
                (depth - 1) as nat,
            ) by {
                law_plain_is_whole(members[i].1, (depth - 1) as nat);
            }
        },
        _ => {},
    }
}

/// The value of the member with `key`, where the value is an object that has one.
pub open spec fn member(v: JsonTree, key: Seq<char>) -> Option<JsonTree> {
    match v {
        JsonTree::Object(members) => lookup(members, key),
        _ => None,
    }
}

pub open spec fn lookup(members: Seq<(Seq<char>, JsonTree)>, key: Seq<char>) -> Option<JsonTree>
    decreases members.len(),
{
    if members.len() == 0 {
        None
    } else if members[0].0 == key {
        Some(members[0].1)
    } else {
        lookup(members.drop_first(), key)
    }
}

pub open spec fn text_of(v: JsonTree) -> Option<Seq<char>> {
    match v {
        JsonTree::Text(s) => Some(s),
        _ => None,
    }
}

/// The text of the member with `key`.
pub open spec fn text_member(v: JsonTree, key: Seq<char>) -> Option<Seq<char>> {
    match member(v, key) {
        Some(value) => text_of(value),
        None => None,
    }
}

/// What a `serde_json::Value` holds.
pub uninterp spec fn value_content(value: serde_json::Value) -> JsonTree;

/// What `serde_json::from_str` makes of a text as a value: what it holds, or the message
/// of the error.
pub uninterp spec fn json_document(text: Seq<char>) -> Result<JsonTree, Seq<char>>;

pub open spec fn reads_as(text: Seq<char>, v: JsonTree) -> bool {
    json_document(text) == Ok::<JsonTree, Seq<char>>(v)
}

pub open spec fn fails_with(text: Seq<char>, message: Seq<char>) -> bool {
    json_document(text) == Err::<JsonTree, Seq<char>>(message)
}

/// What `serde_json::from_str` makes of a text as a string.
pub uninterp spec fn json_string_value(text: Seq<char>) -> Option<Seq<char>>;

/// `serde_json::from_str` for a value. Claimed: the outcome is a function of the text; and a
/// text that it accepts is made of strings, white space, punctuation, and literals that hold
/// no quote, and every `{` in it outside of strings, that of the text itself if it is an object
/// too, starts an object: the `{`, members with commas between them, and a `}`.
#[verifier::external_body]
fn value_from_text(text: &str) -> (r: Result<serde_json::Value, String>)
    ensures
        match r {
            Ok(value) => json_document(text@) == Ok::<JsonTree, Seq<char>>(value_content(value))
                && well_formed(encode_utf8(text@)),
            Err(message) => json_document(text@) == Err::<JsonTree, Seq<char>>(message@),
        },
{
    serde_json::from_str::<serde_json::Value>(text).map_err(|e| e.to_string())
}

/// The variants of `serde_json::Value`, one for one. Claimed besides: its maps hand out
/// their members in the order of the keys.
#[verifier::external_body]
fn json_of_value(value: serde_json::Value) -> (r: Json)
    ensures
        r@ == value_content(value),
        ordered(r@),
{
    match value {
        serde_json::Value::Null => Json::Null,
        serde_json::Value::Bool(b) => Json::Bool(b),
        serde_json::Value::Number(n) => Json::Number(JsonNumber { raw: n }),
        serde_json::Value::String(s) => Json::Text(s),
        serde_json::Value::Array(items) => Json::List(
            items.into_iter().map(json_of_value).collect(),
        ),
        serde_json::Value::Object(map) => Json::Object(
            map.into_iter().map(|(key, value)| (key, json_of_value(value))).collect(),
        ),
    }
}

/// The variants of `serde_json::Value`, one for one. Its maps order their members by key,
/// so the members must come in that order.
#[verifier::external_body]
fn value_of_json(json: &Json) -> (r: serde_json::Value)
    requires
        ordered(json@),
    ensures
        value_content(r) == json@,
{
    match json {
        Json::Null => serde_json::Value::Null,
        Json::Bool(b) => serde_json::Value::Bool(*b),
        Json::Number(n) => serde_json::Value::Number(n.raw.clone()),
        Json::Text(s) => serde_json::Value::String(s.clone()),
        Json::List(items) => serde_json::Value::Array(items.iter().map(value_of_json).collect()),
        Json::Object(members) => serde_json::Value::Object(
            members.iter().map(|(key, value)| (key.clone(), value_of_json(value))).collect(),
        ),
    }
}

/// `serde_json::Value::to_string`. Claimed: it writes the compact text; and
/// `serde_json::from_str` reads a value whose numbers are 64-bit integers back from it, as long
/// as it nests less deep than the parser's limit of 128. Nothing is claimed of fractions, which
/// the parser may round.
#[verifier::external_body]
fn value_text(value: &serde_json::Value) -> (r: String)
    ensures
        r@ == compact(value_content(*value)),
        whole(value_content(*value), 100) ==> reads_as(r@, value_content(*value)),
{
    value.to_string()
}

/// `serde_json::to_string` for a string. Claimed: quotes round the characters, with quote,
/// backslash and the ASCII control characters escaped; and `serde_json::from_str` reads the
/// string back from it.
#[verifier::external_body]
fn string_text(text: &str) -> (r: Result<String, String>)
    ensures
        match r {
            Ok(s) => s@ == quoted(text@) && json_string_value(s@) == Some(text@),
            Err(_) => false,
        },
{
    serde_json::to_string(text).map_err(|e| e.to_string())
}

/// `serde_json::from_str` for a string. Claimed: the outcome is a function of the text.
#[verifier::external_body]
pub(crate) fn decode_json_string(text: &str) -> (r: Option<String>)
    ensures
        r.deep_view() == json_string_value(text@),
{
    serde_json::from_str::<String>(text).ok()
}

/// The value that a text writes, or why it writes none.
pub fn parse_json(text: &str) -> (r: Result<Json, String>)
    ensures
        match r {
            Ok(json) => reads_as(text@, json@) && ordered(json@) && well_formed(encode_utf8(text@)),
            Err(message) => fails_with(text@, message@),
        },
{
    match value_from_text(text) {
        Ok(value) => Ok(json_of_value(value)),
        Err(message) => Err(message),
    }
}

/// The compact text of a value, the members of its objects in the order of their keys.
pub fn json_text(json: &Json) -> (r: String)
    ensures
        r@ == compact(arranged(json@)),
        whole(arranged(json@), 100) ==> reads_as(r@, arranged(json@)),
        ordered(json@) ==> r@ == compact(json@),
        ordered(json@) && whole(json@, 100) ==> reads_as(r@, json@),
        ordered(json@) && plain(json@, 100) ==> reads_as(r@, json@),
{
    proof {
        if plain(json@, 100) {
            law_plain_is_whole(json@, 100);
        }
        law_arranged_is_ordered(json@);
        if ordered(json@) {
            law_ordered_is_arranged(json@);
        }
    }
    value_text(&value_of_json(&arrange(json)))
}

/// The text as a JSON string.
pub fn json_string(text: &str) -> (r: String)
    ensures
        r@ == quoted(text@),
        json_string_value(r@) == Some(text@),
{
    match string_text(text) {
        Ok(s) => s,
        Err(message) => message,
    }
}

/// `serde_json::Number::from` for a `u64`. Claimed: its value as `u64` is the number, as `i64`
/// where it fits, and its text is the decimal one.
#[verifier::external_body]
fn raw_number(n: u64) -> (r: serde_json::Number)
    ensures
        number_u64(r) == Some(n),
        number_i64(r) == (if n <= i64::MAX {
            Some(n as i64)
        } else {
            None
        }),
        number_text(r) == decimal(n as int),
{
    serde_json::Number::from(n)
}

/// `serde_json::Number::as_u64`. Claimed: the result is a function of the number.
#[verifier::external_body]
fn raw_as_u64(raw: &serde_json::Number) -> (r: Option<u64>)
    ensures
        r == number_u64(*raw),
{
    raw.as_u64()
}

/// `serde_json::Number::as_i64`. Claimed: the result is a function of the number.
#[verifier::external_body]
fn raw_as_i64(raw: &serde_json::Number) -> (r: Option<i64>)
    ensures
        r == number_i64(*raw),
{
    raw.as_i64()
}

/// `serde_json::Number::to_string`. Claimed: the result is a function of the number.
#[verifier::external_body]
fn raw_text(raw: &serde_json::Number) -> (r: String)
    ensures
        r@ == number_text(*raw),
{
    raw.to_string()
}

/// The number that a `u64` is.
pub(crate) fn number_of(n: u64) -> (r: JsonNumber)
    ensures
        r.unsigned_value() == Some(n),
        r.signed_value() == (if n <= i64::MAX {
            Some(n as i64)
        } else {
            None
        }),
        r.digits() == decimal(n as int),
{
    JsonNumber { raw: raw_number(n) }
}

/// `Clone::clone` of `serde_json::Number`. Claimed: the copy is the same number.
#[verifier::external_body]
fn copy_raw(raw: &serde_json::Number) -> (r: serde_json::Number)
    ensures
        r == *raw,
{
    raw.clone()
}

/// A value that holds the same.
pub fn copy_json(json: &Json) -> (r: Json)
    ensures
        r@ == json@,
    decreases json,
{
    match json {
        Json::Null => Json::Null,
        Json::Bool(b) => Json::Bool(*b),
        Json::Number(n) => Json::Number(JsonNumber { raw: copy_raw(&n.raw) }),
        Json::Text(s) => Json::Text(s.clone()),
        Json::List(items) => {
            let mut copies: Vec<Json> = Vec::new();
            let mut i: usize = 0;
            while i < items.len()
                invariant
                    i <= items.len(),
                    copies@.len() == i,
                    *json == Json::List(*items),
                    forall|k: int| 0 <= k < i ==> tree(#[trigger] copies@[k]) == tree(items@[k]),
                decreases items.len() - i,
            {
                assert(*json is List && json->List_0 == *items);
                assert(decreases_to!(*json => json->List_0));
                assert(decreases_to!(*items => items@[i as int]));
                let copy = copy_json(&items[i]);
                copies.push(copy);
                i = i + 1;
            }
            let r = Json::List(copies);
            assert(tree(r)->List_0 =~= tree(*json)->List_0);
            r
        },
        Json::Object(members) => {
            let mut copies: Vec<(String, Json)> = Vec::new();
            let mut i: usize = 0;
            while i < members.len()
                invariant
                    i <= members.len(),
                    copies@.len() == i,
                    *json == Json::Object(*members),
                    forall|k: int|
                        0 <= k < i ==> (#[trigger] copies@[k]).0@ == members@[k].0@ && tree(
                            copies@[k].1,
                        ) == tree(members@[k].1),
                decreases members.len() - i,
            {
                assert(*json is Object && json->Object_0 == *members);
                assert(decreases_to!(*json => json->Object_0));
                assert(decreases_to!(*members => members@[i as int].1));
                let copy = copy_json(&members[i].1);
                copies.push((members[i].0.clone(), copy));
                i = i + 1;
            }
            let r = Json::Object(copies);
            assert(tree(r)->Object_0 =~= tree(*json)->Object_0);
            r
        },
    }
}

/// Whether two values hold the same.
pub fn same_json(a: &Json, b: &Json) -> (r: bool)
    ensures
        r == (a@ == b@),
    decreases a,
{
    proof {
        reveal_with_fuel(tree, 2);
    }
    match (a, b) {
        (Json::Null, Json::Null) => true,
        (Json::Bool(x), Json::Bool(y)) => *x == *y,
        (Json::Number(x), Json::Number(y)) => raw_as_u64(&x.raw) == raw_as_u64(&y.raw)
            && raw_as_i64(&x.raw) == raw_as_i64(&y.raw) && same(
            raw_text(&x.raw).as_str(),
            raw_text(&y.raw).as_str(),
        ),
        (Json::Text(x), Json::Text(y)) => same(x.as_str(), y.as_str()),
        (Json::List(x), Json::List(y)) => {
            if x.len() != y.len() {
                assert(a@->List_0.len() != b@->List_0.len());
                return false;
            }
            let mut i: usize = 0;
            while i < x.len()
                invariant
                    i <= x.len() == y.len(),
                    *a == Json::List(*x),
                    *b == Json::List(*y),
                    forall|k: int| 0 <= k < i ==> tree(#[trigger] x@[k]) == tree(y@[k]),
                decreases x.len() - i,
            {
                if !same_json(&x[i], &y[i]) {
                    proof {
                        reveal_with_fuel(tree, 2);
                        assert(a@->List_0[i as int] != b@->List_0[i as int]);
                    }
                    return false;
                }
                i = i + 1;
            }
            assert(a@->List_0 =~= b@->List_0);
            true
        },
        (Json::Object(x), Json::Object(y)) => {
            if x.len() != y.len() {
                assert(a@->Object_0.len() != b@->Object_0.len());
                return false;
            }
            let mut i: usize = 0;
            while i < x.len()
                invariant
                    i <= x.len() == y.len(),
                    *a == Json::Object(*x),
                    *b == Json::Object(*y),
                    forall|k: int|
                        0 <= k < i ==> (#[trigger] x@[k]).0@ == y@[k].0@ && tree(x@[k].1) == tree(
                            y@[k].1,
                        ),
                decreases x.len() - i,
            {
                if !same(x[i].0.as_str(), y[i].0.as_str()) || !same_json(&x[i].1, &y[i].1) {
                    proof {
                        reveal_with_fuel(tree, 2);
                        assert(a@->Object_0[i as int] != b@->Object_0[i as int]);
                    }
                    return false;
                }
                i = i + 1;
            }
            assert(a@->Object_0 =~= b@->Object_0);
            true
        },
        _ => false,
    }
}

impl Json {
    /// The member with `key`, where this is an object that has one.
    pub fn get(&self, key: &str) -> (r: Option<&Json>)
        ensures
            match r {
                Some(v) => member(self@, key@) == Some(v@) && (ordered(self@) ==> ordered(v@)),
                None => member(self@, key@) is None,
            },
    {
        match self {
            Json::Object(members) => {
                let ghost ms = self@->Object_0;
                let mut i: usize = 0;
                proof {
                    reveal_with_fuel(tree, 2);
                }
                assert(ms.skip(0) =~= ms);
                while i < members.len()
                    invariant
                        i <= members.len(),
                        ms.len() == members.len(),
                        self@ == JsonTree::Object(ms),
                        forall|k: int|
                            0 <= k < ms.len() ==> #[trigger] ms[k] == (
                                members@[k].0@,
                                members@[k].1@,
                            ),
                        lookup(ms, key@) == lookup(ms.skip(i as int), key@),
                    decreases members.len() - i,
                {
                    assert(ms.skip(i as int)[0] == ms[i as int]);
                    assert(ms.skip(i as int).drop_first() =~= ms.skip(i + 1));
                    if same(members[i].0.as_str(), key) {
                        return Some(&members[i].1);
                    }
                    i = i + 1;
                }
                None
            },
            _ => None,
        }
    }

    pub fn as_str(&self) -> (r: Option<&String>)
        ensures
            match r {
                Some(s) => text_of(self@) == Some(s@),
                None => text_of(self@) is None,
            },
    {
        match self {
            Json::Text(s) => Some(s),
            _ => None,
        }
    }

    pub fn as_bool(&self) -> (r: Option<bool>)
        ensures
            r == match self@ {
                JsonTree::Bool(b) => Some(b),
                _ => None,
            },
    {
        match self {
            Json::Bool(b) => Some(*b),
            _ => None,
        }
    }

    pub fn as_u64(&self) -> (r: Option<u64>)
        ensures
            r == match self@ {
                JsonTree::Number(n, _, _) => n,
                _ => None,
            },
    {
        match self {
            Json::Number(n) => raw_as_u64(&n.raw),
            _ => None,
        }
    }

    pub fn as_i64(&self) -> (r: Option<i64>)
        ensures
            r == match self@ {
                JsonTree::Number(_, n, _) => n,
                _ => None,
            },
    {
        match self {
            Json::Number(n) => raw_as_i64(&n.raw),
            _ => None,
        }
    }

    pub fn is_object(&self) -> (r: bool)
        ensures
            r == (self@ is Object),
    {
        match self {
            Json::Object(_) => true,
            _ => false,
        }
    }
}

} // verus!
