//! Byte spans of the members of JSON objects.
//!
//! Writers must not reformat a whole file to insert or delete one member; they
//! need the exact byte ranges of `"key": value` members inside a given object so
//! that they can splice text:
//!
//! * [`find_member`] / [`collect_members`] locate members of the object whose
//!   opening `{` sits at `obj_start`.
//! * [`value_span`] measures any JSON value starting at a given byte offset.
//! * [`object_start`] finds the opening `{` of the value at an offset.
//!
//! Callers are expected to have parsed the text first, so malformed input is
//! "not found". All offsets are byte offsets; every returned range starts and ends
//! where a character does, so a text can be cut there.

use vstd::prelude::*;
use vstd::utf8::*;
use crate::bytes::{
    at_char, lemma_between, lemma_boundary_after_ascii, lemma_boundary_at_ascii, piece,
};
use crate::json::{decode_json_string, json_string_value};
use crate::text::same;

verus! {

/// Byte spans of one object member `"key": value`.
#[derive(Clone, Copy, PartialEq, Eq, Debug)]
pub struct MemberSpan {
    /// Offset of the key's opening quote.
    pub member_start: usize,
    /// Offset just past the end of the value (excludes any trailing comma).
    pub member_end: usize,
    /// Offset of the value's first byte.
    pub value_start: usize,
    /// Offset just past the value's last byte.
    pub value_end: usize,
}

/// Where one member lies: the key's opening quote, the value's first byte, and the byte
/// after the value.
pub ghost struct Member {
    pub start: int,
    pub value: int,
    pub end: int,
}

impl MemberSpan {
    pub open spec fn is_at(self, m: Member) -> bool {
        &&& self.member_start == m.start
        &&& self.value_start == m.value
        &&& self.member_end == m.end
        &&& self.value_end == m.end
    }
}

pub open spec fn is_json_space(b: u8) -> bool {
    b == 0x20 || b == 0x09 || b == 0x0a || b == 0x0d
}

/// How many bytes of JSON white space the text starts with.
pub open spec fn space_len(s: Seq<u8>) -> int
    decreases s.len(),
{
    if s.len() > 0 && is_json_space(s[0]) {
        1 + space_len(s.skip(1))
    } else {
        0
    }
}

/// The length of the rest of a string, up to and with its closing quote. A backslash
/// takes the byte after it with it.
pub open spec fn string_rest_len(s: Seq<u8>) -> Option<int>
    decreases s.len(),
{
    if s.len() == 0 {
        None
    } else if s[0] == 0x22 {
        Some(1)
    } else {
        let step: int = if s[0] == 0x5c {
            2
        } else {
            1
        };
        if s.len() < step {
            None
        } else {
            match string_rest_len(s.skip(step)) {
                Some(n) => Some(n + step),
                None => None,
            }
        }
    }
}

/// The length of the string that starts with the quote `s[0]`.
pub open spec fn string_len(s: Seq<u8>) -> Option<int> {
    if s.len() == 0 {
        None
    } else {
        match string_rest_len(s.skip(1)) {
            Some(n) => Some(n + 1),
            None => None,
        }
    }
}

pub open spec fn opens(b: u8) -> bool {
    b == 0x7b || b == 0x5b
}

pub open spec fn closes(b: u8) -> bool {
    b == 0x7d || b == 0x5d
}

/// Whether the second bracket closes the first.
pub open spec fn pairs(open: u8, close: u8) -> bool {
    (open == 0x7b && close == 0x7d) || (open == 0x5b && close == 0x5d)
}

/// The brackets that are open behind the byte `b`.
pub open spec fn open_after(open: Seq<u8>, b: u8) -> Seq<u8> {
    if opens(b) {
        open.push(b)
    } else if closes(b) {
        open.drop_last()
    } else {
        open
    }
}

/// The length of what is left of a container in which the brackets `open` are open, up to and
/// with the bracket that closes the outermost. Each closes the last one of its own kind that is
/// open, or there is no such length. Brackets in strings do not count.
pub open spec fn container_rest_len(s: Seq<u8>, open: Seq<u8>) -> Option<int>
    decreases s.len(),
{
    if s.len() == 0 {
        None
    } else if s[0] == 0x22 {
        match string_rest_len(s.skip(1)) {
            Some(n) => if 0 <= n < s.len() {
                match container_rest_len(s.skip(n + 1), open) {
                    Some(m) => Some(m + n + 1),
                    None => None,
                }
            } else {
                None
            },
            None => None,
        }
    } else if closes(s[0]) && (open.len() == 0 || !pairs(open.last(), s[0])) {
        None
    } else if closes(s[0]) && open.len() == 1 {
        Some(1)
    } else {
        match container_rest_len(s.skip(1), open_after(open, s[0])) {
            Some(m) => Some(m + 1),
            None => None,
        }
    }
}

pub open spec fn ends_literal(b: u8) -> bool {
    b == 0x2c || opens(b) || closes(b) || is_json_space(b)
}

/// The length of the number, `true`, `false` or `null` that the text starts with.
pub open spec fn literal_len(s: Seq<u8>) -> int
    decreases s.len(),
{
    if s.len() > 0 && !ends_literal(s[0]) {
        1 + literal_len(s.skip(1))
    } else {
        0
    }
}

pub open spec fn starts_literal(b: u8) -> bool {
    b == 0x74 || b == 0x66 || b == 0x6e || b == 0x2d || 0x30 <= b <= 0x39
}

/// The length of the value that starts with `s[0]`.
pub open spec fn value_len(s: Seq<u8>) -> Option<int> {
    if s.len() == 0 {
        None
    } else if s[0] == 0x22 {
        string_len(s)
    } else if opens(s[0]) {
        container_rest_len(s, Seq::empty())
    } else if starts_literal(s[0]) {
        Some(literal_len(s))
    } else {
        None
    }
}

/// What the text holds from byte offset `i` on; nothing past its end.
pub open spec fn rest(b: Seq<u8>, i: int) -> Seq<u8> {
    if 0 <= i <= b.len() {
        b.skip(i)
    } else {
        Seq::empty()
    }
}

/// The byte at offset `i`, if the text has one.
pub open spec fn byte_at(b: Seq<u8>, i: int) -> Option<u8> {
    if 0 <= i < b.len() {
        Some(b[i])
    } else {
        None
    }
}

pub open spec fn after_space(b: Seq<u8>, i: int) -> int {
    i + space_len(rest(b, i))
}

/// The first member of a text that starts with a key's quote, and the offset of the byte
/// that follows it after white space.
#[verifier::opaque]
pub open spec fn first_member(s: Seq<u8>) -> Option<(Member, int)> {
    if s.len() == 0 || s[0] != 0x22 {
        None
    } else {
        match string_len(s) {
            None => None,
            Some(key) => {
                let colon = after_space(s, key);
                if byte_at(s, colon) != Some(0x3au8) {
                    None
                } else {
                    let value = after_space(s, colon + 1);
                    match value_len(rest(s, value)) {
                        None => None,
                        Some(n) => {
                            let end = value + n;
                            Some((Member { start: 0, value, end }, after_space(s, end)))
                        },
                    }
                }
            },
        }
    }
}

pub open spec fn moved(m: Member, by: int) -> Member {
    Member { start: m.start + by, value: m.value + by, end: m.end + by }
}

pub open spec fn moved_all(ms: Seq<Member>, by: int) -> Seq<Member> {
    Seq::new(ms.len(), |i: int| moved(ms[i], by))
}

/// The members of a text that starts with a key's quote, up to the closing brace.
pub open spec fn members_from(s: Seq<u8>) -> Option<Seq<Member>>
    decreases s.len(),
{
    match first_member(s) {
        None => None,
        Some((m, after)) => if byte_at(s, after) == Some(0x7du8) {
            Some(seq![m])
        } else if byte_at(s, after) == Some(0x2cu8) {
            let next = after_space(s, after + 1);
            if 0 < next <= s.len() {
                match members_from(s.skip(next)) {
                    None => None,
                    Some(ms) => Some(seq![m] + moved_all(ms, next)),
                }
            } else {
                None
            }
        } else {
            None
        },
    }
}

/// The members of the object whose `{` is at `at`.
pub open spec fn object_members(b: Seq<u8>, at: int) -> Option<Seq<Member>> {
    if byte_at(b, at) != Some(0x7bu8) {
        None
    } else {
        let first = after_space(b, at + 1);
        if byte_at(b, first) == Some(0x7du8) {
            Some(Seq::empty())
        } else {
            match members_from(rest(b, first)) {
                None => None,
                Some(ms) => Some(moved_all(ms, first)),
            }
        }
    }
}

/// What a quoted key stands for: the text between the quotes, with escapes decoded.
pub open spec fn key_text(quoted: Seq<u8>) -> Option<Seq<char>> {
    let raw = quoted.subrange(1, quoted.len() - 1);
    if raw.contains(0x5c) {
        json_string_value(decode_utf8(quoted))
    } else {
        Some(decode_utf8(raw))
    }
}

/// The key of the member that starts at `at`.
pub open spec fn key_at(b: Seq<u8>, at: int) -> Option<Seq<char>> {
    match string_len(rest(b, at)) {
        Some(n) => key_text(b.subrange(at, at + n)),
        None => None,
    }
}

/// The first member of the list whose key is `key`.
pub open spec fn first_with_key(b: Seq<u8>, ms: Seq<Member>, key: Seq<char>) -> Option<Member>
    decreases ms.len(),
{
    if ms.len() == 0 {
        None
    } else if key_at(b, ms[0].start) == Some(key) {
        Some(ms[0])
    } else {
        first_with_key(b, ms.drop_first(), key)
    }
}

/// The member with `key` in the object whose `{` is at `at`.
pub open spec fn member_of(b: Seq<u8>, at: int, key: Seq<char>) -> Option<Member> {
    match object_members(b, at) {
        None => None,
        Some(ms) => first_with_key(b, ms, key),
    }
}

/// The offset of the `{` of the object that follows white space at `i`.
pub open spec fn object_at(b: Seq<u8>, i: int) -> Option<int> {
    if byte_at(b, after_space(b, i)) == Some(0x7bu8) {
        Some(after_space(b, i))
    } else {
        None
    }
}

/// Whether the text is made of strings, white space, punctuation, and literals that hold no
/// quote. Every text that is JSON is.
pub open spec fn well_lexed(s: Seq<u8>) -> bool
    decreases s.len(),
{
    if s.len() == 0 {
        true
    } else if s[0] == 0x22 {
        match string_len(s) {
            Some(n) => 0 < n <= s.len() && well_lexed(s.skip(n)),
            None => false,
        }
    } else if ends_literal(s[0]) || s[0] == 0x3a {
        well_lexed(s.skip(1))
    } else {
        let n = literal_len(s);
        0 < n <= s.len() && !s.take(n).contains(0x22) && well_lexed(s.skip(n))
    }
}

/// Whether offset `n` of a text that starts outside of strings lies outside of them.
pub open spec fn outside(s: Seq<u8>, n: int) -> bool
    decreases s.len(),
{
    if n == 0 {
        true
    } else if n < 0 || s.len() == 0 {
        false
    } else if s[0] == 0x22 {
        match string_len(s) {
            Some(k) => 0 < k <= s.len() && outside(s.skip(k), n - k),
            None => false,
        }
    } else {
        outside(s.skip(1), n - 1)
    }
}

/// Whether every `{` outside of strings starts an object whose members are found.
#[verifier::opaque]
pub open spec fn objects_found(b: Seq<u8>) -> bool {
    forall|at: int| #[trigger]
        outside(b, at) && byte_at(b, at) == Some(0x7bu8) ==> object_members(b, at) is Some
}

/// What is known of the bytes of a text that is JSON: they are well lexed, and the members of
/// the object that it is, and of every object nested in it, are found.
pub open spec fn well_formed(b: Seq<u8>) -> bool {
    &&& well_lexed(b)
    &&& object_at(b, 0) matches Some(at) ==> object_members(b, at) is Some
    &&& objects_found(b)
}

pub open spec fn plus(n: Option<int>, d: int) -> Option<int> {
    match n {
        Some(k) => Some(k + d),
        None => None,
    }
}

pub proof fn lemma_space_len(s: Seq<u8>)
    ensures
        0 <= space_len(s) <= s.len(),
        forall|k: int| 0 <= k < space_len(s) ==> is_json_space(#[trigger] s[k]),
        space_len(s) < s.len() ==> !is_json_space(s[space_len(s)]),
    decreases s.len(),
{
    if s.len() > 0 && is_json_space(s[0]) {
        let t = s.skip(1);
        lemma_space_len(t);
        assert forall|k: int| 0 <= k < space_len(s) implies is_json_space(#[trigger] s[k]) by {
            if k > 0 {
                assert(t[k - 1] == s[k]);
            }
        }
    }
}

pub proof fn lemma_string_rest_len(s: Seq<u8>)
    ensures
        string_rest_len(s) matches Some(n) ==> 1 <= n <= s.len() && s[n - 1] == 0x22,
    decreases s.len(),
{
    if s.len() > 0 && s[0] != 0x22 {
        let step: int = if s[0] == 0x5c {
            2
        } else {
            1
        };
        if s.len() >= step {
            lemma_string_rest_len(s.skip(step));
        }
    }
}

pub proof fn lemma_container_rest_len(s: Seq<u8>, open: Seq<u8>)
    ensures
        container_rest_len(s, open) matches Some(n) ==> 1 <= n <= s.len() && closes(s[n - 1]),
    decreases s.len(),
{
    if s.len() == 0 {
    } else if s[0] == 0x22 {
        lemma_string_rest_len(s.skip(1));
        match string_rest_len(s.skip(1)) {
            Some(n) => {
                lemma_container_rest_len(s.skip(n + 1), open);
            },
            None => {},
        }
    } else if closes(s[0]) && open.len() == 1 {
    } else {
        lemma_container_rest_len(s.skip(1), open_after(open, s[0]));
    }
}

pub proof fn lemma_literal_len(s: Seq<u8>)
    ensures
        0 <= literal_len(s) <= s.len(),
        forall|k: int| 0 <= k < literal_len(s) ==> !ends_literal(#[trigger] s[k]),
        literal_len(s) < s.len() ==> ends_literal(s[literal_len(s)]),
    decreases s.len(),
{
    if s.len() > 0 && !ends_literal(s[0]) {
        let t = s.skip(1);
        lemma_literal_len(t);
        assert forall|k: int| 0 <= k < literal_len(s) implies !ends_literal(#[trigger] s[k]) by {
            if k > 0 {
                assert(t[k - 1] == s[k]);
            }
        }
    }
}

pub proof fn lemma_value_len(s: Seq<u8>)
    ensures
        value_len(s) matches Some(n) ==> 1 <= n <= s.len(),
{
    if s.len() > 0 {
        lemma_string_rest_len(s.skip(1));
        lemma_container_rest_len(s, Seq::empty());
        lemma_literal_len(s);
    }
}

pub proof fn lemma_first_member(s: Seq<u8>)
    ensures
        first_member(s) matches Some((m, after)) ==> {
            &&& 0 == m.start < m.value < m.end <= after <= s.len()
            &&& s[0] == 0x22
        },
{
    reveal(first_member);
    if let Some((m, after)) = first_member(s) {
        lemma_string_rest_len(s.skip(1));
        let key = string_len(s).unwrap();
        lemma_space_len(rest(s, key));
        let colon = after_space(s, key);
        lemma_space_len(rest(s, colon + 1));
        lemma_value_len(rest(s, m.value));
        lemma_space_len(rest(s, m.end));
    }
}

/// Advance past JSON whitespace (` \t\n\r`) starting at `i`.
pub fn skip_ws(src: &str, i: usize) -> (r: usize)
    ensures
        r == after_space(encode_utf8(src@), i as int),
        i <= src.len() ==> r <= src.len(),
{
    let bytes = src.as_bytes();
    let ghost b = encode_utf8(src@);
    if i >= bytes.len() {
        return i;
    }
    let mut at: usize = i;
    while at < bytes.len() && (bytes[at] == 0x20 || bytes[at] == 0x09 || bytes[at] == 0x0a || bytes[at]
        == 0x0d)
        invariant
            i <= at <= bytes.len(),
            bytes@ == b,
            space_len(b.skip(i as int)) == at - i + space_len(b.skip(at as int)),
        decreases bytes.len() - at,
    {
        assert(b.skip(at as int).skip(1) =~= b.skip(at + 1));
        at = at + 1;
    }
    at
}

/// If the value at offset `i` (leading whitespace allowed) is a JSON object, return the
/// offset of its opening `{`.
pub fn object_start(src: &str, i: usize) -> (r: Option<usize>)
    ensures
        match r {
            Some(at) => object_at(encode_utf8(src@), i as int) == Some(at as int),
            None => object_at(encode_utf8(src@), i as int) is None,
        },
{
    let at: usize = skip_ws(src, i);
    let bytes = src.as_bytes();
    if at < bytes.len() && bytes[at] == 0x7b {
        Some(at)
    } else {
        None
    }
}

/// Offset just past the closing quote of the string starting at `open`.
fn string_end(src: &str, open: usize) -> (r: Option<usize>)
    requires
        open < encode_utf8(src@).len(),
    ensures
        match r {
            Some(end) => string_len(encode_utf8(src@).skip(open as int)) == Some(end - open),
            None => string_len(encode_utf8(src@).skip(open as int)) is None,
        },
{
    let bytes = src.as_bytes();
    let ghost b = encode_utf8(src@);
    assert(open < bytes.len());
    let mut i: usize = open + 1;
    assert(b.skip(open as int).skip(1) =~= b.skip(open + 1));
    while i < bytes.len()
        invariant
            open < i <= bytes.len(),
            bytes@ == b,
            b == encode_utf8(src@),
            string_len(b.skip(open as int)) == plus(string_rest_len(b.skip(i as int)), i - open),
        decreases bytes.len() - i,
    {
        let c: u8 = bytes[i];
        if c == 0x22 {
            return Some(i + 1);
        }
        let step: usize = if c == 0x5c {
            2
        } else {
            1
        };
        if bytes.len() - i < step {
            return None;
        }
        assert(b.skip(i as int).skip(step as int) =~= b.skip(i + step));
        i = i + step;
    }
    None
}

/// Offset just past the closing bracket of the object/array opening at `open`.
fn container_end(src: &str, open: usize) -> (r: Option<usize>)
    requires
        open < encode_utf8(src@).len(),
        opens(encode_utf8(src@)[open as int]),
    ensures
        match r {
            Some(end) => container_rest_len(encode_utf8(src@).skip(open as int), Seq::empty())
                == Some(end - open),
            None => container_rest_len(encode_utf8(src@).skip(open as int), Seq::empty()) is None,
        },
{
    let bytes = src.as_bytes();
    let ghost b = encode_utf8(src@);
    let mut stack: Vec<u8> = Vec::new();
    let mut i: usize = open;
    while i < bytes.len()
        invariant
            open <= i <= bytes.len(),
            bytes@ == b,
            b == encode_utf8(src@),
            opens(b[open as int]),
            container_rest_len(b.skip(open as int), Seq::empty()) == plus(
                container_rest_len(b.skip(i as int), stack@),
                i - open,
            ),
        decreases bytes.len() - i,
    {
        let c: u8 = bytes[i];
        if c == 0x22 {
            assert(b.skip(i as int).skip(1) =~= b.skip(i + 1));
            match string_end(src, i) {
                None => {
                    return None;
                },
                Some(end) => {
                    proof {
                        lemma_string_rest_len(b.skip(i + 1));
                        assert(b.skip(i as int).skip(end - i) =~= b.skip(end as int));
                    }
                    i = end;
                },
            }
        } else {
            assert(b.skip(i as int)[0] == c);
            if c == 0x7b || c == 0x5b {
                stack.push(c);
            } else if c == 0x7d || c == 0x5d {
                let depth: usize = stack.len();
                if depth == 0 {
                    return None;
                }
                let last: u8 = stack[depth - 1];
                if !((last == 0x7b && c == 0x7d) || (last == 0x5b && c == 0x5d)) {
                    return None;
                }
                if depth == 1 {
                    return Some(i + 1);
                }
                let ghost before = stack@;
                stack.pop();
                assert(stack@ =~= before.drop_last());
            }
            assert(b.skip(i as int).skip(1) =~= b.skip(i + 1));
            i = i + 1;
        }
    }
    None
}

/// Offset just past a number/true/false/null literal starting at `start`.
fn literal_end(src: &str, start: usize) -> (r: usize)
    requires
        start <= encode_utf8(src@).len(),
    ensures
        r == start + literal_len(encode_utf8(src@).skip(start as int)),
{
    let bytes = src.as_bytes();
    let ghost b = encode_utf8(src@);
    let mut i: usize = start;
    while i < bytes.len() && !(bytes[i] == 0x2c || bytes[i] == 0x7b || bytes[i] == 0x7d || bytes[i]
        == 0x5b || bytes[i] == 0x5d || bytes[i] == 0x20 || bytes[i] == 0x09 || bytes[i] == 0x0a
        || bytes[i] == 0x0d)
        invariant
            start <= i <= bytes.len(),
            bytes@ == b,
            literal_len(b.skip(start as int)) == i - start + literal_len(b.skip(i as int)),
        decreases bytes.len() - i,
    {
        assert(b.skip(i as int).skip(1) =~= b.skip(i + 1));
        i = i + 1;
    }
    i
}

/// Exact `(start, end)` span of the JSON value beginning at offset `i` (leading whitespace
/// allowed; `end` is exclusive).
pub fn value_span(src: &str, i: usize) -> (r: Option<(usize, usize)>)
    ensures
        ({
            let b = encode_utf8(src@);
            let at = after_space(b, i as int);
            match r {
                Some((start, end)) => start == at && value_len(rest(b, at)) == Some(end - at),
                None => value_len(rest(b, at)) is None,
            }
        }),
{
    let at: usize = skip_ws(src, i);
    let bytes = src.as_bytes();
    if at >= bytes.len() {
        return None;
    }
    let first: u8 = bytes[at];
    if first == 0x22 {
        match string_end(src, at) {
            Some(end) => Some((at, end)),
            None => None,
        }
    } else if first == 0x7b || first == 0x5b {
        match container_end(src, at) {
            Some(end) => Some((at, end)),
            None => None,
        }
    } else if first == 0x74 || first == 0x66 || first == 0x6e || first == 0x2d || (0x30 <= first
        && first <= 0x39) {
        Some((at, literal_end(src, at)))
    } else {
        None
    }
}

pub proof fn lemma_rest(b: Seq<u8>, i: int, k: int)
    requires
        0 <= i <= b.len(),
        0 <= k <= b.len() - i,
    ensures
        rest(rest(b, i), k) == rest(b, i + k),
        after_space(rest(b, i), k) == after_space(b, i + k) - i,
        byte_at(rest(b, i), k) == byte_at(b, i + k),
{
    assert(b.skip(i).skip(k) =~= b.skip(i + k));
}

/// The offsets of a list of members, each a place where the text can be cut.
pub open spec fn cuttable(s: Seq<char>, m: Member) -> bool {
    &&& at_char(s, m.start)
    &&& at_char(s, m.value)
    &&& at_char(s, m.end)
    &&& 0 <= m.start < m.value < m.end <= encode_utf8(s).len()
    &&& encode_utf8(s)[m.start] == 0x22
}

pub open spec fn spans_are(v: Seq<MemberSpan>, ms: Seq<Member>) -> bool {
    v.len() == ms.len() && forall|k: int| 0 <= k < ms.len() ==> (#[trigger] v[k]).is_at(ms[k])
}

/// Where a value starts and where it ends, a text can be cut.
pub proof fn lemma_value_cuttable(s: Seq<char>, at: int)
    requires
        0 <= at <= encode_utf8(s).len(),
        value_len(encode_utf8(s).skip(at)) is Some,
    ensures
        at_char(s, at),
        at_char(s, at + value_len(encode_utf8(s).skip(at)).unwrap()),
{
    let b = encode_utf8(s);
    encode_utf8_valid_utf8(s);
    let t = b.skip(at);
    let n = value_len(t).unwrap();
    lemma_value_len(t);
    lemma_boundary_at_ascii(b, at);
    if t[0] == 0x22 {
        lemma_string_rest_len(t.skip(1));
        assert(b[at + n - 1] == 0x22);
        lemma_boundary_after_ascii(b, at + n);
    } else if opens(t[0]) {
        lemma_container_rest_len(t, Seq::empty());
        assert(closes(b[at + n - 1]));
        lemma_boundary_after_ascii(b, at + n);
    } else {
        lemma_literal_len(t);
        if n < t.len() {
            assert(ends_literal(b[at + n]));
            lemma_boundary_at_ascii(b, at + n);
        } else {
            is_char_boundary_start_end_of_seq(b);
        }
    }
}

/// The member whose key starts at `i`, and the offset of the byte that follows it after
/// white space.
fn member_at(src: &str, i: usize) -> (r: Option<(MemberSpan, usize)>)
    requires
        i <= encode_utf8(src@).len(),
    ensures
        match r {
            Some((span, after)) => first_member(rest(encode_utf8(src@), i as int)) matches Some(
                (m, n),
            ) && span.is_at(moved(m, i as int)) && after == i + n && cuttable(
                src@,
                moved(m, i as int),
            ),
            None => first_member(rest(encode_utf8(src@), i as int)) is None,
        },
{
    let bytes = src.as_bytes();
    let ghost b = encode_utf8(src@);
    let ghost s = rest(b, i as int);
    proof {
        reveal(first_member);
    }
    if i >= bytes.len() || bytes[i] != 0x22 {
        return None;
    }
    proof {
        lemma_string_rest_len(s.skip(1));
    }
    let key_end: usize = match string_end(src, i) {
        Some(end) => end,
        None => {
            return None;
        },
    };
    proof {
        lemma_rest(b, i as int, key_end - i);
        lemma_space_len(rest(b, key_end as int));
    }
    let colon: usize = skip_ws(src, key_end);
    proof {
        lemma_rest(b, i as int, colon - i);
    }
    if colon >= bytes.len() || bytes[colon] != 0x3a {
        return None;
    }
    proof {
        lemma_rest(b, i as int, colon + 1 - i);
        lemma_space_len(rest(b, colon + 1));
        lemma_rest(b, i as int, after_space(b, colon + 1) - i);
    }
    let (value_start, value_end): (usize, usize) = match value_span(src, colon + 1) {
        Some(span) => span,
        None => {
            return None;
        },
    };
    proof {
        lemma_value_len(rest(b, value_start as int));
        lemma_rest(b, i as int, value_end - i);
        lemma_value_cuttable(src@, value_start as int);
        encode_utf8_valid_utf8(src@);
        lemma_boundary_at_ascii(b, i as int);
    }
    let after: usize = skip_ws(src, value_end);
    Some((MemberSpan { member_start: i, member_end: value_end, value_start, value_end }, after))
}

/// Members that follow a comma, put behind those before it.
proof fn lemma_members_step(b: Seq<u8>, i: int, before: Seq<Member>)
    requires
        0 <= i <= b.len(),
        first_member(rest(b, i)) is Some,
        byte_at(b, i + first_member(rest(b, i)).unwrap().1) == Some(0x2cu8),
    ensures
        ({
            let (own, n) = first_member(rest(b, i)).unwrap();
            let next = after_space(b, i + n + 1);
            &&& i < next <= b.len()
            &&& match members_from(rest(b, i)) {
                None => members_from(rest(b, next)) is None,
                Some(ms) => members_from(rest(b, next)) matches Some(more) && before + moved_all(
                    ms,
                    i,
                ) == before.push(moved(own, i)) + moved_all(more, next),
            }
        }),
{
    let s = rest(b, i);
    let (own, n) = first_member(s).unwrap();
    let next = after_space(b, i + n + 1);
    lemma_first_member(s);
    lemma_rest(b, i, n);
    lemma_rest(b, i, n + 1);
    lemma_space_len(rest(b, i + n + 1));
    lemma_rest(b, i, next - i);
    match members_from(rest(b, next)) {
        Some(more) => {
            let mine = seq![own] + moved_all(more, next - i);
            assert(before + moved_all(mine, i) =~= before.push(moved(own, i)) + moved_all(
                more,
                next,
            ));
        },
        None => {},
    }
}

/// Collect every member of the object whose `{` is at `obj_start`, in source order. `None`
/// when `obj_start` is not an object or the text is malformed.
pub fn collect_members(src: &str, obj_start: usize) -> (r: Option<Vec<MemberSpan>>)
    ensures
        match r {
            Some(v) => object_members(encode_utf8(src@), obj_start as int) matches Some(ms)
                && spans_are(v@, ms) && forall|k: int|
                0 <= k < ms.len() ==> cuttable(src@, #[trigger] ms[k]),
            None => object_members(encode_utf8(src@), obj_start as int) is None,
        },
{
    let bytes = src.as_bytes();
    let ghost b = encode_utf8(src@);
    if obj_start >= bytes.len() || bytes[obj_start] != 0x7b {
        return None;
    }
    let mut members: Vec<MemberSpan> = Vec::new();
    let mut i: usize = skip_ws(src, obj_start + 1);
    if i < bytes.len() && bytes[i] == 0x7d {
        return Some(members);
    }
    let ghost mut acc: Seq<Member> = Seq::empty();
    proof {
        lemma_space_len(rest(b, obj_start + 1));
        match members_from(rest(b, i as int)) {
            Some(ms) => {
                assert(acc + moved_all(ms, i as int) =~= moved_all(ms, i as int));
            },
            None => {},
        }
    }
    loop
        invariant
            i <= bytes.len(),
            bytes@ == b,
            b == encode_utf8(src@),
            spans_are(members@, acc),
            forall|k: int| 0 <= k < acc.len() ==> cuttable(src@, #[trigger] acc[k]),
            object_members(b, obj_start as int) == match members_from(rest(b, i as int)) {
                None => None,
                Some(ms) => Some(acc + moved_all(ms, i as int)),
            },
        decreases bytes.len() - i,
    {
        let ghost s = rest(b, i as int);
        let (member, after): (MemberSpan, usize) = match member_at(src, i) {
            Some(found) => found,
            None => {
                return None;
            },
        };
        let ghost (own, own_after) = first_member(s).unwrap();
        let ghost m = moved(own, i as int);
        members.push(member);
        let ghost before = acc;
        proof {
            lemma_first_member(s);
            lemma_rest(b, i as int, after - i);
            acc = acc.push(m);
        }
        if after < bytes.len() && bytes[after] == 0x2c {
            proof {
                lemma_members_step(b, i as int, before);
                lemma_space_len(rest(b, after + 1));
            }
            i = skip_ws(src, after + 1);
        } else if after < bytes.len() && bytes[after] == 0x7d {
            proof {
                assert(before + moved_all(seq![own], i as int) =~= acc);
            }
            return Some(members);
        } else {
            return None;
        }
    }
}

/// Does the quoted key text `src[open..close]` decode to `key`?
fn key_matches(src: &str, open: usize, close: usize, key: &str) -> (r: bool)
    requires
        at_char(src@, open as int),
        at_char(src@, close as int),
        open + 2 <= close <= encode_utf8(src@).len(),
        encode_utf8(src@)[open as int] == 0x22,
        encode_utf8(src@)[close - 1] == 0x22,
    ensures
        r == (key_text(encode_utf8(src@).subrange(open as int, close as int)) == Some(key@)),
{
    let ghost b = encode_utf8(src@);
    let ghost quoted = b.subrange(open as int, close as int);
    proof {
        encode_utf8_valid_utf8(src@);
        lemma_boundary_after_ascii(b, open + 1);
        lemma_boundary_at_ascii(b, close - 1);
        assert(quoted.subrange(1, quoted.len() - 1) =~= b.subrange(open + 1, close - 1));
        lemma_between(src@, open + 1, close - 1);
    }
    let raw = piece(src, open + 1, close - 1);
    let ghost raw_bytes = quoted.subrange(1, quoted.len() - 1);
    let raw_view = raw.as_bytes();
    let mut i: usize = 0;
    let mut escaped = false;
    while i < raw_view.len()
        invariant
            i <= raw_view.len(),
            raw_view@ == raw_bytes,
            escaped == exists|k: int| 0 <= k < i && #[trigger] raw_bytes[k] == 0x5c,
        decreases raw_view.len() - i,
    {
        if raw_view[i] == 0x5c {
            escaped = true;
        }
        i = i + 1;
    }
    assert(escaped == raw_bytes.contains(0x5c));
    if !escaped {
        return same(raw, key);
    }
    match decode_json_string(piece(src, open, close)) {
        Some(decoded) => same(decoded.as_str(), key),
        None => false,
    }
}

/// Find the member with `key` inside the object whose `{` is at `obj_start`. Keys that
/// merely *occur* inside string values or nested documents are not matches: scanning is
/// strictly member-wise, one object level at a time.
pub fn find_member(src: &str, obj_start: usize, key: &str) -> (r: Option<MemberSpan>)
    ensures
        match r {
            Some(span) => member_of(encode_utf8(src@), obj_start as int, key@) matches Some(m)
                && span.is_at(m) && cuttable(src@, m),
            None => member_of(encode_utf8(src@), obj_start as int, key@) is None,
        },
{
    let members = match collect_members(src, obj_start) {
        Some(members) => members,
        None => {
            return None;
        },
    };
    let ghost b = encode_utf8(src@);
    let ghost ms = object_members(b, obj_start as int).unwrap();
    let mut i: usize = 0;
    assert(ms.skip(0) =~= ms);
    while i < members.len()
        invariant
            i <= members.len(),
            b == encode_utf8(src@),
            object_members(b, obj_start as int) == Some(ms),
            spans_are(members@, ms),
            forall|k: int| 0 <= k < ms.len() ==> cuttable(src@, #[trigger] ms[k]),
            first_with_key(b, ms, key@) == first_with_key(b, ms.skip(i as int), key@),
        decreases members.len() - i,
    {
        let member = members[i];
        let ghost m = ms[i as int];
        assert(member.is_at(m) && cuttable(src@, m));
        assert(ms.skip(i as int)[0] == m);
        assert(ms.skip(i as int).drop_first() =~= ms.skip(i + 1));
        let start: usize = member.member_start;
        if let Some(key_end) = string_end(src, start) {
            proof {
                encode_utf8_valid_utf8(src@);
                let t = b.skip(start as int);
                lemma_string_rest_len(t.skip(1));
                assert(b[key_end - 1] == 0x22);
                lemma_boundary_after_ascii(b, key_end as int);
            }
            if key_matches(src, start, key_end, key) {
                return Some(member);
            }
        }
        i = i + 1;
    }
    None
}

} // verus!
