//! Where the values and the members of a JSON text are found.

use vstd::prelude::*;
use vstd::utf8::encode_utf8;
use crate::json::{compact, plain, quoted, JsonTree};
use crate::mcp_writers::json_edit::{
    is_string, lemma_compact_is_container, lemma_container_then, lemma_literal_run,
    lemma_quoted_is_string, lemma_space_run, lemma_string_then,
};
use crate::mcp_writers::json_span::{
    after_space, byte_at, container_rest_len, first_member, members_from, moved, moved_all,
    object_members, rest, string_len, value_len, Member,
};

verus! {

/// Blanks, tabs and the ends of lines.
pub open spec fn blank_bytes(w: Seq<u8>) -> bool {
    forall|i: int|
        0 <= i < w.len() ==> #[trigger] w[i] == 32 || w[i] == 9 || w[i] == 10 || w[i] == 13
}

/// What may follow a value: nothing, white space, a comma or a closing bracket.
pub open spec fn value_ends(t: Seq<u8>) -> bool {
    t.len() == 0 || t[0] == 32 || t[0] == 9 || t[0] == 10 || t[0] == 13 || t[0] == 0x2c || t[0] == 0x7d
        || t[0] == 0x5d
}

/// Whether the text is found as one value wherever it stands.
pub open spec fn one_value(v: Seq<u8>) -> bool {
    &&& v.len() > 0
    &&& v[0] != 32 && v[0] != 9 && v[0] != 10 && v[0] != 13
    &&& forall|t: Seq<u8>| value_ends(t) ==> value_len(#[trigger] (v + t)) == Some(v.len() as int)
}

/// A digit, a sign, a dot or an exponent.
pub open spec fn of_number(b: u8) -> bool {
    0x30 <= b <= 0x39 || b == 0x2d || b == 0x2b || b == 0x2e || b == 0x65 || b == 0x45
}

/// Numbers, and the words `true`, `false` and `null`, are one value each.
pub proof fn law_literals_are_values(v: Seq<u8>)
    requires
        v == seq![0x74u8, 0x72, 0x75, 0x65] || v == seq![0x66u8, 0x61, 0x6c, 0x73, 0x65] || v
            == seq![0x6eu8, 0x75, 0x6c, 0x6c] || (v.len() > 0 && (v[0] == 0x2d || 0x30 <= v[0] <= 0x39)
            && forall|i: int| 0 <= i < v.len() ==> of_number(#[trigger] v[i])),
    ensures
        one_value(v),
{
    assert forall|t: Seq<u8>| value_ends(t) implies value_len(#[trigger] (v + t)) == Some(
        v.len() as int,
    ) by {
        let s = v + t;
        assert(s[0] == v[0]);
        assert forall|i: int| 0 <= i < v.len() implies !crate::mcp_writers::json_span::ends_literal(
            #[trigger] s[i],
        ) by {
            assert(s[i] == v[i]);
        }
        if v.len() < s.len() {
            assert(s[v.len() as int] == t[0]);
        }
        lemma_literal_run(s, v.len() as int);
    }
}

/// A quoted text is one value, whatever characters it has.
pub proof fn law_quoted_text_is_a_value(s: Seq<char>)
    ensures
        one_value(encode_utf8(quoted(s))),
{
    let q = encode_utf8(quoted(s));
    lemma_quoted_is_string(s);
    assert forall|t: Seq<u8>| value_ends(t) implies value_len(#[trigger] (q + t)) == Some(
        q.len() as int,
    ) by {
        lemma_string_then(q, t);
        assert((q + t)[0] == q[0]);
    }
}

/// The compact text of a list or an object is one value, however deep it is.
pub proof fn law_compact_text_is_a_value(v: JsonTree, n: nat)
    requires
        v is List || v is Object,
        plain(v, n),
    ensures
        one_value(encode_utf8(compact(v))),
{
    let b = encode_utf8(compact(v));
    lemma_compact_is_container(v, n);
    assert forall|t: Seq<u8>| value_ends(t) implies value_len(#[trigger] (b + t)) == Some(
        b.len() as int,
    ) by {
        lemma_container_then(b, t);
    }
}

proof fn lemma_bytes_between(x: Seq<u8>, o: u8, c: u8, t: Seq<u8>)
    requires
        (o == 0x5b && c == 0x5d) || (o == 0x7b && c == 0x7d),
        forall|i: int|
            0 <= i < x.len() ==> #[trigger] x[i] != 0x22 && x[i] != 0x5b && x[i] != 0x5d && x[i] != 0x7b
                && x[i] != 0x7d,
    ensures
        container_rest_len(x + seq![c] + t, seq![o]) == Some(x.len() as int + 1),
    decreases x.len(),
{
    let s = x + seq![c] + t;
    if x.len() > 0 {
        let y = x.skip(1);
        assert forall|i: int| 0 <= i < y.len() implies #[trigger] y[i] != 0x22 && y[i] != 0x5b && y[i]
            != 0x5d && y[i] != 0x7b && y[i] != 0x7d by {
            assert(y[i] == x[i + 1]);
        }
        lemma_bytes_between(y, o, c, t);
        assert(s[0] == x[0]);
        assert(s.skip(1) =~= y + seq![c] + t);
    } else {
        assert(s[0] == c);
    }
}

/// Brackets with numbers, words, commas and white space between them are one value.
pub proof fn law_bracketed_text_is_a_value(x: Seq<u8>, o: u8, c: u8)
    requires
        (o == 0x5b && c == 0x5d) || (o == 0x7b && c == 0x7d),
        forall|i: int|
            0 <= i < x.len() ==> #[trigger] x[i] != 0x22 && x[i] != 0x5b && x[i] != 0x5d && x[i] != 0x7b
                && x[i] != 0x7d,
    ensures
        one_value(seq![o] + x + seq![c]),
{
    let v = seq![o] + x + seq![c];
    assert forall|t: Seq<u8>| value_ends(t) implies value_len(#[trigger] (v + t)) == Some(
        v.len() as int,
    ) by {
        let s = v + t;
        lemma_bytes_between(x, o, c, t);
        assert(s[0] == o);
        assert(s.skip(1) =~= x + seq![c] + t);
        assert(Seq::<u8>::empty().push(o) =~= seq![o]);
    }
}

// ── members ──

proof fn lemma_blanks(front: Seq<u8>, w: Seq<u8>, t: Seq<u8>)
    requires
        blank_bytes(w),
        t.len() > 0,
        t[0] != 32 && t[0] != 9 && t[0] != 10 && t[0] != 13,
    ensures
        after_space(front + w + t, front.len() as int) == front.len() + w.len(),
{
    let s = front + w + t;
    let u = rest(s, front.len() as int);
    assert(u =~= w + t);
    assert forall|i: int| 0 <= i < w.len() implies crate::mcp_writers::json_span::is_json_space(
        #[trigger] u[i],
    ) by {
        assert(u[i] == w[i]);
    }
    assert(u[w.len() as int] == t[0]);
    lemma_space_run(u, w.len() as int);
}

/// A member as it is written: its key, a colon and its value, with the same white space behind each
/// of them.
pub open spec fn member_bytes(q: Seq<u8>, v: Seq<u8>, w: Seq<u8>) -> Seq<u8> {
    q + w + seq![0x3au8] + w + v + w
}

/// A member is found with its key at its start and its value where that stands, whatever white space
/// is round them.
pub proof fn law_member_is_found(q: Seq<u8>, v: Seq<u8>, w: Seq<u8>, t: Seq<u8>)
    requires
        is_string(q),
        one_value(v),
        blank_bytes(w),
        t.len() > 0,
        t[0] == 0x2c || t[0] == 0x7d,
    ensures
        first_member(member_bytes(q, v, w) + t) == Some(
            (
                Member {
                    start: 0,
                    value: q.len() as int + 2 * w.len() + 1,
                    end: q.len() as int + 2 * w.len() + 1 + v.len(),
                },
                q.len() as int + 3 * w.len() + 1 + v.len(),
            ),
        ),
{
    let s = member_bytes(q, v, w) + t;
    let colon = seq![0x3au8];
    let a = colon + w + v + w + t;
    assert(s =~= q + w + a);
    assert(s =~= q + (w + a));
    lemma_string_then(q, w + a);
    assert(s[0] == q[0]);
    lemma_blanks(q, w, a);
    let front = q + w + colon;
    let b = v + w + t;
    assert(s =~= front + w + b);
    assert(s[(q.len() + w.len()) as int] == 0x3a);
    assert(b[0] == v[0]);
    lemma_blanks(front, w, b);
    let at = (front.len() + w.len()) as int;
    assert(rest(s, at) =~= v + (w + t));
    assert(value_ends(w + t)) by {
        if w.len() > 0 {
            assert((w + t)[0] == w[0]);
        } else {
            assert((w + t)[0] == t[0]);
        }
    }
    assert(value_len(v + (w + t)) == Some(v.len() as int));
    let all = front + w + v;
    assert(s =~= all + w + t);
    lemma_blanks(all, w, t);
    let colon_at = q.len() as int + w.len();
    assert(string_len(s) == Some(q.len() as int));
    assert(after_space(s, q.len() as int) == colon_at);
    assert(byte_at(s, colon_at) == Some(0x3au8));
    assert(after_space(s, colon_at + 1) == at);
    assert(value_len(rest(s, at)) == Some(v.len() as int));
    let end = at + v.len() as int;
    assert(after_space(s, end) == end + w.len());
    assert(at == q.len() as int + 2 * w.len() + 1);
    assert(s.len() > 0 && s[0] == 0x22);
    reveal(first_member);
    assert(first_member(s) == Some((Member { start: 0, value: at, end }, after_space(s, end))));
}

/// The members of an object as they are written, up to its closing brace.
pub open spec fn members_bytes(parts: Seq<(Seq<u8>, Seq<u8>)>, w: Seq<u8>) -> Seq<u8>
    decreases parts.len(),
{
    if parts.len() == 0 {
        Seq::empty()
    } else if parts.len() == 1 {
        member_bytes(parts[0].0, parts[0].1, w) + seq![0x7du8]
    } else {
        member_bytes(parts[0].0, parts[0].1, w) + (seq![0x2cu8] + w + members_bytes(parts.skip(1), w))
    }
}

/// Whether the members found in a text are the parts, in order.
spec fn members_are(s: Seq<u8>, ms: Seq<Member>, parts: Seq<(Seq<u8>, Seq<u8>)>) -> bool {
    ms.len() == parts.len() && forall|i: int|
        0 <= i < ms.len() ==> member_is(s, #[trigger] ms[i], parts[i].0, parts[i].1)
}

/// Whether a member has the key and the value.
pub open spec fn member_is(s: Seq<u8>, m: Member, q: Seq<u8>, v: Seq<u8>) -> bool {
    &&& 0 <= m.start
    &&& m.start + q.len() <= m.value <= m.end <= s.len()
    &&& s.subrange(m.start, m.start + q.len()) == q
    &&& s.subrange(m.value, m.end) == v
}

proof fn lemma_member_moved(front: Seq<u8>, s: Seq<u8>, m: Member, q: Seq<u8>, v: Seq<u8>)
    requires
        member_is(s, m, q, v),
    ensures
        member_is(front + s, moved(m, front.len() as int), q, v),
{
    let t = front + s;
    let n = front.len() as int;
    assert(t.subrange(m.start + n, m.start + n + q.len()) =~= s.subrange(m.start, m.start + q.len()));
    assert(t.subrange(m.value + n, m.end + n) =~= s.subrange(m.value, m.end));
}

proof fn lemma_first_is(q: Seq<u8>, v: Seq<u8>, w: Seq<u8>, t: Seq<u8>)
    ensures
        member_is(
            member_bytes(q, v, w) + t,
            Member {
                start: 0,
                value: q.len() as int + 2 * w.len() + 1,
                end: q.len() as int + 2 * w.len() + 1 + v.len(),
            },
            q,
            v,
        ),
{
    let s = member_bytes(q, v, w) + t;
    let at = q.len() as int + 2 * w.len() + 1;
    assert(s.subrange(0, q.len() as int) =~= q);
    assert(s.subrange(at, at + v.len()) =~= v);
}

proof fn lemma_starts_with_quote(parts: Seq<(Seq<u8>, Seq<u8>)>, w: Seq<u8>, t: Seq<u8>)
    requires
        parts.len() > 0,
        is_string(parts[0].0),
    ensures
        (members_bytes(parts, w) + t).len() > 0,
        (members_bytes(parts, w) + t)[0] == 0x22,
{
    assert(member_bytes(parts[0].0, parts[0].1, w)[0] == 0x22);
}

proof fn lemma_members_step(
    q: Seq<u8>,
    v: Seq<u8>,
    w: Seq<u8>,
    behind: Seq<u8>,
    found: Seq<Member>,
    more: Seq<(Seq<u8>, Seq<u8>)>,
)
    requires
        is_string(q),
        one_value(v),
        blank_bytes(w),
        behind.len() > 0,
        behind[0] == 0x22,
        members_from(behind) == Some(found),
        members_are(behind, found, more),
    ensures
        ({
            let s = member_bytes(q, v, w) + (seq![0x2cu8] + w + behind);
            members_from(s) matches Some(ms) && members_are(s, ms, seq![(q, v)] + more)
        }),
{
    let head = member_bytes(q, v, w);
    let tail = seq![0x2cu8] + w + behind;
    let s = head + tail;
    law_member_is_found(q, v, w, tail);
    assert(s[head.len() as int] == 0x2c);
    let front = head + seq![0x2cu8];
    assert(s =~= front + w + behind);
    lemma_blanks(front, w, behind);
    let next = (front.len() + w.len()) as int;
    assert(s.skip(next) =~= behind);
    let m = first_member(s)->Some_0.0;
    let ms = seq![m] + moved_all(found, next);
    assert(members_from(s) == Some(ms));
    let parts = seq![(q, v)] + more;
    lemma_first_is(q, v, w, tail);
    assert forall|i: int| 0 <= i < ms.len() implies member_is(
        s,
        #[trigger] ms[i],
        parts[i].0,
        parts[i].1,
    ) by {
        if i > 0 {
            assert(parts[i] == more[i - 1]);
            assert(ms[i] == moved(found[i - 1], next));
            assert(member_is(behind, found[i - 1], more[i - 1].0, more[i - 1].1));
            lemma_member_moved(front + w, behind, found[i - 1], more[i - 1].0, more[i - 1].1);
        }
    }
}

proof fn lemma_members_found(parts: Seq<(Seq<u8>, Seq<u8>)>, w: Seq<u8>, t: Seq<u8>)
    requires
        parts.len() > 0,
        blank_bytes(w),
        forall|i: int| 0 <= i < parts.len() ==> is_string((#[trigger] parts[i]).0) && one_value(parts[i].1),
    ensures
        members_from(members_bytes(parts, w) + t) matches Some(ms) && members_are(
            members_bytes(parts, w) + t,
            ms,
            parts,
        ),
    decreases parts.len(),
{
    let (q, v) = parts[0];
    assert(is_string(q) && one_value(v));
    let head = member_bytes(q, v, w);
    let s = members_bytes(parts, w) + t;
    if parts.len() == 1 {
        let tail = seq![0x7du8] + t;
        assert(s =~= head + tail);
        law_member_is_found(q, v, w, tail);
        assert(s[head.len() as int] == 0x7d);
        lemma_first_is(q, v, w, tail);
        let m = first_member(s)->Some_0.0;
        assert(members_from(s) == Some(seq![m]));
    } else {
        let more = parts.skip(1);
        assert forall|i: int| 0 <= i < more.len() implies is_string((#[trigger] more[i]).0)
            && one_value(more[i].1) by {
            assert(more[i] == parts[i + 1]);
        }
        let behind = members_bytes(more, w) + t;
        lemma_members_found(more, w, t);
        lemma_starts_with_quote(more, w, t);
        lemma_members_step(q, v, w, behind, members_from(behind)->Some_0, more);
        assert(s =~= head + (seq![0x2cu8] + w + behind));
        assert(seq![(q, v)] + more =~= parts);
    }
}

/// Every member of an object is found, in order, each with its own key and value, whatever white
/// space stands between them and whatever follows.
pub proof fn law_every_member_is_found(parts: Seq<(Seq<u8>, Seq<u8>)>, w: Seq<u8>, t: Seq<u8>)
    requires
        parts.len() > 0,
        blank_bytes(w),
        forall|i: int| 0 <= i < parts.len() ==> is_string((#[trigger] parts[i]).0) && one_value(parts[i].1),
    ensures
        ({
            let s = seq![0x7bu8] + w + (members_bytes(parts, w) + t);
            object_members(s, 0) matches Some(ms) && ms.len() == parts.len() && forall|i: int|
                0 <= i < ms.len() ==> member_is(s, #[trigger] ms[i], parts[i].0, parts[i].1)
        }),
{
    let inner = members_bytes(parts, w) + t;
    let s = seq![0x7bu8] + w + inner;
    lemma_members_found(parts, w, t);
    assert(is_string(parts[0].0));
    lemma_starts_with_quote(parts, w, t);
    lemma_blanks(seq![0x7bu8], w, inner);
    let first = (1 + w.len()) as int;
    assert(rest(s, first) =~= inner);
    assert(s[first] == 0x22);
    let found = members_from(inner)->Some_0;
    let ms = moved_all(found, first);
    assert(object_members(s, 0) == Some(ms));
    assert forall|i: int| 0 <= i < ms.len() implies member_is(
        s,
        #[trigger] ms[i],
        parts[i].0,
        parts[i].1,
    ) by {
        assert(member_is(inner, found[i], parts[i].0, parts[i].1));
        lemma_member_moved(seq![0x7bu8] + w, inner, found[i], parts[i].0, parts[i].1);
    }
}

/// An object without members has none.
pub proof fn law_empty_object_has_no_members(w: Seq<u8>, t: Seq<u8>)
    requires
        blank_bytes(w),
    ensures
        object_members(seq![0x7bu8] + w + (seq![0x7du8] + t), 0) == Some(Seq::<Member>::empty()),
{
    let s = seq![0x7bu8] + w + (seq![0x7du8] + t);
    lemma_blanks(seq![0x7bu8], w, seq![0x7du8] + t);
    assert(s[(1 + w.len()) as int] == 0x7d);
}

} // verus!
