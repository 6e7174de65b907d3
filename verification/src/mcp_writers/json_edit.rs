//! What editing a JSON text does to the members that are found in it.

use vstd::prelude::*;
use vstd::utf8::*;
use crate::bytes::lemma_encode_concat;
use crate::json::{
    compact, compact_items, compact_members, escaped, escaped_all, json_string_value, plain, quoted,
    JsonTree,
};
use crate::mcp_writers::json_span::{
    after_space, byte_at, closes, container_rest_len, ends_literal, first_member, first_with_key,
    is_json_space, key_at, key_text, lemma_container_rest_len, lemma_first_member,
    lemma_literal_len, lemma_rest, lemma_space_len, lemma_string_rest_len, lemma_value_len,
    literal_len, member_of, members_from, moved, moved_all, object_at, object_members, open_after,
    opens, pairs, plus, rest, space_len, string_len, string_rest_len, value_len, well_lexed, Member,
};
use crate::text::hex_digit;

verus! {

// Two texts that start alike are scanned alike.
spec fn alike(s: Seq<u8>, t: Seq<u8>, n: int) -> bool {
    s.len() >= n && t.len() >= n && forall|i: int| 0 <= i < n ==> #[trigger] s[i] == t[i]
}

proof fn lemma_alike_skip(s: Seq<u8>, t: Seq<u8>, n: int, k: int)
    requires
        alike(s, t, n),
        0 <= k <= n,
    ensures
        alike(s.skip(k), t.skip(k), n - k),
{
    assert forall|i: int| 0 <= i < n - k implies #[trigger] s.skip(k)[i] == t.skip(k)[i] by {
        assert(s[i + k] == t[i + k]);
    }
}

proof fn lemma_string_local(s: Seq<u8>, t: Seq<u8>)
    requires
        string_rest_len(s) matches Some(n) && alike(s, t, n),
    ensures
        string_rest_len(t) == string_rest_len(s),
    decreases s.len(),
{
    let n = string_rest_len(s).unwrap();
    lemma_string_rest_len(s);
    assert(s[0] == t[0]);
    if s[0] != 0x22 {
        let step: int = if s[0] == 0x5c {
            2
        } else {
            1
        };
        lemma_string_rest_len(s.skip(step));
        lemma_alike_skip(s, t, n, step);
        lemma_string_local(s.skip(step), t.skip(step));
    }
}

proof fn lemma_container_local(s: Seq<u8>, t: Seq<u8>, open: Seq<u8>)
    requires
        container_rest_len(s, open) matches Some(n) && alike(s, t, n),
    ensures
        container_rest_len(t, open) == container_rest_len(s, open),
    decreases s.len(),
{
    let n = container_rest_len(s, open).unwrap();
    lemma_container_rest_len(s, open);
    assert(s[0] == t[0]);
    if s[0] == 0x22 {
        let k = string_rest_len(s.skip(1)).unwrap();
        lemma_string_rest_len(s.skip(1));
        lemma_container_rest_len(s.skip(k + 1), open);
        lemma_alike_skip(s, t, n, 1);
        lemma_string_local(s.skip(1), t.skip(1));
        lemma_alike_skip(s, t, n, k + 1);
        lemma_container_local(s.skip(k + 1), t.skip(k + 1), open);
    } else if closes(s[0]) && open.len() == 1 {
    } else {
        let inner = open_after(open, s[0]);
        lemma_container_rest_len(s.skip(1), inner);
        lemma_alike_skip(s, t, n, 1);
        lemma_container_local(s.skip(1), t.skip(1), inner);
    }
}

proof fn lemma_literal_local(s: Seq<u8>, t: Seq<u8>)
    requires
        alike(s, t, literal_len(s) + 1),
    ensures
        literal_len(t) == literal_len(s),
    decreases s.len(),
{
    lemma_literal_len(s);
    assert(s[0] == t[0]);
    if !ends_literal(s[0]) {
        lemma_alike_skip(s, t, literal_len(s) + 1, 1);
        lemma_literal_local(s.skip(1), t.skip(1));
    }
}

proof fn lemma_space_local(s: Seq<u8>, t: Seq<u8>)
    requires
        alike(s, t, space_len(s) + 1),
    ensures
        space_len(t) == space_len(s),
    decreases s.len(),
{
    lemma_space_len(s);
    assert(s[0] == t[0]);
    if is_json_space(s[0]) {
        lemma_alike_skip(s, t, space_len(s) + 1, 1);
        lemma_space_local(s.skip(1), t.skip(1));
    }
}

proof fn lemma_value_local(s: Seq<u8>, t: Seq<u8>)
    requires
        value_len(s) matches Some(n) && alike(s, t, n + 1),
    ensures
        value_len(t) == value_len(s),
{
    let n = value_len(s).unwrap();
    lemma_value_len(s);
    assert(s[0] == t[0]);
    if s[0] == 0x22 {
        lemma_string_rest_len(s.skip(1));
        lemma_alike_skip(s, t, n + 1, 1);
        lemma_string_local(s.skip(1), t.skip(1));
    } else if opens(s[0]) {
        lemma_container_local(s, t, Seq::empty());
    } else {
        lemma_literal_local(s, t);
    }
}

proof fn lemma_space_local_at(s: Seq<u8>, t: Seq<u8>, i: int)
    requires
        0 <= i <= s.len(),
        alike(s, t, after_space(s, i) + 1),
    ensures
        after_space(t, i) == after_space(s, i),
{
    lemma_space_len(rest(s, i));
    lemma_alike_skip(s, t, after_space(s, i) + 1, i);
    lemma_space_local(rest(s, i), rest(t, i));
}

// A value ends where a text starts with it and nothing follows that could belong to it.
proof fn lemma_value_ends(s: Seq<u8>, t: Seq<u8>)
    requires
        value_len(s) matches Some(n) && alike(s, t, n) && (t.len() == n || ends_literal(t[n])),
    ensures
        value_len(t) == value_len(s),
{
    let n = value_len(s).unwrap();
    lemma_value_len(s);
    assert(s[0] == t[0]);
    if s[0] == 0x22 {
        lemma_string_rest_len(s.skip(1));
        lemma_alike_skip(s, t, n, 1);
        lemma_string_local(s.skip(1), t.skip(1));
    } else if opens(s[0]) {
        lemma_container_local(s, t, Seq::empty());
    } else {
        lemma_literal_ends(s, t);
    }
}

proof fn lemma_literal_ends(s: Seq<u8>, t: Seq<u8>)
    requires
        alike(s, t, literal_len(s)),
        t.len() == literal_len(s) || ends_literal(t[literal_len(s)]),
    ensures
        literal_len(t) == literal_len(s),
    decreases s.len(),
{
    lemma_literal_len(s);
    if literal_len(s) > 0 {
        assert(s[0] == t[0]);
        lemma_alike_skip(s, t, literal_len(s), 1);
        lemma_literal_ends(s.skip(1), t.skip(1));
    }
}

/// The first member of a text that starts alike up to its end, with something else behind.
proof fn lemma_first_member_ends(s: Seq<u8>, t: Seq<u8>)
    requires
        first_member(s) matches Some((m, after)) && alike(s, t, m.end) && (t.len() == m.end
            || ends_literal(t[m.end])),
    ensures
        first_member(t) == Some((first_member(s).unwrap().0, after_space(t, first_member(s).unwrap().0.end))),
{
    reveal(first_member);
    let (m, after) = first_member(s).unwrap();
    lemma_first_member(s);
    lemma_string_rest_len(s.skip(1));
    let key = string_len(s).unwrap();
    let colon = after_space(s, key);
    lemma_space_len(rest(s, key));
    lemma_space_len(rest(s, colon + 1));
    lemma_value_len(rest(s, m.value));
    assert(s[0] == t[0]);
    lemma_alike_skip(s, t, m.end, 1);
    lemma_string_local(s.skip(1), t.skip(1));
    lemma_space_local_at(s, t, key);
    assert(s[colon] == t[colon]);
    lemma_space_local_at(s, t, colon + 1);
    lemma_alike_skip(s, t, m.end, m.value);
    if t.len() > m.end {
        assert(rest(t, m.value)[m.end - m.value] == t[m.end]);
    }
    lemma_value_ends(rest(s, m.value), rest(t, m.value));
}

/// The first member depends on no more than the byte that follows it.
proof fn lemma_first_member_local(s: Seq<u8>, t: Seq<u8>)
    requires
        first_member(s) matches Some((m, after)) && alike(s, t, after + 1),
    ensures
        first_member(t) == first_member(s),
{
    reveal(first_member);
    let (m, after) = first_member(s).unwrap();
    lemma_first_member(s);
    lemma_string_rest_len(s.skip(1));
    let key = string_len(s).unwrap();
    let colon = after_space(s, key);
    lemma_space_len(rest(s, key));
    lemma_space_len(rest(s, colon + 1));
    lemma_value_len(rest(s, m.value));
    lemma_space_len(rest(s, m.end));
    assert(s[0] == t[0]);
    lemma_alike_skip(s, t, after + 1, 1);
    lemma_string_local(s.skip(1), t.skip(1));
    lemma_space_local_at(s, t, key);
    assert(s[colon] == t[colon]);
    lemma_space_local_at(s, t, colon + 1);
    lemma_alike_skip(s, t, after + 1, m.value);
    lemma_value_local(rest(s, m.value), rest(t, m.value));
    lemma_space_local_at(s, t, m.end);
}

/// Where the brace stands that closes the object after its members.
pub open spec fn members_close(s: Seq<u8>) -> Option<int>
    decreases s.len(),
{
    match first_member(s) {
        None => None,
        Some((m, after)) => if byte_at(s, after) == Some(0x7du8) {
            Some(after)
        } else if byte_at(s, after) == Some(0x2cu8) {
            let next = after_space(s, after + 1);
            if 0 < next <= s.len() {
                plus(members_close(s.skip(next)), next)
            } else {
                None
            }
        } else {
            None
        },
    }
}

/// The next member's position after a comma at `after`.
pub proof fn lemma_next(s: Seq<u8>)
    requires
        first_member(s) matches Some((m, after)) && byte_at(s, after) == Some(0x2cu8),
    ensures
        ({
            let after = first_member(s).unwrap().1;
            let next = after_space(s, after + 1);
            &&& after < next <= s.len()
            &&& members_from(s) is Some ==> next < s.len() && s[next] == 0x22 && members_from(
                s.skip(next),
            ) is Some
            &&& rest(s, next) == s.skip(next)
        }),
{
    let after = first_member(s).unwrap().1;
    lemma_first_member(s);
    lemma_space_len(rest(s, after + 1));
    let next = after_space(s, after + 1);
    if members_from(s) is Some {
        lemma_first_member(s.skip(next));
    }
}

proof fn lemma_members_bounds(s: Seq<u8>)
    requires
        members_from(s) is Some,
    ensures
        ({
            let ms = members_from(s).unwrap();
            let close = members_close(s).unwrap();
            &&& members_close(s) is Some
            &&& ms.len() > 0
            &&& ms[0] == first_member(s).unwrap().0
            &&& ms[0].start == 0
            &&& 0 < close < s.len() && s[close] == 0x7d
            &&& ms.last().end <= close
            &&& forall|i: int|
                0 <= i < ms.len() ==> 0 <= (#[trigger] ms[i]).start < ms[i].value < ms[i].end <= close
            &&& forall|i: int, j: int|
                0 <= i < j < ms.len() ==> (#[trigger] ms[i]).end < (#[trigger] ms[j]).start
        }),
    decreases s.len(),
{
    lemma_first_member(s);
    let (m, after) = first_member(s).unwrap();
    let ms = members_from(s).unwrap();
    if byte_at(s, after) == Some(0x2cu8) {
        lemma_next(s);
        let next = after_space(s, after + 1);
        let t = s.skip(next);
        lemma_members_bounds(t);
        let more = members_from(t).unwrap();
        assert(ms =~= seq![m] + moved_all(more, next));
        assert forall|i: int| 0 <= i < ms.len() implies 0 <= (#[trigger] ms[i]).start < ms[i].value
            < ms[i].end <= members_close(s).unwrap() by {
            if i > 0 {
                assert(ms[i] == moved(more[i - 1], next));
            }
        }
        assert forall|i: int, j: int| 0 <= i < j < ms.len() implies (#[trigger] ms[i]).end < (
        #[trigger] ms[j]).start by {
            assert(ms[j] == moved(more[j - 1], next));
            if i > 0 {
                assert(ms[i] == moved(more[i - 1], next));
            }
        }
    }
}

spec fn all_space(w: Seq<u8>) -> bool {
    forall|i: int| 0 <= i < w.len() ==> is_json_space(#[trigger] w[i])
}

// White space up to a byte that is none.
pub proof fn lemma_space_run(s: Seq<u8>, n: int)
    requires
        0 <= n <= s.len(),
        forall|i: int| 0 <= i < n ==> is_json_space(#[trigger] s[i]),
        n < s.len() ==> !is_json_space(s[n]),
    ensures
        space_len(s) == n,
    decreases n,
{
    if n > 0 {
        let t = s.skip(1);
        assert forall|i: int| 0 <= i < n - 1 implies is_json_space(#[trigger] t[i]) by {
            assert(t[i] == s[i + 1]);
        }
        lemma_space_run(t, n - 1);
    }
}

// The first `k` members stay when what follows them is exchanged for other members, with
// white space in front of them.
#[verifier::rlimit(60)]
#[verifier::spinoff_prover]
proof fn lemma_members_kept(s: Seq<u8>, k: int, w: Seq<u8>, t: Seq<u8>)
    requires
        members_from(s) matches Some(ms) && 1 <= k < ms.len(),
        members_from(t) is Some,
        all_space(w),
    ensures
        ({
            let ms = members_from(s).unwrap();
            let p = ms[k].start;
            let r = s.take(p) + w + t;
            &&& members_from(r) == Some(
                ms.take(k) + moved_all(members_from(t).unwrap(), p + w.len()),
            )
            &&& members_close(r) == Some(p + w.len() + members_close(t).unwrap())
        }),
    decreases k,
{
    let ms = members_from(s).unwrap();
    let ts = members_from(t).unwrap();
    let p = ms[k].start;
    let r = s.take(p) + w + t;
    lemma_members_bounds(s);
    lemma_members_bounds(t);
    lemma_first_member(s);
    lemma_first_member(t);
    let (m, after) = first_member(s).unwrap();
    lemma_next(s);
    let next = after_space(s, after + 1);
    let u = s.skip(next);
    let us = members_from(u).unwrap();
    lemma_members_bounds(u);
    lemma_first_member(u);
    assert(ms =~= seq![m] + moved_all(us, next));
    assert(ms[k] == moved(us[k - 1], next));
    assert(p >= next);
    assert(alike(s, r, p));
    lemma_first_member_local(s, r);
    assert(r[after] == s[after]);
    lemma_space_len(rest(s, after + 1));
    if k == 1 {
        assert(p == next);
        let n = p + w.len() - (after + 1);
        let gap = rest(r, after + 1);
        assert forall|i: int| 0 <= i < n implies is_json_space(#[trigger] gap[i]) by {
            if i < p - (after + 1) {
                assert(gap[i] == rest(s, after + 1)[i]);
            } else {
                assert(gap[i] == w[i - (p - (after + 1))]);
            }
        }
        assert(gap[n] == t[0]);
        lemma_space_run(gap, n);
        assert(r.skip(p + w.len()) =~= t);
        assert(seq![m] + moved_all(ts, p + w.len()) =~= ms.take(1) + moved_all(ts, p + w.len()));
    } else {
        assert(us[k - 1].start > us[0].start);
        assert(alike(s, r, next + 1));
        lemma_space_local_at(s, r, after + 1);
        lemma_members_kept(u, k - 1, w, t);
        let q = us[k - 1].start;
        assert(r.skip(next) =~= u.take(q) + w + t);
        let more = us.take(k - 1) + moved_all(ts, q + w.len());
        assert(seq![m] + moved_all(more, next) =~= ms.take(k) + moved_all(ts, p + w.len()));
    }
}

// The first member of the rest of a member list.
#[verifier::rlimit(50)]
proof fn lemma_members_tail(s: Seq<u8>, k: int)
    requires
        members_from(s) matches Some(ms) && 0 <= k < ms.len(),
    ensures
        ({
            let ms = members_from(s).unwrap();
            let p = ms[k].start;
            let t = s.skip(p);
            &&& members_from(t) == Some(moved_all(ms.skip(k), -p))
            &&& members_close(s) == plus(members_close(t), p)
            &&& first_member(t) is Some
        }),
    decreases k,
{
    let ms = members_from(s).unwrap();
    let p = ms[k].start;
    lemma_members_bounds(s);
    lemma_first_member(s);
    if k == 0 {
        assert(s.skip(0) =~= s);
        assert(moved_all(ms.skip(0), 0) =~= ms);
    } else {
        let (m, after) = first_member(s).unwrap();
        lemma_next(s);
        let next = after_space(s, after + 1);
        let u = s.skip(next);
        let us = members_from(u).unwrap();
        assert(ms =~= seq![m] + moved_all(us, next));
        assert(ms[k] == moved(us[k - 1], next));
        lemma_members_tail(u, k - 1);
        let q = us[k - 1].start;
        lemma_members_bounds(u);
        assert(u.skip(q) =~= s.skip(p));
        assert(moved_all(us.skip(k - 1), -q) =~= moved_all(ms.skip(k), -p));
    }
}

/// A list of members with the value of one exchanged for one that is longer by `d`.
pub open spec fn exchanged(ms: Seq<Member>, k: int, d: int) -> Seq<Member> {
    Seq::new(
        ms.len(),
        |i: int|
            if i < k {
                ms[i]
            } else if i == k {
                Member { start: ms[k].start, value: ms[k].value, end: ms[k].end + d }
            } else {
                moved(ms[i], d)
            },
    )
}

/// A text that holds one whole object or array.
pub open spec fn is_container(v: Seq<u8>) -> bool {
    v.len() >= 2 && opens(v[0]) && container_rest_len(v, Seq::empty()) == Some(v.len() as int)
}

/// A text that holds one whole string.
pub open spec fn is_string(q: Seq<u8>) -> bool {
    q.len() >= 2 && q[0] == 0x22 && string_rest_len(q.skip(1)) == Some(q.len() - 1)
}

pub proof fn lemma_container_then(v: Seq<u8>, t: Seq<u8>)
    requires
        is_container(v),
    ensures
        value_len(v + t) == Some(v.len() as int),
{
    assert(alike(v, v + t, v.len() as int));
    lemma_container_local(v, v + t, Seq::empty());
}

pub proof fn lemma_string_then(q: Seq<u8>, t: Seq<u8>)
    requires
        is_string(q),
    ensures
        string_len(q + t) == Some(q.len() as int),
{
    assert((q + t).skip(1) =~= q.skip(1) + t);
    assert(alike(q.skip(1), q.skip(1) + t, q.len() - 1));
    lemma_string_local(q.skip(1), q.skip(1) + t);
}

// The first member with its value exchanged, and the unchanged text behind it.
proof fn lemma_first_member_exchanged(s: Seq<u8>, v: Seq<u8>)
    requires
        first_member(s) is Some,
        is_container(v),
    ensures
        ({
            let (m, after) = first_member(s).unwrap();
            let d = v.len() - (m.end - m.value);
            let r = s.take(m.value) + v + s.skip(m.end);
            first_member(r) == Some(
                (Member { start: 0, value: m.value, end: m.end + d }, after + d),
            )
        }),
{
    reveal(first_member);
    lemma_first_member(s);
    let (m, after) = first_member(s).unwrap();
    let r = s.take(m.value) + v + s.skip(m.end);
    lemma_string_rest_len(s.skip(1));
    let key = string_len(s).unwrap();
    let colon = after_space(s, key);
    lemma_space_len(rest(s, key));
    lemma_space_len(rest(s, colon + 1));
    lemma_space_len(rest(s, m.end));
    assert(alike(s, r, m.value));
    assert(s[0] == r[0]);
    lemma_alike_skip(s, r, m.value, 1);
    lemma_string_local(s.skip(1), r.skip(1));
    lemma_space_local_at(s, r, key);
    assert(s[colon] == r[colon]);
    let gap = rest(r, colon + 1);
    let n = m.value - (colon + 1);
    assert forall|i: int| 0 <= i < n implies is_json_space(#[trigger] gap[i]) by {
        assert(gap[i] == rest(s, colon + 1)[i]);
    }
    assert(gap[n] == v[0]);
    lemma_space_run(gap, n);
    assert(rest(r, m.value) =~= v + s.skip(m.end));
    lemma_container_then(v, s.skip(m.end));
    assert(rest(r, m.value + v.len()) =~= rest(s, m.end));
}

#[verifier::rlimit(50)]
proof fn lemma_first_exchanged(s: Seq<u8>, v: Seq<u8>)
    requires
        members_from(s) is Some,
        is_container(v),
    ensures
        ({
            let ms = members_from(s).unwrap();
            let d = v.len() - (ms[0].end - ms[0].value);
            let r = s.take(ms[0].value) + v + s.skip(ms[0].end);
            &&& members_from(r) == Some(exchanged(ms, 0, d))
            &&& members_close(r) == plus(members_close(s), d)
        }),
{
    let ms = members_from(s).unwrap();
    lemma_members_bounds(s);
    lemma_first_member(s);
    let (m, after) = first_member(s).unwrap();
    let d = v.len() - (m.end - m.value);
    let r = s.take(m.value) + v + s.skip(m.end);
    lemma_first_member_exchanged(s, v);
    let own = Member { start: 0, value: m.value, end: m.end + d };
    assert(byte_at(r, after + d) == byte_at(s, after)) by {
        if after < s.len() {
            assert(r[after + d] == s[after]);
        }
    }
    if byte_at(s, after) == Some(0x2cu8) {
        lemma_next(s);
        let next = after_space(s, after + 1);
        assert(rest(r, after + d + 1) =~= rest(s, after + 1));
        assert(r.skip(next + d) =~= s.skip(next));
        let more = members_from(s.skip(next)).unwrap();
        assert(seq![own] + moved_all(more, next + d) =~= exchanged(ms, 0, d));
    } else {
        assert(seq![own] =~= exchanged(ms, 0, d));
    }
}

/// Exchanging the value of one member for a container moves what follows it and leaves the
/// rest.
#[verifier::rlimit(50)]
proof fn lemma_exchanged(s: Seq<u8>, k: int, v: Seq<u8>)
    requires
        members_from(s) matches Some(ms) && 0 <= k < ms.len(),
        is_container(v),
    ensures
        ({
            let ms = members_from(s).unwrap();
            let d = v.len() - (ms[k].end - ms[k].value);
            let r = s.take(ms[k].value) + v + s.skip(ms[k].end);
            &&& members_from(r) == Some(exchanged(ms, k, d))
            &&& members_close(r) == plus(members_close(s), d)
        }),
{
    let ms = members_from(s).unwrap();
    let m = ms[k];
    let d = v.len() - (m.end - m.value);
    let r = s.take(m.value) + v + s.skip(m.end);
    lemma_members_bounds(s);
    if k == 0 {
        lemma_first_exchanged(s, v);
    } else {
        lemma_members_tail(s, k);
        let p = m.start;
        let t = s.skip(p);
        lemma_first_exchanged(t, v);
        let ts = members_from(t).unwrap();
        let u = t.take(ts[0].value) + v + t.skip(ts[0].end);
        lemma_members_bounds(t);
        lemma_members_kept(s, k, Seq::empty(), u);
        assert(s.take(p) + Seq::<u8>::empty() + u =~= r);
        let us = exchanged(ts, 0, d);
        assert(ms.take(k) + moved_all(us, p) =~= exchanged(ms, k, d));
    }
}

/// What a scan for the closing bracket steps over, whatever brackets are open.
pub open spec fn stepped(s: Seq<u8>, n: int, open: Seq<u8>) -> bool {
    container_rest_len(s, open) == plus(container_rest_len(s.skip(n), open), n)
}

proof fn lemma_step_string(s: Seq<u8>, open: Seq<u8>)
    requires
        s.len() > 0 && s[0] == 0x22,
        string_len(s) is Some,
    ensures
        stepped(s, string_len(s).unwrap(), open),
        well_lexed(s) ==> well_lexed(s.skip(string_len(s).unwrap())),
{
    lemma_string_rest_len(s.skip(1));
}

/// White space is stepped over.
pub proof fn lemma_step_space(s: Seq<u8>, open: Seq<u8>)
    ensures
        stepped(s, space_len(s), open),
        well_lexed(s) ==> well_lexed(s.skip(space_len(s))),
    decreases s.len(),
{
    lemma_space_len(s);
    if s.len() > 0 && is_json_space(s[0]) {
        lemma_step_space(s.skip(1), open);
        assert(s.skip(1).skip(space_len(s.skip(1))) =~= s.skip(space_len(s)));
    } else {
        assert(s.skip(0) =~= s);
    }
}

proof fn lemma_step_literal(s: Seq<u8>, n: int, open: Seq<u8>)
    requires
        0 <= n <= s.len(),
        forall|i: int| 0 <= i < n ==> !ends_literal(#[trigger] s[i]) && s[i] != 0x22,
    ensures
        stepped(s, n, open),
        well_lexed(s.skip(n)) && (n == s.len() || ends_literal(s[n])) ==> well_lexed(s),
    decreases n,
{
    if n > 0 {
        let t = s.skip(1);
        assert forall|i: int| 0 <= i < n - 1 implies !ends_literal(#[trigger] t[i]) && t[i]
            != 0x22 by {
            assert(t[i] == s[i + 1]);
        }
        lemma_step_literal(t, n - 1, open);
        assert(t.skip(n - 1) =~= s.skip(n));
        assert(!ends_literal(s[0]) && s[0] != 0x22);
        if well_lexed(s.skip(n)) && (n == s.len() || ends_literal(s[n])) && s[0] != 0x3a {
            lemma_literal_run(s, n);
        }
    } else {
        assert(s.skip(0) =~= s);
    }
}

pub proof fn lemma_literal_run(s: Seq<u8>, n: int)
    requires
        0 <= n <= s.len(),
        forall|i: int| 0 <= i < n ==> !ends_literal(#[trigger] s[i]),
        n < s.len() ==> ends_literal(s[n]),
    ensures
        literal_len(s) == n,
    decreases n,
{
    if n > 0 {
        let t = s.skip(1);
        assert forall|i: int| 0 <= i < n - 1 implies !ends_literal(#[trigger] t[i]) by {
            assert(t[i] == s[i + 1]);
        }
        lemma_literal_run(t, n - 1);
    }
}

// A scan inside further brackets goes on where the one without them ends.
proof fn lemma_step_deeper(s: Seq<u8>, open: Seq<u8>, outer: Seq<u8>)
    requires
        container_rest_len(s, open) is Some,
        open.len() >= 1,
        outer.len() >= 1,
    ensures
        ({
            let n = container_rest_len(s, open).unwrap();
            container_rest_len(s, outer + open) == plus(container_rest_len(s.skip(n), outer), n)
        }),
        well_lexed(s) ==> well_lexed(s.skip(container_rest_len(s, open).unwrap())),
    decreases s.len(),
{
    let n = container_rest_len(s, open).unwrap();
    let all = outer + open;
    lemma_container_rest_len(s, open);
    assert(all.last() == open.last());
    if s[0] == 0x22 {
        let k = string_rest_len(s.skip(1)).unwrap();
        lemma_string_rest_len(s.skip(1));
        lemma_container_rest_len(s.skip(k + 1), open);
        lemma_step_deeper(s.skip(k + 1), open, outer);
        assert(s.skip(k + 1).skip(n - k - 1) =~= s.skip(n));
        lemma_step_string(s, open);
    } else if closes(s[0]) && open.len() == 1 {
        assert(all.drop_last() =~= outer);
        if well_lexed(s) {
            lemma_lexed_skip_one(s);
        }
    } else {
        let inner = open_after(open, s[0]);
        assert(open_after(all, s[0]) =~= outer + inner);
        lemma_container_rest_len(s.skip(1), inner);
        lemma_step_deeper(s.skip(1), inner, outer);
        assert(s.skip(1).skip(n - 1) =~= s.skip(n));
        if well_lexed(s) {
            lemma_lexed_skip_one(s);
        }
    }
}

// What is left after one byte outside a string is made of the same pieces.
pub proof fn lemma_lexed_skip_one(s: Seq<u8>)
    requires
        well_lexed(s),
        s.len() > 0,
        s[0] != 0x22,
    ensures
        well_lexed(s.skip(1)),
{
    if !ends_literal(s[0]) && s[0] != 0x3a {
        let n = literal_len(s);
        lemma_literal_len(s);
        let t = s.skip(1);
        assert forall|i: int| 0 <= i < n - 1 implies !ends_literal(#[trigger] t[i]) && t[i]
            != 0x22 by {
            assert(t[i] == s[i + 1]);
            assert(s.take(n)[i + 1] == s[i + 1]);
        }
        assert(t.skip(n - 1) =~= s.skip(n));
        lemma_step_literal(t, n - 1, Seq::empty());
        if n < s.len() {
            assert(t[n - 1] == s[n]);
        }
    }
}

proof fn lemma_step_value(s: Seq<u8>, open: Seq<u8>)
    requires
        value_len(s) is Some,
        well_lexed(s),
        open.len() >= 1,
    ensures
        stepped(s, value_len(s).unwrap(), open),
        well_lexed(s.skip(value_len(s).unwrap())),
{
    let n = value_len(s).unwrap();
    lemma_value_len(s);
    if s[0] == 0x22 {
        lemma_step_string(s, open);
    } else if opens(s[0]) {
        lemma_container_rest_len(s, Seq::empty());
        let t = s.skip(1);
        let own = Seq::<u8>::empty().push(s[0]);
        assert(open + own =~= open.push(s[0]));
        lemma_step_deeper(t, own, open);
        assert(t.skip(n - 1) =~= s.skip(n));
        lemma_lexed_skip_one(s);
    } else {
        lemma_literal_len(s);
        assert forall|i: int| 0 <= i < n implies !ends_literal(#[trigger] s[i]) && s[i]
            != 0x22 by {
            assert(s.take(n)[i] == s[i]);
        }
        lemma_step_literal(s, n, open);
    }
}

proof fn lemma_stepped_on(s: Seq<u8>, i: int, n: int, open: Seq<u8>)
    requires
        0 <= i,
        0 <= n,
        i + n <= s.len(),
        stepped(s, i, open),
        stepped(s.skip(i), n, open),
    ensures
        stepped(s, i + n, open),
{
    assert(s.skip(i).skip(n) =~= s.skip(i + n));
}

// From a key to its value, and on to the byte that follows it.
pub proof fn lemma_step_member(s: Seq<u8>, open: Seq<u8>)
    requires
        first_member(s) is Some,
        well_lexed(s),
        open.len() >= 1,
    ensures
        well_lexed(s.skip(first_member(s).unwrap().0.value)),
        stepped(s, first_member(s).unwrap().1, open),
        well_lexed(s.skip(first_member(s).unwrap().1)),
{
    reveal(first_member);
    let (m, after) = first_member(s).unwrap();
    lemma_first_member(s);
    lemma_string_rest_len(s.skip(1));
    let key = string_len(s).unwrap();
    let colon = after_space(s, key);
    lemma_step_string(s, open);
    lemma_space_len(rest(s, key));
    lemma_step_space(s.skip(key), open);
    lemma_stepped_on(s, key, colon - key, open);
    assert(s.skip(key).skip(colon - key) =~= s.skip(colon));
    let at_colon = s.skip(colon);
    assert(at_colon[0] == 0x3a);
    assert(stepped(at_colon, 1, open));
    lemma_stepped_on(s, colon, 1, open);
    assert(at_colon.skip(1) =~= s.skip(colon + 1));
    lemma_space_len(rest(s, colon + 1));
    lemma_step_space(s.skip(colon + 1), open);
    lemma_stepped_on(s, colon + 1, m.value - colon - 1, open);
    assert(s.skip(colon + 1).skip(m.value - colon - 1) =~= s.skip(m.value));
    lemma_value_len(rest(s, m.value));
    lemma_step_value(s.skip(m.value), open);
    lemma_stepped_on(s, m.value, m.end - m.value, open);
    assert(s.skip(m.value).skip(m.end - m.value) =~= s.skip(m.end));
    lemma_space_len(rest(s, m.end));
    lemma_step_space(s.skip(m.end), open);
    lemma_stepped_on(s, m.end, after - m.end, open);
    assert(s.skip(m.end).skip(after - m.end) =~= s.skip(after));
}

/// The members of an object fill it up to the bracket that closes it.
proof fn lemma_members_contained(s: Seq<u8>)
    requires
        members_from(s) is Some,
        well_lexed(s),
    ensures
        container_rest_len(s, seq![0x7bu8]) == plus(members_close(s), 1),
        members_close(s) is Some,
    decreases s.len(),
{
    let (m, after) = first_member(s).unwrap();
    lemma_first_member(s);
    lemma_step_member(s, seq![0x7bu8]);
    let t = s.skip(after);
    assert(t[0] == s[after]);
    if byte_at(s, after) == Some(0x2cu8) {
        lemma_next(s);
        let next = after_space(s, after + 1);
        assert(t.skip(1) =~= s.skip(after + 1));
        lemma_space_len(rest(s, after + 1));
        lemma_step_space(s.skip(after + 1), seq![0x7bu8]);
        assert(s.skip(after + 1).skip(next - after - 1) =~= s.skip(next));
        lemma_members_contained(s.skip(next));
    }
}

// A member's text: a key, a colon and a space, and an object or array.
proof fn lemma_member_text(q: Seq<u8>, v: Seq<u8>, y: Seq<u8>)
    requires
        is_string(q),
        is_container(v),
    ensures
        ({
            let value = q.len() + 2;
            let end = value + v.len();
            first_member(q + seq![0x3au8, 0x20u8] + v + y) == Some(
                (Member { start: 0, value: value as int, end: end as int }, end + space_len(y)),
            )
        }),
{
    reveal(first_member);
    let t = seq![0x3au8, 0x20u8] + v + y;
    let s = q + seq![0x3au8, 0x20u8] + v + y;
    assert(s =~= q + t);
    let key = q.len() as int;
    lemma_string_then(q, t);
    assert(rest(s, key) =~= t);
    lemma_space_run(t, 0);
    assert(s[key] == 0x3a);
    assert(rest(s, key + 1) =~= seq![0x20u8] + v + y);
    lemma_space_run(seq![0x20u8] + v + y, 1);
    assert(rest(s, key + 2) =~= v + y);
    lemma_container_then(v, y);
    assert(rest(s, key + 2 + v.len()) =~= y);
}

/// A comma, a space, and a member's text.
pub open spec fn appendix(q: Seq<u8>, v: Seq<u8>) -> Seq<u8> {
    seq![0x2cu8, 0x20u8] + (q + seq![0x3au8, 0x20u8] + v)
}

pub open spec fn appended_member(at: int, q: Seq<u8>, v: Seq<u8>) -> Member {
    Member { start: at + 2, value: at + q.len() + 4, end: at + q.len() + 4 + v.len() }
}

// One member more behind the last.
#[verifier::rlimit(50)]
proof fn lemma_appended_one(s: Seq<u8>, q: Seq<u8>, v: Seq<u8>)
    requires
        members_from(s) matches Some(ms) && ms.len() == 1,
        is_string(q),
        is_container(v),
    ensures
        ({
            let ms = members_from(s).unwrap();
            let e = ms[0].end;
            let r = s.take(e) + appendix(q, v) + s.skip(e);
            &&& members_from(r) == Some(seq![ms[0], appended_member(e, q, v)])
            &&& members_close(r) == plus(members_close(s), appendix(q, v).len() as int)
        }),
{
    let ms = members_from(s).unwrap();
    lemma_members_bounds(s);
    lemma_first_member(s);
    let (m, after) = first_member(s).unwrap();
    if byte_at(s, after) == Some(0x2cu8) {
        lemma_next(s);
        lemma_members_bounds(s.skip(after_space(s, after + 1)));
    }
    let e = m.end;
    let x = appendix(q, v);
    let r = s.take(e) + x + s.skip(e);
    assert(alike(s, r, e));
    assert(r[e] == 0x2c);
    lemma_first_member_ends(s, r);
    lemma_space_run(rest(r, e), 0);
    assert(first_member(r) == Some((m, e)));
    let y = s.skip(e);
    let t = q + seq![0x3au8, 0x20u8] + v + y;
    assert(rest(r, e + 1) =~= seq![0x20u8] + t);
    lemma_space_run(seq![0x20u8] + t, 1);
    assert(after_space(r, e + 1) == e + 2);
    assert(r.skip(e + 2) =~= t);
    lemma_member_text(q, v, y);
    lemma_first_member_after(s);
    let n = q.len() + 2 + v.len();
    assert(y[space_len(y)] == s[after]);
    assert(t[n + space_len(y)] == y[space_len(y)]);
    let own = first_member(t).unwrap().0;
    assert(members_from(t) == Some(seq![own]));
    assert(members_close(t) == Some(n + space_len(y)));
    assert(members_close(s) == Some(after));
    assert(byte_at(r, e) == Some(0x2cu8));
    assert(members_close(r) == plus(members_close(r.skip(e + 2)), e + 2));
    assert(members_from(r) == Some(seq![m] + moved_all(seq![own], e + 2)));
    assert(seq![m] + moved_all(seq![own], e + 2) =~= seq![m, appended_member(e, q, v)]);
}

// The byte after the first member lies behind white space.
proof fn lemma_first_member_after(s: Seq<u8>)
    requires
        first_member(s) is Some,
    ensures
        ({
            let (m, after) = first_member(s).unwrap();
            &&& after == m.end + space_len(s.skip(m.end))
            &&& after == after_space(s, m.end)
            &&& after < s.len() ==> !is_json_space(s[after])
            &&& forall|i: int| m.end <= i < after ==> is_json_space(#[trigger] s[i])
        }),
{
    reveal(first_member);
    let (m, after) = first_member(s).unwrap();
    lemma_first_member(s);
    let t = s.skip(m.end);
    lemma_space_len(t);
    assert forall|i: int| m.end <= i < after implies is_json_space(#[trigger] s[i]) by {
        assert(t[i - m.end] == s[i]);
    }
    if after < s.len() {
        assert(t[after - m.end] == s[after]);
    }
}

/// A member put behind the last one is found there, and the others stay.
#[verifier::rlimit(50)]
proof fn lemma_appended(s: Seq<u8>, q: Seq<u8>, v: Seq<u8>)
    requires
        members_from(s) is Some,
        is_string(q),
        is_container(v),
    ensures
        ({
            let ms = members_from(s).unwrap();
            let e = ms.last().end;
            let r = s.take(e) + appendix(q, v) + s.skip(e);
            &&& members_from(r) == Some(ms.push(appended_member(e, q, v)))
            &&& members_close(r) == plus(members_close(s), appendix(q, v).len() as int)
        }),
{
    let ms = members_from(s).unwrap();
    lemma_members_bounds(s);
    let k = ms.len() - 1;
    let e = ms[k].end;
    let x = appendix(q, v);
    if k == 0 {
        lemma_appended_one(s, q, v);
        assert(seq![ms[0], appended_member(e, q, v)] =~= ms.push(appended_member(e, q, v)));
    } else {
        lemma_members_tail(s, k);
        let p = ms[k].start;
        let t = s.skip(p);
        let ts = members_from(t).unwrap();
        assert(ts =~= seq![moved(ms[k], -p)]);
        lemma_appended_one(t, q, v);
        let u = t.take(e - p) + x + t.skip(e - p);
        lemma_members_kept(s, k, Seq::empty(), u);
        assert(s.take(p) + Seq::<u8>::empty() + u =~= s.take(e) + x + s.skip(e));
        let us = seq![ts[0], appended_member(e - p, q, v)];
        assert(ms.take(k) + moved_all(us, p) =~= ms.push(appended_member(e, q, v)));
    }
}

// What a member that is not the last is followed by.
#[verifier::rlimit(50)]
proof fn lemma_followed(s: Seq<u8>, k: int)
    requires
        members_from(s) matches Some(ms) && 0 <= k < ms.len(),
    ensures
        ({
            let ms = members_from(s).unwrap();
            let after = after_space(s, ms[k].end);
            &&& ms[k].end <= after < s.len()
            &&& forall|i: int| ms[k].end <= i < after ==> is_json_space(#[trigger] s[i])
            &&& k < ms.len() - 1 ==> s[after] == 0x2c && after < ms[k + 1].start && forall|i: int|
                after < i < ms[k + 1].start ==> is_json_space(#[trigger] s[i])
            &&& k == ms.len() - 1 ==> s[after] == 0x7d && members_close(s) == Some(after)
        }),
{
    let ms = members_from(s).unwrap();
    lemma_members_bounds(s);
    lemma_members_tail(s, k);
    let p = ms[k].start;
    let t = s.skip(p);
    let ts = members_from(t).unwrap();
    lemma_first_member(t);
    lemma_first_member_after(t);
    lemma_members_bounds(t);
    let (m, after) = first_member(t).unwrap();
    assert(ts[0] == m);
    assert(m == moved(ms[k], -p));
    lemma_rest(s, p, m.end);
    assert(s[p + after] == t[after]);
    assert forall|i: int| ms[k].end <= i < p + after implies is_json_space(#[trigger] s[i]) by {
        assert(t[i - p] == s[i]);
    }
    if byte_at(t, after) == Some(0x2cu8) {
        lemma_next(t);
        let next = after_space(t, after + 1);
        let us = members_from(t.skip(next)).unwrap();
        lemma_members_bounds(t.skip(next));
        assert(ts =~= seq![m] + moved_all(us, next));
        assert(ts[1] == moved(us[0], next));
        assert(ts.len() == ms.len() - k);
        assert(ts[1] == moved(ms[k + 1], -p));
        lemma_space_len(rest(t, after + 1));
        assert forall|i: int| p + after < i < ms[k + 1].start implies is_json_space(
            #[trigger] s[i],
        ) by {
            assert(rest(t, after + 1)[i - p - after - 1] == s[i]);
        }
    }
}

// A member before another one goes together with the comma behind it.
proof fn lemma_dropped_inner(s: Seq<u8>, k: int)
    requires
        members_from(s) matches Some(ms) && 1 <= k < ms.len() - 1,
    ensures
        ({
            let ms = members_from(s).unwrap();
            let to = after_space(s, ms[k].end) + 1;
            let d = to - ms[k].start;
            let r = s.take(ms[k].start) + s.skip(to);
            &&& members_from(r) == Some(ms.take(k) + moved_all(ms.skip(k + 1), -d))
            &&& members_close(r) == plus(members_close(s), -d)
        }),
{
    let ms = members_from(s).unwrap();
    lemma_members_bounds(s);
    lemma_followed(s, k);
    lemma_members_tail(s, k + 1);
    let to = after_space(s, ms[k].end) + 1;
    let p = ms[k].start;
    let next = ms[k + 1].start;
    let w = s.subrange(to, next);
    let t = s.skip(next);
    assert(all_space(w));
    lemma_members_kept(s, k, w, t);
    assert(s.take(p) + w + t =~= s.take(p) + s.skip(to));
    let ts = moved_all(ms.skip(k + 1), -next);
    assert(moved_all(ts, p + w.len()) =~= moved_all(ms.skip(k + 1), -(to - p)));
}

// The second of two members goes together with the comma before it.
proof fn lemma_dropped_second(t: Seq<u8>)
    requires
        members_from(t) matches Some(ts) && ts.len() == 2,
    ensures
        ({
            let ts = members_from(t).unwrap();
            let from = after_space(t, ts[0].end);
            let to = ts[1].end;
            let u = t.take(from) + t.skip(to);
            &&& members_from(u) == Some(seq![ts[0]])
            &&& members_close(u) == plus(members_close(t), from - to)
        }),
{
    let ts = members_from(t).unwrap();
    lemma_members_bounds(t);
    lemma_followed(t, 0);
    lemma_followed(t, 1);
    let m = ts[0];
    let from = after_space(t, m.end);
    let to = ts[1].end;
    let u = t.take(from) + t.skip(to);
    let close = members_close(t).unwrap();
    assert(alike(t, u, m.end));
    assert(u[m.end] == if m.end < from {
        t[m.end]
    } else {
        t[to]
    });
    lemma_first_member_ends(t, u);
    // only white space stands between the member and the brace
    let gap = rest(u, m.end);
    let n = (from - m.end) + (close - to);
    assert forall|i: int| 0 <= i < n implies is_json_space(#[trigger] gap[i]) by {
        if i < from - m.end {
            assert(gap[i] == t[m.end + i]);
        } else {
            assert(gap[i] == t[to + i - (from - m.end)]);
        }
    }
    assert(gap[n] == t[close]);
    lemma_space_run(gap, n);
    assert(u[m.end + n] == gap[n]);
    assert(first_member(u) == Some((m, m.end + n)));
}

// The last of several members goes together with the comma before it.
#[verifier::rlimit(50)]
proof fn lemma_dropped_last(s: Seq<u8>)
    requires
        members_from(s) matches Some(ms) && ms.len() >= 2,
    ensures
        ({
            let ms = members_from(s).unwrap();
            let k = ms.len() - 1;
            let from = after_space(s, ms[k - 1].end);
            let to = ms[k].end;
            let r = s.take(from) + s.skip(to);
            &&& members_from(r) == Some(ms.take(k))
            &&& members_close(r) == plus(members_close(s), from - to)
        }),
{
    let ms = members_from(s).unwrap();
    let k = ms.len() - 1;
    lemma_members_bounds(s);
    lemma_followed(s, k - 1);
    let from = after_space(s, ms[k - 1].end);
    let to = ms[k].end;
    let r = s.take(from) + s.skip(to);
    if k == 1 {
        lemma_dropped_second(s);
        assert(seq![ms[0]] =~= ms.take(1));
    } else {
        let p = ms[k - 1].start;
        let t = s.skip(p);
        lemma_members_tail(s, k - 1);
        let ts = members_from(t).unwrap();
        lemma_dropped_second(t);
        lemma_rest(s, p, ms[k - 1].end - p);
        let u = t.take(from - p) + t.skip(to - p);
        lemma_members_kept(s, k - 1, Seq::empty(), u);
        assert(s.take(p) + Seq::<u8>::empty() + u =~= r);
        assert(ms.take(k - 1) + moved_all(seq![ts[0]], p) =~= ms.take(k));
    }
}

/// Where the brace stands that closes the object whose `{` is at `at`.
pub open spec fn object_close(b: Seq<u8>, at: int) -> Option<int> {
    let first = after_space(b, at + 1);
    if byte_at(b, first) == Some(0x7du8) {
        Some(first)
    } else {
        plus(members_close(rest(b, first)), first)
    }
}

/// Two texts that are the same up to the root's brace have it in the same place.
pub proof fn lemma_same_root(b: Seq<u8>, c: Seq<u8>, n: int)
    requires
        object_at(b, 0) matches Some(root) && root < n,
        n <= b.len(),
        n <= c.len(),
        b.take(n) == c.take(n),
    ensures
        object_at(c, 0) == object_at(b, 0),
{
    let root = object_at(b, 0).unwrap();
    assert(alike(b, c, n)) by {
        assert forall|i: int| 0 <= i < n implies #[trigger] b[i] == c[i] by {
            assert(b.take(n)[i] == b[i]);
            assert(c.take(n)[i] == c[i]);
        }
    }
    lemma_space_local_at(b, c, 0);
}

/// What lies between `from` and `to` exchanged for `with`.
pub open spec fn edited(b: Seq<u8>, from: int, to: int, with: Seq<u8>) -> Seq<u8> {
    b.take(from) + with + b.skip(to)
}

/// How an object with members lies in a text.
pub proof fn lemma_object_shape(b: Seq<u8>, at: int)
    requires
        object_members(b, at) is Some,
    ensures
        ({
            let ms = object_members(b, at).unwrap();
            let first = after_space(b, at + 1);
            let s = rest(b, first);
            &&& 0 <= at < first < b.len()
            &&& b[at] == 0x7b
            &&& object_close(b, at) matches Some(close) && first <= close < b.len() && b[close]
                == 0x7d
            &&& forall|i: int| at < i < first ==> is_json_space(#[trigger] b[i])
            &&& ms.len() == 0 ==> b[first] == 0x7d
            &&& ms.len() > 0 ==> b[first] == 0x22 && members_from(s) == Some(moved_all(ms, -first))
            &&& forall|i: int|
                0 <= i < ms.len() ==> first <= (#[trigger] ms[i]).start < ms[i].value < ms[i].end
                    <= object_close(b, at).unwrap()
            &&& forall|i: int, j: int|
                0 <= i < j < ms.len() ==> (#[trigger] ms[i]).end < (#[trigger] ms[j]).start
        }),
{
    let ms = object_members(b, at).unwrap();
    let first = after_space(b, at + 1);
    let s = rest(b, first);
    lemma_space_len(rest(b, at + 1));
    assert forall|i: int| at < i < first implies is_json_space(#[trigger] b[i]) by {
        assert(rest(b, at + 1)[i - at - 1] == b[i]);
    }
    if byte_at(b, first) != Some(0x7du8) {
        lemma_first_member(s);
        lemma_members_bounds(s);
        let own = members_from(s).unwrap();
        assert(moved_all(ms, -first) =~= own);
        assert(b[first] == s[0]);
        assert(s[members_close(s).unwrap()] == b[first + members_close(s).unwrap()]);
        assert forall|i: int| 0 <= i < ms.len() implies first <= (#[trigger] ms[i]).start
            < ms[i].value < ms[i].end <= object_close(b, at).unwrap() by {
            assert(ms[i] == moved(own[i], first));
        }
        assert forall|i: int, j: int| 0 <= i < j < ms.len() implies (#[trigger] ms[i]).end < (
        #[trigger] ms[j]).start by {
            assert(ms[i] == moved(own[i], first));
            assert(ms[j] == moved(own[j], first));
        }
    }
}

// An object whose first key stands at `first`.
proof fn lemma_object_from(b: Seq<u8>, at: int, first: int)
    requires
        0 <= at < first < b.len(),
        b[at] == 0x7b,
        forall|i: int| at < i < first ==> is_json_space(#[trigger] b[i]),
        members_from(b.skip(first)) is Some,
    ensures
        object_members(b, at) == Some(moved_all(members_from(b.skip(first)).unwrap(), first)),
        object_close(b, at) == plus(members_close(b.skip(first)), first),
{
    lemma_first_member(b.skip(first));
    lemma_members_bounds(b.skip(first));
    assert(b[first] == b.skip(first)[0]);
    let gap = rest(b, at + 1);
    assert forall|i: int| 0 <= i < first - at - 1 implies is_json_space(#[trigger] gap[i]) by {
        assert(gap[i] == b[i + at + 1]);
    }
    assert(gap[first - at - 1] == b[first]);
    lemma_space_run(gap, first - at - 1);
}

// An object without members.
proof fn lemma_object_empty(b: Seq<u8>, at: int, close: int)
    requires
        0 <= at < close < b.len(),
        b[at] == 0x7b,
        b[close] == 0x7d,
        forall|i: int| at < i < close ==> is_json_space(#[trigger] b[i]),
    ensures
        object_members(b, at) == Some(Seq::<Member>::empty()),
        object_close(b, at) == Some(close),
{
    let gap = rest(b, at + 1);
    assert forall|i: int| 0 <= i < close - at - 1 implies is_json_space(#[trigger] gap[i]) by {
        assert(gap[i] == b[i + at + 1]);
    }
    assert(gap[close - at - 1] == b[close]);
    lemma_space_run(gap, close - at - 1);
}

/// Exchanging the value of one member of an object.
#[verifier::rlimit(50)]
pub proof fn lemma_object_exchanged(b: Seq<u8>, at: int, k: int, v: Seq<u8>)
    requires
        object_members(b, at) matches Some(ms) && 0 <= k < ms.len(),
        is_container(v),
    ensures
        ({
            let ms = object_members(b, at).unwrap();
            let d = v.len() - (ms[k].end - ms[k].value);
            let c = edited(b, ms[k].value, ms[k].end, v);
            &&& object_members(c, at) == Some(exchanged(ms, k, d))
            &&& object_close(c, at) == plus(object_close(b, at), d)
        }),
{
    let ms = object_members(b, at).unwrap();
    let m = ms[k];
    let d = v.len() - (m.end - m.value);
    let c = edited(b, m.value, m.end, v);
    lemma_object_shape(b, at);
    let first = after_space(b, at + 1);
    let s = rest(b, first);
    let own = members_from(s).unwrap();
    assert(own[k] == moved(m, -first));
    lemma_exchanged(s, k, v);
    assert(c.skip(first) =~= s.take(own[k].value) + v + s.skip(own[k].end));
    lemma_object_from(c, at, first);
    assert(moved_all(exchanged(own, k, d), first) =~= exchanged(ms, k, d));
}

/// Putting a member behind the last one of an object.
#[verifier::rlimit(50)]
pub proof fn lemma_object_appended(b: Seq<u8>, at: int, q: Seq<u8>, v: Seq<u8>)
    requires
        object_members(b, at) matches Some(ms) && ms.len() > 0,
        is_string(q),
        is_container(v),
    ensures
        ({
            let ms = object_members(b, at).unwrap();
            let e = ms.last().end;
            let c = edited(b, e, e, appendix(q, v));
            &&& object_members(c, at) == Some(ms.push(appended_member(e, q, v)))
            &&& object_close(c, at) == plus(object_close(b, at), appendix(q, v).len() as int)
        }),
{
    let ms = object_members(b, at).unwrap();
    let e = ms.last().end;
    let c = edited(b, e, e, appendix(q, v));
    lemma_object_shape(b, at);
    let first = after_space(b, at + 1);
    let s = rest(b, first);
    let own = members_from(s).unwrap();
    assert(own.last() == moved(ms.last(), -first));
    lemma_appended(s, q, v);
    assert(c.skip(first) =~= s.take(e - first) + appendix(q, v) + s.skip(e - first));
    assert(ms[ms.len() - 1] == ms.last());
    lemma_object_from(c, at, first);
    assert(moved_all(own.push(appended_member(e - first, q, v)), first) =~= ms.push(
        appended_member(e, q, v),
    ));
}

// A member's text with only white space between it and the brace.
proof fn lemma_single(q: Seq<u8>, v: Seq<u8>, y: Seq<u8>, n: int)
    requires
        is_string(q),
        is_container(v),
        0 <= n < y.len(),
        forall|i: int| 0 <= i < n ==> is_json_space(#[trigger] y[i]),
        y[n] == 0x7d,
    ensures
        ({
            let t = q + seq![0x3au8, 0x20u8] + v + y;
            let end = q.len() + 2 + v.len();
            let m = Member { start: 0, value: end - v.len(), end: end as int };
            members_from(t) == Some(seq![m]) && members_close(t) == Some(end + n)
        }),
{
    let t = q + seq![0x3au8, 0x20u8] + v + y;
    lemma_member_text(q, v, y);
    lemma_space_run(y, n);
    assert(t[q.len() + 2 + v.len() + n] == y[n]);
}

// A member's text with a comma, white space and other members behind it.
proof fn lemma_followed_by(q: Seq<u8>, v: Seq<u8>, z: Seq<u8>, n: int)
    requires
        is_string(q),
        is_container(v),
        0 <= n < z.len(),
        forall|i: int| 0 <= i < n ==> is_json_space(#[trigger] z[i]),
        members_from(z.skip(n)) is Some,
    ensures
        ({
            let t = q + seq![0x3au8, 0x20u8] + v + (seq![0x2cu8] + z);
            let end = q.len() + 2 + v.len();
            let m = Member { start: 0, value: end - v.len(), end: end as int };
            &&& members_from(t) == Some(
                seq![m] + moved_all(members_from(z.skip(n)).unwrap(), end + 1 + n),
            )
            &&& members_close(t) == plus(members_close(z.skip(n)), end + 1 + n)
        }),
{
    let y = seq![0x2cu8] + z;
    let t = q + seq![0x3au8, 0x20u8] + v + y;
    let end: int = (q.len() + 2 + v.len()) as int;
    lemma_member_text(q, v, y);
    lemma_space_run(y, 0);
    assert(t[end] == y[0]);
    assert(rest(t, end + 1) =~= z);
    lemma_first_member(z.skip(n));
    assert(z[n] == z.skip(n)[0]);
    lemma_space_run(z, n);
    assert(t.skip(end + 1 + n) =~= z.skip(n));
}

/// Putting a member with `pad` before it and `tail` behind it in front of an object's
/// content: a single one where the object had none, else with a comma behind it.
#[verifier::rlimit(50)]
pub proof fn lemma_object_prepended(b: Seq<u8>, at: int, pad: Seq<u8>, q: Seq<u8>, v: Seq<u8>, tail: Seq<u8>)
    requires
        object_members(b, at) is Some,
        is_string(q),
        is_container(v),
        forall|i: int| 0 <= i < pad.len() ==> is_json_space(#[trigger] pad[i]),
        object_members(b, at).unwrap().len() == 0 ==> tail == seq![0x20u8],
        object_members(b, at).unwrap().len() > 0 ==> tail == seq![0x2cu8],
    ensures
        ({
            let ms = object_members(b, at).unwrap();
            let x = pad + (q + seq![0x3au8, 0x20u8] + v) + tail;
            let c = edited(b, at + 1, at + 1, x);
            let start = at + 1 + pad.len();
            let m = Member {
                start,
                value: start + q.len() + 2,
                end: start + q.len() + 2 + v.len(),
            };
            &&& object_members(c, at) == Some(seq![m] + moved_all(ms, x.len() as int))
            &&& object_close(c, at) == plus(object_close(b, at), x.len() as int)
        }),
{
    let ms = object_members(b, at).unwrap();
    let text = q + seq![0x3au8, 0x20u8] + v;
    let x = pad + text + tail;
    let c = edited(b, at + 1, at + 1, x);
    let start = at + 1 + pad.len();
    lemma_object_shape(b, at);
    let first = after_space(b, at + 1);
    let y = tail + b.skip(at + 1);
    let t = q + seq![0x3au8, 0x20u8] + v + y;
    assert(c.skip(start) =~= t);
    assert forall|i: int| at < i < start implies is_json_space(#[trigger] c[i]) by {
        assert(c[i] == pad[i - at - 1]);
    }
    assert(c[at] == b[at]);
    let gap = first - at - 1;
    if ms.len() == 0 {
        assert forall|i: int| 0 <= i < 1 + gap implies is_json_space(#[trigger] y[i]) by {
            if i > 0 {
                assert(y[i] == b[at + i]);
            }
        }
        assert(y[1 + gap] == b[first]);
        lemma_single(q, v, y, 1 + gap);
        let own = members_from(t).unwrap()[0];
        assert(moved_all(seq![own], start) =~= seq![moved(own, start)] + moved_all(
            ms,
            x.len() as int,
        ));
    } else {
        let z = b.skip(at + 1);
        assert forall|i: int| 0 <= i < gap implies is_json_space(#[trigger] z[i]) by {
            assert(z[i] == b[at + 1 + i]);
        }
        assert(z.skip(gap) =~= rest(b, first));
        lemma_followed_by(q, v, z, gap);
        let more = members_from(rest(b, first)).unwrap();
        let own = members_from(t).unwrap()[0];
        let n = text.len() + 1 + gap;
        assert(moved_all(seq![own] + moved_all(more, n), start) =~= seq![moved(own, start)]
            + moved_all(ms, x.len() as int));
    }
    lemma_object_from(c, at, start);
}

/// The offset after which only white space stands before `i`.
pub open spec fn before_space(b: Seq<u8>, i: int) -> int
    decreases i,
{
    if 0 < i <= b.len() && is_json_space(b[i - 1]) {
        before_space(b, i - 1)
    } else {
        i
    }
}

/// What is cut to remove a member: the comma behind it too, or else the one before it.
pub open spec fn cut_range(b: Seq<u8>, m: Member) -> (int, int) {
    let after = after_space(b, m.end);
    let before = before_space(b, m.start);
    if byte_at(b, after) == Some(0x2cu8) {
        (m.start, after + 1)
    } else if byte_at(b, before - 1) == Some(0x2cu8) {
        (before - 1, m.end)
    } else {
        (m.start, m.end)
    }
}

pub proof fn lemma_before_space(b: Seq<u8>, i: int, j: int)
    requires
        0 <= j <= i <= b.len(),
        forall|l: int| j <= l < i ==> is_json_space(#[trigger] b[l]),
        j > 0 ==> !is_json_space(b[j - 1]),
    ensures
        before_space(b, i) == j,
    decreases i - j,
{
    if j < i {
        lemma_before_space(b, i - 1, j);
    }
}

/// What the cut of a member makes of the members of its object.
pub open spec fn is_dropped(b: Seq<u8>, at: int, k: int) -> bool {
    let ms = object_members(b, at).unwrap();
    let (from, to) = cut_range(b, ms[k]);
    let c = edited(b, from, to, Seq::empty());
    &&& object_members(c, at) == Some(ms.take(k) + moved_all(ms.skip(k + 1), from - to))
    &&& object_close(c, at) == plus(object_close(b, at), from - to)
    &&& at < from < to <= object_close(b, at).unwrap()
    &&& k > 0 ==> ms[k - 1].end <= from
    &&& k < ms.len() - 1 ==> to <= ms[k + 1].start
}

// The byte that follows a member in an object.
pub proof fn lemma_object_followed(b: Seq<u8>, at: int, k: int)
    requires
        object_members(b, at) matches Some(ms) && 0 <= k < ms.len(),
    ensures
        ({
            let ms = object_members(b, at).unwrap();
            let after = after_space(b, ms[k].end);
            &&& ms[k].end <= after < b.len()
            &&& forall|i: int| ms[k].end <= i < after ==> is_json_space(#[trigger] b[i])
            &&& k < ms.len() - 1 ==> b[after] == 0x2c && after < ms[k + 1].start && forall|i: int|
                after < i < ms[k + 1].start ==> is_json_space(#[trigger] b[i])
            &&& k == ms.len() - 1 ==> b[after] == 0x7d && object_close(b, at) == Some(after)
        }),
{
    let ms = object_members(b, at).unwrap();
    lemma_object_shape(b, at);
    let first = after_space(b, at + 1);
    let s = rest(b, first);
    let own = members_from(s).unwrap();
    assert(own[k] == moved(ms[k], -first));
    lemma_followed(s, k);
    lemma_rest(b, first, own[k].end);
    let after = after_space(b, ms[k].end);
    assert(b[after] == s[after - first]);
    assert forall|i: int| ms[k].end <= i < after implies is_json_space(#[trigger] b[i]) by {
        assert(s[i - first] == b[i]);
    }
    if k < ms.len() - 1 {
        assert(own[k + 1] == moved(ms[k + 1], -first));
        assert forall|i: int| after < i < ms[k + 1].start implies is_json_space(
            #[trigger] b[i],
        ) by {
            assert(s[i - first] == b[i]);
        }
    }
}

proof fn lemma_object_dropped_first(b: Seq<u8>, at: int)
    requires
        object_members(b, at) matches Some(ms) && ms.len() >= 2,
    ensures
        is_dropped(b, at, 0),
{
    let ms = object_members(b, at).unwrap();
    let m = ms[0];
    let (from, to) = cut_range(b, m);
    let c = edited(b, from, to, Seq::empty());
    lemma_object_shape(b, at);
    lemma_object_followed(b, at, 0);
    let first = after_space(b, at + 1);
    let s = rest(b, first);
    let own = members_from(s).unwrap();
    assert(own[0] == moved(m, -first));
    assert(own[1] == moved(ms[1], -first));
    lemma_members_bounds(s);
    lemma_members_tail(s, 1);
    let next = ms[1].start;
    let head = first + (next - to);
    assert(c.skip(head) =~= s.skip(next - first));
    assert forall|i: int| at < i < head implies is_json_space(#[trigger] c[i]) by {
        if i < first {
            assert(c[i] == b[i]);
        } else {
            assert(c[i] == b[i + (to - from)]);
        }
    }
    assert(c[at] == b[at]);
    lemma_object_from(c, at, head);
    assert(moved_all(moved_all(own.skip(1), -(next - first)), head) =~= ms.take(0) + moved_all(
        ms.skip(1),
        from - to,
    ));
}

proof fn lemma_object_dropped_inner(b: Seq<u8>, at: int, k: int)
    requires
        object_members(b, at) matches Some(ms) && 1 <= k < ms.len() - 1,
    ensures
        is_dropped(b, at, k),
{
    let ms = object_members(b, at).unwrap();
    let m = ms[k];
    let (from, to) = cut_range(b, m);
    let c = edited(b, from, to, Seq::empty());
    lemma_object_shape(b, at);
    lemma_object_followed(b, at, k);
    let first = after_space(b, at + 1);
    let s = rest(b, first);
    let own = members_from(s).unwrap();
    assert(own[k] == moved(m, -first));
    lemma_rest(b, first, own[k].end);
    lemma_dropped_inner(s, k);
    assert(c.skip(first) =~= s.take(from - first) + s.skip(to - first));
    assert(c[at] == b[at]);
    lemma_object_from(c, at, first);
    let d = to - from;
    assert(moved_all(own.take(k) + moved_all(own.skip(k + 1), -d), first) =~= ms.take(k)
        + moved_all(ms.skip(k + 1), from - to));
}

proof fn lemma_object_dropped_only(b: Seq<u8>, at: int)
    requires
        object_members(b, at) matches Some(ms) && ms.len() == 1,
    ensures
        is_dropped(b, at, 0),
{
    let ms = object_members(b, at).unwrap();
    let m = ms[0];
    let (from, to) = cut_range(b, m);
    let c = edited(b, from, to, Seq::empty());
    lemma_object_shape(b, at);
    lemma_object_followed(b, at, 0);
    let first = after_space(b, at + 1);
    lemma_members_bounds(rest(b, first));
    assert(members_from(rest(b, first)).unwrap()[0] == moved(m, -first));
    lemma_before_space(b, m.start, at + 1);
    let close = object_close(b, at).unwrap();
    let short = close - (to - from);
    assert forall|i: int| at < i < short implies is_json_space(#[trigger] c[i]) by {
        if i < from {
            assert(c[i] == b[i]);
        } else {
            assert(c[i] == b[i + (to - from)]);
        }
    }
    assert(c[at] == b[at]);
    assert(c[short] == b[close]);
    lemma_object_empty(c, at, short);
    assert(ms.take(0) + moved_all(ms.skip(1), from - to) =~= Seq::<Member>::empty());
}

proof fn lemma_object_dropped_last(b: Seq<u8>, at: int)
    requires
        object_members(b, at) matches Some(ms) && ms.len() >= 2,
    ensures
        is_dropped(b, at, object_members(b, at).unwrap().len() - 1),
{
    let ms = object_members(b, at).unwrap();
    let k = ms.len() - 1;
    let m = ms[k];
    let (from, to) = cut_range(b, m);
    let c = edited(b, from, to, Seq::empty());
    lemma_object_shape(b, at);
    lemma_object_followed(b, at, k);
    lemma_object_followed(b, at, k - 1);
    let first = after_space(b, at + 1);
    let s = rest(b, first);
    let own = members_from(s).unwrap();
    assert(own[k] == moved(m, -first));
    assert(own[k - 1] == moved(ms[k - 1], -first));
    lemma_rest(b, first, own[k - 1].end);
    let comma = after_space(b, ms[k - 1].end);
    lemma_before_space(b, m.start, comma + 1);
    assert(from == comma && to == m.end);
    lemma_dropped_last(s);
    assert(c.skip(first) =~= s.take(from - first) + s.skip(to - first));
    assert(c[at] == b[at]);
    lemma_object_from(c, at, first);
    assert(moved_all(own.take(k), first) =~= ms.take(k) + moved_all(ms.skip(k + 1), from - to));
}

/// Cutting a member out of an object takes it from the members, and leaves the rest.
pub proof fn lemma_object_dropped(b: Seq<u8>, at: int, k: int)
    requires
        object_members(b, at) matches Some(ms) && 0 <= k < ms.len(),
    ensures
        is_dropped(b, at, k),
{
    let n = object_members(b, at).unwrap().len();
    if n == 1 {
        lemma_object_dropped_only(b, at);
    } else if k == 0 {
        lemma_object_dropped_first(b, at);
    } else if k == n - 1 {
        lemma_object_dropped_last(b, at);
    } else {
        lemma_object_dropped_inner(b, at, k);
    }
}

// The bytes of an object.
pub proof fn lemma_object_contained(b: Seq<u8>, at: int)
    requires
        object_members(b, at) is Some,
        well_lexed(b.skip(at)),
    ensures
        ({
            let n = object_close(b, at).unwrap() + 1 - at;
            &&& value_len(b.skip(at)) == Some(n)
            &&& is_container(b.subrange(at, at + n))
        }),
{
    lemma_object_shape(b, at);
    let close = object_close(b, at).unwrap();
    let n = close + 1 - at;
    let s = b.skip(at);
    let first = after_space(b, at + 1);
    assert(s[0] == 0x7b);
    lemma_lexed_skip_one(s);
    let t = s.skip(1);
    assert(t =~= b.skip(at + 1));
    lemma_step_space(t, seq![0x7bu8]);
    assert(Seq::<u8>::empty().push(0x7bu8) =~= seq![0x7bu8]);
    let u = t.skip(space_len(t));
    lemma_space_len(t);
    assert(u =~= b.skip(first));
    if byte_at(b, first) == Some(0x7du8) {
        assert(u[0] == 0x7d);
    } else {
        lemma_members_contained(u);
    }
    assert(container_rest_len(s, Seq::empty()) == Some(n));
    let v = b.subrange(at, at + n);
    assert(alike(s, v, n));
    lemma_container_local(s, v, Seq::empty());
}

proof fn lemma_lexed_spaces(s: Seq<u8>, n: int)
    requires
        well_lexed(s),
        0 <= n <= s.len(),
        forall|i: int| 0 <= i < n ==> is_json_space(#[trigger] s[i]),
    ensures
        well_lexed(s.skip(n)),
    decreases n,
{
    if n == 0 {
        assert(s.skip(0) =~= s);
    } else {
        let t = s.skip(1);
        assert forall|i: int| 0 <= i < n - 1 implies is_json_space(#[trigger] t[i]) by {
            assert(t[i] == s[i + 1]);
        }
        lemma_lexed_spaces(t, n - 1);
        assert(t.skip(n - 1) =~= s.skip(n));
    }
}

proof fn lemma_lexed_first_value(s: Seq<u8>, t: Seq<u8>)
    requires
        first_member(s) is Some,
        alike(s, t, first_member(s).unwrap().0.value),
        well_lexed(t),
    ensures
        well_lexed(t.skip(first_member(s).unwrap().0.value)),
{
    reveal(first_member);
    let m = first_member(s).unwrap().0;
    lemma_first_member(s);
    lemma_string_rest_len(s.skip(1));
    let key = string_len(s).unwrap();
    let colon = after_space(s, key);
    lemma_space_len(rest(s, key));
    lemma_space_len(rest(s, colon + 1));
    assert(s[0] == t[0]);
    lemma_alike_skip(s, t, m.value, 1);
    lemma_string_local(s.skip(1), t.skip(1));
    lemma_step_string(t, seq![0x7bu8]);
    lemma_space_local_at(s, t, key);
    lemma_step_space(t.skip(key), seq![0x7bu8]);
    assert(t.skip(key).skip(colon - key) =~= t.skip(colon));
    assert(t[colon] == s[colon]);
    assert(t.skip(colon).skip(1) =~= t.skip(colon + 1));
    let n = m.value - colon - 1;
    assert forall|i: int| 0 <= i < n implies is_json_space(#[trigger] t.skip(colon + 1)[i]) by {
        assert(rest(s, colon + 1)[i] == t[colon + 1 + i]);
    }
    lemma_lexed_spaces(t.skip(colon + 1), n);
    assert(t.skip(colon + 1).skip(n) =~= t.skip(m.value));
}

proof fn lemma_lexed_value(s: Seq<u8>, t: Seq<u8>, k: int)
    requires
        members_from(s) matches Some(ms) && 0 <= k < ms.len() && alike(s, t, ms[k].value),
        well_lexed(t),
    ensures
        well_lexed(t.skip(members_from(s).unwrap()[k].value)),
    decreases k,
{
    let ms = members_from(s).unwrap();
    lemma_members_bounds(s);
    lemma_first_member(s);
    if k == 0 {
        lemma_lexed_first_value(s, t);
    } else {
        let (m, after) = first_member(s).unwrap();
        lemma_next(s);
        let next = after_space(s, after + 1);
        let u = s.skip(next);
        let us = members_from(u).unwrap();
        assert(ms =~= seq![m] + moved_all(us, next));
        assert(ms[k] == moved(us[k - 1], next));
        lemma_members_bounds(u);
        lemma_first_member_local(s, t);
        lemma_step_member(t, seq![0x7bu8]);
        assert(t[after] == s[after]);
        assert(t.skip(after).skip(1) =~= t.skip(after + 1));
        lemma_space_len(rest(s, after + 1));
        let n = next - after - 1;
        assert forall|i: int| 0 <= i < n implies is_json_space(
            #[trigger] t.skip(after + 1)[i],
        ) by {
            assert(rest(s, after + 1)[i] == t[after + 1 + i]);
        }
        lemma_lexed_spaces(t.skip(after + 1), n);
        assert(t.skip(after + 1).skip(n) =~= t.skip(next));
        lemma_alike_skip(s, t, ms[k].value, next);
        lemma_lexed_value(u, t.skip(next), k - 1);
        assert(t.skip(next).skip(us[k - 1].value) =~= t.skip(ms[k].value));
    }
}

/// A text that starts like another one up to a member's value is made of well-formed pieces
/// from there on too.
pub proof fn lemma_lexed_at_value(b: Seq<u8>, c: Seq<u8>, at: int, k: int)
    requires
        object_members(b, at) matches Some(ms) && 0 <= k < ms.len() && b.take(ms[k].value)
            == c.take(ms[k].value) && ms[k].value <= c.len(),
        well_lexed(c.skip(at)),
    ensures
        well_lexed(c.skip(object_members(b, at).unwrap()[k].value)),
{
    let ms = object_members(b, at).unwrap();
    lemma_object_shape(b, at);
    let first = after_space(b, at + 1);
    let s = rest(b, first);
    let own = members_from(s).unwrap();
    assert(own[k] == moved(ms[k], -first));
    let value = ms[k].value;
    assert(alike(b, c, value)) by {
        assert forall|i: int| 0 <= i < value implies #[trigger] b[i] == c[i] by {
            assert(b.take(value)[i] == c.take(value)[i]);
        }
    }
    let t = c.skip(at);
    assert(t[0] == b[at]);
    lemma_lexed_skip_one(t);
    assert(t.skip(1) =~= c.skip(at + 1));
    let n = first - at - 1;
    assert forall|i: int| 0 <= i < n implies is_json_space(#[trigger] c.skip(at + 1)[i]) by {
        assert(c[at + 1 + i] == b[at + 1 + i]);
    }
    lemma_lexed_spaces(c.skip(at + 1), n);
    assert(c.skip(at + 1).skip(n) =~= c.skip(first));
    lemma_alike_skip(b, c, value, first);
    lemma_lexed_value(s, c.skip(first), k);
    assert(c.skip(first).skip(value - first) =~= c.skip(value));
}

// The bytes of a character that needs no escape hold neither quote nor backslash.
proof fn lemma_plain_char(c: char)
    requires
        c != '"',
        c != '\\',
    ensures
        encode_utf8(seq![c]).len() >= 1,
        forall|i: int|
            0 <= i < encode_utf8(seq![c]).len() ==> #[trigger] encode_utf8(seq![c])[i] != 0x22
                && encode_utf8(seq![c])[i] != 0x5c,
{
    let chars = seq![c];
    let b = encode_utf8(chars);
    if c <= '\u{7f}' {
        is_ascii_chars_encode_utf8(chars);
        assert(b[0] == chars[0] as u8);
    } else {
        encode_utf8_first_scalar(chars);
        reveal_with_fuel(encode_utf8, 2);
        assert(b =~= encode_scalar(c as u32));
        char_is_scalar(c);
    }
}

proof fn lemma_ascii_pair(c: char)
    requires
        c <= '\u{7f}',
    ensures
        encode_utf8(seq!['\\', c]) == seq![0x5cu8, c as u8],
{
    let chars = seq!['\\', c];
    is_ascii_chars_encode_utf8(chars);
    assert(encode_utf8(chars)[0] == chars[0] as u8);
    assert(encode_utf8(chars)[1] == chars[1] as u8);
    assert(encode_utf8(chars) =~= seq![0x5cu8, c as u8]);
}

// A scan of a string steps over bytes that are neither quote nor backslash.
proof fn lemma_string_plain(e: Seq<u8>, t: Seq<u8>)
    requires
        forall|i: int| 0 <= i < e.len() ==> #[trigger] e[i] != 0x22 && e[i] != 0x5c,
    ensures
        string_rest_len(e + t) == plus(string_rest_len(t), e.len() as int),
    decreases e.len(),
{
    if e.len() == 0 {
        assert(e + t =~= t);
    } else {
        assert((e + t).skip(1) =~= e.skip(1) + t);
        assert((e + t)[0] == e[0]);
        assert forall|i: int| 0 <= i < e.skip(1).len() implies #[trigger] e.skip(1)[i] != 0x22
            && e.skip(1)[i] != 0x5c by {
            assert(e.skip(1)[i] == e[i + 1]);
        }
        lemma_string_plain(e.skip(1), t);
    }
}

proof fn lemma_escaped_char(c: char, t: Seq<u8>)
    ensures
        string_rest_len(encode_utf8(escaped(c)) + t) == plus(
            string_rest_len(t),
            encode_utf8(escaped(c)).len() as int,
        ),
{
    let x = escaped(c);
    let e = encode_utf8(x);
    if x.len() == 2 {
        lemma_ascii_pair(x[1]);
        assert(x =~= seq!['\\', x[1]]);
        assert((e + t).skip(2) =~= t);
        assert((e + t)[0] == 0x5c);
    } else if x.len() == 6 {
        is_ascii_chars_encode_utf8(x);
        assert forall|i: int| 0 <= i < 6 implies #[trigger] e[i] == x[i] as u8 by {}
        let f = e.skip(2);
        assert forall|i: int| 0 <= i < f.len() implies #[trigger] f[i] != 0x22 && f[i] != 0x5c by {
            assert(f[i] == e[i + 2]);
            assert(e[i + 2] == x[i + 2] as u8);
        }
        assert((e + t).skip(2) =~= f + t);
        assert((e + t)[0] == 0x5c);
        lemma_string_plain(f, t);
    } else {
        lemma_plain_char(c);
        lemma_string_plain(e, t);
    }
}

proof fn lemma_escaped_text(s: Seq<char>, t: Seq<u8>)
    ensures
        string_rest_len(encode_utf8(escaped_all(s)) + t) == plus(
            string_rest_len(t),
            encode_utf8(escaped_all(s)).len() as int,
        ),
    decreases s.len(),
{
    if s.len() == 0 {
        assert(encode_utf8(escaped_all(s)) + t =~= t);
    } else {
        let head = encode_utf8(escaped(s[0]));
        let tail = encode_utf8(escaped_all(s.drop_first()));
        lemma_encode_concat(escaped(s[0]), escaped_all(s.drop_first()));
        assert(head + tail + t =~= head + (tail + t));
        lemma_escaped_char(s[0], tail + t);
        lemma_escaped_text(s.drop_first(), t);
    }
}

proof fn lemma_encode_ascii(c: char)
    requires
        c <= '\u{7f}',
    ensures
        encode_utf8(seq![c]) == seq![c as u8],
{
    is_ascii_chars_encode_utf8(seq![c]);
    assert(encode_utf8(seq![c])[0] == seq![c][0] as u8);
    assert(encode_utf8(seq![c]) =~= seq![c as u8]);
}

proof fn lemma_quoted_bytes(s: Seq<char>)
    ensures
        encode_utf8(quoted(s)) == seq![0x22u8] + encode_utf8(escaped_all(s)) + seq![0x22u8],
{
    lemma_encode_ascii('"');
    lemma_encode_concat(seq!['"'] + escaped_all(s), seq!['"']);
    lemma_encode_concat(seq!['"'], escaped_all(s));
}

/// The text of a JSON string is scanned as one string.
pub proof fn lemma_quoted_is_string(s: Seq<char>)
    ensures
        is_string(encode_utf8(quoted(s))),
{
    let e = encode_utf8(escaped_all(s));
    lemma_quoted_bytes(s);
    let q = encode_utf8(quoted(s));
    assert(q.skip(1) =~= e + seq![0x22u8]);
    lemma_escaped_text(s, seq![0x22u8]);
}

proof fn lemma_long_escape(c: char)
    requires
        escaped(c).len() == 6,
    ensures
        is_ascii_chars(escaped(c)),
{
    let x = escaped(c);
    assert(x =~= seq![
        '\\',
        'u',
        '0',
        '0',
        hex_digit(c as int / 16),
        hex_digit(c as int % 16),
    ]);
    assert(0 <= c as int / 16 < 2);
    assert(0 <= c as int % 16 < 16);
}

proof fn lemma_unescaped(s: Seq<char>)
    requires
        !encode_utf8(escaped_all(s)).contains(0x5c),
    ensures
        escaped_all(s) == s,
    decreases s.len(),
{
    if s.len() > 0 {
        let head = encode_utf8(escaped(s[0]));
        let tail = encode_utf8(escaped_all(s.drop_first()));
        let all = encode_utf8(escaped_all(s));
        lemma_encode_concat(escaped(s[0]), escaped_all(s.drop_first()));
        assert(all == head + tail);
        if tail.contains(0x5c) {
            let i = choose|i: int| 0 <= i < tail.len() && tail[i] == 0x5c;
            assert(all[head.len() + i] == 0x5c);
        }
        lemma_unescaped(s.drop_first());
        let x = escaped(s[0]);
        if x.len() == 2 {
            lemma_ascii_pair(x[1]);
            assert(x =~= seq!['\\', x[1]]);
            assert(all[0] == 0x5c);
        } else if x.len() == 6 {
            lemma_long_escape(s[0]);
            is_ascii_chars_encode_utf8(x);
            assert(head[0] == x[0] as u8);
            assert(all[0] == 0x5c);
        }
        assert(seq![s[0]] + s.drop_first() =~= s);
    }
}

/// A key that was written as a JSON string is that key.
pub proof fn lemma_key_of_quoted(s: Seq<char>)
    requires
        json_string_value(quoted(s)) == Some(s),
    ensures
        key_text(encode_utf8(quoted(s))) == Some(s),
{
    let q = encode_utf8(quoted(s));
    let e = encode_utf8(escaped_all(s));
    lemma_quoted_bytes(s);
    assert(q.subrange(1, q.len() - 1) =~= e);
    encode_utf8_decode_utf8(quoted(s));
    if !e.contains(0x5c) {
        lemma_unescaped(s);
        encode_utf8_decode_utf8(s);
    }
}

// What stands between the brackets of a list or an object.
spec fn inside(v: JsonTree) -> Seq<char> {
    match v {
        JsonTree::List(items) => if items.len() == 0 {
            Seq::empty()
        } else {
            compact(items[0]) + compact_items(items.drop_first())
        },
        JsonTree::Object(members) => if members.len() == 0 {
            Seq::empty()
        } else {
            quoted(members[0].0) + seq![':'] + compact(members[0].1) + compact_members(
                members.drop_first(),
            )
        },
        _ => Seq::empty(),
    }
}

spec fn brackets(v: JsonTree) -> (char, char) {
    if v is List {
        ('[', ']')
    } else {
        ('{', '}')
    }
}

proof fn lemma_bracketed(v: JsonTree)
    requires
        v is List || v is Object,
    ensures
        encode_utf8(compact(v)) == seq![brackets(v).0 as u8] + encode_utf8(inside(v)) + seq![
            brackets(v).1 as u8,
        ],
{
    let (o, c) = brackets(v);
    assert(compact(v) =~= seq![o] + inside(v) + seq![c]);
    lemma_encode_ascii(o);
    lemma_encode_ascii(c);
    lemma_encode_concat(seq![o] + inside(v), seq![c]);
    lemma_encode_concat(seq![o], inside(v));
}

// A scan for the closing bracket steps over `x` when `t` follows it.
spec fn passed(x: Seq<u8>, t: Seq<u8>, open: Seq<u8>) -> bool {
    container_rest_len(x + t, open) == plus(container_rest_len(t, open), x.len() as int)
}

proof fn lemma_passed_both(x: Seq<u8>, y: Seq<u8>, t: Seq<u8>, open: Seq<u8>)
    requires
        passed(x, y + t, open),
        passed(y, t, open),
    ensures
        passed(x + y, t, open),
{
    assert(x + y + t =~= x + (y + t));
}

proof fn lemma_passed_byte(c: u8, t: Seq<u8>, open: Seq<u8>)
    requires
        c != 0x22,
        !opens(c),
        !closes(c),
    ensures
        passed(seq![c], t, open),
{
    let s = seq![c] + t;
    assert(s[0] == c);
    assert(s.skip(1) =~= t);
}

proof fn lemma_passed_string(q: Seq<u8>, t: Seq<u8>, open: Seq<u8>)
    requires
        is_string(q),
    ensures
        passed(q, t, open),
{
    lemma_string_then(q, t);
    assert((q + t)[0] == q[0]);
    lemma_step_string(q + t, open);
    assert((q + t).skip(q.len() as int) =~= t);
}

// Brackets round what is passed one level deeper.
proof fn lemma_passed_brackets(o: u8, x: Seq<u8>, c: u8, t: Seq<u8>, open: Seq<u8>)
    requires
        pairs(o, c),
        passed(x, seq![c] + t, open.push(o)),
    ensures
        open.len() >= 1 ==> passed(seq![o] + x + seq![c], t, open),
        open.len() == 0 ==> container_rest_len(seq![o] + x + seq![c] + t, open) == Some(
            2 + x.len() as int,
        ),
{
    let s = seq![o] + x + seq![c] + t;
    assert(s[0] == o);
    assert(s.skip(1) =~= x + (seq![c] + t));
    let u = seq![c] + t;
    assert(u[0] == c);
    assert(u.skip(1) =~= t);
    assert(open.push(o).drop_last() =~= open);
}

proof fn lemma_passed_word(v: JsonTree, t: Seq<u8>, open: Seq<u8>)
    requires
        v is Null || v is Bool,
    ensures
        passed(encode_utf8(compact(v)), t, open),
{
    let w = compact(v);
    let x = encode_utf8(w);
    is_ascii_chars_encode_utf8(w);
    assert forall|i: int| 0 <= i < x.len() implies !ends_literal(#[trigger] (x + t)[i]) && (x + t)[i]
        != 0x22 by {
        assert(x[i] == w[i] as u8);
    }
    lemma_step_literal(x + t, x.len() as int, open);
    assert((x + t).skip(x.len() as int) =~= t);
}

proof fn lemma_passed_value(v: JsonTree, n: nat, t: Seq<u8>, open: Seq<u8>)
    requires
        plain(v, n),
        open.len() >= 1,
    ensures
        passed(encode_utf8(compact(v)), t, open),
    decreases v, 1int,
{
    match v {
        JsonTree::Null | JsonTree::Bool(_) => {
            lemma_passed_word(v, t, open);
        },
        JsonTree::Number(_, _, _) => {},
        JsonTree::Text(s) => {
            lemma_quoted_is_string(s);
            lemma_passed_string(encode_utf8(quoted(s)), t, open);
        },
        _ => {
            let (o, c) = brackets(v);
            lemma_bracketed(v);
            lemma_passed_inside(v, n, seq![c as u8] + t, open.push(o as u8));
            lemma_passed_brackets(o as u8, encode_utf8(inside(v)), c as u8, t, open);
        },
    }
}

proof fn lemma_passed_inside(v: JsonTree, n: nat, t: Seq<u8>, open: Seq<u8>)
    requires
        plain(v, n),
        v is List || v is Object,
        open.len() >= 1,
    ensures
        passed(encode_utf8(inside(v)), t, open),
    decreases v, 0int,
{
    match v {
        JsonTree::List(items) => {
            if items.len() == 0 {
                assert(encode_utf8(inside(v)) + t =~= t);
            } else {
                let more = items.drop_first();
                let tail = encode_utf8(compact_items(more));
                lemma_encode_concat(compact(items[0]), compact_items(more));
                lemma_passed_value(items[0], (n - 1) as nat, tail + t, open);
                assert forall|i: int| 0 <= i < more.len() implies plain(
                    #[trigger] more[i],
                    (n - 1) as nat,
                ) by {
                    assert(more[i] == items[i + 1]);
                }
                lemma_passed_items(more, (n - 1) as nat, t, open);
                lemma_passed_both(encode_utf8(compact(items[0])), tail, t, open);
            }
        },
        JsonTree::Object(members) => {
            if members.len() == 0 {
                assert(encode_utf8(inside(v)) + t =~= t);
            } else {
                let more = members.drop_first();
                assert forall|i: int| 0 <= i < more.len() implies plain(
                    (#[trigger] more[i]).1,
                    (n - 1) as nat,
                ) by {
                    assert(more[i] == members[i + 1]);
                }
                lemma_passed_member(members[0], (n - 1) as nat, encode_utf8(compact_members(more)) + t, open);
                lemma_passed_members(more, (n - 1) as nat, t, open);
                let head = quoted(members[0].0) + seq![':'] + compact(members[0].1);
                lemma_encode_concat(head, compact_members(more));
                lemma_passed_both(encode_utf8(head), encode_utf8(compact_members(more)), t, open);
            }
        },
        _ => {},
    }
}

proof fn lemma_passed_member(m: (Seq<char>, JsonTree), n: nat, t: Seq<u8>, open: Seq<u8>)
    requires
        plain(m.1, n),
        open.len() >= 1,
    ensures
        passed(encode_utf8(quoted(m.0) + seq![':'] + compact(m.1)), t, open),
    decreases m.1, 2int,
{
    let q = encode_utf8(quoted(m.0));
    let v = encode_utf8(compact(m.1));
    let colon = seq![0x3au8];
    lemma_encode_ascii(':');
    lemma_encode_concat(quoted(m.0) + seq![':'], compact(m.1));
    lemma_encode_concat(quoted(m.0), seq![':']);
    lemma_passed_value(m.1, n, t, open);
    lemma_quoted_is_string(m.0);
    lemma_passed_string(q, colon + (v + t), open);
    lemma_passed_byte(0x3a, v + t, open);
    lemma_passed_both(q, colon, v + t, open);
    lemma_passed_both(q + colon, v, t, open);
}

proof fn lemma_passed_items(items: Seq<JsonTree>, n: nat, t: Seq<u8>, open: Seq<u8>)
    requires
        forall|i: int| 0 <= i < items.len() ==> plain(#[trigger] items[i], n),
        open.len() >= 1,
    ensures
        passed(encode_utf8(compact_items(items)), t, open),
    decreases items, 2int,
{
    if items.len() == 0 {
        assert(encode_utf8(compact_items(items)) + t =~= t);
    } else {
        let more = items.drop_first();
        let v = encode_utf8(compact(items[0]));
        let tail = encode_utf8(compact_items(more));
        let comma = seq![0x2cu8];
        lemma_encode_ascii(',');
        lemma_encode_concat(seq![','] + compact(items[0]), compact_items(more));
        lemma_encode_concat(seq![','], compact(items[0]));
        assert forall|i: int| 0 <= i < more.len() implies plain(#[trigger] more[i], n) by {
            assert(more[i] == items[i + 1]);
        }
        lemma_passed_items(more, n, t, open);
        lemma_passed_value(items[0], n, tail + t, open);
        lemma_passed_byte(0x2c, v + (tail + t), open);
        lemma_passed_both(comma, v, tail + t, open);
        lemma_passed_both(comma + v, tail, t, open);
    }
}

proof fn lemma_passed_members(members: Seq<(Seq<char>, JsonTree)>, n: nat, t: Seq<u8>, open: Seq<u8>)
    requires
        forall|i: int| 0 <= i < members.len() ==> plain((#[trigger] members[i]).1, n),
        open.len() >= 1,
    ensures
        passed(encode_utf8(compact_members(members)), t, open),
    decreases members, 3int,
{
    if members.len() == 0 {
        assert(encode_utf8(compact_members(members)) + t =~= t);
    } else {
        let more = members.drop_first();
        let m = members[0];
        let text = quoted(m.0) + seq![':'] + compact(m.1);
        let x = encode_utf8(text);
        let tail = encode_utf8(compact_members(more));
        let comma = seq![0x2cu8];
        assert(compact_members(members) =~= seq![','] + text + compact_members(more));
        lemma_encode_ascii(',');
        lemma_encode_concat(seq![','] + text, compact_members(more));
        lemma_encode_concat(seq![','], text);
        assert forall|i: int| 0 <= i < more.len() implies plain((#[trigger] more[i]).1, n) by {
            assert(more[i] == members[i + 1]);
        }
        lemma_passed_members(more, n, t, open);
        lemma_passed_member(m, n, tail + t, open);
        lemma_passed_byte(0x2c, x + (tail + t), open);
        lemma_passed_both(comma, x, tail + t, open);
        lemma_passed_both(comma + x, tail, t, open);
    }
}

/// The compact text of a list or an object without numbers is scanned as one.
pub proof fn lemma_compact_is_container(v: JsonTree, n: nat)
    requires
        v is List || v is Object,
        plain(v, n),
    ensures
        is_container(encode_utf8(compact(v))),
{
    let (o, c) = brackets(v);
    let x = encode_utf8(inside(v));
    let all = encode_utf8(compact(v));
    lemma_bracketed(v);
    lemma_passed_inside(
        v,
        n,
        seq![c as u8] + Seq::<u8>::empty(),
        Seq::<u8>::empty().push(o as u8),
    );
    lemma_passed_brackets(o as u8, x, c as u8, Seq::empty(), Seq::empty());
    assert(all + Seq::<u8>::empty() =~= all);
    assert(all[0] == o as u8);
}

/// A member whose key is a whole string before its value.
pub open spec fn keyed(b: Seq<u8>, m: Member) -> bool {
    &&& 0 <= m.start < m.value < m.end <= b.len()
    &&& string_len(b.skip(m.start)) matches Some(n) && 0 < n <= m.value - m.start
    &&& value_len(b.skip(m.value)) == Some(m.end - m.value)
    &&& !is_json_space(b[m.value])
}

/// Every member that is found has its key and its value.
pub proof fn lemma_keyed(b: Seq<u8>, at: int, i: int)
    requires
        object_members(b, at) matches Some(ms) && 0 <= i < ms.len(),
    ensures
        keyed(b, object_members(b, at).unwrap()[i]),
{
    reveal(first_member);
    let ms = object_members(b, at).unwrap();
    lemma_object_shape(b, at);
    let first = after_space(b, at + 1);
    let s = rest(b, first);
    let own = members_from(s).unwrap();
    assert(own[i] == moved(ms[i], -first));
    lemma_members_tail(s, i);
    lemma_members_bounds(s);
    let t = s.skip(own[i].start);
    let ts = members_from(t).unwrap();
    lemma_members_bounds(t);
    lemma_first_member(t);
    let m = first_member(t).unwrap().0;
    assert(m == ts[0] && ts[0] == moved(ms[i], -ms[i].start));
    assert(t =~= b.skip(ms[i].start));
    assert(rest(t, m.value) =~= b.skip(ms[i].value));
    lemma_string_rest_len(t.skip(1));
    let key = string_len(t).unwrap();
    lemma_space_len(rest(t, key));
    lemma_space_len(rest(t, after_space(t, key) + 1));
    assert(b[ms[i].value] == rest(t, m.value)[0]);
}

/// A member starts with the quote of its key.
pub proof fn lemma_member_start(b: Seq<u8>, at: int, i: int)
    requires
        object_members(b, at) matches Some(ms) && 0 <= i < ms.len(),
    ensures
        b[object_members(b, at).unwrap()[i].start] == 0x22,
{
    let ms = object_members(b, at).unwrap();
    lemma_object_shape(b, at);
    let first = after_space(b, at + 1);
    let s = rest(b, first);
    let own = members_from(s).unwrap();
    assert(own[i] == moved(ms[i], -first));
    lemma_members_tail(s, i);
    lemma_members_bounds(s);
    lemma_first_member(s.skip(own[i].start));
    assert(s.skip(own[i].start)[0] == b[ms[i].start]);
}

/// Whether `m` of one text stands in the other as `m2`, byte for byte.
pub open spec fn carried(b: Seq<u8>, m: Member, c: Seq<u8>, m2: Member) -> bool {
    &&& m2 == moved(m, m2.start - m.start)
    &&& 0 <= m2.start
    &&& m2.end <= c.len()
    &&& c.subrange(m2.start, m2.end) == b.subrange(m.start, m.end)
}

// The key is what stands before the value.
proof fn lemma_key_carried(b: Seq<u8>, m: Member, c: Seq<u8>, start: int)
    requires
        keyed(b, m),
        0 <= start <= c.len() - (m.value - m.start),
        c.subrange(start, start + (m.value - m.start)) == b.subrange(m.start, m.value),
    ensures
        key_at(c, start) == key_at(b, m.start),
{
    let s = b.skip(m.start);
    let t = c.skip(start);
    let w = m.value - m.start;
    let n = string_len(s).unwrap();
    assert(alike(s, t, w)) by {
        assert forall|i: int| 0 <= i < w implies #[trigger] s[i] == t[i] by {
            assert(b.subrange(m.start, m.value)[i] == c.subrange(start, start + w)[i]);
        }
    }
    lemma_alike_skip(s, t, w, 1);
    lemma_string_rest_len(s.skip(1));
    lemma_string_local(s.skip(1), t.skip(1));
    assert(b.subrange(m.start, m.start + n) =~= b.subrange(m.start, m.value).take(n));
    assert(c.subrange(start, start + n) =~= c.subrange(start, start + w).take(n));
}

pub open spec fn all_keyed(b: Seq<u8>, ms: Seq<Member>) -> bool {
    forall|i: int| 0 <= i < ms.len() ==> keyed(b, #[trigger] ms[i])
}

pub open spec fn all_carried(b: Seq<u8>, ms: Seq<Member>, c: Seq<u8>, ns: Seq<Member>) -> bool {
    ms.len() == ns.len() && forall|i: int|
        0 <= i < ms.len() ==> carried(b, #[trigger] ms[i], c, ns[i])
}

/// Two lookups that find nothing, or values of the same bytes.
pub open spec fn same_value(b: Seq<u8>, x: Option<Member>, c: Seq<u8>, y: Option<Member>) -> bool {
    match (x, y) {
        (None, None) => true,
        (Some(m), Some(n)) => c.subrange(n.value, n.end) == b.subrange(m.value, m.end) && 0
            <= n.value <= n.end <= c.len() && 0 <= m.value <= m.end <= b.len(),
        _ => false,
    }
}

proof fn lemma_lookup_carried(
    b: Seq<u8>,
    ms: Seq<Member>,
    c: Seq<u8>,
    ns: Seq<Member>,
    key: Seq<char>,
)
    requires
        all_keyed(b, ms),
        all_carried(b, ms, c, ns),
    ensures
        same_value(b, first_with_key(b, ms, key), c, first_with_key(c, ns, key)),
    decreases ms.len(),
{
    if ms.len() > 0 {
        let m = ms[0];
        let n = ns[0];
        assert(carried(b, m, c, n));
        assert(keyed(b, m));
        let w = m.value - m.start;
        assert(c.subrange(n.start, n.start + w) =~= c.subrange(n.start, n.end).take(w));
        assert(b.subrange(m.start, m.value) =~= b.subrange(m.start, m.end).take(w));
        lemma_key_carried(b, m, c, n.start);
        assert(c.subrange(n.value, n.end) =~= c.subrange(n.start, n.end).skip(w));
        assert(b.subrange(m.value, m.end) =~= b.subrange(m.start, m.end).skip(w));
        let mt = ms.drop_first();
        let nt = ns.drop_first();
        assert forall|i: int| 0 <= i < mt.len() implies keyed(b, #[trigger] mt[i]) by {
            assert(keyed(b, ms[i + 1]));
        }
        assert forall|i: int| 0 <= i < mt.len() implies carried(b, #[trigger] mt[i], c, nt[i]) by {
            assert(carried(b, ms[i + 1], c, ns[i + 1]));
        }
        lemma_lookup_carried(b, mt, c, nt, key);
    }
}

pub proof fn lemma_lookup_concat(b: Seq<u8>, x: Seq<Member>, y: Seq<Member>, key: Seq<char>)
    ensures
        first_with_key(b, x + y, key) == match first_with_key(b, x, key) {
            Some(m) => Some(m),
            None => first_with_key(b, y, key),
        },
    decreases x.len(),
{
    if x.len() == 0 {
        assert(x + y =~= y);
    } else {
        assert((x + y).drop_first() =~= x.drop_first() + y);
        lemma_lookup_concat(b, x.drop_first(), y, key);
    }
}

/// Where the member that is found stands in the list.
pub open spec fn key_index(b: Seq<u8>, ms: Seq<Member>, key: Seq<char>) -> int
    decreases ms.len(),
{
    if ms.len() == 0 || key_at(b, ms[0].start) == Some(key) {
        0
    } else {
        1 + key_index(b, ms.drop_first(), key)
    }
}

pub proof fn lemma_key_index(b: Seq<u8>, ms: Seq<Member>, key: Seq<char>)
    ensures
        ({
            let i = key_index(b, ms, key);
            match first_with_key(b, ms, key) {
                Some(m) => 0 <= i < ms.len() && ms[i] == m && key_at(b, m.start) == Some(key)
                    && first_with_key(b, ms.take(i), key) is None,
                None => i == ms.len(),
            }
        }),
    decreases ms.len(),
{
    if ms.len() > 0 && key_at(b, ms[0].start) != Some(key) {
        let t = ms.drop_first();
        lemma_key_index(b, t, key);
        let i = key_index(b, t, key);
        if first_with_key(b, t, key) is Some {
            assert(ms.take(i + 1).drop_first() =~= t.take(i));
        }
    }
}

// Members that lie before the edit, or behind it, are carried over.
proof fn lemma_carried_before(
    b: Seq<u8>,
    ms: Seq<Member>,
    from: int,
    to: int,
    with: Seq<u8>,
)
    requires
        0 <= from <= to <= b.len(),
        all_keyed(b, ms),
        forall|i: int| 0 <= i < ms.len() ==> (#[trigger] ms[i]).end <= from,
    ensures
        all_carried(b, ms, edited(b, from, to, with), ms),
{
    let c = edited(b, from, to, with);
    assert forall|i: int| 0 <= i < ms.len() implies carried(b, #[trigger] ms[i], c, ms[i]) by {
        assert(keyed(b, ms[i]));
        assert(c.subrange(ms[i].start, ms[i].end) =~= b.subrange(ms[i].start, ms[i].end));
    }
}

proof fn lemma_carried_behind(
    b: Seq<u8>,
    ms: Seq<Member>,
    from: int,
    to: int,
    with: Seq<u8>,
)
    requires
        0 <= from <= to <= b.len(),
        all_keyed(b, ms),
        forall|i: int| 0 <= i < ms.len() ==> to <= (#[trigger] ms[i]).start,
    ensures
        all_carried(
            b,
            ms,
            edited(b, from, to, with),
            moved_all(ms, from + with.len() - to),
        ),
{
    let c = edited(b, from, to, with);
    let d = from + with.len() - to;
    let ns = moved_all(ms, d);
    assert forall|i: int| 0 <= i < ms.len() implies carried(b, #[trigger] ms[i], c, ns[i]) by {
        assert(keyed(b, ms[i]));
        assert(c.subrange(ns[i].start, ns[i].end) =~= b.subrange(ms[i].start, ms[i].end));
    }
}

proof fn lemma_all_keyed(b: Seq<u8>, at: int)
    requires
        object_members(b, at) is Some,
    ensures
        all_keyed(b, object_members(b, at).unwrap()),
{
    let ms = object_members(b, at).unwrap();
    assert forall|i: int| 0 <= i < ms.len() implies keyed(b, #[trigger] ms[i]) by {
        lemma_keyed(b, at, i);
    }
}

proof fn lemma_keyed_parts(b: Seq<u8>, ms: Seq<Member>, i: int, j: int)
    requires
        all_keyed(b, ms),
        0 <= i <= j <= ms.len(),
    ensures
        all_keyed(b, ms.subrange(i, j)),
{
    let part = ms.subrange(i, j);
    assert forall|l: int| 0 <= l < part.len() implies keyed(b, #[trigger] part[l]) by {
        assert(keyed(b, ms[i + l]));
    }
}

// The members before an exchanged value and behind it are carried over.
proof fn lemma_exchanged_parts(b: Seq<u8>, at: int, k: int, v: Seq<u8>)
    requires
        object_members(b, at) matches Some(ms) && 0 <= k < ms.len(),
        is_container(v),
    ensures
        ({
            let ms = object_members(b, at).unwrap();
            let c = edited(b, ms[k].value, ms[k].end, v);
            let d = v.len() - (ms[k].end - ms[k].value);
            &&& keyed(b, ms[k])
            &&& all_keyed(b, ms.take(k))
            &&& all_keyed(b, ms.skip(k + 1))
            &&& all_carried(b, ms.take(k), c, ms.take(k))
            &&& all_carried(b, ms.skip(k + 1), c, moved_all(ms.skip(k + 1), d))
        }),
{
    let ms = object_members(b, at).unwrap();
    let m = ms[k];
    lemma_object_shape(b, at);
    lemma_all_keyed(b, at);
    assert(keyed(b, m));
    let before = ms.take(k);
    let behind = ms.skip(k + 1);
    assert(before =~= ms.subrange(0, k));
    assert(behind =~= ms.subrange(k + 1, ms.len() as int));
    lemma_keyed_parts(b, ms, 0, k);
    lemma_keyed_parts(b, ms, k + 1, ms.len() as int);
    assert forall|i: int| 0 <= i < before.len() implies (#[trigger] before[i]).end <= m.value by {
        assert(ms[i].end < ms[k].start);
    }
    assert forall|i: int| 0 <= i < behind.len() implies m.end <= (#[trigger] behind[i]).start by {
        assert(ms[k].end < ms[k + 1 + i].start);
    }
    lemma_carried_before(b, before, m.value, m.end, v);
    lemma_carried_behind(b, behind, m.value, m.end, v);
}

// A lookup in three parts of which the middle one is a single member.
proof fn lemma_lookup_parts(b: Seq<u8>, x: Seq<Member>, m: Member, y: Seq<Member>, key: Seq<char>)
    ensures
        first_with_key(b, x + seq![m] + y, key) == match first_with_key(b, x, key) {
            Some(found) => Some(found),
            None => if key_at(b, m.start) == Some(key) {
                Some(m)
            } else {
                first_with_key(b, y, key)
            },
        },
{
    lemma_lookup_concat(b, x + seq![m], y, key);
    lemma_lookup_concat(b, x, seq![m], key);
    reveal_with_fuel(first_with_key, 2);
}

/// What an exchanged value does to a lookup: its key finds the new value, every other key
/// the value it found before.
#[verifier::rlimit(50)]
pub proof fn lemma_lookup_exchanged(b: Seq<u8>, at: int, k: int, v: Seq<u8>, key: Seq<char>)
    requires
        object_members(b, at) matches Some(ms) && 0 <= k < ms.len(),
        is_container(v),
    ensures
        ({
            let ms = object_members(b, at).unwrap();
            let c = edited(b, ms[k].value, ms[k].end, v);
            &&& key_at(b, ms[k].start) == Some(key) && first_with_key(b, ms.take(k), key) is None
                ==> member_of(c, at, key) == Some(
                Member { start: ms[k].start, value: ms[k].value, end: ms[k].value + v.len() },
            ) && c.subrange(ms[k].value, ms[k].value + v.len()) == v
            &&& key_at(b, ms[k].start) != Some(key) ==> same_value(
                b,
                member_of(b, at, key),
                c,
                member_of(c, at, key),
            )
        }),
{
    let ms = object_members(b, at).unwrap();
    let m = ms[k];
    let d = v.len() - (m.end - m.value);
    let c = edited(b, m.value, m.end, v);
    lemma_object_exchanged(b, at, k, v);
    lemma_exchanged_parts(b, at, k, v);
    let before = ms.take(k);
    let behind = ms.skip(k + 1);
    let nk = Member { start: m.start, value: m.value, end: m.end + d };
    let ns = exchanged(ms, k, d);
    assert(ns =~= before + seq![nk] + moved_all(behind, d));
    assert(ms =~= before + seq![m] + behind);
    lemma_lookup_parts(b, before, m, behind, key);
    lemma_lookup_parts(c, before, nk, moved_all(behind, d), key);
    lemma_lookup_carried(b, before, c, before, key);
    lemma_lookup_carried(b, behind, c, moved_all(behind, d), key);
    assert(c.subrange(m.start, m.value) =~= b.subrange(m.start, m.value));
    lemma_key_carried(b, m, c, m.start);
    assert(c.subrange(m.value, m.value + v.len()) =~= v);
}

// The key of a member's text.
proof fn lemma_key_of_text(c: Seq<u8>, start: int, q: Seq<u8>)
    requires
        is_string(q),
        0 <= start <= c.len() - q.len(),
        c.subrange(start, start + q.len()) == q,
    ensures
        key_at(c, start) == key_text(q),
{
    let t = c.skip(start);
    assert(t =~= q + c.skip(start + q.len()));
    lemma_string_then(q, c.skip(start + q.len()));
}

/// What a member put behind the last one does to a lookup.
#[verifier::rlimit(50)]
pub proof fn lemma_lookup_appended(b: Seq<u8>, at: int, q: Seq<u8>, v: Seq<u8>, key: Seq<char>)
    requires
        object_members(b, at) matches Some(ms) && ms.len() > 0,
        is_string(q),
        is_container(v),
    ensures
        ({
            let e = object_members(b, at).unwrap().last().end;
            let c = edited(b, e, e, appendix(q, v));
            let m = appended_member(e, q, v);
            &&& key_text(q) == Some(key) && member_of(b, at, key) is None ==> member_of(c, at, key)
                == Some(m) && c.subrange(m.value, m.end) == v
            &&& key_text(q) != Some(key) ==> same_value(
                b,
                member_of(b, at, key),
                c,
                member_of(c, at, key),
            )
        }),
{
    let ms = object_members(b, at).unwrap();
    let e = ms.last().end;
    let x = appendix(q, v);
    let c = edited(b, e, e, x);
    let m = appended_member(e, q, v);
    lemma_object_shape(b, at);
    lemma_object_appended(b, at, q, v);
    lemma_all_keyed(b, at);
    assert(ms[ms.len() - 1] == ms.last());
    assert forall|i: int| 0 <= i < ms.len() implies (#[trigger] ms[i]).end <= e by {
        if i < ms.len() - 1 {
            assert(ms[i].end < ms[ms.len() - 1].start);
        }
    }
    lemma_carried_before(b, ms, e, e, x);
    lemma_lookup_carried(b, ms, c, ms, key);
    assert(ms.push(m) =~= ms + seq![m]);
    lemma_lookup_concat(c, ms, seq![m], key);
    assert(c.subrange(m.start, m.start + q.len()) =~= q);
    lemma_key_of_text(c, m.start, q);
    assert(c.subrange(m.value, m.end) =~= v);
    reveal_with_fuel(first_with_key, 2);
}

/// What a member put in front does to a lookup.
#[verifier::rlimit(50)]
pub proof fn lemma_lookup_prepended(
    b: Seq<u8>,
    at: int,
    pad: Seq<u8>,
    q: Seq<u8>,
    v: Seq<u8>,
    tail: Seq<u8>,
    key: Seq<char>,
)
    requires
        object_members(b, at) is Some,
        is_string(q),
        is_container(v),
        forall|i: int| 0 <= i < pad.len() ==> is_json_space(#[trigger] pad[i]),
        object_members(b, at).unwrap().len() == 0 ==> tail == seq![0x20u8],
        object_members(b, at).unwrap().len() > 0 ==> tail == seq![0x2cu8],
    ensures
        ({
            let x = pad + (q + seq![0x3au8, 0x20u8] + v) + tail;
            let c = edited(b, at + 1, at + 1, x);
            let start = at + 1 + pad.len();
            let m = Member {
                start,
                value: start + q.len() + 2,
                end: start + q.len() + 2 + v.len(),
            };
            &&& key_text(q) == Some(key) ==> member_of(c, at, key) == Some(m) && c.subrange(
                m.value,
                m.end,
            ) == v
            &&& key_text(q) != Some(key) ==> same_value(
                b,
                member_of(b, at, key),
                c,
                member_of(c, at, key),
            )
        }),
{
    let ms = object_members(b, at).unwrap();
    let x = pad + (q + seq![0x3au8, 0x20u8] + v) + tail;
    let c = edited(b, at + 1, at + 1, x);
    let start = at + 1 + pad.len();
    let m = Member { start, value: start + q.len() + 2, end: start + q.len() + 2 + v.len() };
    lemma_object_shape(b, at);
    lemma_object_prepended(b, at, pad, q, v, tail);
    lemma_all_keyed(b, at);
    let d = x.len() as int;
    lemma_carried_behind(b, ms, at + 1, at + 1, x);
    lemma_lookup_carried(b, ms, c, moved_all(ms, d), key);
    lemma_lookup_concat(c, seq![m], moved_all(ms, d), key);
    assert(c.subrange(m.start, m.start + q.len()) =~= q);
    lemma_key_of_text(c, m.start, q);
    assert(c.subrange(m.value, m.end) =~= v);
    reveal_with_fuel(first_with_key, 2);
}

/// What the cut of a member does to a lookup.
#[verifier::rlimit(50)]
pub proof fn lemma_lookup_dropped(b: Seq<u8>, at: int, k: int, key: Seq<char>)
    requires
        object_members(b, at) matches Some(ms) && 0 <= k < ms.len(),
    ensures
        ({
            let ms = object_members(b, at).unwrap();
            let (from, to) = cut_range(b, ms[k]);
            let c = edited(b, from, to, Seq::empty());
            &&& key_at(b, ms[k].start) != Some(key) ==> same_value(
                b,
                member_of(b, at, key),
                c,
                member_of(c, at, key),
            )
            &&& first_with_key(b, ms.take(k), key) is None && first_with_key(
                b,
                ms.skip(k + 1),
                key,
            ) is None ==> member_of(c, at, key) is None
        }),
{
    let ms = object_members(b, at).unwrap();
    let m = ms[k];
    let (from, to) = cut_range(b, m);
    let c = edited(b, from, to, Seq::empty());
    lemma_object_shape(b, at);
    lemma_object_dropped(b, at, k);
    lemma_all_keyed(b, at);
    let before = ms.take(k);
    let behind = ms.skip(k + 1);
    assert(before =~= ms.subrange(0, k));
    assert(behind =~= ms.subrange(k + 1, ms.len() as int));
    lemma_keyed_parts(b, ms, 0, k);
    lemma_keyed_parts(b, ms, k + 1, ms.len() as int);
    assert forall|i: int| 0 <= i < before.len() implies (#[trigger] before[i]).end <= from by {
        if i < k - 1 {
            assert(ms[i].end < ms[k - 1].start);
            assert(ms[k - 1].start < ms[k - 1].end);
        }
    }
    assert forall|i: int| 0 <= i < behind.len() implies to <= (#[trigger] behind[i]).start by {
        if i > 0 {
            assert(ms[k + 1].end < ms[k + 1 + i].start);
            assert(ms[k + 1].start < ms[k + 1].end);
        }
    }
    lemma_carried_before(b, before, from, to, Seq::empty());
    lemma_carried_behind(b, behind, from, to, Seq::empty());
    let ns = moved_all(behind, from - to);
    lemma_lookup_carried(b, before, c, before, key);
    lemma_lookup_carried(b, behind, c, ns, key);
    assert(ms =~= before + seq![m] + behind);
    lemma_lookup_concat(b, before + seq![m], behind, key);
    lemma_lookup_concat(b, before, seq![m], key);
    lemma_lookup_concat(c, before, ns, key);
    reveal_with_fuel(first_with_key, 2);
}

// The bytes of a section after an edit inside its braces.
proof fn lemma_section_bytes(b: Seq<u8>, at: int, end: int, from: int, to: int, with: Seq<u8>)
    requires
        object_members(b, at) is Some,
        object_members(edited(b, from, to, with), at) is Some,
        at < from <= to <= object_close(b, at).unwrap(),
        object_close(edited(b, from, to, with), at) == plus(
            object_close(b, at),
            from + with.len() - to,
        ),
        well_lexed(b.skip(at)),
        well_lexed(edited(b, from, to, with).skip(at)),
        value_len(b.skip(at)) == Some(end - at),
    ensures
        ({
            let c = edited(b, from, to, with);
            let w = c.subrange(at, end + from + with.len() - to);
            is_container(w) && c == edited(b, at, end, w)
        }),
{
    let c = edited(b, from, to, with);
    lemma_object_shape(b, at);
    lemma_object_contained(b, at);
    lemma_object_contained(c, at);
    let w = c.subrange(at, end + from + with.len() - to);
    assert(c =~= edited(b, at, end, w));
}

/// A text whose section at `at`, the value of the member with `key`, was edited inside its
/// braces still has that section under that key, and any other member as it was.
pub proof fn lemma_section_kept(
    b: Seq<u8>,
    root: int,
    at: int,
    key: Seq<char>,
    from: int,
    to: int,
    with: Seq<u8>,
    other: Seq<char>,
)
    requires
        member_of(b, root, key) matches Some(m) && m.value == at,
        object_members(b, at) is Some,
        object_members(edited(b, from, to, with), at) is Some,
        at < from <= to <= object_close(b, at).unwrap(),
        object_close(edited(b, from, to, with), at) == plus(
            object_close(b, at),
            from + with.len() - to,
        ),
        well_lexed(b.skip(root)),
        well_lexed(edited(b, from, to, with).skip(root)),
    ensures
        member_of(edited(b, from, to, with), root, key) matches Some(m) && m.value == at,
        other != key ==> same_value(
            b,
            member_of(b, root, other),
            edited(b, from, to, with),
            member_of(edited(b, from, to, with), root, other),
        ),
{
    let c = edited(b, from, to, with);
    let rs = object_members(b, root).unwrap();
    let j = key_index(b, rs, key);
    lemma_key_index(b, rs, key);
    lemma_keyed(b, root, j);
    let m = rs[j];
    assert(object_close(b, at).unwrap() < b.len()) by {
        lemma_object_shape(b, at);
    }
    assert(b.take(at) =~= c.take(at));
    lemma_lexed_at_value(b, b, root, j);
    lemma_lexed_at_value(b, c, root, j);
    lemma_section_bytes(b, at, m.end, from, to, with);
    let w = c.subrange(at, m.end + from + with.len() - to);
    lemma_lookup_exchanged(b, root, j, w, key);
    lemma_lookup_exchanged(b, root, j, w, other);
}

// A member put in front of an object's content with the wrong byte behind it makes it
// malformed.
#[verifier::rlimit(50)]
pub proof fn lemma_object_malformed(
    b: Seq<u8>,
    at: int,
    pad: Seq<u8>,
    q: Seq<u8>,
    v: Seq<u8>,
    tail: Seq<u8>,
)
    requires
        object_members(b, at) is Some,
        is_string(q),
        is_container(v),
        forall|i: int| 0 <= i < pad.len() ==> is_json_space(#[trigger] pad[i]),
        object_members(b, at).unwrap().len() > 0 ==> tail == seq![0x20u8],
        object_members(b, at).unwrap().len() == 0 ==> tail == seq![0x2cu8],
    ensures
        object_members(
            edited(b, at + 1, at + 1, pad + (q + seq![0x3au8, 0x20u8] + v) + tail),
            at,
        ) is None,
{
    let ms = object_members(b, at).unwrap();
    let text = q + seq![0x3au8, 0x20u8] + v;
    let x = pad + text + tail;
    let c = edited(b, at + 1, at + 1, x);
    let start = at + 1 + pad.len();
    lemma_object_shape(b, at);
    let first = after_space(b, at + 1);
    let y = tail + b.skip(at + 1);
    let t = q + seq![0x3au8, 0x20u8] + v + y;
    assert(rest(c, start) =~= t);
    assert(c[at] == b[at]);
    let gap = rest(c, at + 1);
    assert forall|i: int| 0 <= i < pad.len() implies is_json_space(#[trigger] gap[i]) by {
        assert(gap[i] == pad[i]);
    }
    assert(gap[pad.len() as int] == q[0]);
    lemma_space_run(gap, pad.len() as int);
    assert(c[start] == q[0]);
    let n = text.len();
    let width = first - at - 1;
    lemma_member_text(q, v, y);
    if ms.len() > 0 {
        assert forall|i: int| 0 <= i < 1 + width implies is_json_space(#[trigger] y[i]) by {
            if i > 0 {
                assert(y[i] == b[at + i]);
            }
        }
        assert(y[1 + width] == b[first]);
        lemma_space_run(y, 1 + width);
        assert(t[n + 1 + width] == y[1 + width]);
        assert(members_from(t) is None);
    } else {
        lemma_space_run(y, 0);
        assert(t[n as int] == y[0]);
        let z = rest(t, n + 1int);
        assert(z =~= b.skip(at + 1));
        assert forall|i: int| 0 <= i < width implies is_json_space(#[trigger] z[i]) by {
            assert(z[i] == b[at + 1 + i]);
        }
        assert(z[width] == b[first]);
        lemma_space_run(z, width);
        let u = t.skip(n + 1 + width);
        assert(u[0] == b[first]);
        lemma_first_member(u);
        assert(members_from(u) is None);
        assert(members_from(t) is None);
    }
}

/// A section with one member in it.
pub open spec fn section_bytes(q: Seq<u8>, v: Seq<u8>) -> Seq<u8> {
    seq![0x7bu8] + (seq![0x20u8] + (q + seq![0x3au8, 0x20u8] + v) + seq![0x20u8]) + seq![0x7du8]
}

pub proof fn lemma_section_is_container(name: Seq<char>, value: JsonTree, n: nat)
    requires
        plain(value, n),
    ensures
        is_container(section_bytes(encode_utf8(quoted(name)), encode_utf8(compact(value)))),
{
    let q = encode_utf8(quoted(name));
    let v = encode_utf8(compact(value));
    let sp = seq![0x20u8];
    let end = seq![0x7du8];
    let none = Seq::<u8>::empty();
    lemma_quoted_is_string(name);
    let colon = seq![0x3au8];
    lemma_passed_byte(0x20, end + none, seq![0x7bu8]);
    lemma_passed_value(value, n, sp + (end + none), seq![0x7bu8]);
    lemma_passed_both(v, sp, end + none, seq![0x7bu8]);
    lemma_passed_byte(0x20, v + sp + (end + none), seq![0x7bu8]);
    lemma_passed_both(sp, v + sp, end + none, seq![0x7bu8]);
    lemma_passed_byte(0x3a, sp + (v + sp) + (end + none), seq![0x7bu8]);
    lemma_passed_both(colon, sp + (v + sp), end + none, seq![0x7bu8]);
    lemma_passed_string(q, colon + (sp + (v + sp)) + (end + none), seq![0x7bu8]);
    lemma_passed_both(q, colon + (sp + (v + sp)), end + none, seq![0x7bu8]);
    let m = q + (colon + (sp + (v + sp)));
    lemma_passed_byte(0x20, m + (end + none), seq![0x7bu8]);
    lemma_passed_both(sp, m, end + none, seq![0x7bu8]);
    let x = sp + (q + seq![0x3au8, 0x20u8] + v) + sp;
    assert(x =~= sp + m);
    lemma_passed_brackets(0x7b, x, 0x7d, none, Seq::empty());
    let all = section_bytes(q, v);
    assert(all =~= seq![0x7bu8] + x + end + none);
}

/// What is found in a section with one member.
pub proof fn lemma_section_lookup(c: Seq<u8>, at: int, q: Seq<u8>, v: Seq<u8>, key: Seq<char>)
    requires
        is_string(q),
        is_container(v),
        0 <= at <= c.len() - section_bytes(q, v).len(),
        c.subrange(at, at + section_bytes(q, v).len()) == section_bytes(q, v),
    ensures
        ({
            let m = Member {
                start: at + 2,
                value: at + 4 + q.len(),
                end: at + 4 + q.len() + v.len(),
            };
            &&& key_text(q) == Some(key) ==> member_of(c, at, key) == Some(m) && c.subrange(
                m.value,
                m.end,
            ) == v
            &&& key_text(q) != Some(key) ==> member_of(c, at, key) is None
            &&& object_members(c, at) is Some
            &&& byte_at(c, at) == Some(0x7bu8)
        }),
{
    let all = section_bytes(q, v);
    let part = c.subrange(at, at + all.len());
    let y = seq![0x20u8, 0x7du8] + c.skip(at + all.len());
    let t = q + seq![0x3au8, 0x20u8] + v + y;
    assert(c.skip(at) =~= all + c.skip(at + all.len()));
    assert(c.skip(at + 2) =~= c.skip(at).skip(2));
    assert(c.skip(at + 2) =~= t);
    assert(y[0] == 0x20 && y[1] == 0x7d);
    lemma_single(q, v, y, 1);
    assert(c[at] == part[0] && c[at + 1] == part[1]);
    lemma_object_from(c, at, at + 2);
    let own = members_from(t).unwrap();
    let m = Member { start: at + 2, value: at + 4 + q.len(), end: at + 4 + q.len() + v.len() };
    assert(moved_all(own, at + 2) =~= seq![m]);
    assert(c.subrange(m.start, m.start + q.len()) =~= part.subrange(2, 2int + q.len()));
    assert(part.subrange(2, 2int + q.len()) =~= q);
    lemma_key_of_text(c, m.start, q);
    assert(c.subrange(m.value, m.end) =~= part.subrange(4int + q.len(), 4int + q.len() + v.len()));
    assert(part.subrange(4int + q.len(), 4int + q.len() + v.len()) =~= v);
    reveal_with_fuel(first_with_key, 2);
}

/// A key that needs no escape.
pub proof fn lemma_key_of_plain(s: Seq<char>)
    requires
        forall|i: int| 0 <= i < s.len() ==> 'a' <= #[trigger] s[i] <= 'z',
    ensures
        quoted(s) == seq!['"'] + s + seq!['"'],
        key_text(encode_utf8(quoted(s))) == Some(s),
        is_string(encode_utf8(quoted(s))),
{
    lemma_plain_letters(s);
    lemma_quoted_is_string(s);
    lemma_quoted_bytes(s);
    let q = encode_utf8(quoted(s));
    let e = encode_utf8(s);
    assert(q.subrange(1, q.len() - 1) =~= e);
    is_ascii_chars_encode_utf8(s);
    if e.contains(0x5c) {
        let i = choose|i: int| 0 <= i < e.len() && e[i] == 0x5c;
        assert(s[i] as u8 == e[i]);
    }
    encode_utf8_decode_utf8(s);
}

proof fn lemma_plain_letters(s: Seq<char>)
    requires
        forall|i: int| 0 <= i < s.len() ==> 'a' <= #[trigger] s[i] <= 'z',
    ensures
        escaped_all(s) == s,
    decreases s.len(),
{
    if s.len() > 0 {
        let t = s.drop_first();
        assert forall|i: int| 0 <= i < t.len() implies 'a' <= #[trigger] t[i] <= 'z' by {
            assert(t[i] == s[i + 1]);
        }
        lemma_plain_letters(t);
        assert('a' <= s[0] <= 'z');
        assert(seq![s[0]] + t =~= s);
    }
}

} // verus!
