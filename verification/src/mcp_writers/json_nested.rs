//! In a text that is JSON, every nested object is found by going from member to member.

use vstd::prelude::*;
use crate::mcp_writers::json_edit::{lemma_lexed_skip_one, lemma_next, lemma_step_member};
use crate::mcp_writers::json_span::{
    after_space, byte_at, container_rest_len, first_member, first_with_key, is_json_space, key_at,
    lemma_container_rest_len, lemma_first_member, lemma_literal_len, lemma_space_len,
    lemma_string_rest_len, lemma_value_len, member_of, members_from, object_at, object_members,
    objects_found, open_after, opens, outside, rest, space_len, string_len, value_len, well_formed,
    well_lexed, Member,
};

verus! {

proof fn lemma_outside_on(s: Seq<u8>, i: int, j: int)
    requires
        outside(s, i),
        outside(s.skip(i), j),
        0 <= i <= s.len(),
    ensures
        outside(s, i + j),
    decreases s.len(),
{
    if i == 0 {
        assert(s.skip(0) =~= s);
    } else if s[0] == 0x22 {
        let k = string_len(s).unwrap();
        lemma_outside_bound(s.skip(k), i - k);
        assert(s.skip(k).skip(i - k) =~= s.skip(i));
        lemma_outside_on(s.skip(k), i - k, j);
        lemma_outside_bound(s.skip(i), j);
    } else {
        assert(s.skip(1).skip(i - 1) =~= s.skip(i));
        lemma_outside_on(s.skip(1), i - 1, j);
        lemma_outside_bound(s.skip(i), j);
    }
}

proof fn lemma_outside_bound(s: Seq<u8>, n: int)
    requires
        outside(s, n),
    ensures
        0 <= n <= s.len(),
    decreases s.len(),
{
    if n != 0 {
        if s[0] == 0x22 {
            let k = string_len(s).unwrap();
            lemma_outside_bound(s.skip(k), n - k);
        } else {
            lemma_outside_bound(s.skip(1), n - 1);
        }
    }
}

// Bytes that are no quotes.
proof fn lemma_outside_run(s: Seq<u8>, n: int)
    requires
        0 <= n <= s.len(),
        forall|i: int| 0 <= i < n ==> #[trigger] s[i] != 0x22,
    ensures
        outside(s, n),
    decreases n,
{
    if n > 0 {
        let t = s.skip(1);
        assert forall|i: int| 0 <= i < n - 1 implies #[trigger] t[i] != 0x22 by {
            assert(t[i] == s[i + 1]);
        }
        lemma_outside_run(t, n - 1);
    }
}

proof fn lemma_outside_space(s: Seq<u8>)
    ensures
        outside(s, space_len(s)),
{
    lemma_space_len(s);
    assert forall|i: int| 0 <= i < space_len(s) implies #[trigger] s[i] != 0x22 by {
        assert(is_json_space(s[i]));
    }
    lemma_outside_run(s, space_len(s));
}

proof fn lemma_outside_string(s: Seq<u8>)
    requires
        s.len() > 0,
        s[0] == 0x22,
        string_len(s) is Some,
    ensures
        outside(s, string_len(s).unwrap()),
{
    lemma_string_rest_len(s.skip(1));
    assert(outside(s.skip(string_len(s).unwrap()), 0));
}

proof fn lemma_outside_container(s: Seq<u8>, open: Seq<u8>)
    requires
        container_rest_len(s, open) is Some,
    ensures
        outside(s, container_rest_len(s, open).unwrap()),
    decreases s.len(),
{
    let n = container_rest_len(s, open).unwrap();
    lemma_container_rest_len(s, open);
    if s[0] == 0x22 {
        lemma_string_rest_len(s.skip(1));
        let k = string_len(s).unwrap();
        lemma_container_rest_len(s.skip(k), open);
        lemma_outside_container(s.skip(k), open);
    } else if n > 1 {
        let inner = open_after(open, s[0]);
        lemma_container_rest_len(s.skip(1), inner);
        lemma_outside_container(s.skip(1), inner);
    } else {
        assert(outside(s.skip(1), 0));
    }
}

proof fn lemma_outside_value(s: Seq<u8>)
    requires
        value_len(s) is Some,
        well_lexed(s),
    ensures
        outside(s, value_len(s).unwrap()),
{
    let n = value_len(s).unwrap();
    lemma_value_len(s);
    if s[0] == 0x22 {
        lemma_outside_string(s);
    } else if opens(s[0]) {
        lemma_outside_container(s, Seq::empty());
    } else {
        lemma_literal_len(s);
        assert forall|i: int| 0 <= i < n implies #[trigger] s[i] != 0x22 by {
            assert(s.take(n)[i] == s[i]);
        }
        lemma_outside_run(s, n);
    }
}

// What is left behind an offset outside of strings is made of the same pieces.
proof fn lemma_lexed_outside(s: Seq<u8>, n: int)
    requires
        well_lexed(s),
        outside(s, n),
    ensures
        well_lexed(s.skip(n)),
        0 <= n <= s.len(),
    decreases s.len(),
{
    lemma_outside_bound(s, n);
    if n == 0 {
        assert(s.skip(0) =~= s);
    } else if s[0] == 0x22 {
        let k = string_len(s).unwrap();
        lemma_lexed_outside(s.skip(k), n - k);
        assert(s.skip(k).skip(n - k) =~= s.skip(n));
    } else {
        lemma_lexed_skip_one(s);
        lemma_lexed_outside(s.skip(1), n - 1);
        assert(s.skip(1).skip(n - 1) =~= s.skip(n));
    }
}

proof fn lemma_outside_space_at(s: Seq<u8>, i: int)
    requires
        outside(s, i),
        0 <= i <= s.len(),
    ensures
        outside(s, after_space(s, i)),
        i <= after_space(s, i) <= s.len(),
{
    lemma_space_len(rest(s, i));
    lemma_outside_space(s.skip(i));
    lemma_outside_on(s, i, space_len(s.skip(i)));
}

proof fn lemma_outside_byte_at(s: Seq<u8>, i: int)
    requires
        outside(s, i),
        0 <= i < s.len(),
        s[i] != 0x22,
    ensures
        outside(s, i + 1),
{
    let t = s.skip(i);
    assert(t[0] == s[i]);
    assert(outside(t.skip(1), 0));
    lemma_outside_on(s, i, 1);
}

// A member's value, and the byte that follows it.
proof fn lemma_outside_member(s: Seq<u8>)
    requires
        first_member(s) is Some,
        well_lexed(s),
    ensures
        outside(s, first_member(s).unwrap().0.value),
        outside(s, first_member(s).unwrap().1),
{
    reveal(first_member);
    let (m, after) = first_member(s).unwrap();
    lemma_first_member(s);
    lemma_step_member(s, seq![0x7bu8]);
    lemma_string_rest_len(s.skip(1));
    let key = string_len(s).unwrap();
    lemma_outside_string(s);
    lemma_outside_space_at(s, key);
    let colon = after_space(s, key);
    lemma_outside_byte_at(s, colon);
    lemma_outside_space_at(s, colon + 1);
    lemma_value_len(rest(s, m.value));
    lemma_outside_value(s.skip(m.value));
    lemma_outside_on(s, m.value, m.end - m.value);
    lemma_outside_space_at(s, m.end);
}

proof fn lemma_outside_members(s: Seq<u8>, i: int)
    requires
        members_from(s) matches Some(ms) && 0 <= i < ms.len(),
        well_lexed(s),
    ensures
        outside(s, members_from(s).unwrap()[i].value),
    decreases s.len(),
{
    let ms = members_from(s).unwrap();
    let (m, after) = first_member(s).unwrap();
    lemma_first_member(s);
    lemma_outside_member(s);
    if i > 0 {
        lemma_next(s);
        let next = after_space(s, after + 1);
        lemma_outside_byte_at(s, after);
        lemma_outside_space_at(s, after + 1);
        lemma_lexed_outside(s, next);
        lemma_outside_members(s.skip(next), i - 1);
        let own = members_from(s.skip(next)).unwrap();
        assert(ms[i].value == own[i - 1].value + next);
        lemma_outside_on(s, next, own[i - 1].value);
    }
}

proof fn lemma_key_occurs(b: Seq<u8>, ms: Seq<Member>, key: Seq<char>)
    ensures
        first_with_key(b, ms, key) is Some <==> exists|i: int|
            0 <= i < ms.len() && key_at(b, (#[trigger] ms[i]).start) == Some(key),
    decreases ms.len(),
{
    if ms.len() > 0 && key_at(b, ms[0].start) != Some(key) {
        let t = ms.drop_first();
        lemma_key_occurs(b, t, key);
        if exists|i: int| 0 <= i < ms.len() && key_at(b, (#[trigger] ms[i]).start) == Some(key) {
            let i = choose|i: int|
                0 <= i < ms.len() && key_at(b, (#[trigger] ms[i]).start) == Some(key);
            assert(t[i - 1] == ms[i]);
        }
        if exists|i: int| 0 <= i < t.len() && key_at(b, (#[trigger] t[i]).start) == Some(key) {
            let i = choose|i: int| 0 <= i < t.len() && key_at(b, (#[trigger] t[i]).start) == Some(key);
            assert(ms[i + 1] == t[i]);
        }
    }
}

/// In a text that is JSON, the members of every object in it are found, a member is found by its
/// key exactly if it is there, and where its value is an object the same holds of that.
pub proof fn law_nested_objects_are_found(b: Seq<u8>, at: int, key: Seq<char>)
    requires
        well_formed(b),
        outside(b, at),
        byte_at(b, at) == Some(0x7bu8),
    ensures
        object_members(b, at) matches Some(ms) && {
            &&& member_of(b, at, key) is Some <==> exists|i: int|
                0 <= i < ms.len() && key_at(b, (#[trigger] ms[i]).start) == Some(key)
            &&& forall|i: int| 0 <= i < ms.len() ==> outside(b, (#[trigger] ms[i]).value)
        },
{
    reveal(objects_found);
    let ms = object_members(b, at).unwrap();
    lemma_key_occurs(b, ms, key);
    lemma_outside_byte_at(b, at);
    lemma_outside_space_at(b, at + 1);
    let first = after_space(b, at + 1);
    lemma_lexed_outside(b, first);
    let s = rest(b, first);
    assert forall|i: int| 0 <= i < ms.len() implies outside(b, (#[trigger] ms[i]).value) by {
        let own = members_from(s).unwrap();
        lemma_outside_members(s, i);
        assert(ms[i].value == own[i].value + first);
        lemma_outside_on(b, first, own[i].value);
    }
}

/// The object that a text starts with lies outside of strings.
pub proof fn lemma_root_outside(b: Seq<u8>)
    requires
        object_at(b, 0) is Some,
    ensures
        outside(b, object_at(b, 0).unwrap()),
{
    assert(rest(b, 0) =~= b);
    lemma_outside_space(b);
}

} // verus!
