//! The members of objects in the order of their keys, as `serde_json` keeps them.

use vstd::prelude::*;
use crate::json::{copy_json, member_keys_ascend, ordered, tree, Json, JsonTree};
use crate::order::{
    lemma_lex_asymmetric, lemma_lex_total, lemma_lex_transitive, lex_less, text_less,
};
use crate::text::same;

verus! {

/// Members in the order of their keys with one more: in place of the one with its key, where
/// there is one.
pub open spec fn put_member(
    s: Seq<(Seq<char>, JsonTree)>,
    key: Seq<char>,
    value: JsonTree,
) -> Seq<(Seq<char>, JsonTree)>
    decreases s.len(),
{
    if s.len() > 0 && lex_less(key, s.last().0) {
        put_member(s.drop_last(), key, value).push(s.last())
    } else if s.len() > 0 && s.last().0 == key {
        s.drop_last().push((key, value))
    } else {
        s.push((key, value))
    }
}

/// A value with the members of every object in the order of their keys, the last of each key.
pub open spec fn arranged(v: JsonTree) -> JsonTree
    decreases v,
{
    match v {
        JsonTree::List(items) => JsonTree::List(
            Seq::new(
                items.len(),
                |i: int|
                    if 0 <= i < items.len() {
                        arranged(items[i])
                    } else {
                        JsonTree::Null
                    },
            ),
        ),
        JsonTree::Object(members) => JsonTree::Object(arranged_members(members)),
        _ => v,
    }
}

pub open spec fn arranged_members(members: Seq<(Seq<char>, JsonTree)>) -> Seq<
    (Seq<char>, JsonTree),
>
    decreases members,
{
    if members.len() == 0 {
        Seq::empty()
    } else {
        put_member(
            arranged_members(members.drop_last()),
            members[members.len() - 1].0,
            arranged(members[members.len() - 1].1),
        )
    }
}

spec fn all_ordered(s: Seq<(Seq<char>, JsonTree)>) -> bool {
    forall|i: int| 0 <= i < s.len() ==> ordered((#[trigger] s[i]).1)
}

proof fn lemma_put_member(s: Seq<(Seq<char>, JsonTree)>, key: Seq<char>, value: JsonTree)
    requires
        member_keys_ascend(s),
        all_ordered(s),
        ordered(value),
    ensures
        member_keys_ascend(put_member(s, key, value)),
        all_ordered(put_member(s, key, value)),
        forall|i: int|
            0 <= i < put_member(s, key, value).len() ==> (#[trigger] put_member(s, key, value)[i]).0
                == key || exists|k: int|
                0 <= k < s.len() && (#[trigger] s[k]).0 == put_member(s, key, value)[i].0,
    decreases s.len(),
{
    let r = put_member(s, key, value);
    if s.len() > 0 && lex_less(key, s.last().0) {
        let t = s.drop_last();
        assert(member_keys_ascend(t)) by {
            assert forall|i: int, j: int| 0 <= i < j < t.len() implies lex_less(
                (#[trigger] t[i]).0,
                (#[trigger] t[j]).0,
            ) by {
                assert(lex_less(s[i].0, s[j].0));
            }
        }
        assert(all_ordered(t)) by {
            assert forall|i: int| 0 <= i < t.len() implies ordered((#[trigger] t[i]).1) by {
                assert(ordered(s[i].1));
            }
        }
        lemma_put_member(t, key, value);
        let q = put_member(t, key, value);
        assert forall|i: int| 0 <= i < q.len() implies lex_less(
            (#[trigger] q[i]).0,
            s.last().0,
        ) by {
            if q[i].0 != key {
                let k = choose|k: int| 0 <= k < t.len() && (#[trigger] t[k]).0 == q[i].0;
                assert(lex_less(s[k].0, s[s.len() - 1].0));
            }
        }
        assert forall|i: int, j: int| 0 <= i < j < r.len() implies lex_less(
            (#[trigger] r[i]).0,
            (#[trigger] r[j]).0,
        ) by {
            assert(r[i] == q[i]);
            if j < q.len() {
                assert(r[j] == q[j]);
            }
        }
        assert forall|i: int| 0 <= i < r.len() implies ordered((#[trigger] r[i]).1) by {
            if i < q.len() {
                assert(ordered(q[i].1));
            } else {
                assert(ordered(s[s.len() - 1].1));
            }
        }
        assert forall|i: int| 0 <= i < r.len() implies (#[trigger] r[i]).0 == key || exists|k: int|
            0 <= k < s.len() && (#[trigger] s[k]).0 == r[i].0 by {
            if i == q.len() {
                assert(s[s.len() - 1].0 == r[i].0);
            } else {
                assert(r[i] == q[i]);
                if q[i].0 != key {
                    let k = choose|k: int| 0 <= k < t.len() && (#[trigger] t[k]).0 == q[i].0;
                    assert(s[k].0 == r[i].0);
                }
            }
        }
    } else if s.len() > 0 && s.last().0 == key {
        assert forall|i: int, j: int| 0 <= i < j < r.len() implies lex_less(
            (#[trigger] r[i]).0,
            (#[trigger] r[j]).0,
        ) by {
            assert(lex_less(s[i].0, s[j].0));
        }
        assert forall|i: int| 0 <= i < r.len() implies ordered((#[trigger] r[i]).1) by {
            assert(ordered(s[i].1));
        }
        assert forall|i: int| 0 <= i < r.len() implies (#[trigger] r[i]).0 == key || exists|k: int|
            0 <= k < s.len() && (#[trigger] s[k]).0 == r[i].0 by {
            assert(s[i].0 == r[i].0);
        }
    } else {
        assert forall|i: int, j: int| 0 <= i < j < r.len() implies lex_less(
            (#[trigger] r[i]).0,
            (#[trigger] r[j]).0,
        ) by {
            if j == s.len() {
                lemma_lex_total(s.last().0, key);
                if i < s.len() - 1 {
                    assert(lex_less(s[i].0, s[s.len() - 1].0));
                    lemma_lex_transitive(s[i].0, s.last().0, key);
                }
            } else {
                assert(lex_less(s[i].0, s[j].0));
            }
        }
        assert forall|i: int| 0 <= i < r.len() implies ordered((#[trigger] r[i]).1) by {
            if i < s.len() {
                assert(ordered(s[i].1));
            }
        }
        assert forall|i: int| 0 <= i < r.len() implies (#[trigger] r[i]).0 == key || exists|k: int|
            0 <= k < s.len() && (#[trigger] s[k]).0 == r[i].0 by {
            if i < s.len() {
                assert(s[i].0 == r[i].0);
            }
        }
    }
}

/// An arranged value has its members in order.
pub proof fn law_arranged_is_ordered(v: JsonTree)
    ensures
        ordered(arranged(v)),
    decreases v, 1nat, 0int,
{
    match v {
        JsonTree::List(items) => {
            let list = arranged(v)->List_0;
            assert forall|i: int| 0 <= i < list.len() implies ordered(#[trigger] list[i]) by {
                law_arranged_is_ordered(v->List_0[i]);
            }
        },
        JsonTree::Object(members) => {
            lemma_members_ordered(v, members.len() as int);
            assert(members.take(members.len() as int) =~= members);
        },
        _ => {},
    }
}

proof fn lemma_members_ordered(v: JsonTree, n: int)
    requires
        v is Object,
        0 <= n <= v->Object_0.len(),
    ensures
        member_keys_ascend(arranged_members(v->Object_0.take(n))),
        all_ordered(arranged_members(v->Object_0.take(n))),
    decreases v, 0nat, n,
{
    let members = v->Object_0;
    if n > 0 {
        lemma_members_ordered(v, n - 1);
        law_arranged_is_ordered(v->Object_0[n - 1].1);
        let t = members.take(n);
        assert(t.drop_last() =~= members.take(n - 1));
        lemma_put_member(
            arranged_members(members.take(n - 1)),
            members[n - 1].0,
            arranged(members[n - 1].1),
        );
    }
}

/// A value whose members are in order is arranged already.
pub proof fn law_ordered_is_arranged(v: JsonTree)
    requires
        ordered(v),
    ensures
        arranged(v) == v,
    decreases v, 1nat, 0int,
{
    match v {
        JsonTree::List(items) => {
            let list = arranged(v)->List_0;
            assert forall|i: int| 0 <= i < list.len() implies list[i] == items[i] by {
                assert(ordered(items[i]));
                law_ordered_is_arranged(v->List_0[i]);
            }
            assert(list =~= items);
        },
        JsonTree::Object(members) => {
            lemma_members_arranged(v, members.len() as int);
            assert(members.take(members.len() as int) =~= members);
        },
        _ => {},
    }
}

proof fn lemma_members_arranged(v: JsonTree, n: int)
    requires
        v is Object,
        ordered(v),
        0 <= n <= v->Object_0.len(),
    ensures
        arranged_members(v->Object_0.take(n)) == v->Object_0.take(n),
    decreases v, 0nat, n,
{
    let members = v->Object_0;
    let t = members.take(n);
    if n > 0 {
        let rest = members.take(n - 1);
        lemma_members_arranged(v, n - 1);
        assert(ordered(members[n - 1].1));
        law_ordered_is_arranged(v->Object_0[n - 1].1);
        assert(t.drop_last() =~= rest);
        assert(t[n - 1] == members[n - 1]);
        if n > 1 {
            assert(lex_less(members[n - 2].0, members[n - 1].0));
            assert(rest.last() == members[n - 2]);
            lemma_lex_asymmetric(members[n - 2].0, members[n - 1].0);
            crate::order::lemma_lex_irreflexive(members[n - 1].0);
        }
        assert(rest.push(members[n - 1]) =~= t);
    } else {
        assert(arranged_members(t) =~= t);
    }
}

proof fn lemma_put_at(s: Seq<(Seq<char>, JsonTree)>, key: Seq<char>, value: JsonTree, p: int)
    requires
        0 <= p <= s.len(),
        forall|k: int| p <= k < s.len() ==> lex_less(key, (#[trigger] s[k]).0),
        p > 0 ==> !lex_less(key, s[p - 1].0),
    ensures
        put_member(s, key, value) == if p > 0 && s[p - 1].0 == key {
            s.update(p - 1, (key, value))
        } else {
            s.insert(p, (key, value))
        },
    decreases s.len() - p,
{
    if p == s.len() {
        if p > 0 && s[p - 1].0 == key {
            assert(s.update(p - 1, (key, value)) =~= s.drop_last().push((key, value)));
        } else {
            assert(s.insert(p, (key, value)) =~= s.push((key, value)));
        }
    } else {
        lemma_put_at(s.drop_last(), key, value, p);
        assert(s.insert(p, (key, value)) =~= s.drop_last().insert(p, (key, value)).push(s.last()));
        if p > 0 {
            assert(s.update(p - 1, (key, value)) =~= s.drop_last().update(p - 1, (key, value)).push(
                s.last(),
            ));
        }
    }
}

pub open spec fn member_views(s: Seq<(String, Json)>) -> Seq<(Seq<char>, JsonTree)> {
    Seq::new(s.len(), |i: int| (s[i].0@, tree(s[i].1)))
}

fn put(members: &mut Vec<(String, Json)>, key: String, value: Json)
    ensures
        member_views(final(members)@) == put_member(
            member_views(old(members)@),
            key@,
            tree(value),
        ),
{
    let ghost before = member_views(members@);
    let ghost pair = (key@, tree(value));
    let mut p: usize = members.len();
    while p > 0 && text_less(key.as_str(), members[p - 1].0.as_str())
        invariant
            p <= members.len(),
            before == member_views(members@),
            forall|k: int| p <= k < before.len() ==> lex_less(key@, (#[trigger] before[k]).0),
        decreases p,
    {
        assert(before[p - 1].0 == members@[p - 1].0@);
        p = p - 1;
    }
    proof {
        if p > 0 {
            assert(before[p - 1].0 == members@[p - 1].0@);
        }
        lemma_put_at(before, key@, tree(value), p as int);
    }
    if p > 0 && same(members[p - 1].0.as_str(), key.as_str()) {
        members.set(p - 1, (key, value));
        assert(member_views(members@) =~= before.update(p - 1, pair));
    } else {
        members.insert(p, (key, value));
        assert(member_views(members@) =~= before.insert(p as int, pair));
    }
}

/// A value with the members of every object in the order of their keys.
pub fn arrange(json: &Json) -> (r: Json)
    ensures
        r@ == arranged(json@),
    decreases json,
{
    match json {
        Json::List(items) => {
            let ghost trees = json@->List_0;
            let mut list: Vec<Json> = Vec::new();
            let mut i: usize = 0;
            while i < items.len()
                invariant
                    i <= items.len(),
                    list@.len() == i,
                    *json == Json::List(*items),
                    forall|k: int|
                        0 <= k < i ==> tree(#[trigger] list@[k]) == arranged(tree(items@[k])),
                decreases items.len() - i,
            {
                assert(*json is List && json->List_0 == *items);
                assert(decreases_to!(*json => json->List_0));
                assert(decreases_to!(*items => items@[i as int]));
                let item = arrange(&items[i]);
                list.push(item);
                i = i + 1;
            }
            let r = Json::List(list);
            assert(r@->List_0 =~= arranged(json@)->List_0);
            r
        },
        Json::Object(members) => {
            let ghost ms = json@->Object_0;
            let mut sorted: Vec<(String, Json)> = Vec::new();
            let mut i: usize = 0;
            assert(ms.take(0) =~= Seq::<(Seq<char>, JsonTree)>::empty());
            assert(member_views(sorted@) =~= arranged_members(ms.take(0)));
            while i < members.len()
                invariant
                    i <= members.len(),
                    *json == Json::Object(*members),
                    ms.len() == members.len(),
                    forall|k: int|
                        0 <= k < ms.len() ==> #[trigger] ms[k] == (
                            members@[k].0@,
                            tree(members@[k].1),
                        ),
                    member_views(sorted@) == arranged_members(ms.take(i as int)),
                decreases members.len() - i,
            {
                assert(*json is Object && json->Object_0 == *members);
                assert(decreases_to!(*json => json->Object_0));
                assert(decreases_to!(*members => members@[i as int].1));
                let value = arrange(&members[i].1);
                proof {
                    let t = ms.take(i + 1);
                    assert(t.drop_last() =~= ms.take(i as int));
                    assert(t[i as int] == ms[i as int]);
                }
                put(&mut sorted, members[i].0.clone(), value);
                i = i + 1;
            }
            assert(ms.take(i as int) =~= ms);
            let r = Json::Object(sorted);
            assert(r@->Object_0 =~= member_views(sorted@));
            r
        },
        _ => copy_json(json),
    }
}

} // verus!
