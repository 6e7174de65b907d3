//! The order of strings by their characters, and lists sorted by it.

use vstd::prelude::*;
use crate::text::{chars_of, same, texts};

verus! {

/// Lexicographic order by code point, which is also the order of the UTF-8 bytes.
pub open spec fn lex_less(a: Seq<char>, b: Seq<char>) -> bool
    decreases b.len(),
{
    if b.len() == 0 {
        false
    } else if a.len() == 0 {
        true
    } else if a[0] == b[0] {
        lex_less(a.drop_first(), b.drop_first())
    } else {
        a[0] < b[0]
    }
}

pub proof fn lemma_lex_irreflexive(a: Seq<char>)
    ensures
        !lex_less(a, a),
    decreases a.len(),
{
    if a.len() > 0 {
        lemma_lex_irreflexive(a.drop_first());
    }
}

pub proof fn lemma_lex_transitive(a: Seq<char>, b: Seq<char>, c: Seq<char>)
    requires
        lex_less(a, b),
        lex_less(b, c),
    ensures
        lex_less(a, c),
    decreases c.len(),
{
    if a.len() > 0 && a[0] == b[0] && b[0] == c[0] {
        lemma_lex_transitive(a.drop_first(), b.drop_first(), c.drop_first());
    }
}

pub proof fn lemma_lex_total(a: Seq<char>, b: Seq<char>)
    ensures
        lex_less(a, b) || lex_less(b, a) || a == b,
    decreases a.len(),
{
    if a.len() > 0 && b.len() > 0 && a[0] == b[0] {
        lemma_lex_total(a.drop_first(), b.drop_first());
        if a.drop_first() == b.drop_first() {
            assert(a =~= seq![a[0]] + a.drop_first());
            assert(b =~= seq![b[0]] + b.drop_first());
        }
    } else if a.len() == 0 && b.len() == 0 {
        assert(a =~= b);
    }
}

pub proof fn lemma_lex_asymmetric(a: Seq<char>, b: Seq<char>)
    requires
        lex_less(a, b),
    ensures
        !lex_less(b, a),
        a != b,
{
    lemma_lex_irreflexive(a);
    if lex_less(b, a) {
        lemma_lex_transitive(a, b, a);
    }
}

pub fn text_less(a: &str, b: &str) -> (r: bool)
    ensures
        r == lex_less(a@, b@),
{
    let v = chars_of(a);
    let w = chars_of(b);
    let mut i: usize = 0;
    proof {
        assert(v@.skip(0) =~= v@);
        assert(w@.skip(0) =~= w@);
    }
    while i < v.len() && i < w.len()
        invariant
            i <= v.len(),
            i <= w.len(),
            v@ == a@,
            w@ == b@,
            lex_less(a@, b@) == lex_less(v@.skip(i as int), w@.skip(i as int)),
        decreases v.len() - i,
    {
        if v[i] != w[i] {
            return v[i] < w[i];
        }
        proof {
            assert(v@.skip(i as int).drop_first() =~= v@.skip(i + 1));
            assert(w@.skip(i as int).drop_first() =~= w@.skip(i + 1));
        }
        i = i + 1;
    }
    i < w.len()
}

/// No text of the list comes before an earlier one.
pub open spec fn ascending(s: Seq<Seq<char>>) -> bool {
    forall|i: int, j: int| 0 <= i < j < s.len() ==> !lex_less(#[trigger] s[j], #[trigger] s[i])
}

/// Each text of the list comes after every earlier one.
pub open spec fn strictly_ascending(s: Seq<Seq<char>>) -> bool {
    forall|i: int, j: int| 0 <= i < j < s.len() ==> lex_less(#[trigger] s[i], #[trigger] s[j])
}

/// An ascending list with `x` put behind every text that is not greater.
pub open spec fn insert_text(s: Seq<Seq<char>>, x: Seq<char>) -> Seq<Seq<char>>
    decreases s.len(),
{
    if s.len() > 0 && lex_less(x, s.last()) {
        insert_text(s.drop_last(), x).push(s.last())
    } else {
        s.push(x)
    }
}

/// The texts of the list in ascending order.
pub open spec fn sorted(s: Seq<Seq<char>>) -> Seq<Seq<char>>
    decreases s.len(),
{
    if s.len() == 0 {
        s
    } else {
        insert_text(sorted(s.drop_last()), s.last())
    }
}

proof fn lemma_insert_text(s: Seq<Seq<char>>, x: Seq<char>)
    requires
        ascending(s),
    ensures
        ascending(insert_text(s, x)),
        insert_text(s, x).to_multiset() == s.to_multiset().insert(x),
        insert_text(s, x).len() == s.len() + 1,
        forall|i: int| 0 <= i < s.len() + 1 ==> #[trigger] insert_text(s, x)[i] == x || s.contains(
            insert_text(s, x)[i],
        ),
    decreases s.len(),
{
    broadcast use vstd::seq_lib::group_to_multiset_ensures;

    if s.len() > 0 && lex_less(x, s.last()) {
        let t = s.drop_last();
        lemma_insert_text(t, x);
        let r = insert_text(t, x);
        assert(s =~= t.push(s.last()));
        assert(r.push(s.last()).to_multiset() =~= s.to_multiset().insert(x));
        assert forall|i: int, j: int| 0 <= i < j < s.len() + 1 implies !lex_less(
            #[trigger] r.push(s.last())[j],
            #[trigger] r.push(s.last())[i],
        ) by {
            if j == s.len() {
                let y = r[i];
                if y == x {
                    lemma_lex_asymmetric(x, s.last());
                } else {
                    assert(t.contains(y));
                    let k = choose|k: int| 0 <= k < t.len() && t[k] == y;
                    assert(s[k] == y);
                }
            } else {
                assert(!lex_less(r[j], r[i]));
            }
        }
        assert forall|i: int| 0 <= i < s.len() + 1 implies #[trigger] r.push(s.last())[i] == x
            || s.contains(r.push(s.last())[i]) by {
            if i == s.len() {
                assert(s[s.len() - 1] == s.last());
            } else if r[i] != x {
                assert(t.contains(r[i]));
                let k = choose|k: int| 0 <= k < t.len() && t[k] == r[i];
                assert(s[k] == r[i]);
            }
        }
    } else {
        let r = s.push(x);
        assert forall|i: int, j: int| 0 <= i < j < r.len() implies !lex_less(
            #[trigger] r[j],
            #[trigger] r[i],
        ) by {
            if j == s.len() && lex_less(x, s[i]) {
                let last = s.last();
                if i < s.len() - 1 {
                    assert(!lex_less(s[s.len() - 1], s[i]));
                    lemma_lex_total(s[i], last);
                    if lex_less(s[i], last) {
                        lemma_lex_transitive(x, s[i], last);
                    }
                }
            }
        }
        assert forall|i: int| 0 <= i < r.len() implies #[trigger] r[i] == x || s.contains(
            r[i],
        ) by {
            if i < s.len() {
                assert(s[i] == r[i]);
            }
        }
    }
}

/// Sorting puts the texts in ascending order and keeps each as often as it occurs.
pub proof fn law_sorted_is_ascending_permutation(s: Seq<Seq<char>>)
    ensures
        ascending(sorted(s)),
        sorted(s).to_multiset() == s.to_multiset(),
        sorted(s).len() == s.len(),
    decreases s.len(),
{
    broadcast use vstd::seq_lib::group_to_multiset_ensures;

    if s.len() > 0 {
        law_sorted_is_ascending_permutation(s.drop_last());
        lemma_insert_text(sorted(s.drop_last()), s.last());
        assert(s =~= s.drop_last().push(s.last()));
    }
}

proof fn lemma_insert_text_at(s: Seq<Seq<char>>, x: Seq<char>, p: int)
    requires
        0 <= p <= s.len(),
        forall|k: int| p <= k < s.len() ==> lex_less(x, #[trigger] s[k]),
        p > 0 ==> !lex_less(x, s[p - 1]),
    ensures
        insert_text(s, x) == s.insert(p, x),
    decreases s.len() - p,
{
    if p == s.len() {
        assert(s.insert(p, x) =~= s.push(x));
    } else {
        lemma_insert_text_at(s.drop_last(), x, p);
        assert(s.insert(p, x) =~= s.drop_last().insert(p, x).push(s.last()));
    }
}

pub fn sort_texts(list: &Vec<String>) -> (r: Vec<String>)
    ensures
        texts(r@) == sorted(texts(list@)),
{
    let mut r: Vec<String> = Vec::new();
    let mut i: usize = 0;
    assert(texts(r@) =~= texts(list@).take(0));
    while i < list.len()
        invariant
            i <= list.len(),
            texts(r@) == sorted(texts(list@).take(i as int)),
        decreases list.len() - i,
    {
        proof {
            assert(texts(list@).take(i + 1).drop_last() =~= texts(list@).take(i as int));
        }
        insert_sorted(&mut r, list[i].clone());
        i = i + 1;
    }
    proof {
        assert(texts(list@).take(list.len() as int) =~= texts(list@));
    }
    r
}

/// The distinct texts of the list in ascending order.
pub open spec fn distinct_sorted(s: Seq<Seq<char>>) -> Seq<Seq<char>>
    decreases s.len(),
{
    if s.len() == 0 {
        s
    } else {
        let before = distinct_sorted(s.drop_last());
        if before.contains(s.last()) {
            before
        } else {
            insert_text(before, s.last())
        }
    }
}

proof fn lemma_insert_text_contains(s: Seq<Seq<char>>, x: Seq<char>, y: Seq<char>)
    ensures
        insert_text(s, x).contains(y) <==> s.contains(y) || y == x,
    decreases s.len(),
{
    if s.len() > 0 && lex_less(x, s.last()) {
        let t = s.drop_last();
        lemma_insert_text_contains(t, x, y);
        let r = insert_text(t, x);
        assert(s =~= t.push(s.last()));
        assert(r.push(s.last()).contains(y) <==> r.contains(y) || y == s.last()) by {
            lemma_push_contains(r, s.last(), y);
        }
        lemma_push_contains(t, s.last(), y);
    } else {
        lemma_push_contains(s, x, y);
    }
}

proof fn lemma_push_contains(s: Seq<Seq<char>>, x: Seq<char>, y: Seq<char>)
    ensures
        s.push(x).contains(y) <==> s.contains(y) || y == x,
{
    if s.contains(y) {
        let i = choose|i: int| 0 <= i < s.len() && s[i] == y;
        assert(s.push(x)[i] == y);
    }
    if y == x {
        assert(s.push(x)[s.len() as int] == y);
    }
    if s.push(x).contains(y) {
        let i = choose|i: int| 0 <= i < s.push(x).len() && s.push(x)[i] == y;
        if i < s.len() {
            assert(s[i] == y);
        }
    }
}

/// The distinct texts come in strictly ascending order, and are those of the list.
pub proof fn law_distinct_sorted(s: Seq<Seq<char>>, y: Seq<char>)
    ensures
        strictly_ascending(distinct_sorted(s)),
        distinct_sorted(s).contains(y) <==> s.contains(y),
    decreases s.len(),
{
    if s.len() > 0 {
        let t = s.drop_last();
        let before = distinct_sorted(t);
        law_distinct_sorted(t, y);
        assert(s =~= t.push(s.last()));
        lemma_push_contains(t, s.last(), y);
        if !before.contains(s.last()) {
            lemma_insert_text_contains(before, s.last(), y);
            assert(ascending(before)) by {
                assert forall|i: int, j: int| 0 <= i < j < before.len() implies !lex_less(
                    #[trigger] before[j],
                    #[trigger] before[i],
                ) by {
                    assert(lex_less(before[i], before[j]));
                    lemma_lex_asymmetric(before[i], before[j]);
                }
            }
            lemma_insert_new(before, s.last());
        }
    }
}

proof fn lemma_insert_new(s: Seq<Seq<char>>, x: Seq<char>)
    requires
        strictly_ascending(s),
        !s.contains(x),
    ensures
        strictly_ascending(insert_text(s, x)),
        forall|i: int|
            0 <= i < insert_text(s, x).len() ==> #[trigger] insert_text(s, x)[i] == x || s.contains(
                insert_text(s, x)[i],
            ),
    decreases s.len(),
{
    let r = insert_text(s, x);
    if s.len() > 0 && lex_less(x, s.last()) {
        let t = s.drop_last();
        assert(strictly_ascending(t)) by {
            assert forall|i: int, j: int| 0 <= i < j < t.len() implies lex_less(
                #[trigger] t[i],
                #[trigger] t[j],
            ) by {
                assert(lex_less(s[i], s[j]));
            }
        }
        if t.contains(x) {
            let i = choose|i: int| 0 <= i < t.len() && t[i] == x;
            assert(s[i] == x);
        }
        lemma_insert_new(t, x);
        let q = insert_text(t, x);
        assert forall|i: int| 0 <= i < q.len() implies lex_less(#[trigger] q[i], s.last()) by {
            if q[i] != x {
                let k = choose|k: int| 0 <= k < t.len() && t[k] == q[i];
                assert(lex_less(s[k], s[s.len() - 1]));
            }
        }
        assert forall|i: int| 0 <= i < r.len() implies #[trigger] r[i] == x || s.contains(
            r[i],
        ) by {
            if i < q.len() {
                if q[i] != x {
                    let k = choose|k: int| 0 <= k < t.len() && t[k] == q[i];
                    assert(s[k] == r[i]);
                }
            } else {
                assert(s[s.len() - 1] == r[i]);
            }
        }
        assert forall|i: int, j: int| 0 <= i < j < r.len() implies lex_less(
            #[trigger] r[i],
            #[trigger] r[j],
        ) by {
            if j < q.len() {
                assert(lex_less(q[i], q[j]));
            } else {
                assert(lex_less(q[i], s.last()));
            }
        }
    } else {
        assert forall|i: int, j: int| 0 <= i < j < r.len() implies lex_less(
            #[trigger] r[i],
            #[trigger] r[j],
        ) by {
            if j == s.len() {
                let last = s.last();
                lemma_lex_total(last, x);
                assert(s[s.len() - 1] == last);
                if i < s.len() - 1 {
                    assert(lex_less(s[i], s[s.len() - 1]));
                    lemma_lex_transitive(s[i], last, x);
                }
            } else {
                assert(lex_less(s[i], s[j]));
            }
        }
        assert forall|i: int| 0 <= i < r.len() implies #[trigger] r[i] == x || s.contains(
            r[i],
        ) by {
            if i < s.len() {
                assert(s[i] == r[i]);
            }
        }
    }
}

pub fn has_text(list: &Vec<String>, x: &str) -> (r: bool)
    ensures
        r == texts(list@).contains(x@),
{
    let mut i: usize = 0;
    while i < list.len()
        invariant
            i <= list.len(),
            forall|k: int| 0 <= k < i ==> (#[trigger] list@[k])@ != x@,
        decreases list.len() - i,
    {
        if same(list[i].as_str(), x) {
            assert(texts(list@)[i as int] == x@);
            return true;
        }
        i = i + 1;
    }
    proof {
        if texts(list@).contains(x@) {
            let k = choose|k: int| 0 <= k < list@.len() && texts(list@)[k] == x@;
            assert(list@[k]@ == x@);
        }
    }
    false
}

pub fn insert_sorted(list: &mut Vec<String>, x: String)
    ensures
        texts(final(list)@) == insert_text(texts(old(list)@), x@),
{
    let mut p: usize = list.len();
    while p > 0 && text_less(x.as_str(), list[p - 1].as_str())
        invariant
            p <= list.len(),
            forall|k: int| p <= k < list.len() ==> lex_less(x@, #[trigger] texts(list@)[k]),
            list@ == old(list)@,
        decreases p,
    {
        p = p - 1;
    }
    let ghost before = list@;
    let ghost y = x@;
    proof {
        lemma_insert_text_at(texts(list@), x@, p as int);
    }
    list.insert(p, x);
    proof {
        assert(texts(list@) =~= texts(before).insert(p as int, y));
    }
}

pub fn sort_distinct(list: &Vec<String>) -> (r: Vec<String>)
    ensures
        texts(r@) == distinct_sorted(texts(list@)),
{
    let mut r: Vec<String> = Vec::new();
    let mut i: usize = 0;
    assert(texts(r@) =~= texts(list@).take(0));
    while i < list.len()
        invariant
            i <= list.len(),
            texts(r@) == distinct_sorted(texts(list@).take(i as int)),
        decreases list.len() - i,
    {
        proof {
            assert(texts(list@).take(i + 1).drop_last() =~= texts(list@).take(i as int));
        }
        if !has_text(&r, list[i].as_str()) {
            insert_sorted(&mut r, list[i].clone());
        }
        i = i + 1;
    }
    proof {
        assert(texts(list@).take(list.len() as int) =~= texts(list@));
    }
    r
}

} // verus!
