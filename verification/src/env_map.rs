//! Environment variables by name, in the order of their names.

use vstd::prelude::*;
use crate::order::{
    lemma_lex_asymmetric, lemma_lex_total, lemma_lex_transitive, lex_less, text_less,
};
use crate::text::same;

verus! {

/// The names and values of a list of pairs.
pub open spec fn pairs(s: Seq<(String, String)>) -> Seq<(Seq<char>, Seq<char>)> {
    Seq::new(s.len(), |i: int| (s[i].0@, s[i].1@))
}

/// Each name comes after every earlier one, so none occurs twice.
pub open spec fn keys_ascend(s: Seq<(Seq<char>, Seq<char>)>) -> bool {
    forall|i: int, j: int| 0 <= i < j < s.len() ==> lex_less((#[trigger] s[i]).0, (#[trigger] s[j]).0)
}

/// The pairs with `key` bound to `value`: in place of the old value where there was one.
pub open spec fn bind(s: Seq<(Seq<char>, Seq<char>)>, key: Seq<char>, value: Seq<char>) -> Seq<
    (Seq<char>, Seq<char>),
>
    decreases s.len(),
{
    if s.len() > 0 && lex_less(key, s.last().0) {
        bind(s.drop_last(), key, value).push(s.last())
    } else if s.len() > 0 && s.last().0 == key {
        s.drop_last().push((key, value))
    } else {
        s.push((key, value))
    }
}

/// The value that `key` is bound to.
pub open spec fn bound(s: Seq<(Seq<char>, Seq<char>)>, key: Seq<char>) -> Option<Seq<char>>
    decreases s.len(),
{
    if s.len() == 0 {
        None
    } else if s.last().0 == key {
        Some(s.last().1)
    } else {
        bound(s.drop_last(), key)
    }
}

/// All pairs of the list bound one after another, so that the last of a name stays.
pub open spec fn bind_all(s: Seq<(Seq<char>, Seq<char>)>) -> Seq<(Seq<char>, Seq<char>)>
    decreases s.len(),
{
    if s.len() == 0 {
        s
    } else {
        bind(bind_all(s.drop_last()), s.last().0, s.last().1)
    }
}

pub proof fn lemma_bind_ascends(s: Seq<(Seq<char>, Seq<char>)>, key: Seq<char>, value: Seq<char>)
    requires
        keys_ascend(s),
    ensures
        keys_ascend(bind(s, key, value)),
        forall|i: int|
            0 <= i < bind(s, key, value).len() ==> (#[trigger] bind(s, key, value)[i]).0 == key
                || exists|k: int| 0 <= k < s.len() && (#[trigger] s[k]).0 == bind(s, key, value)[i].0,
    decreases s.len(),
{
    let r = bind(s, key, value);
    if s.len() > 0 && lex_less(key, s.last().0) {
        let t = s.drop_last();
        lemma_bind_ascends(t, key, value);
        let q = bind(t, key, value);
        assert forall|i: int| 0 <= i < q.len() implies lex_less(
            (#[trigger] q[i]).0,
            s.last().0,
        ) by {
            if q[i].0 != key {
                let k = choose|k: int| 0 <= k < t.len() && (#[trigger] t[k]).0 == q[i].0;
                assert(s[k] == t[k]);
                assert(s[s.len() - 1] == s.last());
            }
        }
        assert forall|i: int| 0 <= i < r.len() implies (#[trigger] r[i]).0 == key || exists|k: int|
            0 <= k < s.len() && (#[trigger] s[k]).0 == r[i].0 by {
            if i == q.len() {
                assert(s[s.len() - 1].0 == r[i].0);
            } else {
                assert(r[i] == q[i]);
                if q[i].0 != key {
                    let k = choose|k: int| 0 <= k < t.len() && (#[trigger] t[k]).0 == q[i].0;
                    assert(s[k].0 == r[i].0);
                }
            }
        }
    } else if s.len() > 0 && s.last().0 == key {
        assert forall|i: int, j: int| 0 <= i < j < r.len() implies lex_less(
            (#[trigger] r[i]).0,
            (#[trigger] r[j]).0,
        ) by {
            assert(lex_less(s[i].0, s[j].0));
        }
        assert forall|i: int| 0 <= i < r.len() implies (#[trigger] r[i]).0 == key || exists|k: int|
            0 <= k < s.len() && (#[trigger] s[k]).0 == r[i].0 by {
            assert(s[i].0 == r[i].0);
        }
    } else {
        assert forall|i: int, j: int| 0 <= i < j < r.len() implies lex_less(
            (#[trigger] r[i]).0,
            (#[trigger] r[j]).0,
        ) by {
            if j == s.len() {
                lemma_lex_total(s.last().0, key);
                if i < s.len() - 1 {
                    assert(lex_less(s[i].0, s[s.len() - 1].0));
                    lemma_lex_transitive(s[i].0, s.last().0, key);
                }
            } else {
                assert(lex_less(s[i].0, s[j].0));
            }
        }
        assert forall|i: int| 0 <= i < r.len() implies (#[trigger] r[i]).0 == key || exists|k: int|
            0 <= k < s.len() && (#[trigger] s[k]).0 == r[i].0 by {
            if i < s.len() {
                assert(s[i].0 == r[i].0);
            }
        }
    }
}

/// Binding a name changes what that name is bound to and no other.
pub proof fn law_bind_then_bound(
    s: Seq<(Seq<char>, Seq<char>)>,
    key: Seq<char>,
    value: Seq<char>,
    other: Seq<char>,
)
    requires
        keys_ascend(s),
    ensures
        bound(bind(s, key, value), key) == Some(value),
        other != key ==> bound(bind(s, key, value), other) == bound(s, other),
    decreases s.len(),
{
    let r = bind(s, key, value);
    if s.len() > 0 && lex_less(key, s.last().0) {
        lemma_lex_asymmetric(key, s.last().0);
        assert(keys_ascend(s.drop_last())) by {
            assert forall|i: int, j: int| 0 <= i < j < s.len() - 1 implies lex_less(
                (#[trigger] s.drop_last()[i]).0,
                (#[trigger] s.drop_last()[j]).0,
            ) by {
                assert(lex_less(s[i].0, s[j].0));
            }
        }
        law_bind_then_bound(s.drop_last(), key, value, other);
        assert(r.drop_last() =~= bind(s.drop_last(), key, value));
    } else if s.len() > 0 && s.last().0 == key {
        assert(r.drop_last() =~= s.drop_last());
    } else {
        assert(r.drop_last() =~= s);
    }
}

proof fn lemma_bind_at(s: Seq<(Seq<char>, Seq<char>)>, key: Seq<char>, value: Seq<char>, p: int)
    requires
        0 <= p <= s.len(),
        forall|k: int| p <= k < s.len() ==> lex_less(key, (#[trigger] s[k]).0),
        p > 0 ==> !lex_less(key, s[p - 1].0),
    ensures
        bind(s, key, value) == if p > 0 && s[p - 1].0 == key {
            s.update(p - 1, (key, value))
        } else {
            s.insert(p, (key, value))
        },
    decreases s.len() - p,
{
    if p == s.len() {
        if p > 0 && s[p - 1].0 == key {
            assert(s.update(p - 1, (key, value)) =~= s.drop_last().push((key, value)));
        } else {
            assert(s.insert(p, (key, value)) =~= s.push((key, value)));
        }
    } else {
        lemma_bind_at(s.drop_last(), key, value, p);
        assert(s.insert(p, (key, value)) =~= s.drop_last().insert(p, (key, value)).push(s.last()));
        if p > 0 {
            assert(s.update(p - 1, (key, value)) =~= s.drop_last().update(p - 1, (key, value)).push(
                s.last(),
            ));
        }
    }
}

/// A map from names to values that keeps its names in ascending order.
#[derive(Debug, PartialEq)]
pub struct EnvMap {
    entries: Vec<(String, String)>,
}

impl View for EnvMap {
    type V = Seq<(Seq<char>, Seq<char>)>;

    closed spec fn view(&self) -> Seq<(Seq<char>, Seq<char>)> {
        pairs(self.entries@)
    }
}

impl EnvMap {
    #[verifier::type_invariant]
    spec fn ascends(self) -> bool {
        keys_ascend(pairs(self.entries@))
    }

    pub fn new() -> (r: Self)
        ensures
            r@ == Seq::<(Seq<char>, Seq<char>)>::empty(),
    {
        let r = EnvMap { entries: Vec::new() };
        assert(pairs(r.entries@) =~= Seq::<(Seq<char>, Seq<char>)>::empty());
        r
    }

    /// How many names are bound; they come in ascending order.
    pub fn len(&self) -> (r: usize)
        ensures
            r == self@.len(),
            keys_ascend(self@),
    {
        proof {
            use_type_invariant(self);
        }
        self.entries.len()
    }

    pub fn is_empty(&self) -> (r: bool)
        ensures
            r == (self@.len() == 0),
            keys_ascend(self@),
    {
        proof {
            use_type_invariant(self);
        }
        self.entries.len() == 0
    }

    pub fn key_at(&self, i: usize) -> (r: &String)
        requires
            i < self@.len(),
        ensures
            r@ == self@[i as int].0,
    {
        &self.entries[i].0
    }

    pub fn value_at(&self, i: usize) -> (r: &String)
        requires
            i < self@.len(),
        ensures
            r@ == self@[i as int].1,
    {
        &self.entries[i].1
    }

    pub fn get(&self, key: &str) -> (r: Option<&String>)
        ensures
            match r {
                Some(value) => bound(self@, key@) == Some(value@),
                None => bound(self@, key@) is None,
            },
    {
        let mut i: usize = self.entries.len();
        assert(self@.take(i as int) =~= self@);
        while i > 0
            invariant
                i <= self.entries.len(),
                bound(self@, key@) == bound(self@.take(i as int), key@),
            decreases i,
        {
            assert(self@.take(i as int).drop_last() =~= self@.take(i - 1));
            if same(self.entries[i - 1].0.as_str(), key) {
                return Some(&self.entries[i - 1].1);
            }
            i = i - 1;
        }
        None
    }

    pub fn insert(&mut self, key: String, value: String)
        ensures
            final(self)@ == bind(old(self)@, key@, value@),
    {
        proof {
            use_type_invariant(&*self);
        }
        let ghost before = self@;
        let mut entries: Vec<(String, String)> = Vec::new();
        std::mem::swap(&mut entries, &mut self.entries);
        let mut p: usize = entries.len();
        while p > 0 && text_less(key.as_str(), entries[p - 1].0.as_str())
            invariant
                p <= entries.len(),
                pairs(entries@) == before,
                forall|k: int| p <= k < before.len() ==> lex_less(key@, (#[trigger] before[k]).0),
            decreases p,
        {
            p = p - 1;
        }
        let ghost pair = (key@, value@);
        proof {
            lemma_bind_at(before, key@, value@, p as int);
            lemma_bind_ascends(before, key@, value@);
        }
        if p > 0 && same(entries[p - 1].0.as_str(), key.as_str()) {
            entries.set(p - 1, (key, value));
            assert(pairs(entries@) =~= before.update(p - 1, pair));
        } else {
            entries.insert(p, (key, value));
            assert(pairs(entries@) =~= before.insert(p as int, pair));
        }
        self.entries = entries;
    }

    /// The names in ascending order.
    pub fn keys(&self) -> (r: Vec<String>)
        ensures
            r@.len() == self@.len(),
            forall|i: int| 0 <= i < r@.len() ==> (#[trigger] r@[i])@ == self@[i].0,
    {
        let mut r: Vec<String> = Vec::new();
        let mut i: usize = 0;
        while i < self.entries.len()
            invariant
                i <= self.entries.len(),
                r@.len() == i,
                forall|k: int| 0 <= k < i ==> (#[trigger] r@[k])@ == self@[k].0,
            decreases self.entries.len() - i,
        {
            r.push(self.entries[i].0.clone());
            i = i + 1;
        }
        r
    }
}

impl Clone for EnvMap {
    fn clone(&self) -> (r: Self)
        ensures
            r@ == self@,
    {
        proof {
            use_type_invariant(self);
        }
        let mut entries: Vec<(String, String)> = Vec::new();
        let mut i: usize = 0;
        while i < self.entries.len()
            invariant
                i <= self.entries.len(),
                pairs(entries@) == pairs(self.entries@).take(i as int),
            decreases self.entries.len() - i,
        {
            let ghost before = pairs(entries@);
            entries.push((self.entries[i].0.clone(), self.entries[i].1.clone()));
            assert(pairs(entries@) =~= before.push(pairs(self.entries@)[i as int]));
            i = i + 1;
            assert(pairs(entries@) =~= pairs(self.entries@).take(i as int));
        }
        assert(pairs(self.entries@).take(i as int) =~= pairs(self.entries@));
        EnvMap { entries }
    }
}

} // verus!
