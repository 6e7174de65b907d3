//! The compact text of a JSON value determines the value, and is one line.

use vstd::prelude::*;
use crate::json::{
    compact, compact_items, compact_members, escaped, escaped_all, plain, quoted, JsonTree,
};
use crate::text::hex_digit;

verus! {

// Two texts that are equal, with the front of each cut off.
proof fn lemma_cut_front(a: Seq<char>, x: Seq<char>, y: Seq<char>)
    requires
        a + x == a + y,
    ensures
        x == y,
{
    assert((a + x).skip(a.len() as int) =~= x);
    assert((a + y).skip(a.len() as int) =~= y);
}

proof fn lemma_hex_digit_injective(a: int, b: int)
    requires
        0 <= a < 16,
        0 <= b < 16,
        hex_digit(a) == hex_digit(b),
    ensures
        a == b,
{
    assert(hex_digit(a) as int == if a < 10 {
        48 + a
    } else {
        87 + a
    });
    assert(hex_digit(b) as int == if b < 10 {
        48 + b
    } else {
        87 + b
    });
}

proof fn lemma_escape_prefix(c: char, d: char, x: Seq<char>, y: Seq<char>)
    requires
        escaped(c) + x == escaped(d) + y,
    ensures
        c == d,
        x == y,
{
    let a = escaped(c);
    let b = escaped(d);
    let s = a + x;
    let t = b + y;
    assert(s[0] == a[0] && t[0] == b[0]);
    if a.len() >= 2 && b.len() >= 2 {
        assert(s[1] == a[1] && t[1] == b[1]);
        if a.len() == 6 && b.len() == 6 {
            assert(s[4] == a[4] && t[4] == b[4]);
            assert(s[5] == a[5] && t[5] == b[5]);
            assert(0 <= c as int / 16 < 2 && 0 <= c as int % 16 < 16);
            assert(0 <= d as int / 16 < 2 && 0 <= d as int % 16 < 16);
            lemma_hex_digit_injective(c as int / 16, d as int / 16);
            lemma_hex_digit_injective(c as int % 16, d as int % 16);
            assert(c as int == d as int);
        }
    }
    assert(c == d);
    lemma_cut_front(a, x, y);
}

proof fn lemma_escaped_prefix(s: Seq<char>, t: Seq<char>, x: Seq<char>, y: Seq<char>)
    requires
        escaped_all(s) + (seq!['"'] + x) == escaped_all(t) + (seq!['"'] + y),
    ensures
        s == t,
        x == y,
    decreases s.len(),
{
    let p = seq!['"'] + x;
    let r = seq!['"'] + y;
    if s.len() == 0 && t.len() == 0 {
        assert(escaped_all(s) + p =~= p);
        assert(escaped_all(t) + r =~= r);
        lemma_cut_front(seq!['"'], x, y);
        assert(s =~= t);
    } else if s.len() == 0 {
        let e = escaped(t[0]);
        assert((escaped_all(s) + p)[0] == '"');
        assert((escaped_all(t) + r)[0] == e[0]);
    } else if t.len() == 0 {
        let e = escaped(s[0]);
        assert((escaped_all(t) + r)[0] == '"');
        assert((escaped_all(s) + p)[0] == e[0]);
    } else {
        let u = escaped_all(s.drop_first()) + p;
        let w = escaped_all(t.drop_first()) + r;
        assert(escaped_all(s) + p =~= escaped(s[0]) + u);
        assert(escaped_all(t) + r =~= escaped(t[0]) + w);
        lemma_escape_prefix(s[0], t[0], u, w);
        lemma_escaped_prefix(s.drop_first(), t.drop_first(), x, y);
        assert(s =~= seq![s[0]] + s.drop_first());
        assert(t =~= seq![t[0]] + t.drop_first());
    }
}

/// No JSON string is the start of another one.
pub proof fn lemma_quoted_prefix(s: Seq<char>, t: Seq<char>, x: Seq<char>, y: Seq<char>)
    requires
        quoted(s) + x == quoted(t) + y,
    ensures
        s == t,
        x == y,
{
    let u = escaped_all(s) + (seq!['"'] + x);
    let w = escaped_all(t) + (seq!['"'] + y);
    assert(quoted(s) + x =~= seq!['"'] + u);
    assert(quoted(t) + y =~= seq!['"'] + w);
    lemma_cut_front(seq!['"'], u, w);
    lemma_escaped_prefix(s, t, x, y);
}

spec fn first_char(v: JsonTree) -> char {
    match v {
        JsonTree::Null => 'n',
        JsonTree::Bool(true) => 't',
        JsonTree::Bool(false) => 'f',
        JsonTree::Number(_, _, _) => '0',
        JsonTree::Text(_) => '"',
        JsonTree::List(_) => '[',
        JsonTree::Object(_) => '{',
    }
}

proof fn lemma_first_char(v: JsonTree, x: Seq<char>)
    requires
        !(v is Number),
    ensures
        (compact(v) + x).len() > 0,
        (compact(v) + x)[0] == first_char(v),
{
}

/// The text of no value without numbers is the start of another one's.
proof fn lemma_compact_prefix(
    v: JsonTree,
    w: JsonTree,
    n: nat,
    x: Seq<char>,
    y: Seq<char>,
)
    requires
        plain(v, n),
        plain(w, n),
        compact(v) + x == compact(w) + y,
    ensures
        v == w,
        x == y,
    decreases v, 1int,
{
    lemma_first_char(v, x);
    lemma_first_char(w, y);
    match (v, w) {
        (JsonTree::Text(s), JsonTree::Text(t)) => {
            lemma_quoted_prefix(s, t, x, y);
        },
        (JsonTree::List(a), JsonTree::List(b)) => {
            lemma_list_prefix(a, b, (n - 1) as nat, x, y);
        },
        (JsonTree::Object(a), JsonTree::Object(b)) => {
            lemma_object_prefix(a, b, (n - 1) as nat, x, y);
        },
        _ => {
            lemma_cut_front(compact(v), x, y);
        },
    }
}

proof fn lemma_list_prefix(a: Seq<JsonTree>, b: Seq<JsonTree>, n: nat, x: Seq<char>, y: Seq<char>)
    requires
        forall|i: int| 0 <= i < a.len() ==> plain(#[trigger] a[i], n),
        forall|i: int| 0 <= i < b.len() ==> plain(#[trigger] b[i], n),
        compact(JsonTree::List(a)) + x == compact(JsonTree::List(b)) + y,
    ensures
        a == b,
        x == y,
    decreases a, 3int,
{
    let s = compact(JsonTree::List(a)) + x;
    let t = compact(JsonTree::List(b)) + y;
    if a.len() == 0 || b.len() == 0 {
        if a.len() > 0 {
            lemma_first_char(a[0], compact_items(a.drop_first()) + seq![']'] + x);
            assert(s[1] == first_char(a[0]));
            assert(t[1] == ']');
        } else if b.len() > 0 {
            lemma_first_char(b[0], compact_items(b.drop_first()) + seq![']'] + y);
            assert(t[1] == first_char(b[0]));
            assert(s[1] == ']');
        }
        assert(a =~= b);
        lemma_cut_front(compact(JsonTree::List(a)), x, y);
    } else {
        let u = compact_items(a.drop_first()) + (seq![']'] + x);
        let z = compact_items(b.drop_first()) + (seq![']'] + y);
        assert(s =~= seq!['['] + (compact(a[0]) + u));
        assert(t =~= seq!['['] + (compact(b[0]) + z));
        lemma_cut_front(seq!['['], compact(a[0]) + u, compact(b[0]) + z);
        lemma_compact_prefix(a[0], b[0], n, u, z);
        lemma_items_plain(a, n);
        lemma_items_plain(b, n);
        lemma_items_prefix(a.drop_first(), b.drop_first(), n, x, y);
        assert(a =~= seq![a[0]] + a.drop_first());
        assert(b =~= seq![b[0]] + b.drop_first());
    }
}

proof fn lemma_object_prefix(
    a: Seq<(Seq<char>, JsonTree)>,
    b: Seq<(Seq<char>, JsonTree)>,
    n: nat,
    x: Seq<char>,
    y: Seq<char>,
)
    requires
        forall|i: int| 0 <= i < a.len() ==> plain((#[trigger] a[i]).1, n),
        forall|i: int| 0 <= i < b.len() ==> plain((#[trigger] b[i]).1, n),
        compact(JsonTree::Object(a)) + x == compact(JsonTree::Object(b)) + y,
    ensures
        a == b,
        x == y,
    decreases a, 3int,
{
    let s = compact(JsonTree::Object(a)) + x;
    let t = compact(JsonTree::Object(b)) + y;
    if a.len() == 0 || b.len() == 0 {
        if a.len() > 0 {
            assert(s[1] == '"');
            assert(t[1] == '}');
        } else if b.len() > 0 {
            assert(t[1] == '"');
            assert(s[1] == '}');
        }
        assert(a =~= b);
        lemma_cut_front(compact(JsonTree::Object(a)), x, y);
    } else {
        let u = compact_members(a.drop_first()) + (seq!['}'] + x);
        let z = compact_members(b.drop_first()) + (seq!['}'] + y);
        let k = seq![':'] + (compact(a[0].1) + u);
        let l = seq![':'] + (compact(b[0].1) + z);
        assert(s =~= seq!['{'] + (quoted(a[0].0) + k));
        assert(t =~= seq!['{'] + (quoted(b[0].0) + l));
        lemma_cut_front(seq!['{'], quoted(a[0].0) + k, quoted(b[0].0) + l);
        lemma_quoted_prefix(a[0].0, b[0].0, k, l);
        lemma_cut_front(seq![':'], compact(a[0].1) + u, compact(b[0].1) + z);
        lemma_compact_prefix(a[0].1, b[0].1, n, u, z);
        lemma_members_plain(a, n);
        lemma_members_plain(b, n);
        lemma_members_prefix(a.drop_first(), b.drop_first(), n, x, y);
        assert(a =~= seq![a[0]] + a.drop_first());
        assert(b =~= seq![b[0]] + b.drop_first());
    }
}

proof fn lemma_items_plain(a: Seq<JsonTree>, n: nat)
    requires
        a.len() > 0,
        forall|i: int| 0 <= i < a.len() ==> plain(#[trigger] a[i], n),
    ensures
        forall|i: int| 0 <= i < a.drop_first().len() ==> plain(#[trigger] a.drop_first()[i], n),
{
    assert forall|i: int| 0 <= i < a.drop_first().len() implies plain(
        #[trigger] a.drop_first()[i],
        n,
    ) by {
        assert(plain(a[i + 1], n));
    }
}

proof fn lemma_members_plain(a: Seq<(Seq<char>, JsonTree)>, n: nat)
    requires
        a.len() > 0,
        forall|i: int| 0 <= i < a.len() ==> plain((#[trigger] a[i]).1, n),
    ensures
        forall|i: int| 0 <= i < a.drop_first().len() ==> plain((#[trigger] a.drop_first()[i]).1, n),
{
    assert forall|i: int| 0 <= i < a.drop_first().len() implies plain(
        (#[trigger] a.drop_first()[i]).1,
        n,
    ) by {
        assert(plain(a[i + 1].1, n));
    }
}

proof fn lemma_items_prefix(a: Seq<JsonTree>, b: Seq<JsonTree>, n: nat, x: Seq<char>, y: Seq<char>)
    requires
        forall|i: int| 0 <= i < a.len() ==> plain(#[trigger] a[i], n),
        forall|i: int| 0 <= i < b.len() ==> plain(#[trigger] b[i], n),
        compact_items(a) + (seq![']'] + x) == compact_items(b) + (seq![']'] + y),
    ensures
        a == b,
        x == y,
    decreases a, 2int,
{
    let s = compact_items(a) + (seq![']'] + x);
    let t = compact_items(b) + (seq![']'] + y);
    if a.len() == 0 || b.len() == 0 {
        assert(s[0] == if a.len() == 0 {
            ']'
        } else {
            ','
        });
        assert(t[0] == if b.len() == 0 {
            ']'
        } else {
            ','
        });
        assert(a =~= b);
        assert(s =~= seq![']'] + x);
        assert(t =~= seq![']'] + y);
        lemma_cut_front(seq![']'], x, y);
    } else {
        let u = compact_items(a.drop_first()) + (seq![']'] + x);
        let z = compact_items(b.drop_first()) + (seq![']'] + y);
        assert(s =~= seq![','] + (compact(a[0]) + u));
        assert(t =~= seq![','] + (compact(b[0]) + z));
        lemma_cut_front(seq![','], compact(a[0]) + u, compact(b[0]) + z);
        lemma_compact_prefix(a[0], b[0], n, u, z);
        lemma_items_plain(a, n);
        lemma_items_plain(b, n);
        lemma_items_prefix(a.drop_first(), b.drop_first(), n, x, y);
        assert(a =~= seq![a[0]] + a.drop_first());
        assert(b =~= seq![b[0]] + b.drop_first());
    }
}

proof fn lemma_members_prefix(
    a: Seq<(Seq<char>, JsonTree)>,
    b: Seq<(Seq<char>, JsonTree)>,
    n: nat,
    x: Seq<char>,
    y: Seq<char>,
)
    requires
        forall|i: int| 0 <= i < a.len() ==> plain((#[trigger] a[i]).1, n),
        forall|i: int| 0 <= i < b.len() ==> plain((#[trigger] b[i]).1, n),
        compact_members(a) + (seq!['}'] + x) == compact_members(b) + (seq!['}'] + y),
    ensures
        a == b,
        x == y,
    decreases a, 2int,
{
    let s = compact_members(a) + (seq!['}'] + x);
    let t = compact_members(b) + (seq!['}'] + y);
    if a.len() == 0 || b.len() == 0 {
        assert(s[0] == if a.len() == 0 {
            '}'
        } else {
            ','
        });
        assert(t[0] == if b.len() == 0 {
            '}'
        } else {
            ','
        });
        assert(a =~= b);
        assert(s =~= seq!['}'] + x);
        assert(t =~= seq!['}'] + y);
        lemma_cut_front(seq!['}'], x, y);
    } else {
        let u = compact_members(a.drop_first()) + (seq!['}'] + x);
        let z = compact_members(b.drop_first()) + (seq!['}'] + y);
        let k = seq![':'] + (compact(a[0].1) + u);
        let l = seq![':'] + (compact(b[0].1) + z);
        assert(s =~= seq![','] + (quoted(a[0].0) + k));
        assert(t =~= seq![','] + (quoted(b[0].0) + l));
        lemma_cut_front(seq![','], quoted(a[0].0) + k, quoted(b[0].0) + l);
        lemma_quoted_prefix(a[0].0, b[0].0, k, l);
        lemma_cut_front(seq![':'], compact(a[0].1) + u, compact(b[0].1) + z);
        lemma_compact_prefix(a[0].1, b[0].1, n, u, z);
        lemma_members_plain(a, n);
        lemma_members_plain(b, n);
        lemma_members_prefix(a.drop_first(), b.drop_first(), n, x, y);
        assert(a =~= seq![a[0]] + a.drop_first());
        assert(b =~= seq![b[0]] + b.drop_first());
    }
}

/// Two values without numbers have the same compact text only if they are the same.
pub proof fn law_compact_injective(v: JsonTree, w: JsonTree, n: nat)
    requires
        plain(v, n),
        plain(w, n),
        compact(v) == compact(w),
    ensures
        v == w,
{
    assert(compact(v) + Seq::<char>::empty() =~= compact(v));
    assert(compact(w) + Seq::<char>::empty() =~= compact(w));
    lemma_compact_prefix(v, w, n, Seq::empty(), Seq::empty());
}

pub open spec fn one_line(s: Seq<char>) -> bool {
    forall|i: int| 0 <= i < s.len() ==> #[trigger] s[i] != '\n'
}

/// No number of the value has a line feed in its text.
pub open spec fn one_line_numbers(v: JsonTree) -> bool
    decreases v,
{
    match v {
        JsonTree::Number(_, _, text) => one_line(text),
        JsonTree::List(items) => forall|i: int|
            0 <= i < items.len() ==> one_line_numbers(#[trigger] items[i]),
        JsonTree::Object(members) => forall|i: int|
            0 <= i < members.len() ==> one_line_numbers((#[trigger] members[i]).1),
        _ => true,
    }
}

proof fn lemma_escape_one_line(c: char)
    ensures
        one_line(escaped(c)),
{
    if !(c >= ' ') {
        assert(0 <= c as int / 16 < 2 && 0 <= c as int % 16 < 16);
        assert(hex_digit(c as int / 16) != '\n');
        assert(hex_digit(c as int % 16) != '\n');
    }
}

proof fn lemma_escaped_one_line(s: Seq<char>)
    ensures
        one_line(escaped_all(s)),
    decreases s.len(),
{
    if s.len() > 0 {
        lemma_escaped_one_line(s.drop_first());
        lemma_escape_one_line(s[0]);
    }
}

/// A compact text is one line: no string or punctuation brings a line feed into it.
pub proof fn law_compact_is_one_line(v: JsonTree)
    requires
        one_line_numbers(v),
    ensures
        one_line(compact(v)),
    decreases v, 1nat, 0int,
{
    match v {
        JsonTree::Text(s) => {
            lemma_escaped_one_line(s);
        },
        JsonTree::List(items) => {
            if items.len() > 0 {
                assert(one_line_numbers(items[0]));
                law_compact_is_one_line(items[0]);
                lemma_items_one_line(v, 1);
                assert(items.skip(1) =~= items.drop_first());
            }
        },
        JsonTree::Object(members) => {
            if members.len() > 0 {
                assert(one_line_numbers(members[0].1));
                law_compact_is_one_line(members[0].1);
                lemma_escaped_one_line(members[0].0);
                lemma_members_one_line(v, 1);
                assert(members.skip(1) =~= members.drop_first());
            }
        },
        _ => {},
    }
}

proof fn lemma_items_one_line(v: JsonTree, k: int)
    requires
        v is List,
        one_line_numbers(v),
        0 < k <= v->List_0.len(),
    ensures
        one_line(compact_items(v->List_0.skip(k))),
    decreases v, 0nat, v->List_0.len() - k,
{
    let items = v->List_0;
    let t = items.skip(k);
    if k < items.len() {
        assert(one_line_numbers(items[k]));
        law_compact_is_one_line(items[k]);
        lemma_items_one_line(v, k + 1);
        assert(t.drop_first() =~= items.skip(k + 1));
    }
}

proof fn lemma_members_one_line(v: JsonTree, k: int)
    requires
        v is Object,
        one_line_numbers(v),
        0 < k <= v->Object_0.len(),
    ensures
        one_line(compact_members(v->Object_0.skip(k))),
    decreases v, 0nat, v->Object_0.len() - k,
{
    let members = v->Object_0;
    let t = members.skip(k);
    if k < members.len() {
        assert(one_line_numbers(members[k].1));
        law_compact_is_one_line(members[k].1);
        lemma_escaped_one_line(members[k].0);
        lemma_members_one_line(v, k + 1);
        assert(t.drop_first() =~= members.skip(k + 1));
    }
}

} // verus!
