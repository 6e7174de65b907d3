//! How JSON is written: what its strings stand for, and what stands between its values.

use vstd::prelude::*;
use crate::json::{compact, compact_items, compact_members, escaped, escaped_all, quoted, JsonTree};
use crate::text::join;
use crate::text_laws::{hex_value, lemma_hex_digit, lemma_join_first};

verus! {

/// What the characters after the opening quote of a JSON string stand for up to its closing quote,
/// and what follows that.
pub open spec fn string_in(s: Seq<char>) -> Option<(Seq<char>, Seq<char>)>
    decreases s.len(),
{
    if s.len() == 0 {
        None
    } else if s[0] == '"' {
        Some((Seq::empty(), s.skip(1)))
    } else if s[0] != '\\' {
        if !(s[0] >= ' ') {
            None
        } else {
            followed(s[0], string_in(s.skip(1)))
        }
    } else if s.len() < 2 {
        None
    } else if s[1] == '"' || s[1] == '\\' || s[1] == '/' {
        followed(s[1], string_in(s.skip(2)))
    } else if s[1] == 'b' {
        followed(8u8 as char, string_in(s.skip(2)))
    } else if s[1] == 'f' {
        followed(12u8 as char, string_in(s.skip(2)))
    } else if s[1] == 'n' {
        followed(10u8 as char, string_in(s.skip(2)))
    } else if s[1] == 'r' {
        followed(13u8 as char, string_in(s.skip(2)))
    } else if s[1] == 't' {
        followed(9u8 as char, string_in(s.skip(2)))
    } else if s[1] == 'u' && s.len() >= 6 {
        followed(
            (4096 * hex_value(s[2]) + 256 * hex_value(s[3]) + 16 * hex_value(s[4]) + hex_value(
                s[5],
            )) as char,
            string_in(s.skip(6)),
        )
    } else {
        None
    }
}

/// The character before what was read.
pub open spec fn followed(c: char, rest: Option<(Seq<char>, Seq<char>)>) -> Option<
    (Seq<char>, Seq<char>),
> {
    match rest {
        Some((text, after)) => Some((seq![c] + text, after)),
        None => None,
    }
}

proof fn lemma_escaped(c: char, rest: Seq<char>)
    ensures
        string_in(escaped(c) + rest) == followed(c, string_in(rest)),
{
    let s = escaped(c) + rest;
    let e = escaped(c);
    assert(s.skip(e.len() as int) =~= rest);
    assert(s[0] == e[0]);
    if e.len() >= 2 {
        assert(s[1] == e[1]);
    }
    if c != '"' && c != '\\' && !(c >= ' ') {
        if c != '\u{8}' && c != '\u{c}' && c != '\n' && c != '\r' && c != '\t' {
            lemma_hex_digit(c as int / 16);
            lemma_hex_digit(c as int % 16);
            assert(s[2] == '0' && s[3] == '0' && s[4] == e[4] && s[5] == e[5]);
            assert((4096 * hex_value(s[2]) + 256 * hex_value(s[3]) + 16 * hex_value(s[4])
                + hex_value(s[5])) == c as int);
        }
    }
}

/// A quoted text is a JSON string that stands for the text, whatever characters it has and whatever
/// follows it.
pub proof fn law_quoted_text_reads_back(s: Seq<char>, after: Seq<char>)
    ensures
        quoted(s).len() > 0,
        quoted(s)[0] == '"',
        string_in((quoted(s) + after).skip(1)) == Some((s, after)),
{
    lemma_escaped_all(s, seq!['"'] + after);
    let q = quoted(s) + after;
    assert(q.skip(1) =~= escaped_all(s) + (seq!['"'] + after));
    assert((seq!['"'] + after).skip(1) =~= after);
    assert(string_in(seq!['"'] + after) == Some((Seq::<char>::empty(), after)));
    assert(s + Seq::<char>::empty() =~= s);
}

proof fn lemma_escaped_all(s: Seq<char>, rest: Seq<char>)
    ensures
        string_in(escaped_all(s) + rest) == match string_in(rest) {
            Some((text, after)) => Some((s + text, after)),
            None => None,
        },
    decreases s.len(),
{
    if s.len() == 0 {
        assert(escaped_all(s) + rest =~= rest);
        if let Some((text, _)) = string_in(rest) {
            assert(s + text =~= text);
        }
    } else {
        let t = s.drop_first();
        lemma_escaped_all(t, rest);
        lemma_escaped(s[0], escaped_all(t) + rest);
        assert(escaped_all(s) + rest =~= escaped(s[0]) + (escaped_all(t) + rest));
        if let Some((text, _)) = string_in(rest) {
            assert(seq![s[0]] + (t + text) =~= s + text);
        }
    }
}

/// The members of an object as they are written.
pub open spec fn written_members(members: Seq<(Seq<char>, JsonTree)>) -> Seq<Seq<char>> {
    Seq::new(members.len(), |i: int| quoted(members[i].0) + seq![':'] + compact(members[i].1))
}

/// The items of a list as they are written.
pub open spec fn written_items(items: Seq<JsonTree>) -> Seq<Seq<char>> {
    Seq::new(items.len(), |i: int| compact(items[i]))
}

proof fn lemma_items(items: Seq<JsonTree>)
    requires
        items.len() > 0,
    ensures
        compact_items(items) == seq![','] + join(written_items(items), seq![',']),
    decreases items.len(),
{
    let rest = items.drop_first();
    let all = written_items(items);
    let others = written_items(rest);
    assert(all =~= seq![compact(items[0])] + others);
    if rest.len() > 0 {
        lemma_items(rest);
        lemma_join_first(compact(items[0]), others, seq![',']);
    } else {
        assert(all =~= seq![compact(items[0])]);
        assert(join(all, seq![',']) =~= compact(items[0]));
        assert(compact_items(rest) =~= Seq::<char>::empty());
    }
    assert(compact_items(items) =~= seq![','] + join(all, seq![',']));
}

proof fn lemma_members(members: Seq<(Seq<char>, JsonTree)>)
    requires
        members.len() > 0,
    ensures
        compact_members(members) == seq![','] + join(written_members(members), seq![',']),
    decreases members.len(),
{
    let rest = members.drop_first();
    let all = written_members(members);
    let others = written_members(rest);
    let first = quoted(members[0].0) + seq![':'] + compact(members[0].1);
    assert(all =~= seq![first] + others);
    if rest.len() > 0 {
        lemma_members(rest);
        lemma_join_first(first, others, seq![',']);
    } else {
        assert(all =~= seq![first]);
        assert(join(all, seq![',']) =~= first);
        assert(compact_members(rest) =~= Seq::<char>::empty());
    }
    assert(compact_members(members) =~= seq![','] + join(all, seq![',']));
}

/// A list is its items in brackets, an object its members in braces, each with commas between and no
/// white space; a text is quoted, a number stands by its digits, and the rest by its word.
pub proof fn law_compact_json(v: JsonTree)
    ensures
        match v {
            JsonTree::Null => compact(v) == "null"@,
            JsonTree::Bool(b) => compact(v) == if b {
                "true"@
            } else {
                "false"@
            },
            JsonTree::Number(_, _, digits) => compact(v) == digits,
            JsonTree::Text(s) => compact(v) == quoted(s),
            JsonTree::List(items) => compact(v) == seq!['['] + join(written_items(items), seq![','])
                + seq![']'],
            JsonTree::Object(members) => compact(v) == seq!['{'] + join(
                written_members(members),
                seq![','],
            ) + seq!['}'],
        },
{
    reveal_strlit("null");
    reveal_strlit("true");
    reveal_strlit("false");
    match v {
        JsonTree::Null => {
            assert(compact(v) =~= "null"@);
        },
        JsonTree::Bool(b) => {
            assert(seq!['t', 'r', 'u', 'e'] =~= "true"@);
            assert(seq!['f', 'a', 'l', 's', 'e'] =~= "false"@);
        },
        JsonTree::List(items) => {
            let body = join(written_items(items), seq![',']);
            if items.len() > 0 {
                lemma_items(items);
                assert(compact_items(items) =~= seq![','] + (compact(items[0]) + compact_items(
                    items.drop_first(),
                )));
                assert(compact_items(items).skip(1) =~= body);
                assert(compact_items(items).skip(1) =~= compact(items[0]) + compact_items(
                    items.drop_first(),
                ));
            } else {
                assert(body =~= Seq::<char>::empty());
            }
            assert(compact(v) =~= seq!['['] + body + seq![']']);
        },
        JsonTree::Object(members) => {
            let body = join(written_members(members), seq![',']);
            if members.len() > 0 {
                lemma_members(members);
                let first = quoted(members[0].0) + seq![':'] + compact(members[0].1);
                assert(compact_members(members).skip(1) =~= body);
                assert(compact_members(members).skip(1) =~= first + compact_members(
                    members.drop_first(),
                ));
            } else {
                assert(body =~= Seq::<char>::empty());
            }
            assert(compact(v) =~= seq!['{'] + body + seq!['}']);
        },
        _ => {},
    }
}

} // verus!
