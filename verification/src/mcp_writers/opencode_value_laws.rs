//! What a value of the `mcp` section says, and how JSON values are put in order.

use vstd::prelude::*;
use vstd::utf8::encode_utf8;
use crate::bytes::text_between;
use crate::env_map::bound;
use crate::json::{compact, json_document, lookup, member, text_member, JsonTree};
use crate::json_order::{arranged, arranged_members, put_member};
use crate::mcp_inventory::transport_of;
use crate::mcp_probe::answer_laws::lemma_bind_all_bound;
use crate::mcp_writers::{EntryDef, WriteError};
use crate::mcp_writers::json_span::{member_of, object_at, Member};
use crate::mcp_writers::opencode_json::{
    definition, env_pairs, located, opencode_entry_in, opencode_removed, opencode_upserted,
    rendered, text_items, text_trees,
};
use crate::text::{ascii_lowered, trimmed};

verus! {

/// A stdio definition is written as a local entry with its program, its arguments and every
/// variable, any other as a remote entry with its address.
pub proof fn law_definition_is_rendered(e: EntryDef)
    ensures
        e.transport == "stdio"@ ==> {
            &&& text_member(rendered(e), "type"@) == Some("local"@)
            &&& member(rendered(e), "url"@) is None
            &&& e.command matches Some(program) ==> (member(rendered(e), "command"@) matches Some(
                JsonTree::List(items),
            ) && items.len() == e.args.len() + 1 && items[0] == JsonTree::Text(program) && forall|i: int|
                1 <= i < items.len() ==> #[trigger] items[i] == JsonTree::Text(e.args[i - 1]))
            &&& e.command is None ==> (member(rendered(e), "command"@) matches Some(
                JsonTree::List(items),
            ) && items.len() == e.args.len() && forall|i: int|
                0 <= i < items.len() ==> #[trigger] items[i] == JsonTree::Text(e.args[i]))
            &&& e.env.len() == 0 ==> member(rendered(e), "environment"@) is None
            &&& e.env.len() > 0 ==> (member(rendered(e), "environment"@) matches Some(
                JsonTree::Object(ms),
            ) && ms.len() == e.env.len() && forall|i: int|
                0 <= i < ms.len() ==> #[trigger] ms[i] == (e.env[i].0, JsonTree::Text(e.env[i].1)))
        },
        e.transport != "stdio"@ ==> {
            &&& text_member(rendered(e), "type"@) == Some("remote"@)
            &&& member(rendered(e), "command"@) is None
            &&& e.url is Some ==> text_member(rendered(e), "url"@) == e.url
            &&& e.url is None ==> text_member(rendered(e), "url"@) == Some(Seq::<char>::empty())
        },
{
    reveal_strlit("type");
    reveal_strlit("command");
    reveal_strlit("environment");
    reveal_strlit("url");
    assert("type"@.len() == 4 && "command"@.len() == 7 && "environment"@.len() == 11 && "url"@.len()
        == 3);
    reveal_with_fuel(lookup, 4);
}

proof fn lemma_all_texts(parts: Seq<Seq<char>>)
    ensures
        text_items(text_trees(parts)) == parts,
    decreases parts.len(),
{
    let items = text_trees(parts);
    if parts.len() > 0 {
        lemma_all_texts(parts.drop_last());
        assert(items.drop_last() =~= text_trees(parts.drop_last()));
        assert(parts.drop_last().push(parts.last()) =~= parts);
    } else {
        assert(text_items(items) =~= parts);
    }
}

/// A value's definition has the name it stands under, its address, its program with the arguments
/// behind it, or the one text that its command is.
pub proof fn law_value_is_defined(
    name: Seq<char>,
    v: JsonTree,
    program: Seq<char>,
    args: Seq<Seq<char>>,
)
    ensures
        definition(name, v).name == name,
        definition(name, v).url == text_member(v, "url"@),
        member(v, "command"@) == Some(JsonTree::List(text_trees(seq![program] + args))) ==> definition(
            name,
            v,
        ).command == Some(program) && definition(name, v).args == args,
        member(v, "command"@) == Some(JsonTree::Text(program)) ==> definition(name, v).command == Some(
            program,
        ) && definition(name, v).args.len() == 0,
        member(v, "command"@) is None ==> definition(name, v).command is None && definition(
            name,
            v,
        ).args.len() == 0,
        definition(name, v).transport == transport_of(
            text_member(v, "type"@),
            text_member(v, "url"@) is Some,
            definition(name, v).command is Some,
        ),
        !(member(v, "environment"@) matches Some(JsonTree::Object(_))) ==> definition(
            name,
            v,
        ).env.len() == 0,
{
    let parts = seq![program] + args;
    lemma_all_texts(parts);
    assert(parts.drop_first() =~= args);
}

/// Every variable of a value is in its definition, by its text or, where it is none, by its JSON;
/// the last one where a key stands twice.
pub proof fn law_value_variables(
    name: Seq<char>,
    v: JsonTree,
    ms: Seq<(Seq<char>, JsonTree)>,
    i: int,
)
    requires
        member(v, "environment"@) == Some(JsonTree::Object(ms)),
        0 <= i < ms.len(),
        forall|k: int| i < k < ms.len() ==> (#[trigger] ms[k]).0 != ms[i].0,
    ensures
        ms[i].1 matches JsonTree::Text(s) ==> bound(definition(name, v).env, ms[i].0) == Some(s),
        !(ms[i].1 is Text) ==> bound(definition(name, v).env, ms[i].0) == Some(compact(ms[i].1)),
{
    let pairs = env_pairs(ms);
    assert forall|k: int| i < k < pairs.len() implies (#[trigger] pairs[k]).0 != ms[i].0 by {
        assert(pairs[k].0 == ms[k].0);
    }
    assert(pairs[i].0 == ms[i].0);
    lemma_bind_all_bound(pairs, ms[i].0, i);
}

/// The words for a transport.
pub proof fn law_transport_words(word: Seq<char>, url: bool, command: bool)
    ensures
        ({
            let kind = ascii_lowered(trimmed(word));
            let t = transport_of(Some(word), url, command);
            &&& kind == "local"@ || kind == "stdio"@ ==> t == "stdio"@
            &&& kind == "remote"@ || kind == "http"@ || kind == "sse"@ ==> t == "http"@
            &&& kind == "streamable-http"@ ==> t == "streamable-http"@
            &&& kind.len() > 0 && kind != "local"@ && kind != "stdio"@ && kind != "remote"@ && kind
                != "http"@ && kind != "sse"@ ==> t == kind
        }),
{
    reveal_strlit("local");
    reveal_strlit("stdio");
    reveal_strlit("remote");
    reveal_strlit("http");
    reveal_strlit("sse");
    reveal_strlit("streamable-http");
    assert("local"@.len() == 5 && "stdio"@.len() == 5 && "remote"@.len() == 6 && "http"@.len() == 4
        && "sse"@.len() == 3 && "streamable-http"@.len() == 15);
}

// ── members in order ──

proof fn lemma_put(s: Seq<(Seq<char>, JsonTree)>, key: Seq<char>, value: JsonTree, other: Seq<char>)
    requires
        crate::json::member_keys_ascend(s),
    ensures
        lookup(put_member(s, key, value), key) == Some(value),
        other != key ==> lookup(put_member(s, key, value), other) == lookup(s, other),
    decreases s.len(),
{
    let r = put_member(s, key, value);
    if s.len() > 0 {
        let t = s.drop_last();
        let last = s.last();
        assert(s =~= t.push(last));
        lemma_lookup_push(t, last, other);
        lemma_lookup_push(t, last, key);
        if crate::order::lex_less(key, last.0) {
            assert(crate::json::member_keys_ascend(t));
            lemma_put(t, key, value, other);
            crate::order::lemma_lex_irreflexive(key);
            lemma_lookup_push(put_member(t, key, value), last, other);
            lemma_lookup_push(put_member(t, key, value), last, key);
        } else if last.0 == key {
            lemma_absent(t, key, last);
            lemma_lookup_push(t, (key, value), other);
            lemma_lookup_push(t, (key, value), key);
        } else {
            lemma_all_before(s, key);
            lemma_lookup_push(s, (key, value), other);
            lemma_lookup_push(s, (key, value), key);
        }
    } else {
        lemma_lookup_push(s, (key, value), other);
        lemma_lookup_push(s, (key, value), key);
    }
}

proof fn lemma_absent(t: Seq<(Seq<char>, JsonTree)>, key: Seq<char>, last: (Seq<char>, JsonTree))
    requires
        crate::json::member_keys_ascend(t.push(last)),
        last.0 == key,
    ensures
        lookup(t, key) is None,
{
    assert forall|i: int| 0 <= i < t.len() implies (#[trigger] t[i]).0 != key by {
        let s = t.push(last);
        assert(s[i] == t[i] && s[t.len() as int] == last);
        assert(crate::order::lex_less(s[i].0, s[t.len() as int].0));
        crate::order::lemma_lex_irreflexive(key);
    }
    crate::mcp_report_laws::law_lookup_none(t, key);
}

proof fn lemma_all_before(s: Seq<(Seq<char>, JsonTree)>, key: Seq<char>)
    requires
        s.len() > 0,
        crate::json::member_keys_ascend(s),
        !crate::order::lex_less(key, s.last().0),
        s.last().0 != key,
    ensures
        lookup(s, key) is None,
{
    crate::order::lemma_lex_total(key, s.last().0);
    assert forall|i: int| 0 <= i < s.len() implies (#[trigger] s[i]).0 != key by {
        if s[i].0 == key {
            let n = s.len() - 1;
            if i < n {
                assert(crate::order::lex_less(s[i].0, s[n].0));
            }
        }
    }
    crate::mcp_report_laws::law_lookup_none(s, key);
}

proof fn lemma_lookup_push(
    s: Seq<(Seq<char>, JsonTree)>,
    last: (Seq<char>, JsonTree),
    key: Seq<char>,
)
    ensures
        lookup(s.push(last), key) == if lookup(s, key) is Some {
            lookup(s, key)
        } else if last.0 == key {
            Some(last.1)
        } else {
            None
        },
    decreases s.len(),
{
    let t = s.push(last);
    reveal_with_fuel(lookup, 2);
    if s.len() > 0 {
        lemma_lookup_push(s.drop_first(), last, key);
        assert(t.drop_first() =~= s.drop_first().push(last));
    } else {
        assert(t.drop_first() =~= Seq::<(Seq<char>, JsonTree)>::empty());
    }
}

/// Putting a value in order keeps every member, the last one where a key stands twice, and every
/// item of a list in its place.
pub proof fn law_order_keeps_members(ms: Seq<(Seq<char>, JsonTree)>, i: int)
    requires
        0 <= i < ms.len(),
        forall|k: int| i < k < ms.len() ==> (#[trigger] ms[k]).0 != ms[i].0,
    ensures
        member(arranged(JsonTree::Object(ms)), ms[i].0) == Some(arranged(ms[i].1)),
    decreases ms.len(),
{
    let front = ms.drop_last();
    let n = ms.len() - 1;
    crate::json_order::law_arranged_is_ordered(JsonTree::Object(front));
    assert(crate::json::member_keys_ascend(arranged_members(front)));
    lemma_put(arranged_members(front), ms[n].0, arranged(ms[n].1), ms[i].0);
    assert(arranged_members(ms) == put_member(arranged_members(front), ms[n].0, arranged(ms[n].1)));
    if i < n {
        assert(ms[n].0 != ms[i].0);
        assert forall|k: int| i < k < front.len() implies (#[trigger] front[k]).0 != front[i].0 by {
            assert(front[k] == ms[k]);
        }
        law_order_keeps_members(front, i);
    }
}

/// Putting a list in order keeps its items in their places, each put in order.
pub proof fn law_order_keeps_items(items: Seq<JsonTree>)
    ensures
        arranged(JsonTree::List(items)) matches JsonTree::List(out) && out.len() == items.len() && forall|
            i: int,
        |
            0 <= i < items.len() ==> #[trigger] out[i] == arranged(items[i]),
{
}

// ── what is checked ──

/// What a write leaves is JSON that has the definition under its name; what a removal leaves is JSON
/// that has nothing there.
pub proof fn law_result_is_checked(text: Seq<char>, entry: EntryDef, new: Seq<char>)
    ensures
        opencode_upserted(text, entry) == Ok::<Seq<char>, WriteError>(new) ==> (json_document(
            new,
        ) matches Ok(doc) && member(doc, "mcp"@) matches Some(section) && member(section, entry.name)
            == Some(rendered(entry))),
        opencode_removed(text, entry.name) == Ok::<Seq<char>, WriteError>(new) && (located(
            text,
            entry.name,
        ) matches Ok(Some(_))) ==> (json_document(new) matches Ok(doc) && (member(
            doc,
            "mcp"@,
        ) matches Some(section) ==> member(section, entry.name) is None)),
        located(text, entry.name) == Ok::<Option<Member>, WriteError>(None) ==> opencode_removed(
            text,
            entry.name,
        ) == Ok::<Seq<char>, WriteError>(text) && opencode_entry_in(text, entry.name) == Ok::<
            Option<EntryDef>,
            WriteError,
        >(None),
{
}

/// A text that is no JSON object is neither written to nor read from, nor is one whose section of
/// servers is something else.
pub proof fn law_other_documents_are_refused(text: Seq<char>, entry: EntryDef)
    ensures
        json_document(text) is Err ==> {
            &&& opencode_upserted(text, entry) matches Err(WriteError::Unsafe(_))
            &&& opencode_removed(text, entry.name) matches Err(WriteError::Unsafe(_))
            &&& opencode_entry_in(text, entry.name) matches Err(WriteError::Unsafe(_))
        },
        json_document(text) matches Ok(doc) ==> (!(doc is Object) ==> opencode_upserted(
            text,
            entry,
        ) is Err),
        object_at(encode_utf8(text), 0) matches Some(root) ==> (member_of(
            encode_utf8(text),
            root,
            "mcp"@,
        ) matches Some(mcp) ==> (object_at(encode_utf8(text), mcp.value) is None ==> {
            &&& opencode_upserted(text, entry) is Err
            &&& opencode_removed(text, entry.name) is Err
            &&& opencode_entry_in(text, entry.name) is Err
        })),
        located(text, entry.name) matches Ok(Some(m)) ==> (json_document(
            text_between(text, m.value, m.end),
        ) matches Ok(v) ==> (v is Object ==> opencode_entry_in(text, entry.name) == Ok::<
            Option<EntryDef>,
            WriteError,
        >(Some(definition(entry.name, v)))) && (!(v is Object) ==> opencode_entry_in(
            text,
            entry.name,
        ) is Err)),
{
}

} // verus!
