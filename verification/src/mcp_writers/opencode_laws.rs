//! What the OpenCode writer's operations mean for one another.

use vstd::prelude::*;
use vstd::utf8::*;
use crate::bytes::{
    at_char, lemma_boundary_after_ascii, lemma_boundary_at_ascii, lemma_cut, lemma_encode_concat,
    text_before, text_from,
};
use crate::env_map::{bind_all, keys_ascend};
use crate::json::{
    compact, json_document, json_string_value, lookup, member, plain, quoted, reads_as, text_member,
    JsonTree,
};
use crate::mcp_inventory::transport_of;
use crate::mcp_writers::{EntryDef, WriteError};
use crate::mcp_writers::json_edit::{
    appended_member, appendix, cut_range, edited, is_container, is_string, key_index,
    lemma_before_space, lemma_compact_is_container, lemma_key_index, lemma_key_of_plain,
    lemma_key_of_quoted, lemma_keyed, lemma_lookup_appended, lemma_lookup_dropped,
    lemma_lookup_exchanged, lemma_lookup_prepended, lemma_member_start, lemma_object_appended,
    lemma_object_dropped, lemma_object_exchanged, lemma_object_followed, lemma_object_malformed,
    lemma_object_prepended, lemma_object_shape, lemma_quoted_is_string, lemma_same_root,
    lemma_section_is_container, lemma_section_kept, lemma_section_lookup, lemma_step_space,
    object_close, same_value, section_bytes,
};
use crate::mcp_writers::json_nested::{law_nested_objects_are_found, lemma_root_outside};
use crate::mcp_writers::json_span::{
    after_space, byte_at, first_with_key, key_text, lemma_space_len, lemma_value_cuttable,
    member_of, object_at, object_members, outside, rest, space_len, well_formed, well_lexed, Member,
};
use crate::mcp_writers::opencode_json::{
    checked_upsert, command_parts, definition, env_pairs, env_tree, located, opencode_entry_in,
    opencode_removed, opencode_upserted, rendered, rendered_member, spliced, stored,
    strict_document, text_items, text_trees, with_entry, EMPTY_DOC,
};
use crate::order::{lemma_lex_asymmetric, lex_less};
use crate::text::{ascii_lowered, trim_end, trim_start, trimmed};

verus! {

/// What opencode.json keeps of a definition: of a local server program and arguments in one
/// list and the environment, of any other its URL.
pub open spec fn kept_form(entry: EntryDef) -> EntryDef {
    let parts = command_parts(entry);
    if entry.transport == "stdio"@ {
        EntryDef {
            name: entry.name,
            transport: "stdio"@,
            command: if parts.len() > 0 {
                Some(parts[0])
            } else {
                None
            },
            args: if parts.len() > 0 {
                parts.drop_first()
            } else {
                parts
            },
            url: None,
            env: entry.env,
        }
    } else {
        EntryDef {
            name: entry.name,
            transport: "http"@,
            command: None,
            args: Seq::empty(),
            url: Some(
                match entry.url {
                    Some(url) => url,
                    None => Seq::empty(),
                },
            ),
            env: Seq::empty(),
        }
    }
}

proof fn lemma_text_items(parts: Seq<Seq<char>>)
    ensures
        text_items(text_trees(parts)) == parts,
    decreases parts.len(),
{
    if parts.len() > 0 {
        lemma_text_items(parts.drop_last());
        assert(text_trees(parts).drop_last() =~= text_trees(parts.drop_last()));
        assert(parts.drop_last().push(parts.last()) =~= parts);
    } else {
        assert(text_items(text_trees(parts)) =~= parts);
    }
}

pub proof fn lemma_bind_all_ascending(s: Seq<(Seq<char>, Seq<char>)>)
    requires
        keys_ascend(s),
    ensures
        bind_all(s) == s,
    decreases s.len(),
{
    if s.len() > 0 {
        let t = s.drop_last();
        assert forall|i: int, j: int| 0 <= i < j < t.len() implies lex_less(
            (#[trigger] t[i]).0,
            (#[trigger] t[j]).0,
        ) by {
            assert(lex_less(s[i].0, s[j].0));
        }
        lemma_bind_all_ascending(t);
        if t.len() > 0 {
            assert(lex_less(s[s.len() - 2].0, s[s.len() - 1].0));
            lemma_lex_asymmetric(t.last().0, s.last().0);
        }
        assert(t.push(s.last()) =~= s);
    }
}

proof fn lemma_word(word: Seq<char>)
    requires
        word.len() > 0,
        forall|i: int| 0 <= i < word.len() ==> 'a' <= #[trigger] word[i] <= 'z',
    ensures
        ascii_lowered(trimmed(word)) == word,
{
    assert('a' <= word[0] <= 'z');
    assert('a' <= word[word.len() - 1] <= 'z');
    assert(trim_start(word) == word);
    assert(trim_end(word) == word);
    assert(ascii_lowered(word) =~= word);
}

proof fn lemma_transport_words()
    ensures
        forall|u: bool, c: bool| #[trigger] transport_of(Some("local"@), u, c) == "stdio"@,
        forall|u: bool, c: bool| #[trigger] transport_of(Some("remote"@), u, c) == "http"@,
{
    reveal_strlit("local");
    reveal_strlit("remote");
    reveal_strlit("stdio");
    reveal_strlit("streamable-http");
    lemma_word("local"@);
    lemma_word("remote"@);
    assert("remote"@[0] != "local"@[0]);
    assert("remote"@[0] != "stdio"@[0]);
    assert("remote"@[0] != "streamable-http"@[0]);
}

/// A rendered value stands for what the format keeps of the definition.
proof fn lemma_definition(entry: EntryDef)
    requires
        keys_ascend(entry.env),
    ensures
        definition(entry.name, rendered(entry)) == kept_form(entry),
{
    reveal_strlit("command");
    reveal_strlit("environment");
    reveal_strlit("type");
    reveal_strlit("url");
    reveal_with_fuel(lookup, 4);
    lemma_transport_words();
    let v = rendered(entry);
    let ms = v->Object_0;
    let d = definition(entry.name, v);
    assert("command"@[0] == 'c' && "environment"@[0] == 'e' && "type"@[0] == 't' && "url"@[0] == 'u');
    assert("command"@ != "environment"@);
    assert("command"@ != "type"@);
    assert("command"@ != "url"@);
    assert("environment"@ != "type"@);
    assert("environment"@ != "url"@);
    assert("type"@ != "url"@);
    if entry.transport == "stdio"@ {
        lemma_text_items(command_parts(entry));
        assert(member(v, "command"@) == Some(
            JsonTree::List(text_trees(command_parts(entry))),
        ));
        if entry.env.len() > 0 {
            let pairs = env_tree(entry.env)->Object_0;
            assert(env_pairs(pairs) =~= entry.env);
            lemma_bind_all_ascending(entry.env);
            assert(member(v, "environment"@) == Some(env_tree(entry.env)));
        } else {
            assert(member(v, "environment"@) is None);
            assert(entry.env =~= Seq::<(Seq<char>, Seq<char>)>::empty());
        }
        assert(text_member(v, "type"@) == Some("local"@));
        assert(text_member(v, "url"@) is None);
        assert(d =~= kept_form(entry));
    } else {
        assert(member(v, "command"@) is None);
        assert(member(v, "environment"@) is None);
        assert(text_member(v, "type"@) == Some("remote"@));
        assert(text_member(v, "url"@) is Some);
        assert(d =~= kept_form(entry));
    }
}

proof fn lemma_root_lexed(b: Seq<u8>, root: int)
    requires
        object_at(b, 0) == Some(root),
        well_lexed(b),
    ensures
        well_lexed(b.skip(root)),
        0 <= root < b.len(),
        b[root] == 0x7b,
{
    assert(rest(b, 0) =~= b);
    lemma_step_space(b, seq![0x7bu8]);
    lemma_space_len(b);
}

/// Splicing a text is editing its bytes.
proof fn lemma_spliced(text: Seq<char>, from: int, to: int, with: Seq<char>)
    requires
        at_char(text, from),
        at_char(text, to),
    ensures
        encode_utf8(spliced(text, from, to, with)) == edited(
            encode_utf8(text),
            from,
            to,
            encode_utf8(with),
        ),
{
    lemma_cut(text, from);
    lemma_cut(text, to);
    lemma_encode_concat(text_before(text, from) + with, text_from(text, to));
    lemma_encode_concat(text_before(text, from), with);
}

/// A text in which the section is found.
spec fn sectioned(text: Seq<char>, root: int, at: int) -> bool {
    let b = encode_utf8(text);
    &&& json_document(text) is Ok
    &&& well_formed(b)
    &&& object_at(b, 0) == Some(root)
    &&& member_of(b, root, "mcp"@) matches Some(m) && m.value == at
    &&& object_at(b, at) == Some(at)
}

proof fn lemma_sectioned(text: Seq<char>, root: int, mcp: Member, at: int)
    requires
        json_document(text) is Ok,
        well_formed(encode_utf8(text)),
        object_at(encode_utf8(text), 0) == Some(root),
        member_of(encode_utf8(text), root, "mcp"@) == Some(mcp),
        object_at(encode_utf8(text), mcp.value) == Some(at),
    ensures
        sectioned(text, root, at),
        mcp.value == at,
{
    let b = encode_utf8(text);
    let rs = object_members(b, root).unwrap();
    lemma_key_index(b, rs, "mcp"@);
    let j = key_index(b, rs, "mcp"@);
    lemma_keyed(b, root, j);
    assert(rest(b, mcp.value)[0] == b[mcp.value]);
    assert(space_len(rest(b, mcp.value)) == 0);
}

/// Whether the root of a text has the same member under a key other than the section's as that
/// of another text, byte for byte.
#[verifier::opaque]
pub open spec fn root_keeps(text: Seq<char>, new: Seq<char>, key: Seq<char>) -> bool {
    let b = encode_utf8(text);
    let c = encode_utf8(new);
    &&& object_at(c, 0) == object_at(b, 0)
    &&& key != "mcp"@ ==> (object_at(b, 0) matches Some(root) ==> same_value(
        b,
        member_of(b, root, key),
        c,
        member_of(c, root, key),
    ))
}

/// A text that is left alone keeps the members of its root.
pub proof fn lemma_root_keeps_itself(text: Seq<char>, key: Seq<char>)
    ensures
        root_keeps(text, text, key),
{
    reveal(root_keeps);
    let b = encode_utf8(text);
    if let Some(root) = object_at(b, 0) {
        if member_of(b, root, key) is Some {
            let ms = object_members(b, root).unwrap();
            lemma_key_index(b, ms, key);
            lemma_keyed(b, root, key_index(b, ms, key));
        }
    }
}

/// Whether a text has the rendered value of an entry under its name.
pub open spec fn holds_rendered(text: Seq<char>, entry: EntryDef) -> bool {
    located(text, entry.name) matches Ok(Some(m)) && encode_utf8(text).subrange(m.value, m.end)
        == encode_utf8(compact(rendered(entry)))
}

/// An edit inside the section's braces leaves it where it was, and everything else in the root.
proof fn lemma_section_edited(
    text: Seq<char>,
    new: Seq<char>,
    root: int,
    at: int,
    from: int,
    to: int,
    with: Seq<u8>,
    other: Seq<char>,
)
    requires
        sectioned(text, root, at),
        json_document(new) is Ok,
        well_formed(encode_utf8(new)),
        encode_utf8(new) == edited(encode_utf8(text), from, to, with),
        object_members(encode_utf8(text), at) is Some,
        object_members(encode_utf8(new), at) is Some,
        at < from <= to <= object_close(encode_utf8(text), at).unwrap(),
        object_close(encode_utf8(new), at) == Some(
            object_close(encode_utf8(text), at).unwrap() + from + with.len() - to,
        ),
    ensures
        sectioned(new, root, at),
        root_keeps(text, new, other),
{
    reveal(root_keeps);
    let b = encode_utf8(text);
    let c = encode_utf8(new);
    lemma_object_shape(b, at);
    lemma_root_lexed(b, root);
    let rs = object_members(b, root).unwrap();
    lemma_key_index(b, rs, "mcp"@);
    lemma_object_shape(b, root);
    assert(root < at);
    assert(b.take(at + 1) =~= c.take(at + 1));
    lemma_same_root(b, c, at + 1);
    lemma_root_lexed(c, root);
    lemma_section_kept(b, root, at, "mcp"@, from, to, with, other);
    assert(c[at] == b.take(at + 1)[at]);
    assert(rest(c, at)[0] == c[at]);
    assert(space_len(rest(c, at)) == 0);
}

/// Entries with the same bytes read the same.
proof fn lemma_reads_same(text: Seq<char>, new: Seq<char>, root: int, at: int, name: Seq<char>)
    requires
        sectioned(text, root, at),
        sectioned(new, root, at),
        same_value(
            encode_utf8(text),
            member_of(encode_utf8(text), at, name),
            encode_utf8(new),
            member_of(encode_utf8(new), at, name),
        ),
    ensures
        opencode_entry_in(new, name) == opencode_entry_in(text, name),
{
}

/// A rendered value that stands in the section reads as what was kept of it.
proof fn lemma_reads_rendered(new: Seq<char>, root: int, at: int, entry: EntryDef, m: Member)
    requires
        sectioned(new, root, at),
        keys_ascend(entry.env),
        reads_as(compact(rendered(entry)), rendered(entry)),
        member_of(encode_utf8(new), at, entry.name) == Some(m),
        encode_utf8(new).subrange(m.value, m.end) == encode_utf8(compact(rendered(entry))),
    ensures
        opencode_entry_in(new, entry.name) == Ok::<Option<EntryDef>, WriteError>(
            Some(kept_form(entry)),
        ),
{
    encode_utf8_decode_utf8(compact(rendered(entry)));
    lemma_definition(entry);
}

/// What is known of a rendered entry's text.
proof fn lemma_rendered_bytes(entry: EntryDef)
    requires
        plain(rendered(entry), 100),
        json_string_value(quoted(entry.name)) == Some(entry.name),
    ensures
        ({
            let q = encode_utf8(quoted(entry.name));
            let v = encode_utf8(compact(rendered(entry)));
            &&& is_string(q)
            &&& is_container(v)
            &&& key_text(q) == Some(entry.name)
            &&& encode_utf8(rendered_member(entry)) == q + seq![0x3au8, 0x20u8] + v
            &&& encode_utf8(", "@ + rendered_member(entry)) == appendix(q, v)
            &&& encode_utf8(" "@ + rendered_member(entry) + " "@) == seq![0x20u8] + (q + seq![
                0x3au8,
                0x20u8,
            ] + v) + seq![0x20u8]
        }),
{
    let q = encode_utf8(quoted(entry.name));
    let v = encode_utf8(compact(rendered(entry)));
    lemma_quoted_is_string(entry.name);
    lemma_compact_is_container(rendered(entry), 100);
    lemma_key_of_quoted(entry.name);
    lemma_encode_concat(quoted(entry.name) + ": "@, compact(rendered(entry)));
    lemma_encode_concat(quoted(entry.name), ": "@);
    lemma_encode_concat(", "@, rendered_member(entry));
    lemma_encode_concat(" "@ + rendered_member(entry), " "@);
    lemma_encode_concat(" "@, rendered_member(entry));
    reveal_strlit(": ");
    reveal_strlit(", ");
    reveal_strlit(" ");
    is_ascii_chars_encode_utf8(": "@);
    is_ascii_chars_encode_utf8(", "@);
    is_ascii_chars_encode_utf8(" "@);
    assert(encode_utf8(": "@)[0] == ": "@[0] as u8 && encode_utf8(": "@)[1] == ": "@[1] as u8);
    assert(encode_utf8(", "@)[0] == ", "@[0] as u8 && encode_utf8(", "@)[1] == ", "@[1] as u8);
    assert(encode_utf8(" "@)[0] == " "@[0] as u8);
    assert(encode_utf8(": "@) =~= seq![0x3au8, 0x20u8]);
    assert(encode_utf8(", "@) =~= seq![0x2cu8, 0x20u8]);
    assert(encode_utf8(" "@) =~= seq![0x20u8]);
}

/// What a write of `entry` promises: what the format keeps of it is read there, every other name
/// reads as before, and every other member of the root is as it was.
pub open spec fn reads_back(text: Seq<char>, new: Seq<char>, entry: EntryDef, other: Seq<char>) -> bool {
    &&& opencode_entry_in(new, entry.name) == Ok::<Option<EntryDef>, WriteError>(
        Some(kept_form(entry)),
    )
    &&& other != entry.name ==> opencode_entry_in(new, other) == opencode_entry_in(text, other)
    &&& holds_rendered(new, entry)
    &&& root_keeps(text, new, other)
}

/// What is known of an entry once it has been rendered.
pub open spec fn renders(entry: EntryDef) -> bool {
    &&& keys_ascend(entry.env)
    &&& plain(rendered(entry), 100)
    &&& json_string_value(quoted(entry.name)) == Some(entry.name)
    &&& reads_as(compact(rendered(entry)), rendered(entry))
}

#[verifier::rlimit(50)]
proof fn lemma_replaced(
    text: Seq<char>,
    new: Seq<char>,
    root: int,
    at: int,
    entry: EntryDef,
    other: Seq<char>,
)
    requires
        sectioned(text, root, at),
        json_document(new) is Ok,
        well_formed(encode_utf8(new)),
        renders(entry),
        member_of(encode_utf8(text), at, entry.name) matches Some(old) && new == spliced(
            text,
            old.value,
            old.end,
            compact(rendered(entry)),
        ),
    ensures
        reads_back(text, new, entry, other),
{
    let b = encode_utf8(text);
    let c = encode_utf8(new);
    let v = encode_utf8(compact(rendered(entry)));
    let ms = object_members(b, at).unwrap();
    let k = key_index(b, ms, entry.name);
    lemma_key_index(b, ms, entry.name);
    lemma_rendered_bytes(entry);
    lemma_keyed(b, at, k);
    let old = ms[k];
    lemma_value_cuttable(text, old.value);
    lemma_spliced(text, old.value, old.end, compact(rendered(entry)));
    lemma_object_shape(b, at);
    lemma_object_exchanged(b, at, k, v);
    lemma_section_edited(text, new, root, at, old.value, old.end, v, other);
    lemma_lookup_exchanged(b, at, k, v, entry.name);
    lemma_lookup_exchanged(b, at, k, v, other);
    lemma_reads_rendered(new, root, at, entry, member_of(c, at, entry.name).unwrap());
    if other != entry.name {
        lemma_reads_same(text, new, root, at, other);
    }
}

#[verifier::rlimit(50)]
proof fn lemma_appended_entry(
    text: Seq<char>,
    new: Seq<char>,
    root: int,
    at: int,
    entry: EntryDef,
    other: Seq<char>,
)
    requires
        sectioned(text, root, at),
        json_document(new) is Ok,
        well_formed(encode_utf8(new)),
        renders(entry),
        member_of(encode_utf8(text), at, entry.name) is None,
        object_members(encode_utf8(text), at) matches Some(ms) && ms.len() > 0 && new == spliced(
            text,
            ms.last().end,
            ms.last().end,
            ", "@ + rendered_member(entry),
        ),
    ensures
        reads_back(text, new, entry, other),
{
    let b = encode_utf8(text);
    let c = encode_utf8(new);
    let q = encode_utf8(quoted(entry.name));
    let v = encode_utf8(compact(rendered(entry)));
    let ms = object_members(b, at).unwrap();
    let e = ms.last().end;
    lemma_rendered_bytes(entry);
    lemma_keyed(b, at, ms.len() - 1);
    lemma_value_cuttable(text, ms.last().value);
    lemma_spliced(text, e, e, ", "@ + rendered_member(entry));
    lemma_object_shape(b, at);
    lemma_object_appended(b, at, q, v);
    lemma_section_edited(text, new, root, at, e, e, appendix(q, v), other);
    lemma_lookup_appended(b, at, q, v, entry.name);
    lemma_lookup_appended(b, at, q, v, other);
    lemma_reads_rendered(new, root, at, entry, appended_member(e, q, v));
    if other != entry.name {
        lemma_reads_same(text, new, root, at, other);
    }
}

proof fn lemma_only_entry(
    text: Seq<char>,
    new: Seq<char>,
    root: int,
    at: int,
    entry: EntryDef,
    other: Seq<char>,
)
    requires
        sectioned(text, root, at),
        json_document(new) is Ok,
        well_formed(encode_utf8(new)),
        renders(entry),
        object_members(encode_utf8(text), at) matches Some(ms) && ms.len() == 0,
        new == spliced(text, at + 1, at + 1, " "@ + rendered_member(entry) + " "@),
    ensures
        reads_back(text, new, entry, other),
{
    let b = encode_utf8(text);
    let q = encode_utf8(quoted(entry.name));
    let v = encode_utf8(compact(rendered(entry)));
    let pad = seq![0x20u8];
    lemma_rendered_bytes(entry);
    lemma_object_shape(b, at);
    encode_utf8_valid_utf8(text);
    lemma_boundary_after_ascii(b, at + 1);
    lemma_spliced(text, at + 1, at + 1, " "@ + rendered_member(entry) + " "@);
    lemma_object_prepended(b, at, pad, q, v, pad);
    let x = pad + (q + seq![0x3au8, 0x20u8] + v) + pad;
    lemma_section_edited(text, new, root, at, at + 1, at + 1, x, other);
    lemma_lookup_prepended(b, at, pad, q, v, pad, entry.name);
    lemma_lookup_prepended(b, at, pad, q, v, pad, other);
    lemma_reads_rendered(
        new,
        root,
        at,
        entry,
        member_of(encode_utf8(new), at, entry.name).unwrap(),
    );
    if other != entry.name {
        lemma_reads_same(text, new, root, at, other);
    }
}

/// The text of a new section with one entry in it.
spec fn section_text(entry: EntryDef) -> Seq<char> {
    "\"mcp\": { "@ + rendered_member(entry) + " }"@
}

proof fn lemma_section_text(entry: EntryDef)
    requires
        renders(entry),
    ensures
        ({
            let q = encode_utf8(quoted(entry.name));
            let v = encode_utf8(compact(rendered(entry)));
            let k = encode_utf8(quoted("mcp"@));
            let all = section_bytes(q, v);
            &&& is_string(k)
            &&& key_text(k) == Some("mcp"@)
            &&& is_container(all)
            &&& encode_utf8(section_text(entry)) == k + seq![0x3au8, 0x20u8] + all
        }),
{
    let q = encode_utf8(quoted(entry.name));
    let v = encode_utf8(compact(rendered(entry)));
    let k = encode_utf8(quoted("mcp"@));
    let all = section_bytes(q, v);
    reveal_strlit("mcp");
    reveal_strlit("\"mcp\": { ");
    reveal_strlit(" }");
    lemma_key_of_plain("mcp"@);
    lemma_rendered_bytes(entry);
    lemma_section_is_container(entry.name, rendered(entry), 100);
    let head = "\"mcp\": { "@;
    let tail = " }"@;
    lemma_encode_concat(head + rendered_member(entry), tail);
    lemma_encode_concat(head, rendered_member(entry));
    let front = quoted("mcp"@) + seq![':', ' ', '{', ' '];
    assert(head =~= front);
    lemma_encode_concat(quoted("mcp"@), seq![':', ' ', '{', ' ']);
    let punct = seq![':', ' ', '{', ' '];
    is_ascii_chars_encode_utf8(punct);
    let pb = encode_utf8(punct);
    assert(pb[0] == punct[0] as u8 && pb[1] == punct[1] as u8 && pb[2] == punct[2] as u8 && pb[3]
        == punct[3] as u8);
    assert(pb =~= seq![0x3au8, 0x20u8, 0x7bu8, 0x20u8]);
    is_ascii_chars_encode_utf8(tail);
    let tb = encode_utf8(tail);
    assert(tb[0] == tail[0] as u8 && tb[1] == tail[1] as u8);
    assert(tb =~= seq![0x20u8, 0x7du8]);
    assert(encode_utf8(section_text(entry)) =~= k + seq![0x3au8, 0x20u8] + all);
}

/// The bytes of what is put round a new section.
proof fn lemma_section_frame(text: Seq<char>, empty: bool)
    ensures
        ({
            let pad = if empty {
                seq![0x20u8]
            } else {
                seq![0x0au8, 0x20u8, 0x20u8]
            };
            let tail = if empty {
                seq![0x20u8]
            } else {
                seq![0x2cu8]
            };
            encode_utf8(
                if empty {
                    " "@ + text + " "@
                } else {
                    "\n  "@ + text + ","@
                },
            ) == pad + encode_utf8(text) + tail
        }),
{
    if empty {
        reveal_strlit(" ");
        is_ascii_chars_encode_utf8(" "@);
        lemma_encode_concat(" "@ + text, " "@);
        lemma_encode_concat(" "@, text);
        assert(encode_utf8(" "@)[0] == " "@[0] as u8);
        assert(encode_utf8(" "@) =~= seq![0x20u8]);
    } else {
        reveal_strlit("\n  ");
        reveal_strlit(",");
        let p = "\n  "@;
        let t = ","@;
        is_ascii_chars_encode_utf8(p);
        is_ascii_chars_encode_utf8(t);
        lemma_encode_concat(p + text, t);
        lemma_encode_concat(p, text);
        assert(encode_utf8(p)[0] == p[0] as u8 && encode_utf8(p)[1] == p[1] as u8 && encode_utf8(
            p,
        )[2] == p[2] as u8);
        assert(encode_utf8(p) =~= seq![0x0au8, 0x20u8, 0x20u8]);
        assert(encode_utf8(t)[0] == t[0] as u8);
        assert(encode_utf8(t) =~= seq![0x2cu8]);
    }
}

// A new section in front of everything is found under its key, and the rest of the root stays.
#[verifier::rlimit(80)]
proof fn lemma_new_section_root(
    text: Seq<char>,
    new: Seq<char>,
    root: int,
    empty: bool,
    entry: EntryDef,
    other: Seq<char>,
)
    requires
        json_document(text) is Ok,
        json_document(new) is Ok,
        well_formed(encode_utf8(text)),
        well_formed(encode_utf8(new)),
        renders(entry),
        object_at(encode_utf8(text), 0) == Some(root),
        member_of(encode_utf8(text), root, "mcp"@) is None,
        new == spliced(
            text,
            root + 1,
            root + 1,
            if empty {
                " "@ + section_text(entry) + " "@
            } else {
                "\n  "@ + section_text(entry) + ","@
            },
        ),
    ensures
        root_keeps(text, new, other),
        object_at(encode_utf8(new), 0) == Some(root),
        ({
            let c = encode_utf8(new);
            let all = section_bytes(
                encode_utf8(quoted(entry.name)),
                encode_utf8(compact(rendered(entry))),
            );
            member_of(c, root, "mcp"@) matches Some(mcp) && 0 <= mcp.value && mcp.end == mcp.value
                + all.len() && mcp.end <= c.len() && c.subrange(mcp.value, mcp.end) == all
        }),
{
    reveal(root_keeps);
    let b = encode_utf8(text);
    let c = encode_utf8(new);
    let q = encode_utf8(quoted(entry.name));
    let v = encode_utf8(compact(rendered(entry)));
    let k = encode_utf8(quoted("mcp"@));
    let all = section_bytes(q, v);
    let pad = if empty {
        seq![0x20u8]
    } else {
        seq![0x0au8, 0x20u8, 0x20u8]
    };
    let tail = if empty {
        seq![0x20u8]
    } else {
        seq![0x2cu8]
    };
    let ms = object_members(b, root).unwrap();
    lemma_object_shape(b, root);
    lemma_section_text(entry);
    lemma_section_frame(section_text(entry), empty);
    encode_utf8_valid_utf8(text);
    lemma_boundary_after_ascii(b, root + 1);
    lemma_spliced(
        text,
        root + 1,
        root + 1,
        if empty {
            " "@ + section_text(entry) + " "@
        } else {
            "\n  "@ + section_text(entry) + ","@
        },
    );
    let x = pad + (k + seq![0x3au8, 0x20u8] + all) + tail;
    assert(c == edited(b, root + 1, root + 1, x));
    assert(b.take(root + 1) =~= c.take(root + 1));
    lemma_same_root(b, c, root + 1);
    if empty != (ms.len() == 0) {
        lemma_object_malformed(b, root, pad, k, all, tail);
    }
    lemma_lookup_prepended(b, root, pad, k, all, tail, "mcp"@);
    lemma_lookup_prepended(b, root, pad, k, all, tail, other);
}

#[verifier::rlimit(50)]
proof fn lemma_new_section(
    text: Seq<char>,
    new: Seq<char>,
    root: int,
    empty: bool,
    entry: EntryDef,
    other: Seq<char>,
)
    requires
        json_document(text) is Ok,
        json_document(new) is Ok,
        well_formed(encode_utf8(text)),
        well_formed(encode_utf8(new)),
        renders(entry),
        object_at(encode_utf8(text), 0) == Some(root),
        member_of(encode_utf8(text), root, "mcp"@) is None,
        new == spliced(
            text,
            root + 1,
            root + 1,
            if empty {
                " "@ + section_text(entry) + " "@
            } else {
                "\n  "@ + section_text(entry) + ","@
            },
        ),
    ensures
        reads_back(text, new, entry, other),
{
    let c = encode_utf8(new);
    let q = encode_utf8(quoted(entry.name));
    let v = encode_utf8(compact(rendered(entry)));
    lemma_new_section_root(text, new, root, empty, entry, other);
    let mcp = member_of(c, root, "mcp"@).unwrap();
    lemma_rendered_bytes(entry);
    lemma_section_lookup(c, mcp.value, q, v, entry.name);
    lemma_section_lookup(c, mcp.value, q, v, other);
    assert(rest(c, mcp.value)[0] == c[mcp.value]);
    assert(space_len(rest(c, mcp.value)) == 0);
    lemma_reads_rendered(new, root, mcp.value, entry, member_of(c, mcp.value, entry.name).unwrap());
}

/// After a write of an entry that succeeds, a read of its name gives what the format keeps
/// of it, and a read of any other name gives what it gave before.
pub proof fn lemma_upsert_reads_back(text: Seq<char>, new: Seq<char>, entry: EntryDef, other: Seq<char>)
    requires
        opencode_upserted(text, entry) == Ok::<Seq<char>, WriteError>(new),
        renders(entry),
    ensures
        reads_back(text, new, entry, other),
{
    let b = encode_utf8(text);
    let root_tree = json_document(text)->Ok_0;
    let root = object_at(b, 0).unwrap();
    match member_of(b, root, "mcp"@) {
        None => {
            let empty = root_tree matches JsonTree::Object(ms) && ms.len() == 0;
            lemma_new_section(text, new, root, empty, entry, other);
        },
        Some(mcp) => {
            let at = object_at(b, mcp.value).unwrap();
            lemma_sectioned(text, root, mcp, at);
            match member_of(b, at, entry.name) {
                Some(old) => {
                    lemma_replaced(text, new, root, at, entry, other);
                },
                None => {
                    let ms = object_members(b, at).unwrap();
                    if ms.len() > 0 {
                        lemma_appended_entry(text, new, root, at, entry, other);
                    } else {
                        lemma_only_entry(text, new, root, at, entry, other);
                    }
                },
            }
        },
    }
}

/// The section of a text that reads as JSON, by the offset of its `{`.
pub open spec fn section_at(text: Seq<char>) -> Option<int> {
    let b = encode_utf8(text);
    match object_at(b, 0) {
        None => None,
        Some(root) => match member_of(b, root, "mcp"@) {
            None => None,
            Some(mcp) => object_at(b, mcp.value),
        },
    }
}

/// Whether no second member of the section has the key `name`.
pub open spec fn named_once(text: Seq<char>, name: Seq<char>) -> bool {
    let b = encode_utf8(text);
    section_at(text) matches Some(at) ==> object_members(b, at) matches Some(ms)
        ==> first_with_key(b, ms.skip(key_index(b, ms, name) + 1), name) is None
}

/// After a removal that succeeds, a read of any other name gives what it gave before; and a
/// read of the name gives nothing, unless the section had it twice.
#[verifier::rlimit(80)]
pub proof fn lemma_remove_reads_back(text: Seq<char>, new: Seq<char>, name: Seq<char>, other: Seq<char>)
    requires
        opencode_removed(text, name) == Ok::<Seq<char>, WriteError>(new),
    ensures
        other != name ==> opencode_entry_in(new, other) == opencode_entry_in(text, other),
        named_once(text, name) ==> opencode_entry_in(new, name) == Ok::<
            Option<EntryDef>,
            WriteError,
        >(None),
        root_keeps(text, new, other),
{
    let b = encode_utf8(text);
    let c = encode_utf8(new);
    match located(text, name)->Ok_0 {
        None => {
            lemma_root_keeps_itself(text, other);
        },
        Some(m) => {
            let root = object_at(b, 0).unwrap();
            let mcp = member_of(b, root, "mcp"@).unwrap();
            let at = object_at(b, mcp.value).unwrap();
            lemma_sectioned(text, root, mcp, at);
            let ms = object_members(b, at).unwrap();
            let k = key_index(b, ms, name);
            lemma_key_index(b, ms, name);
            lemma_keyed(b, at, k);
            let (from, to) = cut_range(b, m);
            lemma_object_dropped(b, at, k);
            lemma_object_shape(b, at);
            lemma_cut_at_chars(text, at, k);
            lemma_spliced(text, from, to, Seq::empty());
            assert(encode_utf8(Seq::<char>::empty()) =~= Seq::<u8>::empty());
            lemma_section_edited(text, new, root, at, from, to, Seq::empty(), other);
            lemma_lookup_dropped(b, at, k, name);
            lemma_lookup_dropped(b, at, k, other);
            if other != name {
                lemma_reads_same(text, new, root, at, other);
            }
        },
    }
}

/// The two ends of what is cut are places where the text can be cut.
proof fn lemma_cut_at_chars(text: Seq<char>, at: int, k: int)
    requires
        object_members(encode_utf8(text), at) matches Some(ms) && 0 <= k < ms.len(),
    ensures
        ({
            let b = encode_utf8(text);
            let (from, to) = cut_range(b, object_members(b, at).unwrap()[k]);
            at_char(text, from) && at_char(text, to)
        }),
{
    let b = encode_utf8(text);
    let m = object_members(b, at).unwrap()[k];
    let (from, to) = cut_range(b, m);
    encode_utf8_valid_utf8(text);
    lemma_keyed(b, at, k);
    lemma_value_cuttable(text, m.value);
    lemma_member_start(b, at, k);
    lemma_boundary_at_ascii(b, m.start);
    let after = after_space(b, m.end);
    lemma_space_len(rest(b, m.end));
    if byte_at(b, after) == Some(0x2cu8) {
        lemma_boundary_after_ascii(b, after + 1);
    } else if from != m.start {
        lemma_boundary_at_ascii(b, from);
    }
}

/// A write takes nothing out of a text but the value that stood under the name.
pub proof fn law_upsert_is_local(text: Seq<char>, entry: EntryDef, new: Seq<char>) -> (cut: (
    int,
    int,
    Seq<char>,
))
    requires
        opencode_upserted(text, entry) == Ok::<Seq<char>, WriteError>(new),
    ensures
        new == spliced(text, cut.0, cut.1, cut.2),
        located(text, entry.name) matches Ok(Some(m)) ==> cut == (
            m.value,
            m.end,
            compact(rendered(entry)),
        ),
        located(text, entry.name) == Ok::<Option<Member>, WriteError>(None) ==> cut.0 == cut.1,
{
    let b = encode_utf8(text);
    let root_tree = json_document(text)->Ok_0;
    let root = object_at(b, 0).unwrap();
    match member_of(b, root, "mcp"@) {
        None => {
            let empty = root_tree matches JsonTree::Object(ms) && ms.len() == 0;
            let with = if empty {
                " "@ + section_text(entry) + " "@
            } else {
                "\n  "@ + section_text(entry) + ","@
            };
            (root + 1, root + 1, with)
        },
        Some(mcp) => {
            let at = object_at(b, mcp.value).unwrap();
            match member_of(b, at, entry.name) {
                Some(m) => (m.value, m.end, compact(rendered(entry))),
                None => {
                    let ms = object_members(b, at).unwrap();
                    if ms.len() > 0 {
                        (ms.last().end, ms.last().end, ", "@ + rendered_member(entry))
                    } else {
                        (at + 1, at + 1, " "@ + rendered_member(entry) + " "@)
                    }
                },
            }
        },
    }
}

// Texts with the same bytes are the same.
proof fn lemma_same_text(s: Seq<char>, t: Seq<char>)
    requires
        encode_utf8(s) == encode_utf8(t),
    ensures
        s == t,
{
    encode_utf8_decode_utf8(s);
    encode_utf8_decode_utf8(t);
}

/// Writing an entry a second time changes nothing.
pub proof fn law_upsert_again_changes_nothing(text: Seq<char>, new: Seq<char>, entry: EntryDef)
    requires
        opencode_upserted(text, entry) == Ok::<Seq<char>, WriteError>(new),
        renders(entry),
    ensures
        opencode_upserted(new, entry) == Ok::<Seq<char>, WriteError>(new),
{
    lemma_upsert_reads_back(text, new, entry, entry.name);
    let c = encode_utf8(new);
    let doc = json_document(new)->Ok_0;
    let root = object_at(c, 0).unwrap();
    let mcp = member_of(c, root, "mcp"@).unwrap();
    let at = object_at(c, mcp.value).unwrap();
    let ms = object_members(c, at).unwrap();
    let k = key_index(c, ms, entry.name);
    lemma_key_index(c, ms, entry.name);
    lemma_keyed(c, at, k);
    let m = ms[k];
    let v = compact(rendered(entry));
    lemma_value_cuttable(new, m.value);
    lemma_spliced(new, m.value, m.end, v);
    assert(edited(c, m.value, m.end, encode_utf8(v)) =~= c);
    lemma_same_text(spliced(new, m.value, m.end, v), new);
    assert(doc is Object);
}

/// Whether a new entry of that name goes behind others: the section has members, and neither its
/// text nor the document has one of that name.
pub open spec fn goes_behind_others(text: Seq<char>, name: Seq<char>) -> bool {
    &&& located(text, name) == Ok::<Option<Member>, WriteError>(None)
    &&& section_at(text) matches Some(at) && object_members(encode_utf8(text), at) matches Some(ms)
        && ms.len() > 0
    &&& stored(strict_document(text)->Ok_0, name) is None
}

/// Taking out an entry that was written behind others gives the text back as it was.
pub proof fn law_remove_undoes_append(text: Seq<char>, new: Seq<char>, entry: EntryDef)
    requires
        opencode_upserted(text, entry) == Ok::<Seq<char>, WriteError>(new),
        renders(entry),
        goes_behind_others(text, entry.name),
    ensures
        opencode_removed(new, entry.name) == Ok::<Seq<char>, WriteError>(text),
{
    let at = section_at(text).unwrap();
    let b = encode_utf8(text);
    let root = object_at(b, 0).unwrap();
    let mcp = member_of(b, root, "mcp"@).unwrap();
    let e = object_members(b, at).unwrap().last().end;
    assert(sectioned(text, root, at)) by {
        lemma_sectioned(text, root, mcp, at);
    }
    assert(new == spliced(text, e, e, ", "@ + rendered_member(entry)));
    lemma_appended_found(text, new, root, at, entry);
    lemma_appended_cut(text, new, entry, at);
}

// A member that was put behind the others is found there.
#[verifier::rlimit(50)]
proof fn lemma_appended_found(text: Seq<char>, new: Seq<char>, root: int, at: int, entry: EntryDef)
    requires
        sectioned(text, root, at),
        json_document(new) is Ok,
        well_formed(encode_utf8(new)),
        renders(entry),
        member_of(encode_utf8(text), at, entry.name) is None,
        object_members(encode_utf8(text), at) matches Some(ms) && ms.len() > 0 && new == spliced(
            text,
            ms.last().end,
            ms.last().end,
            ", "@ + rendered_member(entry),
        ),
    ensures
        ({
            let b = encode_utf8(text);
            let q = encode_utf8(quoted(entry.name));
            let v = encode_utf8(compact(rendered(entry)));
            let e = object_members(b, at).unwrap().last().end;
            &&& encode_utf8(new) == edited(b, e, e, appendix(q, v))
            &&& located(new, entry.name) == Ok::<Option<Member>, WriteError>(
                Some(appended_member(e, q, v)),
            )
        }),
{
    let b = encode_utf8(text);
    let q = encode_utf8(quoted(entry.name));
    let v = encode_utf8(compact(rendered(entry)));
    let ms = object_members(b, at).unwrap();
    let e = ms.last().end;
    lemma_rendered_bytes(entry);
    lemma_keyed(b, at, ms.len() - 1);
    lemma_value_cuttable(text, ms.last().value);
    lemma_spliced(text, e, e, ", "@ + rendered_member(entry));
    lemma_object_shape(b, at);
    lemma_object_appended(b, at, q, v);
    lemma_section_edited(text, new, root, at, e, e, appendix(q, v), entry.name);
    lemma_lookup_appended(b, at, q, v, entry.name);
}

// The cut of a member that was put behind the others.
#[verifier::rlimit(50)]
proof fn lemma_appended_cut(text: Seq<char>, new: Seq<char>, entry: EntryDef, at: int)
    requires
        renders(entry),
        object_members(encode_utf8(text), at) matches Some(ms) && ms.len() > 0,
        ({
            let b = encode_utf8(text);
            let e = object_members(b, at).unwrap().last().end;
            let x = appendix(
                encode_utf8(quoted(entry.name)),
                encode_utf8(compact(rendered(entry))),
            );
            encode_utf8(new) == edited(b, e, e, x)
        }),
    ensures
        ({
            let e = object_members(encode_utf8(text), at).unwrap().last().end;
            let m = appended_member(
                e,
                encode_utf8(quoted(entry.name)),
                encode_utf8(compact(rendered(entry))),
            );
            let (from, to) = cut_range(encode_utf8(new), m);
            spliced(new, from, to, Seq::empty()) == text
        }),
{
    let b = encode_utf8(text);
    let c = encode_utf8(new);
    let q = encode_utf8(quoted(entry.name));
    let v = encode_utf8(compact(rendered(entry)));
    let ms = object_members(b, at).unwrap();
    let e = ms.last().end;
    let x = appendix(q, v);
    let m = appended_member(e, q, v);
    let n = ms.len() as int;
    lemma_rendered_bytes(entry);
    lemma_object_shape(b, at);
    lemma_object_appended(b, at, q, v);
    let ns = object_members(c, at).unwrap();
    assert(ns[n] == m);
    lemma_object_followed(c, at, n);
    assert(ms[n - 1] == ms.last());
    assert(c[e] == x[0] && c[e + 1] == x[1]);
    lemma_before_space(c, e + 2, e + 1);
    assert(cut_range(c, m) == (e, m.end));
    lemma_cut_at_chars(new, at, n);
    lemma_spliced(new, e, m.end, Seq::empty());
    assert(encode_utf8(Seq::<char>::empty()) =~= Seq::<u8>::empty());
    assert(edited(c, e, m.end, Seq::<u8>::empty()) =~= b);
    lemma_same_text(spliced(new, e, m.end, Seq::empty()), text);
}

// The bytes of the seed.
proof fn lemma_seed_bytes()
    ensures
        ({
            let b = encode_utf8(EMPTY_DOC@);
            &&& b.len() == 15
            &&& b[0] == 0x7b && b[11] == 0x7b && b[12] == 0x7d
            &&& forall|i: int| 0 < i < 15 && i != 11 ==> #[trigger] b[i] != 0x7b
        }),
{
    reveal_strlit("{\n  \"mcp\": {}\n}");
    let s = EMPTY_DOC@;
    is_ascii_chars_encode_utf8(s);
    let b = encode_utf8(s);
    assert forall|i: int| 0 < i < 15 && i != 11 implies #[trigger] b[i] != 0x7b by {
        assert(b[i] == s[i] as u8);
    }
    assert(b[0] == s[0] as u8 && b[11] == s[11] as u8 && b[12] == s[12] as u8);
}

/// The seed of a missing file has no entry.
pub proof fn law_seed_has_no_entry(name: Seq<char>)
    ensures
        !(opencode_entry_in(EMPTY_DOC@, name) matches Ok(Some(_))),
{
    let b = encode_utf8(EMPTY_DOC@);
    if let Ok(Some(m)) = located(EMPTY_DOC@, name) {
        lemma_seed_bytes();
        let root = object_at(b, 0).unwrap();
        let mcp = member_of(b, root, "mcp"@).unwrap();
        let at = object_at(b, mcp.value).unwrap();
        lemma_sectioned(EMPTY_DOC@, root, mcp, at);
        let rs = object_members(b, root).unwrap();
        lemma_key_index(b, rs, "mcp"@);
        lemma_object_shape(b, root);
        assert(root < at);
        assert(b[at] == 0x7b);
        assert(at == 11);
        assert(rest(b, 12)[0] == b[12]);
        assert(space_len(rest(b, 12)) == 0);
        assert(object_members(b, at) == Some(Seq::<Member>::empty()));
    }
}

/// A file that is sound, an object whose section is missing or an object, can always be cut to take
/// an entry. The write then succeeds exactly where the reader takes the new text with the entry in
/// it.
pub proof fn law_sound_file_is_written(text: Seq<char>, root: int, entry: EntryDef) -> (new: Seq<char>)
    requires
        strict_document(text) matches Ok(v) && v is Object,
        object_at(encode_utf8(text), 0) == Some(root),
        member_of(encode_utf8(text), root, "mcp"@) matches Some(mcp) ==> object_at(
            encode_utf8(text),
            mcp.value,
        ) is Some,
    ensures
        with_entry(text, strict_document(text)->Ok_0, root, entry) == Ok::<Seq<char>, WriteError>(new),
        opencode_upserted(text, entry) == checked_upsert(new, entry),
        opencode_upserted(text, entry) == Ok::<Seq<char>, WriteError>(new) <==> (
        strict_document(new) matches Ok(doc) && stored(doc, entry.name) == Some(rendered(entry))),
{
    let b = encode_utf8(text);
    let doc = strict_document(text)->Ok_0;
    lemma_root_outside(b);
    lemma_root_lexed(b, root);
    law_nested_objects_are_found(b, root, "mcp"@);
    if let Some(mcp) = member_of(b, root, "mcp"@) {
        let at = object_at(b, mcp.value).unwrap();
        lemma_sectioned(text, root, mcp, at);
        let rs = object_members(b, root).unwrap();
        lemma_key_index(b, rs, "mcp"@);
        let j = key_index(b, rs, "mcp"@);
        assert(outside(b, rs[j].value));
        law_nested_objects_are_found(b, at, entry.name);
    }
    with_entry(text, doc, root, entry)->Ok_0
}

/// What OpenCode's format keeps of a definition, field by field: of a local server its name,
/// program, arguments and environment, of a remote one its name and address.
pub proof fn law_opencode_keeps(e: EntryDef)
    ensures
        kept_form(e).name == e.name,
        e.transport == "stdio"@ ==> {
            &&& kept_form(e).transport == "stdio"@
            &&& kept_form(e).env == e.env
            &&& kept_form(e).url is None
            &&& e.command is Some ==> kept_form(e).command == e.command && kept_form(e).args == e.args
            &&& e.command is None && e.args.len() > 0 ==> kept_form(e).command == Some(e.args[0])
                && kept_form(e).args == e.args.drop_first()
            &&& e.command is None && e.args.len() == 0 ==> kept_form(e).command is None
        },
        e.transport != "stdio"@ ==> {
            &&& kept_form(e).transport == "http"@
            &&& kept_form(e).command is None && kept_form(e).args.len() == 0
            &&& kept_form(e).env.len() == 0
            &&& e.url is Some ==> kept_form(e).url == e.url
            &&& e.url is None ==> kept_form(e).url == Some(Seq::<char>::empty())
        },
{
    if e.command is Some {
        assert((seq![e.command->Some_0] + e.args).drop_first() =~= e.args);
    }
}

/// The value that is written for a definition stands for what the format keeps of it, and has no
/// `enabled` flag.
pub proof fn law_rendered_value_stands_for_the_definition(e: EntryDef)
    requires
        keys_ascend(e.env),
    ensures
        definition(e.name, rendered(e)) == kept_form(e),
        member(rendered(e), "enabled"@) is None,
        rendered(e) is Object,
{
    lemma_definition(e);
    reveal_strlit("command");
    reveal_strlit("environment");
    reveal_strlit("type");
    reveal_strlit("url");
    reveal_strlit("enabled");
    assert("enabled"@.len() == 7 && "command"@.len() == 7 && "environment"@.len() == 11 && "type"@.len()
        == 4 && "url"@.len() == 3);
    assert("enabled"@[0] == 'e' && "command"@[0] == 'c');
    reveal_with_fuel(lookup, 4);
}

} // verus!
