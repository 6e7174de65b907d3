//! Surgical writer for OpenCode's `opencode.json` — the top-level `mcp` object of an
//! otherwise unrelated config file (`provider`/`$schema`/unknown keys stay byte-exact).
//!
//! * Entries live in `"mcp": { <name>: { … } }`.
//! * `type:"local"` carries a merged `command` array (program + args) and an optional
//!   `environment` object; `type:"remote"` carries `url`. Remote entries read back as
//!   "http", a "streamable-http" definition too: opencode has no separate label.
//! * The native `enabled` flag is never emitted: sync state is entry presence alone.
//!
//! Every operation parses the input strictly first: JSONC (comments, trailing commas) is
//! refused with [`AgentWriteError::Unsafe`]. Every produced text is parsed again and must
//! carry the expected member state before it is returned.

use vstd::prelude::*;
use vstd::utf8::*;
use crate::bytes::{
    at_char, cut, lemma_boundary_after_ascii, lemma_boundary_at_ascii, piece, text_before,
    text_between, text_from,
};
use crate::env_map::{bind_all, keys_ascend, EnvMap};
use crate::json::{
    compact, json_document, json_string, json_text, member, member_keys_ascend, ordered, parse_json,
    plain, quoted, same_json, text_member, text_of, tree, Json, JsonTree,
};
use crate::mcp_inventory::{normalize_transport, transport_of};
use crate::mcp_writers::{
    text_outcome, AgentWriteError, EntryDef, McpEntryDef, McpWriter, WriteError,
};
use crate::mcp_writers::json_edit::{before_space, cut_range};
use crate::mcp_writers::json_span::{
    byte_at, collect_members, cuttable, find_member, member_of, object_at, object_members,
    object_start, skip_ws, well_formed, Member, MemberSpan,
};
use crate::mcp_writers::opencode_laws::{
    goes_behind_others, law_remove_undoes_append, law_upsert_again_changes_nothing,
    lemma_remove_reads_back, lemma_root_keeps_itself, lemma_upsert_reads_back, named_once,
    reads_back, renders, root_keeps,
};
use crate::text::{same, texts};

verus! {

/// A minimal valid opencode.json with an empty managed section — the seed for a missing file
/// and the scratch for render-normalization questions.
pub const EMPTY_DOC: &'static str = "{\n  \"mcp\": {}\n}";

/// Writer for the OpenCode agent key.
pub struct OpenCodeWriter;

pub open spec fn text_trees(s: Seq<Seq<char>>) -> Seq<JsonTree> {
    Seq::new(s.len(), |i: int| JsonTree::Text(s[i]))
}

pub open spec fn env_tree(env: Seq<(Seq<char>, Seq<char>)>) -> JsonTree {
    JsonTree::Object(Seq::new(env.len(), |i: int| (env[i].0, JsonTree::Text(env[i].1))))
}

/// Program and arguments in one list.
pub open spec fn command_parts(entry: EntryDef) -> Seq<Seq<char>> {
    match entry.command {
        Some(program) => seq![program] + entry.args,
        None => entry.args,
    }
}

/// The object value stored under `"mcp": { <name>: … }` for an entry.
pub open spec fn rendered(entry: EntryDef) -> JsonTree {
    let command = ("command"@, JsonTree::List(text_trees(command_parts(entry))));
    let local = ("type"@, JsonTree::Text("local"@));
    if entry.transport != "stdio"@ {
        JsonTree::Object(
            seq![
                ("type"@, JsonTree::Text("remote"@)),
                (
                    "url"@,
                    JsonTree::Text(
                        match entry.url {
                            Some(url) => url,
                            None => Seq::empty(),
                        },
                    ),
                ),
            ],
        )
    } else if entry.env.len() == 0 {
        JsonTree::Object(seq![command, local])
    } else {
        JsonTree::Object(seq![command, ("environment"@, env_tree(entry.env)), local])
    }
}

/// The `"name": { … }` member text, compact value form.
pub open spec fn rendered_member(entry: EntryDef) -> Seq<char> {
    quoted(entry.name) + ": "@ + compact(rendered(entry))
}

/// A text with what lies between two byte offsets replaced.
pub open spec fn spliced(text: Seq<char>, from: int, to: int, with: Seq<char>) -> Seq<char> {
    text_before(text, from) + with + text_from(text, to)
}

pub open spec fn invalid_json(message: Seq<char>) -> WriteError {
    WriteError::Unsafe(
        "opencode.json contains comments or invalid JSON (refusing to rewrite it): "@ + message,
    )
}

pub open spec fn root_not_object() -> WriteError {
    WriteError::Unsafe("opencode.json root is not a JSON object"@)
}

pub open spec fn section_not_object() -> WriteError {
    WriteError::Unsafe("opencode.json `mcp` section is not a JSON object"@)
}

/// The text of a file with `entry` spliced in, before it is validated: in place of the value
/// of the same name, else behind the last entry, else as the only entry, else in a new
/// section in front of everything.
pub open spec fn with_entry(text: Seq<char>, root: JsonTree, root_at: int, entry: EntryDef) -> Result<
    Seq<char>,
    WriteError,
> {
    let b = encode_utf8(text);
    match member_of(b, root_at, "mcp"@) {
        None => {
            let section = "\"mcp\": { "@ + rendered_member(entry) + " }"@;
            let empty = root matches JsonTree::Object(ms) && ms.len() == 0;
            Ok(
                spliced(
                    text,
                    root_at + 1,
                    root_at + 1,
                    if empty {
                        " "@ + section + " "@
                    } else {
                        "\n  "@ + section + ","@
                    },
                ),
            )
        },
        Some(mcp) => match object_at(b, mcp.value) {
            None => Err(section_not_object()),
            Some(at) => match member_of(b, at, entry.name) {
                Some(old) => Ok(spliced(text, old.value, old.end, compact(rendered(entry)))),
                None => match object_members(b, at) {
                    None => Err(WriteError::Unsafe("cannot parse `mcp` object members"@)),
                    Some(ms) => if ms.len() > 0 {
                        Ok(spliced(text, ms.last().end, ms.last().end, ", "@ + rendered_member(entry)))
                    } else {
                        Ok(spliced(text, at + 1, at + 1, " "@ + rendered_member(entry) + " "@))
                    },
                },
            },
        },
    }
}

/// What the document stores for `name`.
pub open spec fn stored(doc: JsonTree, name: Seq<char>) -> Option<JsonTree> {
    match member(doc, "mcp"@) {
        Some(mcp) => member(mcp, name),
        None => None,
    }
}

/// What a text reads as by strict JSON. What reads is well formed, so that the scanner finds the
/// objects in it.
pub open spec fn strict_document(text: Seq<char>) -> Result<JsonTree, Seq<char>> {
    match json_document(text) {
        Ok(v) => if well_formed(encode_utf8(text)) {
            Ok(v)
        } else {
            Err(Seq::empty())
        },
        Err(message) => Err(message),
    }
}

/// A new text, if it reads back with `entry` in its place.
pub open spec fn checked_upsert(new_text: Seq<char>, entry: EntryDef) -> Result<
    Seq<char>,
    WriteError,
> {
    match strict_document(new_text) {
        Err(message) => Err(invalid_json(message)),
        Ok(doc) => if stored(doc, entry.name) == Some(rendered(entry)) {
            Ok(new_text)
        } else {
            Err(
                WriteError::Unsafe(
                    "internal error: opencode.json did not validate after upsert of `"@ + entry.name
                        + "`"@,
                ),
            )
        },
    }
}

pub open spec fn opencode_upserted(text: Seq<char>, entry: EntryDef) -> Result<
    Seq<char>,
    WriteError,
> {
    match strict_document(text) {
        Err(message) => Err(invalid_json(message)),
        Ok(root) => match object_at(encode_utf8(text), 0) {
            Some(root_at) if root is Object => match with_entry(text, root, root_at, entry) {
                Ok(new_text) => checked_upsert(new_text, entry),
                Err(e) => Err(e),
            },
            _ => Err(root_not_object()),
        },
    }
}

/// A new text, if it reads back without `name`.
pub open spec fn checked_remove(new_text: Seq<char>, name: Seq<char>) -> Result<
    Seq<char>,
    WriteError,
> {
    match strict_document(new_text) {
        Err(message) => Err(invalid_json(message)),
        Ok(doc) => if stored(doc, name) is None {
            Ok(new_text)
        } else {
            Err(
                WriteError::Unsafe(
                    "internal error: opencode.json still contains `"@ + name + "` after remove"@,
                ),
            )
        },
    }
}

/// The member of `name` in the `mcp` section of a text that reads as JSON.
pub open spec fn located(text: Seq<char>, name: Seq<char>) -> Result<Option<Member>, WriteError> {
    let b = encode_utf8(text);
    match strict_document(text) {
        Err(message) => Err(invalid_json(message)),
        Ok(_) => match object_at(b, 0) {
            None => Err(root_not_object()),
            Some(root_at) => match member_of(b, root_at, "mcp"@) {
                None => Ok(None),
                Some(mcp) => match object_at(b, mcp.value) {
                    None => Err(section_not_object()),
                    Some(at) => Ok(member_of(b, at, name)),
                },
            },
        },
    }
}

pub open spec fn opencode_removed(text: Seq<char>, name: Seq<char>) -> Result<
    Seq<char>,
    WriteError,
> {
    match located(text, name) {
        Err(e) => Err(e),
        Ok(None) => Ok(text),
        Ok(Some(m)) => {
            let (from, to) = cut_range(encode_utf8(text), m);
            checked_remove(spliced(text, from, to, Seq::empty()), name)
        },
    }
}

/// The texts among the items of a list.
pub open spec fn text_items(items: Seq<JsonTree>) -> Seq<Seq<char>>
    decreases items.len(),
{
    if items.len() == 0 {
        Seq::empty()
    } else {
        let before = text_items(items.drop_last());
        match text_of(items.last()) {
            Some(s) => before.push(s),
            None => before,
        }
    }
}

/// Program and arguments as a command value holds them.
pub open spec fn command_of(v: Option<JsonTree>) -> (Option<Seq<char>>, Seq<Seq<char>>) {
    match v {
        Some(JsonTree::List(items)) => {
            let parts = text_items(items);
            if parts.len() == 0 {
                (None, parts)
            } else {
                (Some(parts[0]), parts.drop_first())
            }
        },
        Some(JsonTree::Text(program)) => (Some(program), Seq::empty()),
        _ => (None, Seq::empty()),
    }
}

/// Names and values: a value that is no text by its JSON.
pub open spec fn env_pairs(members: Seq<(Seq<char>, JsonTree)>) -> Seq<(Seq<char>, Seq<char>)> {
    Seq::new(
        members.len(),
        |i: int|
            (
                members[i].0,
                match text_of(members[i].1) {
                    Some(s) => s,
                    None => compact(members[i].1),
                },
            ),
    )
}

pub open spec fn env_of(v: Option<JsonTree>) -> Seq<(Seq<char>, Seq<char>)> {
    match v {
        Some(JsonTree::Object(members)) => bind_all(env_pairs(members)),
        _ => Seq::empty(),
    }
}

/// The definition that a stored object stands for.
pub open spec fn definition(name: Seq<char>, v: JsonTree) -> EntryDef {
    let url = text_member(v, "url"@);
    let (command, args) = command_of(member(v, "command"@));
    EntryDef {
        name,
        transport: transport_of(text_member(v, "type"@), url is Some, command is Some),
        command,
        args,
        url,
        env: env_of(member(v, "environment"@)),
    }
}

pub open spec fn opencode_entry_in(text: Seq<char>, name: Seq<char>) -> Result<
    Option<EntryDef>,
    WriteError,
> {
    match located(text, name) {
        Err(e) => Err(e),
        Ok(None) => Ok(None),
        Ok(Some(m)) => match json_document(text_between(text, m.value, m.end)) {
            Err(message) => Err(invalid_json(message)),
            Ok(v) => if v is Object {
                Ok(Some(definition(name, v)))
            } else {
                Err(WriteError::Unsafe("opencode.json `"@ + name + "` is not an object"@))
            },
        },
    }
}

fn refused(message: &str) -> (r: AgentWriteError)
    ensures
        r@ == WriteError::Unsafe(message@),
{
    AgentWriteError::Unsafe(message.to_owned())
}

/// Strict JSON gate: no comments and no trailing commas.
fn parse_strict(text: &str) -> (r: Result<Json, AgentWriteError>)
    ensures
        match r {
            Ok(json) => strict_document(text@) == Ok::<JsonTree, Seq<char>>(json@) && ordered(json@),
            Err(e) => strict_document(text@) matches Err(message) && json_document(text@) == Err::<
                JsonTree,
                Seq<char>,
            >(message) && e@ == invalid_json(message),
        },
{
    match parse_json(text) {
        Ok(json) => Ok(json),
        Err(message) => {
            let mut m =
                "opencode.json contains comments or invalid JSON (refusing to rewrite it): ".to_owned();
            m.append(message.as_str());
            Err(AgentWriteError::Unsafe(m))
        },
    }
}

fn text_values(list: &Vec<String>, head: &Option<String>) -> (r: Vec<Json>)
    ensures
        tree(Json::List(r)) == JsonTree::List(
            text_trees(
                match head.deep_view() {
                    Some(h) => seq![h] + texts(list@),
                    None => texts(list@),
                },
            ),
        ),
{
    let mut r: Vec<Json> = Vec::new();
    let ghost mut parts: Seq<Seq<char>> = Seq::empty();
    if let Some(h) = head {
        r.push(Json::Text(h.clone()));
        proof {
            parts = seq![h@];
        }
    }
    let ghost first = parts;
    let mut i: usize = 0;
    proof {
        reveal_with_fuel(tree, 2);
    }
    while i < list.len()
        invariant
            i <= list.len(),
            parts == first + texts(list@).take(i as int),
            r@.len() == parts.len(),
            forall|k: int| 0 <= k < parts.len() ==> tree(#[trigger] r@[k]) == JsonTree::Text(parts[k]),
        decreases list.len() - i,
    {
        let item = Json::Text(list[i].clone());
        assert(tree(item) == JsonTree::Text(list@[i as int]@));
        r.push(item);
        proof {
            parts = parts.push(list@[i as int]@);
            assert(parts =~= first + texts(list@).take(i + 1));
        }
        i = i + 1;
    }
    proof {
        assert(texts(list@).take(i as int) =~= texts(list@));
        assert(first + texts(list@) =~= match head.deep_view() {
            Some(h) => seq![h] + texts(list@),
            None => texts(list@),
        });
        reveal_with_fuel(tree, 2);
        assert(tree(Json::List(r))->List_0 =~= text_trees(parts));
    }
    r
}

fn env_value(env: &EnvMap) -> (r: Json)
    ensures
        r@ == env_tree(env@),
{
    let mut members: Vec<(String, Json)> = Vec::new();
    let mut i: usize = 0;
    let n: usize = env.len();
    proof {
        reveal_with_fuel(tree, 2);
    }
    while i < n
        invariant
            i <= n,
            n == env@.len(),
            members@.len() == i,
            forall|k: int|
                0 <= k < i ==> (#[trigger] members@[k]).0@ == env@[k].0 && tree(members@[k].1)
                    == JsonTree::Text(env@[k].1),
        decreases n - i,
    {
        let item = Json::Text(env.value_at(i).clone());
        assert(tree(item) == JsonTree::Text(env@[i as int].1));
        members.push((env.key_at(i).clone(), item));
        i = i + 1;
    }
    let r = Json::Object(members);
    proof {
        reveal_with_fuel(tree, 2);
        assert(r@->Object_0 =~= env_tree(env@)->Object_0);
    }
    r
}

/// A rendered value has its keys in order and no number in it.
proof fn lemma_rendered(entry: EntryDef)
    requires
        keys_ascend(entry.env),
    ensures
        ordered(rendered(entry)),
        plain(rendered(entry), 100),
{
    reveal_strlit("command");
    reveal_strlit("environment");
    reveal_strlit("type");
    reveal_strlit("url");
    reveal_with_fuel(ordered, 4);
    reveal_with_fuel(plain, 4);
    let parts = text_trees(command_parts(entry));
    let list = JsonTree::List(parts);
    assert(ordered(list) && plain(list, 99));
    let env = env_tree(entry.env);
    let pairs = env->Object_0;
    assert(member_keys_ascend(pairs)) by {
        assert forall|i: int, j: int| 0 <= i < j < pairs.len() implies crate::order::lex_less(
            (#[trigger] pairs[i]).0,
            (#[trigger] pairs[j]).0,
        ) by {
            assert(crate::order::lex_less(entry.env[i].0, entry.env[j].0));
        }
    }
    assert(ordered(env) && plain(env, 99));
    let ms = rendered(entry)->Object_0;
    assert(member_keys_ascend(ms));
    assert forall|i: int| 0 <= i < ms.len() implies ordered((#[trigger] ms[i]).1) && plain(
        ms[i].1,
        99,
    ) by {}
}

/// The object value stored under `"mcp": { <name>: … }` for `entry`.
fn render_value(entry: &McpEntryDef) -> (r: Json)
    ensures
        r@ == rendered(entry@),
        ordered(r@),
        plain(r@, 100),
{
    let mut members: Vec<(String, Json)> = Vec::new();
    let no_env = entry.env.is_empty();
    proof {
        reveal_with_fuel(tree, 2);
    }
    if same(entry.transport.as_str(), "stdio") {
        members.push(("command".to_owned(), Json::List(text_values(&entry.args, &entry.command))));
        if !no_env {
            members.push(("environment".to_owned(), env_value(&entry.env)));
        }
        members.push(("type".to_owned(), Json::Text("local".to_owned())));
    } else {
        members.push(("type".to_owned(), Json::Text("remote".to_owned())));
        let url = match &entry.url {
            Some(url) => url.clone(),
            None => String::new(),
        };
        members.push(("url".to_owned(), Json::Text(url)));
    }
    let r = Json::Object(members);
    proof {
        assert(r@->Object_0 =~= rendered(entry@)->Object_0);
        lemma_rendered(entry@);
    }
    r
}

/// Full `"name": { … }` member text, compact value form.
fn render_member(entry: &McpEntryDef) -> (r: String)
    ensures
        r@ == rendered_member(entry@),
        renders(entry@),
{
    let no_env = entry.env.is_empty();
    let mut r = json_string(entry.name.as_str());
    r.append(": ");
    r.append(json_text(&render_value(entry)).as_str());
    r
}

fn splice(text: &str, from: usize, to: usize, with: &str) -> (r: String)
    requires
        at_char(text@, from as int),
        at_char(text@, to as int),
    ensures
        r@ == spliced(text@, from as int, to as int, with@),
{
    let mut r = cut(text, from).0.to_owned();
    r.append(with);
    r.append(cut(text, to).1);
    r
}

/// The place after the `{` at `at` is one where the text can be cut.
proof fn lemma_inside_object(text: Seq<char>, at: int)
    requires
        byte_at(encode_utf8(text), at) == Some(0x7bu8),
    ensures
        at_char(text, at + 1),
{
    encode_utf8_valid_utf8(text);
    lemma_boundary_after_ascii(encode_utf8(text), at + 1);
}

fn insert_entry(file_text: &str, root: &Json, root_obj: usize, entry: &McpEntryDef) -> (r: Result<
    String,
    AgentWriteError,
>)
    requires
        object_at(encode_utf8(file_text@), 0) == Some(root_obj as int),
    ensures
        text_outcome(r) == with_entry(file_text@, root@, root_obj as int, entry@),
        renders(entry@),
{
    let bytes = file_text.as_bytes();
    let member_text = render_member(entry);
    assert(root_obj < bytes.len());
    match find_member(file_text, root_obj, "mcp") {
        None => {
            proof {
                lemma_inside_object(file_text@, root_obj as int);
                reveal_with_fuel(tree, 2);
            }
            let empty = match root {
                Json::Object(members) => members.len() == 0,
                _ => false,
            };
            let mut section = if empty {
                " ".to_owned()
            } else {
                "\n  ".to_owned()
            };
            let mut inner = "\"mcp\": { ".to_owned();
            inner.append(member_text.as_str());
            inner.append(" }");
            section.append(inner.as_str());
            if empty {
                section.append(" ");
            } else {
                section.append(",");
            }
            Ok(splice(file_text, root_obj + 1, root_obj + 1, section.as_str()))
        },
        Some(mcp) => {
            let mcp_obj: usize = match object_start(file_text, mcp.value_start) {
                Some(at) => at,
                None => {
                    return Err(refused("opencode.json `mcp` section is not a JSON object"));
                },
            };
            match find_member(file_text, mcp_obj, entry.name.as_str()) {
                Some(existing) => Ok(
                    splice(
                        file_text,
                        existing.value_start,
                        existing.value_end,
                        json_text(&render_value(entry)).as_str(),
                    ),
                ),
                None => match collect_members(file_text, mcp_obj) {
                    None => Err(refused("cannot parse `mcp` object members")),
                    Some(members) => {
                        if members.len() > 0 {
                            let last = members[members.len() - 1];
                            assert(cuttable(
                                file_text@,
                                object_members(
                                    encode_utf8(file_text@),
                                    mcp_obj as int,
                                ).unwrap().last(),
                            ));
                            assert(last.is_at(object_members(encode_utf8(file_text@), mcp_obj as int).unwrap().last()));
                            let mut with = ", ".to_owned();
                            with.append(member_text.as_str());
                            Ok(splice(file_text, last.member_end, last.member_end, with.as_str()))
                        } else {
                            proof {
                                lemma_inside_object(file_text@, mcp_obj as int);
                            }
                            assert(mcp_obj < bytes.len());
                            let mut with = " ".to_owned();
                            with.append(member_text.as_str());
                            with.append(" ");
                            Ok(splice(file_text, mcp_obj + 1, mcp_obj + 1, with.as_str()))
                        }
                    },
                },
            }
        },
    }
}

fn stored_value<'a>(doc: &'a Json, name: &str) -> (r: Option<&'a Json>)
    ensures
        match r {
            Some(v) => stored(doc@, name@) == Some(v@),
            None => stored(doc@, name@) is None,
        },
{
    match doc.get("mcp") {
        Some(mcp) => mcp.get(name),
        None => None,
    }
}

fn validate_upsert(new_text: String, entry: &McpEntryDef) -> (r: Result<String, AgentWriteError>)
    ensures
        text_outcome(r) == checked_upsert(new_text@, entry@),
{
    let doc = match parse_strict(new_text.as_str()) {
        Ok(doc) => doc,
        Err(e) => {
            return Err(e);
        },
    };
    let expected = render_value(entry);
    let valid = match stored_value(&doc, entry.name.as_str()) {
        Some(v) => same_json(v, &expected),
        None => false,
    };
    if valid {
        Ok(new_text)
    } else {
        let mut m = "internal error: opencode.json did not validate after upsert of `".to_owned();
        m.append(entry.name.as_str());
        m.append("`");
        Err(AgentWriteError::Unsafe(m))
    }
}

fn validate_remove(new_text: String, name: &str) -> (r: Result<String, AgentWriteError>)
    ensures
        text_outcome(r) == checked_remove(new_text@, name@),
{
    let doc = match parse_strict(new_text.as_str()) {
        Ok(doc) => doc,
        Err(e) => {
            return Err(e);
        },
    };
    if stored_value(&doc, name).is_some() {
        let mut m = "internal error: opencode.json still contains `".to_owned();
        m.append(name);
        m.append("` after remove");
        Err(AgentWriteError::Unsafe(m))
    } else {
        Ok(new_text)
    }
}

fn locate(file_text: &str, name: &str) -> (r: Result<Option<MemberSpan>, AgentWriteError>)
    ensures
        match r {
            Ok(Some(span)) => located(file_text@, name@) matches Ok(Some(m)) && span.is_at(m)
                && cuttable(file_text@, m),
            Ok(None) => located(file_text@, name@) == Ok::<Option<Member>, WriteError>(None),
            Err(e) => located(file_text@, name@) == Err::<Option<Member>, WriteError>(e@),
        },
{
    match parse_strict(file_text) {
        Ok(_) => {},
        Err(e) => {
            return Err(e);
        },
    }
    let root_obj: usize = match object_start(file_text, 0) {
        Some(at) => at,
        None => {
            return Err(refused("opencode.json root is not a JSON object"));
        },
    };
    let mcp = match find_member(file_text, root_obj, "mcp") {
        Some(mcp) => mcp,
        None => {
            return Ok(None);
        },
    };
    let mcp_obj: usize = match object_start(file_text, mcp.value_start) {
        Some(at) => at,
        None => {
            return Err(refused("opencode.json `mcp` section is not a JSON object"));
        },
    };
    Ok(find_member(file_text, mcp_obj, name))
}

/// Cut the member plus one adjacent comma separator: prefer the trailing comma, fall back to
/// the leading one. The only member has no comma at all.
fn member_cut(file_text: &str, member: &MemberSpan) -> (r: (usize, usize))
    requires
        exists|m: Member| member.is_at(m) && cuttable(file_text@, m),
    ensures
        forall|m: Member|
            member.is_at(m) ==> cut_range(encode_utf8(file_text@), m) == (r.0 as int, r.1 as int),
        at_char(file_text@, r.0 as int),
        at_char(file_text@, r.1 as int),
{
    let bytes = file_text.as_bytes();
    let ghost b = encode_utf8(file_text@);
    let ghost m = choose|m: Member| member.is_at(m) && cuttable(file_text@, m);
    let after: usize = skip_ws(file_text, member.member_end);
    proof {
        encode_utf8_valid_utf8(file_text@);
    }
    if after < bytes.len() && bytes[after] == 0x2c {
        proof {
            lemma_boundary_after_ascii(b, after + 1);
        }
        return (member.member_start, after + 1);
    }
    let mut before: usize = member.member_start;
    while before > 0 && (bytes[before - 1] == 0x20 || bytes[before - 1] == 0x09 || bytes[before - 1]
        == 0x0a || bytes[before - 1] == 0x0d)
        invariant
            before <= member.member_start <= bytes.len(),
            bytes@ == b,
            before_space(b, member.member_start as int) == before_space(b, before as int),
        decreases before,
    {
        before = before - 1;
    }
    if before > 0 && bytes[before - 1] == 0x2c {
        proof {
            lemma_boundary_at_ascii(b, before - 1);
        }
        (before - 1, member.member_end)
    } else {
        (member.member_start, member.member_end)
    }
}

pub fn text_parts(items: &Vec<Json>) -> (r: Vec<String>)
    ensures
        tree(Json::List(*items)) matches JsonTree::List(trees) && texts(r@) == text_items(trees),
{
    let mut r: Vec<String> = Vec::new();
    let mut i: usize = 0;
    let ghost trees = tree(Json::List(*items))->List_0;
    proof {
        reveal_with_fuel(tree, 2);
        assert(texts(r@) =~= text_items(trees.take(0)));
    }
    while i < items.len()
        invariant
            i <= items.len(),
            trees.len() == items.len(),
            forall|k: int| 0 <= k < trees.len() ==> #[trigger] trees[k] == tree(items@[k]),
            texts(r@) == text_items(trees.take(i as int)),
        decreases items.len() - i,
    {
        let ghost before = r@;
        proof {
            assert(trees.take(i + 1).drop_last() =~= trees.take(i as int));
            assert(trees.take(i + 1).last() == trees[i as int]);
        }
        if let Some(s) = items[i].as_str() {
            r.push(s.clone());
            assert(texts(r@) =~= texts(before).push(s@));
        }
        i = i + 1;
    }
    assert(trees.take(i as int) =~= trees);
    r
}

fn read_command(value: Option<&Json>) -> (r: (Option<String>, Vec<String>))
    ensures
        (r.0.deep_view(), texts(r.1@)) == command_of(
            match value {
                Some(v) => Some(v@),
                None => None,
            },
        ),
{
    proof {
        reveal_with_fuel(tree, 2);
    }
    let mut args: Vec<String> = Vec::new();
    assert(texts(args@) =~= Seq::<Seq<char>>::empty());
    let value = match value {
        Some(value) => value,
        None => {
            return (None, args);
        },
    };
    match value {
        Json::List(items) => {
            assert(*value == Json::List(*items));
            let parts = text_parts(items);
            if parts.len() == 0 {
                return (None, parts);
            }
            let mut i: usize = 1;
            while i < parts.len()
                invariant
                    1 <= i <= parts.len(),
                    args@.len() == i - 1,
                    forall|k: int| 0 <= k < args@.len() ==> (#[trigger] args@[k])@ == parts@[k + 1]@,
                decreases parts.len() - i,
            {
                args.push(parts[i].clone());
                i = i + 1;
            }
            assert(texts(args@) =~= texts(parts@).drop_first());
            (Some(parts[0].clone()), args)
        },
        Json::Text(program) => (Some(program.clone()), args),
        _ => (None, args),
    }
}

fn read_env(value: Option<&Json>) -> (r: EnvMap)
    requires
        value matches Some(v) ==> ordered(v@),
    ensures
        r@ == env_of(
            match value {
                Some(v) => Some(v@),
                None => None,
            },
        ),
{
    let mut env = EnvMap::new();
    proof {
        reveal_with_fuel(tree, 2);
    }
    let value = match value {
        Some(value) => value,
        None => {
            return env;
        },
    };
    if let Json::Object(members) = value {
        assert(*value == Json::Object(*members));
        let ghost ms = value@->Object_0;
        let ghost pairs = env_pairs(ms);
        let mut i: usize = 0;
        assert(pairs.take(0) =~= Seq::<(Seq<char>, Seq<char>)>::empty());
        while i < members.len()
            invariant
                i <= members.len(),
                ms.len() == members.len(),
                pairs == env_pairs(ms),
                forall|k: int|
                    0 <= k < ms.len() ==> #[trigger] ms[k] == (members@[k].0@, tree(members@[k].1)),
                forall|k: int| 0 <= k < ms.len() ==> ordered((#[trigger] ms[k]).1),
                env@ == bind_all(pairs.take(i as int)),
            decreases members.len() - i,
        {
            assert(ms[i as int].1 == members@[i as int].1@);
            let text = match members[i].1.as_str() {
                Some(s) => s.clone(),
                None => json_text(&members[i].1),
            };
            proof {
                assert(pairs.take(i + 1).drop_last() =~= pairs.take(i as int));
                assert(pairs.take(i + 1).last() == pairs[i as int]);
            }
            env.insert(members[i].0.clone(), text);
            i = i + 1;
        }
        assert(pairs.take(i as int) =~= pairs);
    }
    env
}

fn read_definition(name: &str, object: &Json) -> (r: McpEntryDef)
    requires
        ordered(object@),
    ensures
        r@ == definition(name@, object@),
{
    let raw_type = match object.get("type") {
        Some(v) => match v.as_str() {
            Some(s) => Some(s.as_str()),
            None => None,
        },
        None => None,
    };
    let url = match object.get("url") {
        Some(v) => match v.as_str() {
            Some(s) => Some(s.clone()),
            None => None,
        },
        None => None,
    };
    let (command, args) = read_command(object.get("command"));
    let env = read_env(object.get("environment"));
    McpEntryDef {
        name: name.to_owned(),
        transport: normalize_transport(raw_type, url.is_some(), command.is_some()),
        command,
        args,
        url,
        env,
    }
}

impl McpWriter for OpenCodeWriter {
    open spec fn upserted(&self, text: Seq<char>, entry: EntryDef) -> Result<Seq<char>, WriteError> {
        opencode_upserted(text, entry)
    }

    open spec fn removed(&self, text: Seq<char>, name: Seq<char>) -> Result<Seq<char>, WriteError> {
        opencode_removed(text, name)
    }

    open spec fn entry_in(&self, text: Seq<char>, name: Seq<char>) -> Result<
        Option<EntryDef>,
        WriteError,
    > {
        opencode_entry_in(text, name)
    }

    open spec fn blank(&self) -> Seq<char> {
        EMPTY_DOC@
    }

    /// A write that succeeds reads back as what the format keeps of the definition, leaves what
    /// every other name reads as and every other member of the root, and done again it changes
    /// nothing. Where the entry went behind others, removing it gives the text back.
    fn upsert(&self, file_text: &str, entry: &McpEntryDef) -> (r: Result<String, AgentWriteError>)
        ensures
            r matches Ok(new_text) ==> forall|other: Seq<char>|
                #![trigger opencode_entry_in(new_text@, other)]
                reads_back(file_text@, new_text@, entry@, other),
            r matches Ok(new_text) ==> opencode_upserted(new_text@, entry@) == Ok::<
                Seq<char>,
                WriteError,
            >(new_text@),
            r is Ok ==> renders(entry@),
            r matches Ok(new_text) ==> goes_behind_others(file_text@, entry@.name)
                ==> opencode_removed(new_text@, entry@.name) == Ok::<Seq<char>, WriteError>(
                file_text@,
            ),
    {
        let root = match parse_strict(file_text) {
            Ok(root) => root,
            Err(e) => {
                return Err(e);
            },
        };
        if !root.is_object() {
            return Err(refused("opencode.json root is not a JSON object"));
        }
        let root_obj: usize = match object_start(file_text, 0) {
            Some(at) => at,
            None => {
                return Err(refused("opencode.json root is not a JSON object"));
            },
        };
        let r = match insert_entry(file_text, &root, root_obj, entry) {
            Ok(new_text) => validate_upsert(new_text, entry),
            Err(e) => Err(e),
        };
        proof {
            if let Ok(new_text) = &r {
                assert forall|other: Seq<char>|
                    #![trigger opencode_entry_in(new_text@, other)]
                    reads_back(file_text@, new_text@, entry@, other) by {
                    lemma_upsert_reads_back(file_text@, new_text@, entry@, other);
                }
                law_upsert_again_changes_nothing(file_text@, new_text@, entry@);
                if goes_behind_others(file_text@, entry@.name) {
                    law_remove_undoes_append(file_text@, new_text@, entry@);
                }
            }
        }
        r
    }

    /// A removal that succeeds leaves what every other name reads as and every other member of
    /// the root, and nothing of the name unless the section had it twice.
    fn remove(&self, file_text: &str, name: &str) -> (r: Result<String, AgentWriteError>)
        ensures
            r matches Ok(new_text) ==> forall|other: Seq<char>|
                other != name@ ==> #[trigger] opencode_entry_in(new_text@, other)
                    == opencode_entry_in(file_text@, other),
            r matches Ok(new_text) ==> named_once(file_text@, name@) ==> opencode_entry_in(
                new_text@,
                name@,
            ) == Ok::<Option<EntryDef>, WriteError>(None),
            r matches Ok(new_text) ==> forall|key: Seq<char>| #[trigger]
                root_keeps(file_text@, new_text@, key),
    {
        let member = match locate(file_text, name) {
            Ok(Some(member)) => member,
            Ok(None) => {
                proof {
                    assert forall|key: Seq<char>| #[trigger]
                        root_keeps(file_text@, file_text@, key) by {
                        lemma_root_keeps_itself(file_text@, key);
                    }
                }
                return Ok(file_text.to_owned());
            },
            Err(e) => {
                return Err(e);
            },
        };
        let (cut_start, cut_end): (usize, usize) = member_cut(file_text, &member);
        let new_text = splice(file_text, cut_start, cut_end, String::new().as_str());
        let r = validate_remove(new_text, name);
        proof {
            if let Ok(new_text) = &r {
                lemma_remove_reads_back(file_text@, new_text@, name@, name@);
                assert forall|other: Seq<char>| other != name@ implies #[trigger] opencode_entry_in(
                    new_text@,
                    other,
                ) == opencode_entry_in(file_text@, other) by {
                    lemma_remove_reads_back(file_text@, new_text@, name@, other);
                }
                assert forall|key: Seq<char>| #[trigger]
                    root_keeps(file_text@, new_text@, key) by {
                    lemma_remove_reads_back(file_text@, new_text@, name@, key);
                }
            }
        }
        r
    }

    fn read_entry(&self, file_text: &str, name: &str) -> (r: Result<
        Option<McpEntryDef>,
        AgentWriteError,
    >) {
        let member = match locate(file_text, name) {
            Ok(Some(member)) => member,
            Ok(None) => {
                return Ok(None);
            },
            Err(e) => {
                return Err(e);
            },
        };
        let value = match parse_strict(piece(file_text, member.value_start, member.value_end)) {
            Ok(value) => value,
            Err(e) => {
                return Err(e);
            },
        };
        if !value.is_object() {
            let mut m = "opencode.json `".to_owned();
            m.append(name);
            m.append("` is not an object");
            return Err(AgentWriteError::Unsafe(m));
        }
        Ok(Some(read_definition(name, &value)))
    }

    fn empty_doc(&self) -> (r: &'static str) {
        EMPTY_DOC
    }
}

} // verus!
