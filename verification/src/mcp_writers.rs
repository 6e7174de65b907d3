//! Surgical write support for agent MCP config files.
//!
//! Here lives the common vocabulary — [`McpEntryDef`], the fingerprint used for drift
//! detection, and the registry of writers by agent. Each module below implements
//! [`McpWriter`] as a pure transform of text over one config format. Writers never touch
//! the file system. A format that cannot be parsed or whose target member cannot be located
//! is refused with [`AgentWriteError::Unsafe`]; a file is never rewritten wholesale.

use vstd::prelude::*;
use crate::digest::{digest_text, hex_digest};
use crate::env_map::EnvMap;
use crate::json::{compact, compact_items, compact_members, json_string, plain, quoted, JsonTree};
use crate::json_laws::law_compact_injective;
use crate::mcp_writers::dsh_laws::law_upsert_names;
use crate::mcp_writers::dsh_yaml::DshYamlWriter;
use crate::mcp_writers::opencode_json::{env_tree, text_trees, OpenCodeWriter};
use crate::mcp_writers::opencode_laws::{lemma_upsert_reads_back, renders};
use crate::text::{same, texts};
use crate::text_lists::{copy_text, copy_texts};

pub mod dsh_block_laws;
pub mod dsh_laws;
pub mod dsh_render_laws;
pub mod dsh_shape;
pub mod dsh_slug;
pub mod dsh_yaml;
pub mod json_edit;
pub mod json_nested;
pub mod json_span;
pub mod json_span_laws;
pub mod opencode_json;
pub mod opencode_laws;
pub mod opencode_value_laws;


verus! {

/// Agent-neutral view of one MCP server definition, in the transport vocabulary normalized
/// by `mcp_inventory` (`"stdio" | "http" | "streamable-http"`). Readers hand back full env
/// values.
#[derive(Debug, PartialEq)]
pub struct McpEntryDef {
    pub name: String,
    pub transport: String,
    pub command: Option<String>,
    pub args: Vec<String>,
    pub url: Option<String>,
    pub env: EnvMap,
}

/// What an [`McpEntryDef`] holds.
#[verifier::ext_equal]
pub ghost struct EntryDef {
    pub name: Seq<char>,
    pub transport: Seq<char>,
    pub command: Option<Seq<char>>,
    pub args: Seq<Seq<char>>,
    pub url: Option<Seq<char>>,
    pub env: Seq<(Seq<char>, Seq<char>)>,
}

impl View for McpEntryDef {
    type V = EntryDef;

    open spec fn view(&self) -> EntryDef {
        EntryDef {
            name: self.name@,
            transport: self.transport@,
            command: self.command.deep_view(),
            args: texts(self.args@),
            url: self.url.deep_view(),
            env: self.env@,
        }
    }
}

impl Clone for McpEntryDef {
    fn clone(&self) -> (r: Self)
        ensures
            r@ == self@,
    {
        McpEntryDef {
            name: self.name.clone(),
            transport: self.transport.clone(),
            command: copy_text(&self.command),
            args: copy_texts(&self.args),
            url: copy_text(&self.url),
            env: self.env.clone(),
        }
    }
}

/// Failure of a writer operation on an agent config text.
#[derive(Debug)]
pub enum AgentWriteError {
    /// The file text is unparseable (e.g. JSONC comments) or the target member cannot be
    /// located: the caller must refuse this agent.
    Unsafe(String),
    /// I/O failure while replacing the file atomically.
    Io(String),
}

/// What an [`AgentWriteError`] holds.
pub ghost enum WriteError {
    Unsafe(Seq<char>),
    Io(Seq<char>),
}

impl View for AgentWriteError {
    type V = WriteError;

    open spec fn view(&self) -> WriteError {
        match self {
            AgentWriteError::Unsafe(message) => WriteError::Unsafe(message@),
            AgentWriteError::Io(message) => WriteError::Io(message@),
        }
    }
}

pub open spec fn write_error_message(e: WriteError) -> Seq<char> {
    match e {
        WriteError::Unsafe(message) => message,
        WriteError::Io(message) => message,
    }
}

impl AgentWriteError {
    pub fn message(&self) -> (r: String)
        ensures
            r@ == write_error_message(self@),
    {
        match self {
            AgentWriteError::Unsafe(message) => message.clone(),
            AgentWriteError::Io(message) => message.clone(),
        }
    }
}

pub open spec fn text_outcome(r: Result<String, AgentWriteError>) -> Result<Seq<char>, WriteError> {
    match r {
        Ok(text) => Ok(text@),
        Err(e) => Err(e@),
    }
}

pub open spec fn entry_outcome(r: Result<Option<McpEntryDef>, AgentWriteError>) -> Result<
    Option<EntryDef>,
    WriteError,
> {
    match r {
        Ok(Some(entry)) => Ok(Some(entry@)),
        Ok(None) => Ok(None),
        Err(e) => Err(e@),
    }
}

/// A text, or null.
pub open spec fn optional_text(s: Option<Seq<char>>) -> JsonTree {
    match s {
        Some(t) => JsonTree::Text(t),
        None => JsonTree::Null,
    }
}

/// A definition as a JSON object, its fields in the order of their declaration.
pub open spec fn entry_tree(e: EntryDef) -> JsonTree {
    JsonTree::Object(
        seq![
            ("name"@, JsonTree::Text(e.name)),
            ("transport"@, JsonTree::Text(e.transport)),
            ("command"@, optional_text(e.command)),
            ("args"@, JsonTree::List(text_trees(e.args))),
            ("url"@, optional_text(e.url)),
            ("env"@, env_tree(e.env)),
        ],
    )
}

/// The canonical encoding of a definition.
pub open spec fn canonical(e: EntryDef) -> Seq<char> {
    compact(entry_tree(e))
}

pub open spec fn fingerprint(e: EntryDef) -> Seq<char> {
    digest_text(canonical(e))
}

/// The canonical encoding tells any two definitions apart.
pub proof fn law_canonical_injective(a: EntryDef, b: EntryDef)
    requires
        canonical(a) == canonical(b),
    ensures
        a == b,
{
    let v = entry_tree(a);
    let w = entry_tree(b);
    reveal_with_fuel(plain, 4);
    lemma_entry_plain(a);
    lemma_entry_plain(b);
    law_compact_injective(v, w, 3);
    let x = v->Object_0;
    let y = w->Object_0;
    assert(x == y);
    assert(x[0] == y[0] && x[1] == y[1] && x[2] == y[2] && x[3] == y[3] && x[4] == y[4] && x[5]
        == y[5]);
    assert(a.args =~= b.args) by {
        assert(text_trees(a.args) == text_trees(b.args));
        assert(text_trees(a.args).len() == a.args.len());
        assert forall|i: int| 0 <= i < a.args.len() implies a.args[i] == b.args[i] by {
            assert(text_trees(a.args)[i] == text_trees(b.args)[i]);
        }
    }
    assert(a.env =~= b.env) by {
        let p = env_tree(a.env)->Object_0;
        let q = env_tree(b.env)->Object_0;
        assert(p == q);
        assert(p.len() == a.env.len());
        assert forall|i: int| 0 <= i < a.env.len() implies a.env[i] == b.env[i] by {
            assert(p[i] == q[i]);
        }
    }
}

proof fn lemma_entry_plain(e: EntryDef)
    ensures
        plain(entry_tree(e), 3),
{
    reveal_with_fuel(plain, 4);
    let ms = entry_tree(e)->Object_0;
    assert(plain(JsonTree::List(text_trees(e.args)), 2));
    assert(plain(env_tree(e.env), 2));
    assert forall|i: int| 0 <= i < ms.len() implies plain((#[trigger] ms[i]).1, 2) by {}
}

fn append_optional(out: &mut String, s: &Option<String>)
    ensures
        final(out)@ == old(out)@ + compact(optional_text(s.deep_view())),
{
    match s {
        Some(t) => {
            out.append(json_string(t.as_str()).as_str());
        },
        None => {
            proof {
                reveal_strlit("null");
                assert("null"@ =~= seq!['n', 'u', 'l', 'l']);
            }
            out.append("null");
        },
    }
}

fn append_list(out: &mut String, list: &Vec<String>)
    ensures
        final(out)@ == old(out)@ + compact(JsonTree::List(text_trees(texts(list@)))),
{
    let ghost start = out@;
    let ghost trees = text_trees(texts(list@));
    out.push('[');
    let mut i: usize = 0;
    if list.len() > 0 {
        out.append(json_string(list[0].as_str()).as_str());
        i = 1;
        proof {
            assert(trees.skip(1) =~= trees.drop_first());
            assert(trees[0] == JsonTree::Text(list@[0]@));
            assert(start.push('[') =~= start + seq!['[']);
            assert(start + seq!['['] + compact(trees[0]) + compact_items(trees.skip(1)) =~= start + (
            seq!['['] + compact(trees[0]) + compact_items(trees.drop_first())));
        }
        while i < list.len()
            invariant
                1 <= i <= list.len(),
                trees == text_trees(texts(list@)),
                start + (seq!['['] + compact(trees[0]) + compact_items(trees.drop_first())) == out@
                    + compact_items(trees.skip(i as int)),
            decreases list.len() - i,
        {
            let ghost before = out@;
            out.push(',');
            out.append(json_string(list[i].as_str()).as_str());
            proof {
                let t = trees.skip(i as int);
                assert(t[0] == JsonTree::Text(list@[i as int]@));
                assert(compact(t[0]) == quoted(list@[i as int]@));
                assert(t.drop_first() =~= trees.skip(i + 1));
                assert(before.push(',') =~= before + seq![',']);
                assert(before + compact_items(t) =~= out@ + compact_items(trees.skip(i + 1)));
            }
            i = i + 1;
        }
        proof {
            assert(trees.skip(i as int) =~= Seq::<JsonTree>::empty());
            assert(out@ + compact_items(trees.skip(i as int)) =~= out@);
        }
    }
    let ghost before = out@;
    out.push(']');
    proof {
        assert(before.push(']') =~= before + seq![']']);
        assert(out@ =~= start + compact(JsonTree::List(trees)));
    }
}

fn append_env(out: &mut String, env: &EnvMap)
    ensures
        final(out)@ == old(out)@ + compact(env_tree(env@)),
{
    let ghost start = out@;
    let ghost ms = env_tree(env@)->Object_0;
    out.push('{');
    let n: usize = env.len();
    let mut i: usize = 0;
    if n > 0 {
        out.append(json_string(env.key_at(0).as_str()).as_str());
        out.push(':');
        out.append(json_string(env.value_at(0).as_str()).as_str());
        i = 1;
        proof {
            assert(ms.skip(1) =~= ms.drop_first());
            assert(ms[0] == (env@[0].0, JsonTree::Text(env@[0].1)));
            assert(out@ =~= start + (seq!['{'] + quoted(ms[0].0) + seq![':'] + compact(ms[0].1)));
            assert(out@ + compact_members(ms.skip(1)) =~= start + (seq!['{'] + quoted(ms[0].0) + seq![
                ':',
            ] + compact(ms[0].1) + compact_members(ms.drop_first())));
        }
        while i < n
            invariant
                1 <= i <= n,
                n == env@.len(),
                ms == env_tree(env@)->Object_0,
                start + (seq!['{'] + quoted(ms[0].0) + seq![':'] + compact(ms[0].1)
                    + compact_members(ms.drop_first())) == out@ + compact_members(
                    ms.skip(i as int),
                ),
            decreases n - i,
        {
            let ghost before = out@;
            out.push(',');
            out.append(json_string(env.key_at(i).as_str()).as_str());
            out.push(':');
            out.append(json_string(env.value_at(i).as_str()).as_str());
            proof {
                let t = ms.skip(i as int);
                assert(t[0] == (env@[i as int].0, JsonTree::Text(env@[i as int].1)));
                assert(t.drop_first() =~= ms.skip(i + 1));
                assert(out@ =~= before + (seq![','] + quoted(t[0].0) + seq![':'] + compact(t[0].1)));
                assert(before + compact_members(t) =~= out@ + compact_members(ms.skip(i + 1)));
            }
            i = i + 1;
        }
        proof {
            assert(ms.skip(i as int) =~= Seq::<(Seq<char>, JsonTree)>::empty());
            assert(out@ + compact_members(ms.skip(i as int)) =~= out@);
        }
    }
    let ghost before = out@;
    out.push('}');
    proof {
        assert(before.push('}') =~= before + seq!['}']);
        assert(out@ =~= start + compact(env_tree(env@)));
    }
}

fn append_key(out: &mut String, key: &str)
    ensures
        final(out)@ == old(out)@ + quoted(key@) + seq![':'],
{
    out.append(json_string(key).as_str());
    out.push(':');
    assert(out@ =~= old(out)@ + quoted(key@) + seq![':']);
}

fn append_comma_key(out: &mut String, key: &str)
    ensures
        final(out)@ == old(out)@ + seq![','] + quoted(key@) + seq![':'],
{
    out.push(',');
    assert(out@ =~= old(out)@ + seq![',']);
    append_key(out, key);
}

// One member of an object after another.
proof fn lemma_next_member(ms: Seq<(Seq<char>, JsonTree)>, k: int, out: Seq<char>)
    requires
        0 <= k < ms.len(),
    ensures
        out + compact_members(ms.skip(k)) == out + seq![','] + quoted(ms[k].0) + seq![':'] + compact(
            ms[k].1,
        ) + compact_members(ms.skip(k + 1)),
{
    let t = ms.skip(k);
    assert(t.drop_first() =~= ms.skip(k + 1));
    assert(out + compact_members(t) =~= out + seq![','] + quoted(ms[k].0) + seq![':'] + compact(
        ms[k].1,
    ) + compact_members(ms.skip(k + 1)));
}

fn canonical_text(entry: &McpEntryDef) -> (r: String)
    ensures
        r@ == canonical(entry@),
{
    let ghost ms = entry_tree(entry@)->Object_0;
    let mut out = String::new();
    out.push('{');
    append_key(&mut out, "name");
    out.append(json_string(entry.name.as_str()).as_str());
    proof {
        assert(ms.drop_first() =~= ms.skip(1));
        assert(out@ =~= seq!['{'] + quoted(ms[0].0) + seq![':'] + compact(ms[0].1));
        lemma_next_member(ms, 1, out@);
    }
    append_comma_key(&mut out, "transport");
    out.append(json_string(entry.transport.as_str()).as_str());
    proof {
        assert(compact(ms[1].1) == quoted(entry@.transport));
        lemma_next_member(ms, 2, out@);
    }
    append_comma_key(&mut out, "command");
    append_optional(&mut out, &entry.command);
    proof {
        lemma_next_member(ms, 3, out@);
    }
    append_comma_key(&mut out, "args");
    append_list(&mut out, &entry.args);
    proof {
        lemma_next_member(ms, 4, out@);
    }
    append_comma_key(&mut out, "url");
    append_optional(&mut out, &entry.url);
    proof {
        lemma_next_member(ms, 5, out@);
    }
    append_comma_key(&mut out, "env");
    append_env(&mut out, &entry.env);
    let ghost before = out@;
    out.push('}');
    proof {
        assert(ms.skip(6) =~= Seq::<(Seq<char>, JsonTree)>::empty());
        assert(before + compact_members(ms.skip(6)) =~= before);
        assert(out@ =~= canonical(entry@));
    }
    out
}

/// Stable sha256 hex fingerprint of an entry definition, taken over its canonical JSON
/// encoding: fields in declaration order, environment by name. Map insertion order and any
/// source-file formatting are irrelevant, and the digested text differs iff any field does.
pub fn entry_fingerprint(entry: &McpEntryDef) -> (r: String)
    ensures
        r@ == fingerprint(entry@),
        r@.len() == 64,
{
    hex_digest(canonical_text(entry).as_str())
}

/// One surgical editor per agent config format. All operations are pure transforms.
pub trait McpWriter {
    /// What [`McpWriter::upsert`] makes of a text.
    spec fn upserted(&self, text: Seq<char>, entry: EntryDef) -> Result<Seq<char>, WriteError>;

    /// What [`McpWriter::remove`] makes of a text.
    spec fn removed(&self, text: Seq<char>, name: Seq<char>) -> Result<Seq<char>, WriteError>;

    /// What [`McpWriter::read_entry`] finds in a text.
    spec fn entry_in(&self, text: Seq<char>, name: Seq<char>) -> Result<
        Option<EntryDef>,
        WriteError,
    >;

    /// The document without entries.
    spec fn blank(&self) -> Seq<char>;

    /// Return the full new file text with `entry` present in the managed section, inserted
    /// or replacing an existing same-name entry; a read of the name finds it there. Refuses with
    /// `Unsafe` when `file_text` is unparseable.
    fn upsert(&self, file_text: &str, entry: &McpEntryDef) -> (r: Result<String, AgentWriteError>)
        ensures
            text_outcome(r) == self.upserted(file_text@, entry@),
            r matches Ok(new_text) ==> self.entry_in(new_text@, entry@.name) matches Ok(Some(_)),
    ;

    /// Return the full new file text without the named entry. Removing an absent name is
    /// idempotent: `Ok` with the original text unchanged.
    fn remove(&self, file_text: &str, name: &str) -> (r: Result<String, AgentWriteError>)
        ensures
            text_outcome(r) == self.removed(file_text@, name@),
    ;

    /// Read the current stored definition of `name`, or `Ok(None)` when the file simply does
    /// not configure it. Env values are returned in full.
    fn read_entry(&self, file_text: &str, name: &str) -> (r: Result<
        Option<McpEntryDef>,
        AgentWriteError,
    >)
        ensures
            entry_outcome(r) == self.entry_in(file_text@, name@),
    ;

    /// A minimal, valid, entry-free document in this format. Scratch space for asking "what
    /// would this definition read back as here".
    fn empty_doc(&self) -> (r: &'static str)
        ensures
            r@ == self.blank(),
    ;
}

/// The writer of an agent.
pub enum AgentWriter {
    OpenCode(OpenCodeWriter),
    DshYaml(DshYamlWriter),
}

impl McpWriter for AgentWriter {
    open spec fn upserted(&self, text: Seq<char>, entry: EntryDef) -> Result<Seq<char>, WriteError> {
        match self {
            AgentWriter::OpenCode(w) => w.upserted(text, entry),
            AgentWriter::DshYaml(w) => w.upserted(text, entry),
        }
    }

    open spec fn removed(&self, text: Seq<char>, name: Seq<char>) -> Result<Seq<char>, WriteError> {
        match self {
            AgentWriter::OpenCode(w) => w.removed(text, name),
            AgentWriter::DshYaml(w) => w.removed(text, name),
        }
    }

    open spec fn entry_in(&self, text: Seq<char>, name: Seq<char>) -> Result<
        Option<EntryDef>,
        WriteError,
    > {
        match self {
            AgentWriter::OpenCode(w) => w.entry_in(text, name),
            AgentWriter::DshYaml(w) => w.entry_in(text, name),
        }
    }

    open spec fn blank(&self) -> Seq<char> {
        match self {
            AgentWriter::OpenCode(w) => w.blank(),
            AgentWriter::DshYaml(w) => w.blank(),
        }
    }

    fn upsert(&self, file_text: &str, entry: &McpEntryDef) -> (r: Result<String, AgentWriteError>)
        ensures
            r is Ok ==> rendered_by(*self, entry@),
    {
        match self {
            AgentWriter::OpenCode(w) => w.upsert(file_text, entry),
            AgentWriter::DshYaml(w) => w.upsert(file_text, entry),
        }
    }

    fn remove(&self, file_text: &str, name: &str) -> (r: Result<String, AgentWriteError>) {
        match self {
            AgentWriter::OpenCode(w) => w.remove(file_text, name),
            AgentWriter::DshYaml(w) => w.remove(file_text, name),
        }
    }

    fn read_entry(&self, file_text: &str, name: &str) -> (r: Result<
        Option<McpEntryDef>,
        AgentWriteError,
    >) {
        match self {
            AgentWriter::OpenCode(w) => w.read_entry(file_text, name),
            AgentWriter::DshYaml(w) => w.read_entry(file_text, name),
        }
    }

    fn empty_doc(&self) -> (r: &'static str) {
        match self {
            AgentWriter::OpenCode(w) => w.empty_doc(),
            AgentWriter::DshYaml(w) => w.empty_doc(),
        }
    }
}

/// What is known of an entry once the writer of a format has written it.
pub open spec fn rendered_by(writer: AgentWriter, entry: EntryDef) -> bool {
    writer is OpenCode ==> renders(entry)
}

/// A text that an entry was written to has it.
pub proof fn law_written_is_found(
    writer: AgentWriter,
    text: Seq<char>,
    entry: EntryDef,
    new: Seq<char>,
)
    requires
        writer.upserted(text, entry) == Ok::<Seq<char>, WriteError>(new),
        rendered_by(writer, entry),
    ensures
        writer.entry_in(new, entry.name) matches Ok(Some(_)),
{
    match writer {
        AgentWriter::OpenCode(_) => {
            lemma_upsert_reads_back(text, new, entry, entry.name);
        },
        AgentWriter::DshYaml(_) => {
            law_upsert_names(text, entry, new, entry.name);
        },
    }
}

/// The writer registered for an agent key.
pub open spec fn registered_writer(agent_key: Seq<char>) -> Option<AgentWriter> {
    if agent_key == "opencode"@ {
        Some(AgentWriter::OpenCode(OpenCodeWriter))
    } else if agent_key == "deepseek_harness"@ {
        Some(AgentWriter::DshYaml(DshYamlWriter))
    } else {
        None
    }
}

/// Look up the surgical writer for an agent key (same keys `mcp_inventory` reports). Unknown
/// agents get `None` and the caller refuses with a clear error.
pub fn writer_for_agent(agent_key: &str) -> (r: Option<AgentWriter>)
    ensures
        r == registered_writer(agent_key@),
{
    if same(agent_key, "opencode") {
        Some(AgentWriter::OpenCode(OpenCodeWriter))
    } else if same(agent_key, "deepseek_harness") {
        Some(AgentWriter::DshYaml(DshYamlWriter))
    } else {
        None
    }
}

} // verus!
