//! Surgical writer for DeepSeek Harness's `~/.dsh/cordis.patch.yml` (block-level surgery,
//! never a wholesale rewrite).
//!
//! File shape (as read by `mcp_inventory::parse_dsh_config`): a top-level YAML list of
//! `- insert:` plugin blocks. Plugins named [`DSH_MCP_PLUGIN`] register MCP servers; comment
//! lines and unrelated plugin blocks (hooks, providers, …) interleave and must survive
//! byte-identically.
//!
//! Block model: a block starts at a column-0 line whose text begins `- insert:` and runs to
//! the next column-0 `- ` line (any top-level list item, insert or not) or the end of the
//! file. Trailing blank lines and comments are not part of its content: replacement only
//! rewrites the content, and whole-block deletion eats exactly one such trailing blank line.
//!
//! When one block hosts several MCP client plugins, upsert/remove rebuilds the whole block
//! from the parsed definitions with the target replaced/removed. A block that mixes MCP
//! client plugins with foreign plugins is refused with [`AgentWriteError::Unsafe`] — as is a
//! target declared by more than one block.
//!
//! Every operation first parses the whole text, and every produced text is parsed again and
//! must list exactly the expected names before it is returned.

use vstd::prelude::*;
use crate::env_map::{bind_all, EnvMap};
use crate::mcp_inventory::{
    client_plugin, client_plugin_parts, dsh_config, field_texts, normalize_transport, opt_str,
    parse_dsh_config, plugins_of, plugins_of_patches, raw_entries, ref_trees, text_list_field,
    transport_of, ClientPlugin, DSH_MCP_PLUGIN, PluginParts, RawEntry, RawMcpEntry,
};
use crate::mcp_writers::{
    text_outcome, AgentWriteError, EntryDef, McpEntryDef, McpWriter, WriteError,
};
use crate::mcp_writers::dsh_laws::law_upsert_names;
use crate::order::{sort_texts, sorted};
use crate::text::{
    ascii_lower, chars_of, decimal_nat, decimal_of, ends_with, has_prefix, has_suffix, join,
    join_lines, join_with, joined, lines_of, replace, replace_char, same, split_lines, starts_with,
    string_of, texts, trim_end, without_end_space,
};
use crate::text_lists::same_texts;
use crate::yaml::{
    debug_form, find_map, find_text, list_field, map_field, parse_yaml, text_field, yaml_document,
    yaml_list, yaml_map, yaml_pairs, yaml_text, yaml_tree, yaml_trees, Yaml, YamlTree,
};


verus! {

/// Writer for the DeepSeek Harness agent key.
pub struct DshYamlWriter;

/// A YAML scalar in single quotes, a quote in it doubled.
pub open spec fn yaml_quoted(s: Seq<char>) -> Seq<char> {
    "'"@ + replace_char(s, '\'', "''"@) + "'"@
}

pub open spec fn is_ascii_alphanumeric(c: char) -> bool {
    ('a' <= c <= 'z') || ('A' <= c <= 'Z') || ('0' <= c <= '9')
}

/// The letters and digits of a name in lower case, a dash for each run of other characters
/// between two of them; and whether such a run has just been passed.
pub open spec fn slug_state(s: Seq<char>) -> (Seq<char>, bool)
    decreases s.len(),
{
    if s.len() == 0 {
        (Seq::empty(), false)
    } else {
        let (slug, pending) = slug_state(s.drop_last());
        if is_ascii_alphanumeric(s.last()) {
            if pending {
                (slug.push('-').push(ascii_lower(s.last())), false)
            } else {
                (slug.push(ascii_lower(s.last())), false)
            }
        } else {
            (slug, slug.len() > 0)
        }
    }
}

/// Plugin `id` for a server name.
pub open spec fn slug_of(name: Seq<char>) -> Seq<char> {
    let slug = slug_state(name).0;
    if slug.len() == 0 {
        "mcp"@
    } else {
        slug
    }
}

pub open spec fn is_line_end(c: char) -> bool {
    c == '\r' || c == '\n'
}

/// A line without the carriage returns and line feeds at its end.
pub open spec fn line_text(line: Seq<char>) -> Seq<char>
    decreases line.len(),
{
    if line.len() > 0 && is_line_end(line.last()) {
        line_text(line.drop_last())
    } else {
        line
    }
}

pub open spec fn is_insert(line: Seq<char>) -> bool {
    starts_with(line_text(line), "- insert:"@)
}

/// A column-0 list item, bare dashes among them.
pub open spec fn is_top_item(line: Seq<char>) -> bool {
    starts_with(line_text(line), "- "@) || line_text(line) == "-"@
}

pub open spec fn is_blank_or_comment(line: Seq<char>) -> bool {
    let body = trim_end(line);
    body.len() == 0 || body[0] == '#'
}

/// The first column-0 list item from line `j` on, or the end.
pub open spec fn next_item(lines: Seq<Seq<char>>, j: int) -> int
    decreases lines.len() - j,
{
    if j >= lines.len() || is_top_item(lines[j]) {
        j
    } else {
        next_item(lines, j + 1)
    }
}

/// Where the content of a block that starts at line `i` ends, when nothing but blank lines
/// and comments may be left off before line `j`.
pub open spec fn content_end(lines: Seq<Seq<char>>, i: int, j: int) -> int
    decreases j - i,
{
    if i + 1 < j <= lines.len() && is_blank_or_comment(lines[j - 1]) {
        content_end(lines, i, j - 1)
    } else {
        j
    }
}

/// One `- insert:` block, by lines.
pub ghost struct Block {
    pub start: int,
    pub content_end: int,
    pub defs: Seq<EntryDef>,
    pub foreign: bool,
}

/// Names and values of an environment mapping; a value that is no text by its debug form.
pub open spec fn yaml_env(entries: Seq<(YamlTree, YamlTree)>) -> Seq<(Seq<char>, Seq<char>)>
    decreases entries.len(),
{
    if entries.len() == 0 {
        Seq::empty()
    } else {
        let before = yaml_env(entries.drop_last());
        match yaml_text(entries.last().0) {
            None => before,
            Some(key) => before.push(
                (
                    key,
                    match yaml_text(entries.last().1) {
                        Some(value) => value,
                        None => debug_form(entries.last().1),
                    },
                ),
            ),
        }
    }
}

/// The full definition that an MCP client plugin stands for.
pub open spec fn plugin_def(p: ClientPlugin) -> EntryDef {
    let command = text_field(p.config, "command"@);
    let args = field_texts(list_field(p.config, "args"@));
    let url = text_field(p.config, "url"@);
    EntryDef {
        name: p.name,
        transport: transport_of(
            text_field(p.config, "transport"@),
            url is Some,
            command is Some || args.len() > 0,
        ),
        command,
        args,
        url,
        env: match map_field(p.config, "env"@) {
            Some(entries) => bind_all(yaml_env(entries)),
            None => Seq::empty(),
        },
    }
}

pub open spec fn defs_of(plugins: Seq<YamlTree>) -> Seq<EntryDef>
    decreases plugins.len(),
{
    if plugins.len() == 0 {
        Seq::empty()
    } else {
        let before = defs_of(plugins.drop_last());
        match client_plugin(plugins.last()) {
            Some(p) => before.push(plugin_def(p)),
            None => before,
        }
    }
}

/// A plugin that the writer does not model.
pub open spec fn is_foreign(plugin: YamlTree) -> bool {
    match yaml_map(plugin) {
        Some(fields) => text_field(fields, "name"@) != Some(DSH_MCP_PLUGIN@),
        None => true,
    }
}

pub open spec fn any_foreign(plugins: Seq<YamlTree>) -> bool {
    exists|i: int| 0 <= i < plugins.len() && is_foreign(#[trigger] plugins[i])
}

/// The definitions in a block's own text, and whether it may not be rebuilt.
pub open spec fn block_content(text: Seq<char>) -> (Seq<EntryDef>, bool) {
    match yaml_document(text) {
        Err(_) => (Seq::empty(), true),
        Ok(doc) => match yaml_list(doc) {
            None => (Seq::empty(), true),
            Some(patches) => (defs_of(plugins_of(patches)), any_foreign(plugins_of(patches))),
        },
    }
}

/// The `- insert:` blocks from line `i` on.
pub open spec fn blocks_from(lines: Seq<Seq<char>>, i: int) -> Seq<Block>
    decreases lines.len() - i,
{
    if i < 0 || i >= lines.len() {
        Seq::empty()
    } else if !is_insert(lines[i]) {
        blocks_from(lines, i + 1)
    } else {
        let j = next_item(lines, i + 1);
        let (defs, foreign) = block_content(joined(lines.subrange(i, j)));
        let block = Block { start: i, content_end: content_end(lines, i, j), defs, foreign };
        if i < j <= lines.len() {
            seq![block] + blocks_from(lines, j)
        } else {
            seq![block]
        }
    }
}

pub open spec fn def_names(defs: Seq<EntryDef>) -> Seq<Seq<char>> {
    Seq::new(defs.len(), |i: int| defs[i].name)
}

/// The blocks that define `name`.
pub open spec fn hits(blocks: Seq<Block>, name: Seq<char>) -> Seq<Block>
    decreases blocks.len(),
{
    if blocks.len() == 0 {
        Seq::empty()
    } else {
        let before = hits(blocks.drop_last(), name);
        if def_names(blocks.last().defs).contains(name) {
            before.push(blocks.last())
        } else {
            before
        }
    }
}

pub open spec fn quoted_all(s: Seq<Seq<char>>) -> Seq<Seq<char>> {
    Seq::new(s.len(), |i: int| yaml_quoted(s[i]))
}

/// A remote transport: plain where it is a word of the vocabulary, quoted otherwise.
pub open spec fn transport_scalar(transport: Seq<char>) -> Seq<char> {
    if transport == "http"@ || transport == "streamable-http"@ {
        transport
    } else {
        yaml_quoted(transport)
    }
}

pub open spec fn env_lines(env: Seq<(Seq<char>, Seq<char>)>) -> Seq<char>
    decreases env.len(),
{
    if env.len() == 0 {
        Seq::empty()
    } else {
        env_lines(env.drop_last()) + ("          "@ + yaml_quoted(env.last().0) + ": "@ + yaml_quoted(
            env.last().1,
        ) + "\n"@)
    }
}

pub open spec fn key_line(key: Seq<char>, value: Seq<char>) -> Seq<char> {
    "        "@ + key + ": "@ + value + "\n"@
}

/// The lines that tell how a server is reached.
pub open spec fn access_lines(entry: EntryDef) -> Seq<char> {
    if entry.transport == "stdio"@ {
        key_line("transport"@, "stdio"@) + key_line("serverName"@, yaml_quoted(entry.name)) + (
        match entry.command {
            Some(command) => key_line("command"@, yaml_quoted(command)),
            None => Seq::empty(),
        }) + (if entry.args.len() == 0 {
            Seq::empty()
        } else {
            key_line("args"@, "["@ + join(quoted_all(entry.args), ", "@) + "]"@)
        })
    } else {
        key_line("transport"@, transport_scalar(entry.transport)) + key_line(
            "serverName"@,
            yaml_quoted(entry.name),
        ) + key_line(
            "url"@,
            yaml_quoted(
                match entry.url {
                    Some(url) => url,
                    None => Seq::empty(),
                },
            ),
        )
    }
}

/// One MCP client plugin list item, 4-space nested style.
pub open spec fn plugin_item(entry: EntryDef) -> Seq<char> {
    "    - id: "@ + yaml_quoted(slug_of(entry.name)) + "\n      name: "@ + yaml_quoted(
        DSH_MCP_PLUGIN@,
    ) + "\n      config:\n"@ + access_lines(entry) + (if entry.env.len() == 0 {
        Seq::empty()
    } else {
        "        env:\n"@ + env_lines(entry.env)
    })
}

pub open spec fn plugin_items(entries: Seq<EntryDef>) -> Seq<char>
    decreases entries.len(),
{
    if entries.len() == 0 {
        Seq::empty()
    } else {
        plugin_items(entries.drop_last()) + plugin_item(entries.last())
    }
}

/// A complete `- insert:` block for the definitions.
pub open spec fn block_text(entries: Seq<EntryDef>) -> Seq<char> {
    "- insert:\n"@ + plugin_items(entries)
}

/// The definitions of a file's text.
pub open spec fn parsed_defs(text: Seq<char>) -> Result<Seq<EntryDef>, WriteError> {
    match yaml_document(text) {
        Err(message) => Err(
            WriteError::Unsafe(
                "cordis.patch.yml is not valid YAML (refusing to edit it): "@ + message,
            ),
        ),
        Ok(doc) => match yaml_list(doc) {
            None => Err(
                WriteError::Unsafe(
                    "cordis.patch.yml top level is not a plugin list (refusing to edit it)"@,
                ),
            ),
            Some(patches) => Ok(defs_of(plugins_of(patches))),
        },
    }
}

/// The texts of the list other than `name`.
pub open spec fn others(names: Seq<Seq<char>>, name: Seq<char>) -> Seq<Seq<char>>
    decreases names.len(),
{
    if names.len() == 0 {
        Seq::empty()
    } else if names.last() == name {
        others(names.drop_last(), name)
    } else {
        others(names.drop_last(), name).push(names.last())
    }
}

/// A list of equal neighbours as one with their number, for each run of them.
pub open spec fn runs(s: Seq<Seq<char>>) -> Seq<(Seq<char>, nat)>
    decreases s.len(),
{
    if s.len() == 0 {
        Seq::empty()
    } else {
        let before = runs(s.drop_last());
        if before.len() > 0 && before.last().0 == s.last() {
            before.drop_last().push((s.last(), before.last().1 + 1))
        } else {
            before.push((s.last(), 1))
        }
    }
}

/// What `format!("{:?}")` makes of a string.
pub uninterp spec fn debug_quoted(text: Seq<char>) -> Seq<char>;

pub open spec fn count_texts(counts: Seq<(Seq<char>, nat)>) -> Seq<Seq<char>> {
    Seq::new(
        counts.len(),
        |i: int| debug_quoted(counts[i].0) + ": "@ + decimal_nat(counts[i].1),
    )
}

/// Names with how often each occurs.
pub open spec fn counts_text(names: Seq<Seq<char>>) -> Seq<char> {
    "{"@ + join(count_texts(runs(names)), ", "@) + "}"@
}

pub open spec fn has_item_line(text: Seq<char>) -> bool {
    exists|i: int| 0 <= i < lines_of(text).len() && starts_with(#[trigger] lines_of(text)[i], "- "@)
}

pub open spec fn entry_names(entries: Seq<RawEntry>) -> Seq<Seq<char>> {
    Seq::new(entries.len(), |i: int| entries[i].name)
}

/// The names that a new text lists, in order; none where it lists nothing at all.
pub open spec fn listed_names(new_text: Seq<char>, expected: Seq<Seq<char>>) -> Result<
    Seq<Seq<char>>,
    WriteError,
> {
    match dsh_config(new_text) {
        Ok(entries) => Ok(sorted(entry_names(entries))),
        Err(message) => if expected.len() == 0 && !has_item_line(new_text) {
            Ok(Seq::empty())
        } else {
            Err(
                WriteError::Unsafe(
                    "cordis.patch.yml failed validation after surgery: "@ + message,
                ),
            )
        },
    }
}

/// A new text, if it lists exactly the expected names.
pub open spec fn checked(new_text: Seq<char>, expected: Seq<Seq<char>>) -> Result<
    Seq<char>,
    WriteError,
> {
    match listed_names(new_text, expected) {
        Err(e) => Err(e),
        Ok(got) => if got == expected {
            Ok(new_text)
        } else {
            Err(
                WriteError::Unsafe(
                    "internal error: cordis.patch.yml surgery touched the wrong entries (expected "@
                        + counts_text(expected) + ", got "@ + counts_text(got) + ")"@,
                ),
            )
        },
    }
}

pub open spec fn ambiguous(name: Seq<char>, n: nat) -> WriteError {
    WriteError::Unsafe(
        "server `"@ + name + "` is declared by "@ + decimal_nat(n)
            + " separate `- insert:` blocks; refusing ambiguous surgery"@,
    )
}

pub open spec fn mixed(name: Seq<char>) -> WriteError {
    WriteError::Unsafe(
        "server `"@ + name
            + "` lives in a block with mixed foreign plugins; refusing block surgery"@,
    )
}

/// The definitions of a block with `entry` in place of the first of its name and no other of
/// that name.
pub open spec fn rebuilt(defs: Seq<EntryDef>, entry: EntryDef) -> Seq<EntryDef>
    decreases defs.len(),
{
    if defs.len() == 0 {
        Seq::empty()
    } else {
        let before = rebuilt(defs.drop_last(), entry);
        if defs.last().name != entry.name {
            before.push(defs.last())
        } else if def_names(defs.drop_last()).contains(entry.name) {
            before
        } else {
            before.push(entry)
        }
    }
}

pub open spec fn without_name(defs: Seq<EntryDef>, name: Seq<char>) -> Seq<EntryDef>
    decreases defs.len(),
{
    if defs.len() == 0 {
        Seq::empty()
    } else if defs.last().name == name {
        without_name(defs.drop_last(), name)
    } else {
        without_name(defs.drop_last(), name).push(defs.last())
    }
}

/// The text that a new block is appended to.
pub open spec fn line_ended(text: Seq<char>) -> Seq<char> {
    if text.len() > 0 && text.last() != '\n' {
        text.push('\n')
    } else {
        text
    }
}

/// A text with a fresh block at its end, after a blank line; the blank document, an empty list in
/// flow style that no block can follow, gives way to the block.
pub open spec fn block_appended(text: Seq<char>, entry: EntryDef) -> Seq<char> {
    if text == "[]"@ {
        block_text(seq![entry])
    } else {
        line_ended(text) + "\n"@ + block_text(seq![entry])
    }
}

/// A text with the content of a block exchanged for a rendered one.
pub open spec fn block_replaced(text: Seq<char>, block: Block, defs: Seq<EntryDef>) -> Seq<char> {
    let lines = lines_of(text);
    joined(lines.take(block.start)) + block_text(defs) + joined(lines.skip(block.content_end))
}

pub open spec fn dsh_upserted(text: Seq<char>, entry: EntryDef) -> Result<Seq<char>, WriteError> {
    match parsed_defs(text) {
        Err(e) => Err(e),
        Ok(old) => {
            let expected = sorted(others(def_names(old), entry.name).push(entry.name));
            let lines = lines_of(text);
            let found = hits(blocks_from(lines, 0), entry.name);
            if found.len() == 0 {
                checked(block_appended(text, entry), expected)
            } else if found.len() > 1 {
                Err(ambiguous(entry.name, found.len()))
            } else if found[0].foreign {
                Err(mixed(entry.name))
            } else {
                checked(block_replaced(text, found[0], rebuilt(found[0].defs, entry)), expected)
            }
        },
    }
}

/// Where the text goes on after a block is deleted: behind one blank line, if one follows.
pub open spec fn after_deleted(lines: Seq<Seq<char>>, end: int) -> int {
    if end < lines.len() && lines[end].len() > 0 && lines[end][0] == '\n' {
        end + 1
    } else {
        end
    }
}

pub open spec fn dsh_removed(text: Seq<char>, name: Seq<char>) -> Result<Seq<char>, WriteError> {
    match parsed_defs(text) {
        Err(e) => Err(e),
        Ok(old) => if !def_names(old).contains(name) {
            Ok(text)
        } else {
            let expected = sorted(others(def_names(old), name));
            let lines = lines_of(text);
            let found = hits(blocks_from(lines, 0), name);
            if found.len() != 1 {
                Err(ambiguous(name, found.len()))
            } else if found[0].foreign {
                Err(mixed(name))
            } else {
                let left = without_name(found[0].defs, name);
                let head = joined(lines.take(found[0].start));
                checked(
                    if left.len() == 0 {
                        head + joined(lines.skip(after_deleted(lines, found[0].content_end)))
                    } else {
                        head + block_text(left) + joined(lines.skip(found[0].content_end))
                    },
                    expected,
                )
            }
        },
    }
}

/// The first definition of the name.
pub open spec fn first_def(defs: Seq<EntryDef>, name: Seq<char>) -> Option<EntryDef>
    decreases defs.len(),
{
    if defs.len() == 0 {
        None
    } else if defs[0].name == name {
        Some(defs[0])
    } else {
        first_def(defs.drop_first(), name)
    }
}

pub open spec fn dsh_entry_in(text: Seq<char>, name: Seq<char>) -> Result<
    Option<EntryDef>,
    WriteError,
> {
    match parsed_defs(text) {
        Err(e) => Err(e),
        Ok(defs) => Ok(first_def(defs, name)),
    }
}

/// `format!` of a string with `{:?}`. Claimed: the text is a function of the string.
#[verifier::external_body]
fn debug_quote(text: &str) -> (r: String)
    ensures
        r@ == debug_quoted(text@),
{
    format!("{text:?}")
}

pub open spec fn def_views(s: Seq<McpEntryDef>) -> Seq<EntryDef> {
    Seq::new(s.len(), |i: int| s[i]@)
}

fn refused(message: &str) -> (r: AgentWriteError)
    ensures
        r@ == WriteError::Unsafe(message@),
{
    AgentWriteError::Unsafe(message.to_owned())
}

/// Single-quote a YAML scalar with `''` escaping.
fn yaml_quote(text: &str) -> (r: String)
    ensures
        r@ == yaml_quoted(text@),
{
    let mut r = "'".to_owned();
    r.append(replace(text, '\'', "''").as_str());
    r.append("'");
    r
}

/// Plugin `id` for a server name: lowercased, non-alphanumeric runs collapsed to a single
/// `-`.
fn slugify(name: &str) -> (r: String)
    ensures
        r@ == slug_of(name@),
{
    let v = chars_of(name);
    let mut slug = String::new();
    let mut pending = false;
    let mut i: usize = 0;
    assert(v@.take(0) =~= Seq::<char>::empty());
    while i < v.len()
        invariant
            i <= v.len(),
            slug_state(v@.take(i as int)) == (slug@, pending),
        decreases v.len() - i,
    {
        let c: char = v[i];
        proof {
            assert(v@.take(i + 1).drop_last() =~= v@.take(i as int));
            assert(v@.take(i + 1).last() == c);
        }
        let upper = 'A' <= c && c <= 'Z';
        if upper || ('a' <= c && c <= 'z') || ('0' <= c && c <= '9') {
            if pending {
                slug.push('-');
            }
            if upper {
                let code: u8 = c as u8 + 32;
                slug.push(code as char);
            } else {
                slug.push(c);
            }
            pending = false;
        } else {
            pending = !slug.as_str().is_empty();
        }
        i = i + 1;
    }
    assert(v@.take(i as int) =~= v@);
    if slug.as_str().is_empty() {
        "mcp".to_owned()
    } else {
        slug
    }
}

proof fn lemma_line_text(line: Seq<char>, j: int)
    requires
        0 <= j <= line.len(),
        forall|k: int| j <= k < line.len() ==> is_line_end(#[trigger] line[k]),
        j > 0 ==> !is_line_end(line[j - 1]),
    ensures
        line_text(line) == line.take(j),
    decreases line.len() - j,
{
    if j == line.len() {
        assert(line.take(j) =~= line);
    } else {
        lemma_line_text(line.drop_last(), j);
        assert(line.drop_last().take(j) =~= line.take(j));
    }
}

fn line_body(line: &str) -> (r: String)
    ensures
        r@ == line_text(line@),
{
    let v = chars_of(line);
    let mut j: usize = v.len();
    while j > 0 && (v[j - 1] == '\r' || v[j - 1] == '\n')
        invariant
            j <= v.len(),
            v@ == line@,
            forall|k: int| j <= k < v.len() ==> is_line_end(#[trigger] v@[k]),
        decreases j,
    {
        j = j - 1;
    }
    proof {
        lemma_line_text(line@, j as int);
        assert(line@.take(j as int) =~= line@.subrange(0, j as int));
    }
    string_of(&v, 0, j)
}

fn line_is_insert(line: &str) -> (r: bool)
    ensures
        r == is_insert(line@),
{
    has_prefix(line_body(line).as_str(), "- insert:")
}

fn line_is_top_item(line: &str) -> (r: bool)
    ensures
        r == is_top_item(line@),
{
    let t = line_body(line);
    has_prefix(t.as_str(), "- ") || same(t.as_str(), "-")
}

fn line_is_blank_or_comment(line: &str) -> (r: bool)
    ensures
        r == is_blank_or_comment(line@),
{
    let body = chars_of(without_end_space(line).as_str());
    body.len() == 0 || body[0] == '#'
}

fn read_yaml_env(entries: &Vec<(Yaml, Yaml)>) -> (r: EnvMap)
    ensures
        r@ == bind_all(yaml_env(yaml_pairs(entries@))),
{
    let ghost ps = yaml_pairs(entries@);
    let mut env = EnvMap::new();
    let mut i: usize = 0;
    assert(yaml_env(ps.take(0)) =~= Seq::<(Seq<char>, Seq<char>)>::empty());
    while i < entries.len()
        invariant
            i <= entries.len(),
            ps == yaml_pairs(entries@),
            env@ == bind_all(yaml_env(ps.take(i as int))),
        decreases entries.len() - i,
    {
        proof {
            assert(ps.take(i + 1).drop_last() =~= ps.take(i as int));
            assert(ps.take(i + 1).last() == ps[i as int]);
            assert(ps[i as int] == (yaml_tree(entries@[i as int].0), yaml_tree(
                entries@[i as int].1,
            )));
        }
        if let Some(key) = entries[i].0.as_str() {
            let value = match entries[i].1.as_str() {
                Some(text) => text.clone(),
                None => entries[i].1.debug_text(),
            };
            proof {
                let before = yaml_env(ps.take(i as int));
                let now = yaml_env(ps.take(i + 1));
                assert(now == before.push((key@, value@)));
                assert(now.drop_last() =~= before);
            }
            env.insert(key.clone(), value);
        }
        i = i + 1;
    }
    assert(ps.take(i as int) =~= ps);
    env
}

/// One MCP client plugin as full entry definition: command and args separate and env values
/// in full.
fn def_from_plugin(parts: PluginParts) -> (r: McpEntryDef)
    ensures
        forall|p: ClientPlugin| #[trigger] parts.is(p) ==> r@ == plugin_def(p),
{
    let config = parts.config;
    let command = find_text(config, "command");
    let args = text_list_field(config, "args");
    let url = find_text(config, "url");
    let env = match find_map(config, "env") {
        Some(entries) => read_yaml_env(entries),
        None => EnvMap::new(),
    };
    let transport_raw = find_text(config, "transport");
    let transport = normalize_transport(
        opt_str(&transport_raw),
        url.is_some(),
        command.is_some() || args.len() > 0,
    );
    McpEntryDef { name: parts.name, transport, command, args, url, env }
}

/// Walk a patch list collecting every MCP client plugin as a definition.
fn defs_from_patches(patches: &Vec<Yaml>) -> (r: Vec<McpEntryDef>)
    ensures
        def_views(r@) == defs_of(plugins_of(yaml_trees(patches@))),
{
    let plugins = plugins_of_patches(patches);
    let ghost trees = ref_trees(plugins@);
    let mut defs: Vec<McpEntryDef> = Vec::new();
    let mut i: usize = 0;
    assert(def_views(defs@) =~= defs_of(trees.take(0)));
    while i < plugins.len()
        invariant
            i <= plugins.len(),
            trees == ref_trees(plugins@),
            def_views(defs@) == defs_of(trees.take(i as int)),
        decreases plugins.len() - i,
    {
        let ghost before = def_views(defs@);
        proof {
            assert(trees.take(i + 1).drop_last() =~= trees.take(i as int));
            assert(trees.take(i + 1).last() == plugins@[i as int]@);
        }
        if let Some(parts) = client_plugin_parts(plugins[i]) {
            let def = def_from_plugin(parts);
            let ghost d = def@;
            defs.push(def);
            assert(def_views(defs@) =~= before.push(d));
        }
        i = i + 1;
    }
    assert(trees.take(i as int) =~= trees);
    defs
}

/// True when any plugin in the patch list is not an MCP client (or has no name at all) — the
/// block is not purely ours to rebuild.
fn has_foreign_plugin(patches: &Vec<Yaml>) -> (r: bool)
    ensures
        r == any_foreign(plugins_of(yaml_trees(patches@))),
{
    let plugins = plugins_of_patches(patches);
    let ghost trees = ref_trees(plugins@);
    let mut i: usize = 0;
    while i < plugins.len()
        invariant
            i <= plugins.len(),
            trees == ref_trees(plugins@),
            trees == plugins_of(yaml_trees(patches@)),
            forall|k: int| 0 <= k < i ==> !is_foreign(#[trigger] trees[k]),
        decreases plugins.len() - i,
    {
        assert(trees[i as int] == plugins@[i as int]@);
        let foreign = match plugins[i].as_map() {
            Some(fields) => match find_text(fields, "name") {
                Some(name) => !same(name.as_str(), DSH_MCP_PLUGIN),
                None => true,
            },
            None => true,
        };
        if foreign {
            assert(is_foreign(trees[i as int]));
            return true;
        }
        i = i + 1;
    }
    false
}

/// One top-level `- insert:` block of a file, by lines.
struct DshBlock {
    /// The `- insert:` line.
    start: usize,
    /// The line after the block's last content line.
    content_end: usize,
    /// The MCP client plugins this block defines, in file order.
    defs: Vec<McpEntryDef>,
    /// True when the block also holds plugins the writer does not model — rebuilding it would
    /// lose them, so any edit targeting it is refused.
    foreign: bool,
}

impl DshBlock {
    spec fn is(self, b: Block) -> bool {
        &&& self.start == b.start
        &&& self.content_end == b.content_end
        &&& def_views(self.defs@) == b.defs
        &&& self.foreign == b.foreign
    }
}

spec fn blocks_are(v: Seq<DshBlock>, bs: Seq<Block>) -> bool {
    v.len() == bs.len() && forall|k: int| 0 <= k < bs.len() ==> (#[trigger] v[k]).is(bs[k])
}

proof fn lemma_next_item(lines: Seq<Seq<char>>, j: int)
    requires
        0 <= j <= lines.len(),
    ensures
        j <= next_item(lines, j) <= lines.len(),
    decreases lines.len() - j,
{
    if j < lines.len() && !is_top_item(lines[j]) {
        lemma_next_item(lines, j + 1);
    }
}

proof fn lemma_content_end(lines: Seq<Seq<char>>, i: int, j: int)
    requires
        0 <= i < j <= lines.len(),
    ensures
        i < content_end(lines, i, j) <= j,
    decreases j - i,
{
    if i + 1 < j && is_blank_or_comment(lines[j - 1]) {
        lemma_content_end(lines, i, j - 1);
    }
}

fn parse_block(text: &str) -> (r: (Vec<McpEntryDef>, bool))
    ensures
        (def_views(r.0@), r.1) == block_content(text@),
{
    let none: Vec<McpEntryDef> = Vec::new();
    assert(def_views(none@) =~= Seq::<EntryDef>::empty());
    match parse_yaml(text) {
        Ok(root) => match root.as_list() {
            Some(patches) => (defs_from_patches(patches), has_foreign_plugin(patches)),
            None => (none, true),
        },
        // Unattributable slice: keep it out of reach of surgery.
        Err(_) => (none, true),
    }
}

/// The block that starts at line `i`, and the line after it.
fn block_at(lines: &Vec<String>, i: usize) -> (r: (DshBlock, usize))
    requires
        i < lines@.len(),
    ensures
        ({
            let ls = texts(lines@);
            let j = next_item(ls, i + 1);
            let (defs, foreign) = block_content(joined(ls.subrange(i as int, j)));
            &&& r.1 == j
            &&& i < j <= lines@.len()
            &&& r.0.is(
                Block { start: i as int, content_end: content_end(ls, i as int, j), defs, foreign },
            )
        }),
{
    let ghost ls = texts(lines@);
    let n: usize = lines.len();
    assert(i < n);
    let mut j: usize = i + 1;
    proof {
        lemma_next_item(ls, i + 1);
    }
    while j < lines.len() && !line_is_top_item(lines[j].as_str())
        invariant
            i < j <= lines@.len(),
            ls == texts(lines@),
            next_item(ls, i + 1) == next_item(ls, j as int),
        decreases lines@.len() - j,
    {
        j = j + 1;
    }
    assert(j == next_item(ls, i + 1));
    let mut c: usize = j;
    while i + 1 < c && line_is_blank_or_comment(lines[c - 1].as_str())
        invariant
            i < c <= j <= lines@.len(),
            ls == texts(lines@),
            content_end(ls, i as int, j as int) == content_end(ls, i as int, c as int),
        decreases c,
    {
        c = c - 1;
    }
    let (defs, foreign) = parse_block(join_lines(lines, i, j).as_str());
    (DshBlock { start: i, content_end: c, defs, foreign }, j)
}

/// Locate every `- insert:` block and parse its plugin list.
fn find_blocks(lines: &Vec<String>) -> (r: Vec<DshBlock>)
    ensures
        blocks_are(r@, blocks_from(texts(lines@), 0)),
        forall|k: int|
            0 <= k < r@.len() ==> (#[trigger] r@[k]).start < r@[k].content_end <= lines@.len(),
{
    let ghost ls = texts(lines@);
    let mut blocks: Vec<DshBlock> = Vec::new();
    let ghost mut acc: Seq<Block> = Seq::empty();
    let mut i: usize = 0;
    assert(acc + blocks_from(ls, 0) =~= blocks_from(ls, 0));
    while i < lines.len()
        invariant
            i <= lines@.len(),
            ls == texts(lines@),
            blocks_are(blocks@, acc),
            blocks_from(ls, 0) == acc + blocks_from(ls, i as int),
            forall|k: int|
                0 <= k < blocks@.len() ==> (#[trigger] blocks@[k]).start < blocks@[k].content_end
                    <= lines@.len(),
        decreases lines@.len() - i,
    {
        if !line_is_insert(lines[i].as_str()) {
            i = i + 1;
        } else {
            let (block, j): (DshBlock, usize) = block_at(lines, i);
            let ghost (defs, foreign) = block_content(joined(ls.subrange(i as int, j as int)));
            let ghost b = Block {
                start: i as int,
                content_end: content_end(ls, i as int, j as int),
                defs,
                foreign,
            };
            proof {
                lemma_content_end(ls, i as int, j as int);
                assert(blocks_from(ls, i as int) == seq![b] + blocks_from(ls, j as int));
                assert(acc + (seq![b] + blocks_from(ls, j as int)) =~= acc.push(b) + blocks_from(
                    ls,
                    j as int,
                ));
                acc = acc.push(b);
            }
            blocks.push(block);
            i = j;
        }
    }
    assert(acc + blocks_from(ls, i as int) =~= acc);
    blocks
}

fn append_key_line(out: &mut String, key: &str, value: &str)
    ensures
        final(out)@ == old(out)@ + key_line(key@, value@),
{
    let mut line = "        ".to_owned();
    line.append(key);
    line.append(": ");
    line.append(value);
    line.append("\n");
    out.append(line.as_str());
}

fn quote_all(list: &Vec<String>) -> (r: Vec<String>)
    ensures
        texts(r@) == quoted_all(texts(list@)),
{
    let mut r: Vec<String> = Vec::new();
    let mut i: usize = 0;
    while i < list.len()
        invariant
            i <= list.len(),
            r@.len() == i,
            forall|k: int| 0 <= k < i ==> (#[trigger] r@[k])@ == yaml_quoted(list@[k]@),
        decreases list.len() - i,
    {
        r.push(yaml_quote(list[i].as_str()));
        i = i + 1;
    }
    assert(texts(r@) =~= quoted_all(texts(list@)));
    r
}

fn render_access(entry: &McpEntryDef) -> (r: String)
    ensures
        r@ == access_lines(entry@),
{
    let mut s = String::new();
    let name = yaml_quote(entry.name.as_str());
    if same(entry.transport.as_str(), "stdio") {
        append_key_line(&mut s, "transport", "stdio");
        append_key_line(&mut s, "serverName", name.as_str());
        if let Some(command) = &entry.command {
            append_key_line(&mut s, "command", yaml_quote(command.as_str()).as_str());
        }
        if entry.args.len() > 0 {
            let mut list = "[".to_owned();
            list.append(join_with(&quote_all(&entry.args), ", ").as_str());
            list.append("]");
            append_key_line(&mut s, "args", list.as_str());
        }
        assert(s@ =~= access_lines(entry@));
    } else {
        let t = entry.transport.as_str();
        let scalar = if same(t, "http") || same(t, "streamable-http") {
            t.to_owned()
        } else {
            yaml_quote(t)
        };
        append_key_line(&mut s, "transport", scalar.as_str());
        append_key_line(&mut s, "serverName", name.as_str());
        let url = match &entry.url {
            Some(url) => url.clone(),
            None => String::new(),
        };
        append_key_line(&mut s, "url", yaml_quote(url.as_str()).as_str());
        assert(s@ =~= access_lines(entry@));
    }
    s
}

fn render_env(env: &EnvMap) -> (r: String)
    ensures
        r@ == env_lines(env@),
{
    let mut s = String::new();
    let n: usize = env.len();
    let mut i: usize = 0;
    while i < n
        invariant
            i <= n,
            n == env@.len(),
            s@ == env_lines(env@.take(i as int)),
        decreases n - i,
    {
        let ghost before = s@;
        let mut line = "          ".to_owned();
        line.append(yaml_quote(env.key_at(i).as_str()).as_str());
        line.append(": ");
        line.append(yaml_quote(env.value_at(i).as_str()).as_str());
        line.append("\n");
        s.append(line.as_str());
        proof {
            assert(env@.take(i + 1).drop_last() =~= env@.take(i as int));
            assert(env@.take(i + 1).last() == env@[i as int]);
        }
        i = i + 1;
    }
    assert(env@.take(i as int) =~= env@);
    s
}

/// One MCP client plugin list item, 4-space nested style matching the existing
/// cordis.patch.yml entries. Never emits agent-native `enabled` semantics.
fn render_plugin_item(entry: &McpEntryDef) -> (r: String)
    ensures
        r@ == plugin_item(entry@),
{
    let mut s = "    - id: ".to_owned();
    s.append(yaml_quote(slugify(entry.name.as_str()).as_str()).as_str());
    s.append("\n      name: ");
    s.append(yaml_quote(DSH_MCP_PLUGIN).as_str());
    s.append("\n      config:\n");
    s.append(render_access(entry).as_str());
    if entry.env.is_empty() {
        assert(s@ =~= plugin_item(entry@));
    } else {
        let mut env = "        env:\n".to_owned();
        env.append(render_env(&entry.env).as_str());
        s.append(env.as_str());
    }
    s
}

/// A complete single-purpose `- insert:` block for `entries`.
fn render_block(entries: &Vec<McpEntryDef>) -> (r: String)
    ensures
        r@ == block_text(def_views(entries@)),
{
    let ghost defs = def_views(entries@);
    let mut items = String::new();
    let mut i: usize = 0;
    assert(defs.take(0) =~= Seq::<EntryDef>::empty());
    while i < entries.len()
        invariant
            i <= entries.len(),
            defs == def_views(entries@),
            items@ == plugin_items(defs.take(i as int)),
        decreases entries.len() - i,
    {
        items.append(render_plugin_item(&entries[i]).as_str());
        proof {
            assert(defs.take(i + 1).drop_last() =~= defs.take(i as int));
            assert(defs.take(i + 1).last() == entries@[i as int]@);
        }
        i = i + 1;
    }
    assert(defs.take(i as int) =~= defs);
    let mut s = "- insert:\n".to_owned();
    s.append(items.as_str());
    s
}

/// The text of how often each name occurs.
fn describe_counts(names: &Vec<String>) -> (r: String)
    ensures
        r@ == counts_text(texts(names@)),
{
    let ghost all = texts(names@);
    let mut keys: Vec<String> = Vec::new();
    let mut counts: Vec<u64> = Vec::new();
    let mut i: usize = 0;
    assert(runs(all.take(0)) =~= Seq::<(Seq<char>, nat)>::empty());
    while i < names.len()
        invariant
            i <= names.len(),
            all == texts(names@),
            keys@.len() == counts@.len(),
            runs(all.take(i as int)).len() == keys@.len(),
            forall|k: int|
                0 <= k < keys@.len() ==> #[trigger] runs(all.take(i as int))[k] == (
                    keys@[k]@,
                    counts@[k] as nat,
                ),
            forall|k: int| 0 <= k < counts@.len() ==> #[trigger] counts@[k] <= i,
        decreases names.len() - i,
    {
        let ghost before = runs(all.take(i as int));
        let ghost now = runs(all.take(i + 1));
        proof {
            assert(all.take(i + 1).drop_last() =~= all.take(i as int));
            assert(all.take(i + 1).last() == names@[i as int]@);
        }
        let n: usize = keys.len();
        if n > 0 && same(keys[n - 1].as_str(), names[i].as_str()) {
            let c: u64 = counts[n - 1] + 1;
            counts.set(n - 1, c);
            proof {
                assert(before.last() == before[n - 1]);
                assert(now =~= before.drop_last().push((keys@[n - 1]@, c as nat)));
                assert forall|k: int| 0 <= k < keys@.len() implies #[trigger] now[k] == (
                    keys@[k]@,
                    counts@[k] as nat,
                ) by {
                    if k < n - 1 {
                        assert(now[k] == before[k]);
                    }
                }
            }
        } else {
            proof {
                if n > 0 {
                    assert(before.last() == before[n - 1]);
                }
            }
            keys.push(names[i].clone());
            counts.push(1);
            proof {
                assert(now =~= before.push((names@[i as int]@, 1nat)));
                assert forall|k: int| 0 <= k < keys@.len() implies #[trigger] now[k] == (
                    keys@[k]@,
                    counts@[k] as nat,
                ) by {
                    if k < n {
                        assert(now[k] == before[k]);
                    }
                }
            }
        }
        i = i + 1;
    }
    assert(all.take(i as int) =~= all);
    let mut parts: Vec<String> = Vec::new();
    let mut k: usize = 0;
    while k < keys.len()
        invariant
            k <= keys.len(),
            keys@.len() == counts@.len(),
            runs(all).len() == keys@.len(),
            forall|l: int|
                0 <= l < keys@.len() ==> #[trigger] runs(all)[l] == (keys@[l]@, counts@[l] as nat),
            parts@.len() == k,
            forall|l: int| 0 <= l < k ==> (#[trigger] parts@[l])@ == count_texts(runs(all))[l],
        decreases keys.len() - k,
    {
        assert(runs(all)[k as int] == (keys@[k as int]@, counts@[k as int] as nat));
        let mut part = debug_quote(keys[k].as_str());
        part.append(": ");
        part.append(decimal_of(counts[k]).as_str());
        parts.push(part);
        k = k + 1;
    }
    assert(texts(parts@) =~= count_texts(runs(all)));
    let mut r = "{".to_owned();
    r.append(join_with(&parts, ", ").as_str());
    r.append("}");
    r
}

fn entry_name_list(entries: &Vec<RawMcpEntry>) -> (r: Vec<String>)
    ensures
        texts(r@) == entry_names(raw_entries(entries@)),
{
    let mut r: Vec<String> = Vec::new();
    let mut i: usize = 0;
    while i < entries.len()
        invariant
            i <= entries.len(),
            r@.len() == i,
            forall|k: int| 0 <= k < i ==> (#[trigger] r@[k])@ == entries@[k].name@,
        decreases entries.len() - i,
    {
        r.push(entries[i].name.clone());
        i = i + 1;
    }
    assert(texts(r@) =~= entry_names(raw_entries(entries@)));
    r
}

fn shows_item_line(text: &str) -> (r: bool)
    ensures
        r == has_item_line(text@),
{
    let lines = split_lines(text);
    let mut i: usize = 0;
    while i < lines.len()
        invariant
            i <= lines.len(),
            texts(lines@) == lines_of(text@),
            forall|k: int| 0 <= k < i ==> !starts_with(#[trigger] lines_of(text@)[k], "- "@),
        decreases lines.len() - i,
    {
        assert(lines_of(text@)[i as int] == lines@[i as int]@);
        if has_prefix(lines[i].as_str(), "- ") {
            return true;
        }
        i = i + 1;
    }
    assert(lines_of(text@).len() == lines@.len());
    false
}

/// The full new text must list exactly the expected names.
fn validate(new_text: String, expected: &Vec<String>) -> (r: Result<String, AgentWriteError>)
    ensures
        text_outcome(r) == checked(new_text@, texts(expected@)),
{
    let got = match parse_dsh_config(new_text.as_str()) {
        Ok(entries) => sort_texts(&entry_name_list(&entries)),
        Err(message) => {
            // Deleting the very last plugin block can legitimately leave an empty or
            // comment-only file: that parses to null rather than a list but holds exactly
            // zero servers.
            if expected.len() == 0 && !shows_item_line(new_text.as_str()) {
                let none: Vec<String> = Vec::new();
                assert(texts(none@) =~= Seq::<Seq<char>>::empty());
                none
            } else {
                let mut m = "cordis.patch.yml failed validation after surgery: ".to_owned();
                m.append(message.as_str());
                return Err(AgentWriteError::Unsafe(m));
            }
        },
    };
    if same_texts(&got, expected) {
        Ok(new_text)
    } else {
        let mut m =
            "internal error: cordis.patch.yml surgery touched the wrong entries (expected ".to_owned();
        m.append(describe_counts(expected).as_str());
        m.append(", got ");
        m.append(describe_counts(&got).as_str());
        m.append(")");
        Err(AgentWriteError::Unsafe(m))
    }
}

/// The whole text must parse and the root must be the plugin list.
fn parse_defs(file_text: &str) -> (r: Result<Vec<McpEntryDef>, AgentWriteError>)
    ensures
        match r {
            Ok(defs) => parsed_defs(file_text@) == Ok::<Seq<EntryDef>, WriteError>(
                def_views(defs@),
            ),
            Err(e) => parsed_defs(file_text@) == Err::<Seq<EntryDef>, WriteError>(e@),
        },
{
    let root = match parse_yaml(file_text) {
        Ok(root) => root,
        Err(message) => {
            let mut m = "cordis.patch.yml is not valid YAML (refusing to edit it): ".to_owned();
            m.append(message.as_str());
            return Err(AgentWriteError::Unsafe(m));
        },
    };
    match root.as_list() {
        Some(patches) => Ok(defs_from_patches(patches)),
        None => Err(
            refused("cordis.patch.yml top level is not a plugin list (refusing to edit it)"),
        ),
    }
}

fn names_of(defs: &Vec<McpEntryDef>) -> (r: Vec<String>)
    ensures
        texts(r@) == def_names(def_views(defs@)),
{
    let mut r: Vec<String> = Vec::new();
    let mut i: usize = 0;
    while i < defs.len()
        invariant
            i <= defs.len(),
            r@.len() == i,
            forall|k: int| 0 <= k < i ==> (#[trigger] r@[k])@ == defs@[k].name@,
        decreases defs.len() - i,
    {
        r.push(defs[i].name.clone());
        i = i + 1;
    }
    assert(texts(r@) =~= def_names(def_views(defs@)));
    r
}

fn other_names(names: &Vec<String>, name: &str) -> (r: Vec<String>)
    ensures
        texts(r@) == others(texts(names@), name@),
{
    let ghost all = texts(names@);
    let mut r: Vec<String> = Vec::new();
    let mut i: usize = 0;
    assert(texts(r@) =~= others(all.take(0), name@));
    while i < names.len()
        invariant
            i <= names.len(),
            all == texts(names@),
            texts(r@) == others(all.take(i as int), name@),
        decreases names.len() - i,
    {
        let ghost before = texts(r@);
        proof {
            assert(all.take(i + 1).drop_last() =~= all.take(i as int));
            assert(all.take(i + 1).last() == names@[i as int]@);
        }
        if !same(names[i].as_str(), name) {
            r.push(names[i].clone());
            assert(texts(r@) =~= before.push(names@[i as int]@));
        }
        i = i + 1;
    }
    assert(all.take(i as int) =~= all);
    r
}

/// The first block that defines `name`, by its index, and how many do.
fn find_hits(blocks: &Vec<DshBlock>, name: &str) -> (r: (usize, usize))
    ensures
        forall|bs: Seq<Block>|
            #[trigger] blocks_are(blocks@, bs) ==> {
                &&& r.1 == hits(bs, name@).len()
                &&& r.1 > 0 ==> r.0 < bs.len() && hits(bs, name@)[0] == bs[r.0 as int]
            },
        r.1 > 0 ==> r.0 < blocks@.len(),
{
    let mut first: usize = 0;
    let mut n: usize = 0;
    let mut i: usize = 0;
    while i < blocks.len()
        invariant
            i <= blocks.len(),
            n <= i,
            n > 0 ==> first < i,
            forall|bs: Seq<Block>|
                #[trigger] blocks_are(blocks@, bs) ==> {
                    &&& n == hits(bs.take(i as int), name@).len()
                    &&& n > 0 ==> hits(bs.take(i as int), name@)[0] == bs[first as int]
                },
        decreases blocks.len() - i,
    {
        let names = names_of(&blocks[i].defs);
        let hit = crate::order::has_text(&names, name);
        proof {
            assert forall|bs: Seq<Block>| #[trigger] blocks_are(blocks@, bs) implies {
                let m = if hit {
                    n + 1
                } else {
                    n as int
                };
                let f = if hit && n == 0 {
                    i
                } else {
                    first
                };
                &&& m == hits(bs.take(i + 1), name@).len()
                &&& m > 0 ==> hits(bs.take(i + 1), name@)[0] == bs[f as int]
            } by {
                assert(bs.take(i + 1).drop_last() =~= bs.take(i as int));
                assert(bs.take(i + 1).last() == bs[i as int]);
                assert(blocks@[i as int].is(bs[i as int]));
            }
        }
        if hit {
            if n == 0 {
                first = i;
            }
            n = n + 1;
        }
        i = i + 1;
    }
    proof {
        assert forall|bs: Seq<Block>| #[trigger] blocks_are(blocks@, bs) implies {
            &&& n == hits(bs, name@).len()
            &&& n > 0 ==> first < bs.len() && hits(bs, name@)[0] == bs[first as int]
        } by {
            assert(bs.take(i as int) =~= bs);
        }
    }
    (first, n)
}

fn rebuild(defs: &Vec<McpEntryDef>, entry: &McpEntryDef) -> (r: Vec<McpEntryDef>)
    ensures
        def_views(r@) == rebuilt(def_views(defs@), entry@),
{
    let ghost all = def_views(defs@);
    let mut r: Vec<McpEntryDef> = Vec::new();
    let mut replaced = false;
    let mut i: usize = 0;
    assert(def_views(r@) =~= rebuilt(all.take(0), entry@));
    while i < defs.len()
        invariant
            i <= defs.len(),
            all == def_views(defs@),
            def_views(r@) == rebuilt(all.take(i as int), entry@),
            replaced == def_names(all.take(i as int)).contains(entry@.name),
        decreases defs.len() - i,
    {
        let ghost before = def_views(r@);
        let ghost now = all.take(i + 1);
        proof {
            assert(now.drop_last() =~= all.take(i as int));
            assert(now.last() == defs@[i as int]@);
            assert(def_names(now) =~= def_names(all.take(i as int)).push(defs@[i as int]@.name));
            let ns = def_names(all.take(i as int));
            assert(ns.push(now.last().name).contains(entry@.name) <==> ns.contains(entry@.name)
                || now.last().name == entry@.name) by {
                if ns.contains(entry@.name) {
                    let k = choose|k: int| 0 <= k < ns.len() && ns[k] == entry@.name;
                    assert(ns.push(now.last().name)[k] == entry@.name);
                }
                assert(ns.push(now.last().name)[ns.len() as int] == now.last().name);
                if ns.push(now.last().name).contains(entry@.name) {
                    let k = choose|k: int|
                        0 <= k < ns.len() + 1 && ns.push(now.last().name)[k] == entry@.name;
                    if k < ns.len() {
                        assert(ns[k] == entry@.name);
                    }
                }
            }
        }
        if same(defs[i].name.as_str(), entry.name.as_str()) {
            if !replaced {
                r.push(entry.clone());
                assert(def_views(r@) =~= before.push(entry@));
                replaced = true;
            }
        } else {
            r.push(defs[i].clone());
            assert(def_views(r@) =~= before.push(defs@[i as int]@));
        }
        i = i + 1;
    }
    assert(all.take(i as int) =~= all);
    r
}

fn drop_name(defs: &Vec<McpEntryDef>, name: &str) -> (r: Vec<McpEntryDef>)
    ensures
        def_views(r@) == without_name(def_views(defs@), name@),
{
    let ghost all = def_views(defs@);
    let mut r: Vec<McpEntryDef> = Vec::new();
    let mut i: usize = 0;
    assert(def_views(r@) =~= without_name(all.take(0), name@));
    while i < defs.len()
        invariant
            i <= defs.len(),
            all == def_views(defs@),
            def_views(r@) == without_name(all.take(i as int), name@),
        decreases defs.len() - i,
    {
        let ghost before = def_views(r@);
        proof {
            assert(all.take(i + 1).drop_last() =~= all.take(i as int));
            assert(all.take(i + 1).last() == defs@[i as int]@);
        }
        if !same(defs[i].name.as_str(), name) {
            r.push(defs[i].clone());
            assert(def_views(r@) =~= before.push(defs@[i as int]@));
        }
        i = i + 1;
    }
    assert(all.take(i as int) =~= all);
    r
}

fn ambiguous_error(name: &str, n: usize) -> (r: AgentWriteError)
    ensures
        r@ == ambiguous(name@, n as nat),
{
    let mut m = "server `".to_owned();
    m.append(name);
    m.append("` is declared by ");
    m.append(decimal_of(n as u64).as_str());
    m.append(" separate `- insert:` blocks; refusing ambiguous surgery");
    AgentWriteError::Unsafe(m)
}

fn mixed_error(name: &str) -> (r: AgentWriteError)
    ensures
        r@ == mixed(name@),
{
    let mut m = "server `".to_owned();
    m.append(name);
    m.append("` lives in a block with mixed foreign plugins; refusing block surgery");
    AgentWriteError::Unsafe(m)
}

// A text that an entry was written to has it.
proof fn lemma_upsert_found(text: Seq<char>, entry: EntryDef)
    ensures
        dsh_upserted(text, entry) matches Ok(new) ==> dsh_entry_in(new, entry.name) matches Ok(
            Some(_),
        ),
{
    if let Ok(new) = dsh_upserted(text, entry) {
        law_upsert_names(text, entry, new, entry.name);
    }
}

impl McpWriter for DshYamlWriter {
    open spec fn upserted(&self, text: Seq<char>, entry: EntryDef) -> Result<Seq<char>, WriteError> {
        dsh_upserted(text, entry)
    }

    open spec fn removed(&self, text: Seq<char>, name: Seq<char>) -> Result<Seq<char>, WriteError> {
        dsh_removed(text, name)
    }

    open spec fn entry_in(&self, text: Seq<char>, name: Seq<char>) -> Result<
        Option<EntryDef>,
        WriteError,
    > {
        dsh_entry_in(text, name)
    }

    open spec fn blank(&self) -> Seq<char> {
        "[]"@
    }

    fn upsert(&self, file_text: &str, entry: &McpEntryDef) -> (r: Result<String, AgentWriteError>) {
        let old_defs = match parse_defs(file_text) {
            Ok(defs) => defs,
            Err(e) => {
                return Err(e);
            },
        };
        // Expected names after surgery: target exactly once, everything else as often as
        // before.
        let mut names = other_names(&names_of(&old_defs), entry.name.as_str());
        let ghost before = texts(names@);
        names.push(entry.name.clone());
        assert(texts(names@) =~= before.push(entry@.name));
        let expected = sort_texts(&names);
        let lines = split_lines(file_text);
        let ghost ls = lines_of(file_text@);
        let blocks = find_blocks(&lines);
        let (at, count): (usize, usize) = find_hits(&blocks, entry.name.as_str());
        if count == 0 {
            let mut only: Vec<McpEntryDef> = Vec::new();
            only.push(entry.clone());
            assert(def_views(only@) =~= seq![entry@]);
            if same(file_text, self.empty_doc()) {
                // Nothing can follow a list in flow style: the block takes its place.
                let r = validate(render_block(&only), &expected);
                proof {
                    lemma_upsert_found(file_text@, entry@);
                }
                return r;
            }
            // Not found: append a fresh block at the end, one blank line of separation;
            // every preceding byte (comments included) is kept.
            let mut text = file_text.to_owned();
            if !file_text.is_empty() && !has_suffix(file_text, "\n") {
                text.push('\n');
            }
            proof {
                reveal_strlit("\n");
                let t = file_text@;
                if t.len() > 0 {
                    assert(t.skip(t.len() - 1) =~= seq![t.last()]);
                    assert("\n"@ =~= seq!['\n']);
                    assert(ends_with(t, "\n"@) <==> t.last() == '\n') by {
                        assert(seq![t.last()][0] == t.last());
                        assert("\n"@[0] == '\n');
                    }
                }
                assert(text@ == line_ended(file_text@));
            }
            text.append("\n");
            text.append(render_block(&only).as_str());
            proof {
                lemma_upsert_found(file_text@, entry@);
            }
            return validate(text, &expected);
        }
        if count > 1 {
            return Err(ambiguous_error(entry.name.as_str(), count));
        }
        let block = &blocks[at];
        if block.foreign {
            return Err(mixed_error(entry.name.as_str()));
        }
        let n: usize = lines.len();
        let mut text = join_lines(&lines, 0, block.start);
        text.append(render_block(&rebuild(&block.defs, entry)).as_str());
        text.append(join_lines(&lines, block.content_end, n).as_str());
        proof {
            let b = hits(blocks_from(ls, 0), entry@.name)[0];
            assert(block.is(b));
            assert(ls.subrange(0, b.start) =~= ls.take(b.start));
            assert(ls.subrange(b.content_end, n as int) =~= ls.skip(b.content_end));
            lemma_upsert_found(file_text@, entry@);
        }
        validate(text, &expected)
    }

    fn remove(&self, file_text: &str, name: &str) -> (r: Result<String, AgentWriteError>) {
        let old_defs = match parse_defs(file_text) {
            Ok(defs) => defs,
            Err(e) => {
                return Err(e);
            },
        };
        let names = names_of(&old_defs);
        if !crate::order::has_text(&names, name) {
            // Idempotent: an absent server leaves the text byte-identical.
            return Ok(file_text.to_owned());
        }
        let expected = sort_texts(&other_names(&names, name));
        let lines = split_lines(file_text);
        let ghost ls = lines_of(file_text@);
        let blocks = find_blocks(&lines);
        let (at, count): (usize, usize) = find_hits(&blocks, name);
        if count != 1 {
            return Err(ambiguous_error(name, count));
        }
        let block = &blocks[at];
        if block.foreign {
            return Err(mixed_error(name));
        }
        let remaining = drop_name(&block.defs, name);
        let n: usize = lines.len();
        let mut text = join_lines(&lines, 0, block.start);
        let mut end: usize = block.content_end;
        proof {
            let b = hits(blocks_from(ls, 0), name@)[0];
            assert(block.is(b));
            assert(ls.subrange(0, b.start) =~= ls.take(b.start));
        }
        if remaining.len() == 0 {
            // Whole block goes away, plus one trailing blank line so block separation does
            // not drift.
            if end < n {
                let next = chars_of(lines[end].as_str());
                if next.len() > 0 && next[0] == '\n' {
                    end = end + 1;
                }
            }
            assert(end == after_deleted(ls, block.content_end as int));
        } else {
            // Co-resident plugins survive: rebuild the block without `name`.
            text.append(render_block(&remaining).as_str());
        }
        text.append(join_lines(&lines, end, n).as_str());
        assert(ls.subrange(end as int, n as int) =~= ls.skip(end as int));
        validate(text, &expected)
    }

    fn read_entry(&self, file_text: &str, name: &str) -> (r: Result<
        Option<McpEntryDef>,
        AgentWriteError,
    >) {
        let defs = match parse_defs(file_text) {
            Ok(defs) => defs,
            Err(e) => {
                return Err(e);
            },
        };
        let ghost all = def_views(defs@);
        let mut i: usize = 0;
        assert(all.skip(0) =~= all);
        while i < defs.len()
            invariant
                i <= defs.len(),
                all == def_views(defs@),
                parsed_defs(file_text@) == Ok::<Seq<EntryDef>, WriteError>(all),
                first_def(all, name@) == first_def(all.skip(i as int), name@),
            decreases defs.len() - i,
        {
            assert(all.skip(i as int)[0] == defs@[i as int]@);
            assert(all.skip(i as int).drop_first() =~= all.skip(i + 1));
            if same(defs[i].name.as_str(), name) {
                return Ok(Some(defs[i].clone()));
            }
            i = i + 1;
        }
        Ok(None)
    }

    fn empty_doc(&self) -> (r: &'static str) {
        "[]"
    }
}

} // verus!
