//! What the DeepSeek Harness writer's operations mean for the names a file lists, and what a
//! written definition reads back as.

use vstd::prelude::*;
use crate::env_map::keys_ascend;
use crate::mcp_inventory::{
    client_plugin, dsh_config, dsh_entries, field_texts, plugins_of, transport_of, DSH_MCP_PLUGIN,
};
use crate::mcp_library::known_transport;
use crate::mcp_writers::{EntryDef, WriteError};
use crate::mcp_writers::dsh_yaml::{
    after_deleted, block_appended, block_text, blocks_from, checked, content_end, def_names,
    defs_of, dsh_entry_in, dsh_removed, dsh_upserted, entry_names, first_def, has_item_line, hits,
    line_ended, line_text, next_item, others, parsed_defs, plugin_def, rebuilt, without_name,
    yaml_env, Block,
};
use crate::mcp_writers::opencode_laws::lemma_bind_all_ascending;
use crate::order::{law_sorted_is_ascending_permutation, sorted};
use crate::text::{
    ascii_lowered, joined, law_lines_make_text, lemma_find_char, lemma_joined_concat,
    lemma_trim_end, lemma_trim_start, lines_of, starts_with, trimmed,
};
use crate::yaml::{
    list_field, map_field, text_field, yaml_document, yaml_list, yaml_map, yaml_texts, YamlTree,
};

verus! {

/// The inventory lists the same names as the writer reads, in the same order.
pub proof fn law_inventory_agrees(plugins: Seq<YamlTree>)
    ensures
        entry_names(dsh_entries(plugins)) == def_names(defs_of(plugins)),
    decreases plugins.len(),
{
    if plugins.len() > 0 {
        let before = plugins.drop_last();
        law_inventory_agrees(before);
        match client_plugin(plugins.last()) {
            Some(p) => {
                assert(entry_names(dsh_entries(plugins)) =~= entry_names(dsh_entries(before)).push(
                    p.name,
                ));
                assert(def_names(defs_of(plugins)) =~= def_names(defs_of(before)).push(p.name));
            },
            None => {},
        }
    } else {
        assert(entry_names(dsh_entries(plugins)) =~= def_names(defs_of(plugins)));
    }
}

proof fn lemma_others_count(names: Seq<Seq<char>>, name: Seq<char>, x: Seq<char>)
    ensures
        others(names, name).to_multiset().count(x) == if x == name {
            0
        } else {
            names.to_multiset().count(x)
        },
    decreases names.len(),
{
    broadcast use vstd::seq_lib::group_to_multiset_ensures;

    if names.len() > 0 {
        lemma_others_count(names.drop_last(), name, x);
        assert(names =~= names.drop_last().push(names.last()));
    }
}

/// How often a text's plugin list names `x`.
pub open spec fn times_named(defs: Seq<EntryDef>, x: Seq<char>) -> nat {
    def_names(defs).to_multiset().count(x)
}

proof fn lemma_first_def_found(defs: Seq<EntryDef>, name: Seq<char>)
    ensures
        def_names(defs).contains(name) <==> first_def(defs, name) is Some,
        first_def(defs, name) matches Some(d) ==> d.name == name,
    decreases defs.len(),
{
    if defs.len() > 0 {
        let t = defs.drop_first();
        lemma_first_def_found(t, name);
        let ns = def_names(defs);
        let ts = def_names(t);
        if ns.contains(name) && defs[0].name != name {
            let i = choose|i: int| 0 <= i < ns.len() && ns[i] == name;
            assert(ts[i - 1] == name);
        }
        if ts.contains(name) {
            let i = choose|i: int| 0 <= i < ts.len() && ts[i] == name;
            assert(ns[i + 1] == name);
        }
        if defs[0].name == name {
            assert(ns[0] == name);
        }
    }
}

proof fn lemma_checked_names(new: Seq<char>, names: Seq<Seq<char>>, x: Seq<char>)
    requires
        checked(new, sorted(names)) == Ok::<Seq<char>, WriteError>(new),
    ensures
        match parsed_defs(new) {
            Ok(defs) => times_named(defs, x) == names.to_multiset().count(x),
            Err(_) => names.len() == 0 && !has_item_line(new),
        },
{
    law_sorted_is_ascending_permutation(names);
    match dsh_config(new) {
        Ok(entries) => {
            law_sorted_is_ascending_permutation(entry_names(entries));
            let doc = yaml_document(new)->Ok_0;
            let patches = yaml_list(doc)->Some_0;
            law_inventory_agrees(plugins_of(patches));
        },
        Err(_) => {},
    }
}

/// After a write that succeeds, the file lists the name exactly once and every other name as
/// often as before, and a read of the name finds it.
pub proof fn law_upsert_names(text: Seq<char>, entry: EntryDef, new: Seq<char>, x: Seq<char>)
    requires
        dsh_upserted(text, entry) == Ok::<Seq<char>, WriteError>(new),
    ensures
        parsed_defs(text) matches Ok(old) && parsed_defs(new) matches Ok(defs) && times_named(defs, x)
            == if x == entry.name {
            1
        } else {
            times_named(old, x)
        },
        dsh_entry_in(new, entry.name) matches Ok(Some(d)) && d.name == entry.name,
{
    broadcast use vstd::seq_lib::group_to_multiset_ensures;

    let old = parsed_defs(text)->Ok_0;
    let rest = others(def_names(old), entry.name);
    let names = rest.push(entry.name);
    lemma_checked_names(new, names, x);
    lemma_checked_names(new, names, entry.name);
    lemma_others_count(def_names(old), entry.name, x);
    lemma_others_count(def_names(old), entry.name, entry.name);
    let defs = parsed_defs(new)->Ok_0;
    lemma_first_def_found(defs, entry.name);
    assert(names.to_multiset() == rest.to_multiset().insert(entry.name));
    assert(def_names(defs).to_multiset().count(entry.name) > 0);
    assert(def_names(defs).contains(entry.name));
}

/// A write that succeeds changes nothing in which other names a read finds.
pub proof fn law_upsert_keeps_other_names(
    text: Seq<char>,
    entry: EntryDef,
    new: Seq<char>,
    other: Seq<char>,
)
    requires
        dsh_upserted(text, entry) == Ok::<Seq<char>, WriteError>(new),
        other != entry.name,
    ensures
        dsh_entry_in(new, other) matches Ok(Some(_)) <==> dsh_entry_in(text, other) matches Ok(Some(_)),
        dsh_entry_in(new, other) is Ok,
        dsh_entry_in(text, other) is Ok,
{
    broadcast use vstd::seq_lib::group_to_multiset_ensures;

    law_upsert_names(text, entry, new, other);
    let old = parsed_defs(text)->Ok_0;
    let defs = parsed_defs(new)->Ok_0;
    lemma_first_def_found(old, other);
    lemma_first_def_found(defs, other);
    assert(def_names(defs).contains(other) <==> times_named(defs, other) > 0);
    assert(def_names(old).contains(other) <==> times_named(old, other) > 0);
}

/// After a removal that succeeds, the file lists the name no more and every other name as
/// often as before — or it lists nothing at all any more, when there was no other name.
pub proof fn law_remove_names(text: Seq<char>, name: Seq<char>, new: Seq<char>, x: Seq<char>)
    requires
        dsh_removed(text, name) == Ok::<Seq<char>, WriteError>(new),
    ensures
        parsed_defs(text) matches Ok(old) && match parsed_defs(new) {
            Ok(defs) => times_named(defs, x) == if x == name {
                0
            } else {
                times_named(old, x)
            },
            Err(_) => others(def_names(old), name).len() == 0 && !has_item_line(new),
        },
        parsed_defs(new) is Ok ==> dsh_entry_in(new, name) == Ok::<Option<EntryDef>, WriteError>(
            None,
        ),
{
    broadcast use vstd::seq_lib::group_to_multiset_ensures;

    let old = parsed_defs(text)->Ok_0;
    if def_names(old).contains(name) {
        let names = others(def_names(old), name);
        lemma_checked_names(new, names, x);
        lemma_checked_names(new, names, name);
        lemma_others_count(def_names(old), name, x);
        lemma_others_count(def_names(old), name, name);
    }
    if let Ok(defs) = parsed_defs(new) {
        lemma_first_def_found(defs, name);
        assert(def_names(defs).to_multiset().count(name) == 0);
        assert(!def_names(defs).contains(name));
    }
}

/// Removing a name a second time changes nothing.
pub proof fn law_remove_idempotent(text: Seq<char>, name: Seq<char>, new: Seq<char>)
    requires
        dsh_removed(text, name) == Ok::<Seq<char>, WriteError>(new),
        parsed_defs(new) is Ok,
    ensures
        dsh_removed(new, name) == Ok::<Seq<char>, WriteError>(new),
{
    law_remove_names(text, name, new, name);
    lemma_first_def_found(parsed_defs(new)->Ok_0, name);
}

proof fn lemma_block_range(lines: Seq<Seq<char>>, i: int, k: int)
    requires
        0 <= i,
        0 <= k < blocks_from(lines, i).len(),
    ensures
        ({
            let b = blocks_from(lines, i)[k];
            i <= b.start < b.content_end <= lines.len()
        }),
    decreases lines.len() - i,
{
    if i < lines.len() {
        if !crate::mcp_writers::dsh_yaml::is_insert(lines[i]) {
            lemma_block_range(lines, i + 1, k);
        } else {
            let j = next_item(lines, i + 1);
            lemma_next_item_range(lines, i + 1);
            lemma_content_range(lines, i, j);
            if k > 0 {
                assert(blocks_from(lines, i)[k] == blocks_from(lines, j)[k - 1]);
                lemma_block_range(lines, j, k - 1);
            }
        }
    }
}

proof fn lemma_next_item_range(lines: Seq<Seq<char>>, j: int)
    requires
        0 <= j <= lines.len(),
    ensures
        j <= next_item(lines, j) <= lines.len(),
    decreases lines.len() - j,
{
    if j < lines.len() && !crate::mcp_writers::dsh_yaml::is_top_item(lines[j]) {
        lemma_next_item_range(lines, j + 1);
    }
}

proof fn lemma_content_range(lines: Seq<Seq<char>>, i: int, j: int)
    requires
        0 <= i < j <= lines.len(),
    ensures
        i < content_end(lines, i, j) <= j,
    decreases j - i,
{
    if i + 1 < j && crate::mcp_writers::dsh_yaml::is_blank_or_comment(lines[j - 1]) {
        lemma_content_range(lines, i, j - 1);
    }
}

/// A block's surgery exchanges the block's content lines only: what stands before them and
/// behind them is the text's own.
pub proof fn law_block_cut(text: Seq<char>, k: int)
    requires
        0 <= k < blocks_from(lines_of(text), 0).len(),
    ensures
        ({
            let lines = lines_of(text);
            let b = blocks_from(lines, 0)[k];
            joined(lines.take(b.start)) + joined(lines.subrange(b.start, b.content_end)) + joined(
                lines.skip(b.content_end),
            ) == text
        }),
{
    let lines = lines_of(text);
    let b = blocks_from(lines, 0)[k];
    lemma_block_range(lines, 0, k);
    law_lines_make_text(text);
    let head = lines.take(b.start);
    let content = lines.subrange(b.start, b.content_end);
    let tail = lines.skip(b.content_end);
    assert(lines =~= head + content + tail);
    lemma_joined_concat(head + content, tail);
    lemma_joined_concat(head, content);
}

/// A write of a name that no block declares keeps the whole text in front of the new block; only
/// the blank document gives way to it.
pub proof fn law_append_keeps_text(text: Seq<char>, entry: EntryDef, new: Seq<char>)
    requires
        dsh_upserted(text, entry) == Ok::<Seq<char>, WriteError>(new),
        hits(blocks_from(lines_of(text), 0), entry.name).len() == 0,
    ensures
        new == block_appended(text, entry),
        text != "[]"@ ==> starts_with(new, text),
{
    if text != "[]"@ {
        assert(line_ended(text).take(text.len() as int) =~= text);
        assert(new.take(text.len() as int) =~= line_ended(text).take(text.len() as int));
    }
}

proof fn lemma_hits_are_blocks(blocks: Seq<Block>, name: Seq<char>)
    ensures
        forall|i: int|
            0 <= i < hits(blocks, name).len() ==> blocks.contains(#[trigger] hits(blocks, name)[i])
                && def_names(hits(blocks, name)[i].defs).contains(name),
    decreases blocks.len(),
{
    if blocks.len() > 0 {
        let front = blocks.drop_last();
        let found = hits(blocks, name);
        let before = hits(front, name);
        lemma_hits_are_blocks(front, name);
        assert forall|i: int| 0 <= i < found.len() implies blocks.contains(#[trigger] found[i])
            && def_names(found[i].defs).contains(name) by {
            if i < before.len() {
                assert(found[i] == before[i]);
                let j = choose|j: int| 0 <= j < front.len() && front[j] == before[i];
                assert(blocks[j] == found[i]);
            } else {
                assert(blocks[blocks.len() - 1] == found[i]);
            }
        }
    }
}

/// A write of a name that a block declares exchanges the content lines of that one block, and
/// keeps every character in front of them and behind them.
pub proof fn law_replacement_is_local(text: Seq<char>, entry: EntryDef, new: Seq<char>) -> (block:
    Block)
    requires
        dsh_upserted(text, entry) == Ok::<Seq<char>, WriteError>(new),
        hits(blocks_from(lines_of(text), 0), entry.name).len() > 0,
    ensures
        hits(blocks_from(lines_of(text), 0), entry.name) == seq![block],
        blocks_from(lines_of(text), 0).contains(block),
        def_names(block.defs).contains(entry.name),
        ({
            let lines = lines_of(text);
            let front = joined(lines.take(block.start));
            let content = joined(lines.subrange(block.start, block.content_end));
            let behind = joined(lines.skip(block.content_end));
            &&& text == front + content + behind
            &&& new == front + block_text(rebuilt(block.defs, entry)) + behind
        }),
{
    let blocks = blocks_from(lines_of(text), 0);
    lemma_hits_are_blocks(blocks, entry.name);
    let block = hits(blocks, entry.name)[0];
    assert(hits(blocks, entry.name) =~= seq![block]);
    let k = choose|k: int| 0 <= k < blocks.len() && blocks[k] == block;
    law_block_cut(text, k);
    block
}

/// Whether the blocks that the scan finds declare exactly the names that the whole text lists.
pub open spec fn blocks_agree(text: Seq<char>) -> bool {
    parsed_defs(text) matches Ok(defs) && forall|name: Seq<char>|
        hits(blocks_from(lines_of(text), 0), name).len() > 0 <==> #[trigger] def_names(
            defs,
        ).contains(name)
}

/// By the names that the inventory lists: a write of a name that is not listed keeps the whole text
/// in front of the new block, only the blank document gives way to it; a write of a listed name
/// exchanges the content of the one block that declares it. This is so where the YAML reader finds
/// in the blocks what it finds in the whole text.
pub proof fn law_upsert_by_listed_name(text: Seq<char>, entry: EntryDef, new: Seq<char>) -> (block:
    Option<Block>)
    requires
        dsh_upserted(text, entry) == Ok::<Seq<char>, WriteError>(new),
        blocks_agree(text),
    ensures
        dsh_config(text) matches Ok(entries) && {
            &&& !entry_names(entries).contains(entry.name) ==> new == block_appended(text, entry) && (
            text != "[]"@ ==> starts_with(new, text))
            &&& entry_names(entries).contains(entry.name) ==> block is Some && {
                let b = block->Some_0;
                let lines = lines_of(text);
                let front = joined(lines.take(b.start));
                let behind = joined(lines.skip(b.content_end));
                &&& hits(blocks_from(lines, 0), entry.name) == seq![b]
                &&& text == front + joined(lines.subrange(b.start, b.content_end)) + behind
                &&& new == front + block_text(rebuilt(b.defs, entry)) + behind
            }
        },
{
    let doc = yaml_document(text)->Ok_0;
    let plugins = plugins_of(yaml_list(doc)->Some_0);
    law_inventory_agrees(plugins);
    let defs = parsed_defs(text)->Ok_0;
    let found = hits(blocks_from(lines_of(text), 0), entry.name);
    assert(found.len() > 0 <==> def_names(defs).contains(entry.name));
    if found.len() == 0 {
        law_append_keeps_text(text, entry, new);
        None
    } else {
        let b = law_replacement_is_local(text, entry, new);
        assert(found =~= seq![b]);
        Some(b)
    }
}

/// A removal exchanges the content lines of the one block that declares the name, or takes them
/// away with the one blank line behind them.
pub proof fn law_removal_is_local(text: Seq<char>, name: Seq<char>, new: Seq<char>) -> (block: Block)
    requires
        dsh_removed(text, name) == Ok::<Seq<char>, WriteError>(new),
        parsed_defs(text) matches Ok(old) && def_names(old).contains(name),
    ensures
        blocks_from(lines_of(text), 0).contains(block),
        def_names(block.defs).contains(name),
        ({
            let lines = lines_of(text);
            let front = joined(lines.take(block.start));
            let content = joined(lines.subrange(block.start, block.content_end));
            let behind = joined(lines.skip(block.content_end));
            let left = without_name(block.defs, name);
            &&& text == front + content + behind
            &&& new == if left.len() == 0 {
                front + joined(lines.skip(after_deleted(lines, block.content_end)))
            } else {
                front + block_text(left) + behind
            }
        }),
{
    let blocks = blocks_from(lines_of(text), 0);
    lemma_hits_are_blocks(blocks, name);
    let block = hits(blocks, name)[0];
    let k = choose|k: int| 0 <= k < blocks.len() && blocks[k] == block;
    law_block_cut(text, k);
    block
}

// ── what a written definition reads back as ──

pub open spec fn text_nodes(s: Seq<Seq<char>>) -> Seq<YamlTree> {
    Seq::new(s.len(), |i: int| YamlTree::Text(s[i]))
}

pub open spec fn env_nodes(env: Seq<(Seq<char>, Seq<char>)>) -> Seq<(YamlTree, YamlTree)> {
    Seq::new(env.len(), |i: int| (YamlTree::Text(env[i].0), YamlTree::Text(env[i].1)))
}

pub open spec fn url_or_empty(e: EntryDef) -> Seq<char> {
    match e.url {
        Some(url) => url,
        None => Seq::empty(),
    }
}

/// Whether a config mapping says what the lines that are rendered for a definition say.
pub open spec fn config_says(config: Seq<(YamlTree, YamlTree)>, e: EntryDef) -> bool {
    &&& text_field(config, "serverName"@) == Some(e.name)
    &&& text_field(config, "transport"@) == Some(e.transport)
    &&& if e.transport == "stdio"@ {
        &&& text_field(config, "command"@) == e.command
        &&& list_field(config, "args"@) == if e.args.len() == 0 {
            None
        } else {
            Some(text_nodes(e.args))
        }
        &&& text_field(config, "url"@) is None
    } else {
        &&& text_field(config, "command"@) is None
        &&& list_field(config, "args"@) is None
        &&& text_field(config, "url"@) == Some(url_or_empty(e))
    }
    &&& map_field(config, "env"@) == if e.env.len() == 0 {
        None
    } else {
        Some(env_nodes(e.env))
    }
}

/// Whether a plugin says what the list item that is rendered for a definition says.
pub open spec fn plugin_says(plugin: YamlTree, e: EntryDef) -> bool {
    match yaml_map(plugin) {
        Some(fields) => text_field(fields, "name"@) == Some(DSH_MCP_PLUGIN@) && match map_field(
            fields,
            "config"@,
        ) {
            Some(config) => config_says(config, e),
            None => false,
        },
        None => false,
    }
}

/// What the format keeps of a definition: a stdio server has no address, any other has one and
/// no command line.
pub open spec fn kept_by_dsh(e: EntryDef) -> EntryDef {
    if e.transport == "stdio"@ {
        EntryDef { url: None, ..e }
    } else {
        EntryDef { command: None, args: Seq::empty(), url: Some(url_or_empty(e)), ..e }
    }
}

proof fn lemma_text_nodes(s: Seq<Seq<char>>)
    ensures
        yaml_texts(text_nodes(s)) == s,
    decreases s.len(),
{
    if s.len() > 0 {
        lemma_text_nodes(s.drop_last());
        assert(text_nodes(s).drop_last() =~= text_nodes(s.drop_last()));
        assert(s.drop_last().push(s.last()) =~= s);
    } else {
        assert(yaml_texts(text_nodes(s)) =~= s);
    }
}

proof fn lemma_env_nodes(env: Seq<(Seq<char>, Seq<char>)>)
    ensures
        yaml_env(env_nodes(env)) == env,
    decreases env.len(),
{
    if env.len() > 0 {
        lemma_env_nodes(env.drop_last());
        assert(env_nodes(env).drop_last() =~= env_nodes(env.drop_last()));
        assert(env.drop_last().push(env.last()) =~= env);
    } else {
        assert(yaml_env(env_nodes(env)) =~= env);
    }
}

proof fn lemma_transport_kept(transport: Seq<char>, has_url: bool, has_command: bool)
    requires
        known_transport(transport),
    ensures
        transport_of(Some(transport), has_url, has_command) == transport,
{
    reveal_strlit("stdio");
    reveal_strlit("http");
    reveal_strlit("streamable-http");
    reveal_strlit("local");
    reveal_strlit("remote");
    reveal_strlit("sse");
    lemma_trim_start(transport, 0);
    lemma_trim_end(transport, transport.len() as int);
    assert(transport.skip(0) =~= transport);
    assert(transport.take(transport.len() as int) =~= transport);
    assert(trimmed(transport) == transport);
    assert(ascii_lowered(transport) =~= transport);
    assert("stdio"@[0] == 's' && "http"@[0] == 'h' && "streamable-http"@[1] == 't');
    assert("stdio"@.len() == 5 && "http"@.len() == 4 && "streamable-http"@.len() == 15
        && "local"@.len() == 5 && "remote"@.len() == 6 && "sse"@.len() == 3);
    assert("local"@[0] == 'l');
}

/// The reader takes from a rendered plugin the definition that it was rendered from.
pub proof fn law_rendered_plugin_reads_back(plugin: YamlTree, e: EntryDef)
    requires
        plugin_says(plugin, e),
        known_transport(e.transport),
        keys_ascend(e.env),
    ensures
        client_plugin(plugin) matches Some(p) && p.name == e.name && plugin_def(p) == kept_by_dsh(
            e,
        ),
{
    let p = client_plugin(plugin)->Some_0;
    lemma_text_nodes(e.args);
    lemma_env_nodes(e.env);
    lemma_bind_all_ascending(e.env);
    let d = plugin_def(p);
    lemma_transport_kept(
        e.transport,
        d.url is Some,
        d.command is Some || field_texts(list_field(p.config, "args"@)).len() > 0,
    );
    if e.transport == "stdio"@ && e.args.len() == 0 {
        assert(d.args =~= e.args);
    }
    if e.env.len() == 0 {
        assert(d.env =~= e.env);
    }
    assert(d =~= kept_by_dsh(e));
}

proof fn lemma_def_of_plugin(plugins: Seq<YamlTree>, k: int)
    requires
        0 <= k < plugins.len(),
        client_plugin(plugins[k]) is Some,
    ensures
        defs_of(plugins).contains(plugin_def(client_plugin(plugins[k])->Some_0)),
    decreases plugins.len(),
{
    let rest = plugins.drop_last();
    let before = defs_of(rest);
    let d = plugin_def(client_plugin(plugins[k])->Some_0);
    if k < rest.len() {
        lemma_def_of_plugin(rest, k);
        let i = choose|i: int| 0 <= i < before.len() && before[i] == d;
        assert(defs_of(plugins)[i] == d);
    } else {
        assert(defs_of(plugins)[before.len() as int] == d);
    }
}

// A definition whose name occurs once is the first of its name.
proof fn lemma_only_def(defs: Seq<EntryDef>, d: EntryDef)
    requires
        defs.contains(d),
        times_named(defs, d.name) == 1,
    ensures
        first_def(defs, d.name) == Some(d),
    decreases defs.len(),
{
    broadcast use vstd::seq_lib::group_to_multiset_ensures;

    let t = defs.drop_first();
    let ns = def_names(defs);
    let ts = def_names(t);
    assert(ns =~= seq![defs[0].name] + ts);
    vstd::seq_lib::lemma_multiset_commutative(seq![defs[0].name], ts);
    assert(seq![defs[0].name] =~= Seq::<Seq<char>>::empty().push(defs[0].name));
    assert(seq![defs[0].name].to_multiset() =~= vstd::multiset::Multiset::empty().insert(
        defs[0].name,
    ));
    assert(ns.to_multiset() == seq![defs[0].name].to_multiset().add(ts.to_multiset()));
    let i = choose|i: int| 0 <= i < defs.len() && defs[i] == d;
    if i == 0 {
    } else {
        assert(t[i - 1] == d);
        assert(ts[i - 1] == d.name);
        assert(ts.contains(d.name));
        assert(ts.to_multiset().count(d.name) > 0);
        assert(defs[0].name != d.name);
        lemma_only_def(t, d);
    }
}

/// A definition that was written reads back as the format keeps it, where the YAML reader finds
/// in the new text a plugin that says what was rendered.
pub proof fn law_written_definition_reads_back(
    text: Seq<char>,
    entry: EntryDef,
    new: Seq<char>,
    k: int,
)
    requires
        dsh_upserted(text, entry) == Ok::<Seq<char>, WriteError>(new),
        known_transport(entry.transport),
        keys_ascend(entry.env),
        yaml_document(new) matches Ok(doc) && yaml_list(doc) matches Some(patches) && 0 <= k
            < plugins_of(patches).len() && plugin_says(plugins_of(patches)[k], entry),
    ensures
        dsh_entry_in(new, entry.name) == Ok::<Option<EntryDef>, WriteError>(
            Some(kept_by_dsh(entry)),
        ),
{
    law_upsert_names(text, entry, new, entry.name);
    let doc = yaml_document(new)->Ok_0;
    let plugins = plugins_of(yaml_list(doc)->Some_0);
    law_rendered_plugin_reads_back(plugins[k], entry);
    lemma_def_of_plugin(plugins, k);
    lemma_only_def(defs_of(plugins), kept_by_dsh(entry));
}

// The blank document has no block.
proof fn lemma_blank_has_no_block()
    ensures
        blocks_from(lines_of("[]"@), 0).len() == 0,
{
    reveal_strlit("[]");
    reveal_strlit("- insert:");
    let s = "[]"@;
    lemma_find_char(s, '\n', 2);
    assert(lines_of(s) =~= seq![s]);
    assert(s.last() == ']');
    assert(line_text(s) == s);
    reveal_with_fuel(blocks_from, 3);
}

/// The blank document is scratch space: a definition written into it reads back as the format
/// keeps it, where the YAML reader reads the blank document as an empty list and finds in a
/// rendered block the one plugin that was rendered.
pub proof fn law_blank_document_takes_a_definition(entry: EntryDef, plugin: YamlTree)
    requires
        known_transport(entry.transport),
        keys_ascend(entry.env),
        yaml_document("[]"@) matches Ok(doc) && yaml_list(doc) == Some(Seq::<YamlTree>::empty()),
        yaml_document(block_text(seq![entry])) matches Ok(doc) && yaml_list(doc) matches Some(patches)
            && plugins_of(patches) == seq![plugin],
        plugin_says(plugin, entry),
    ensures
        dsh_upserted("[]"@, entry) == Ok::<Seq<char>, WriteError>(block_text(seq![entry])),
        dsh_entry_in(block_text(seq![entry]), entry.name) == Ok::<Option<EntryDef>, WriteError>(
            Some(kept_by_dsh(entry)),
        ),
{
    let new = block_text(seq![entry]);
    lemma_blank_has_no_block();
    law_rendered_plugin_reads_back(plugin, entry);
    let p = client_plugin(plugin)->Some_0;
    let plugins = seq![plugin];
    reveal_with_fuel(defs_of, 2);
    reveal_with_fuel(dsh_entries, 2);
    assert(plugins.drop_last() =~= Seq::<YamlTree>::empty());
    law_inventory_agrees(plugins);
    let defs = defs_of(plugins);
    assert(defs =~= seq![plugin_def(p)]);
    assert(def_names(defs) =~= seq![entry.name]);
    let none = Seq::<Seq<char>>::empty();
    let old = parsed_defs("[]"@)->Ok_0;
    assert(old =~= Seq::<EntryDef>::empty());
    assert(def_names(old) =~= none);
    assert(others(def_names(old), entry.name).push(entry.name) =~= seq![entry.name]);
    assert(checked(new, sorted(seq![entry.name])) == Ok::<Seq<char>, WriteError>(new));
}

/// What the harness's format keeps of a definition, field by field: of a stdio server all but its
/// address, of any other all but its command line.
pub proof fn law_dsh_keeps(e: EntryDef)
    ensures
        kept_by_dsh(e).name == e.name,
        kept_by_dsh(e).transport == e.transport,
        kept_by_dsh(e).env == e.env,
        e.transport == "stdio"@ ==> {
            &&& kept_by_dsh(e).command == e.command
            &&& kept_by_dsh(e).args == e.args
            &&& kept_by_dsh(e).url is None
        },
        e.transport != "stdio"@ ==> {
            &&& kept_by_dsh(e).command is None && kept_by_dsh(e).args.len() == 0
            &&& e.url is Some ==> kept_by_dsh(e).url == e.url
            &&& e.url is None ==> kept_by_dsh(e).url == Some(Seq::<char>::empty())
        },
{
}

} // verus!
