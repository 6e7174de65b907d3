//! What a rendered block says, and which blocks are rendered anew.

use vstd::prelude::*;
use crate::env_map::bound;
use crate::mcp_inventory::{dsh_config, plugins_of, transport_of, ClientPlugin, RawEntry};
use crate::mcp_library::upgrade::law_same_plan_is_same_commands;
use crate::mcp_probe::answer_laws::lemma_bind_all_bound;
use crate::mcp_writers::{registered_writer, AgentWriter, EntryDef, WriteError};
use crate::mcp_writers::dsh_block_laws::{lemma_next, opens_item};
use crate::mcp_writers::dsh_yaml::{
    block_appended, block_text, blocks_from, def_names, dsh_removed, dsh_upserted, entry_names,
    env_lines, first_def, hits, is_insert, next_item, others, parsed_defs, plugin_def, plugin_item,
    quoted_all, rebuilt, slug_of, without_name, yaml_env, yaml_quoted, Block,
};
use crate::text::{join, joined, lines_of, replace_char};
use crate::yaml::{
    debug_form, list_field, map_field, text_field, yaml_document, yaml_list, yaml_map, yaml_text,
    yaml_texts, YamlTree,
};

verus! {

// ── scalars ──

/// What the characters after the opening quote of a single-quoted YAML scalar stand for up to its
/// closing quote, and what follows that: a doubled quote stands for one.
pub open spec fn scalar_in(s: Seq<char>) -> Option<(Seq<char>, Seq<char>)>
    decreases s.len(),
{
    if s.len() == 0 {
        None
    } else if s[0] != '\'' {
        match scalar_in(s.skip(1)) {
            Some((text, after)) => Some((seq![s[0]] + text, after)),
            None => None,
        }
    } else if s.len() > 1 && s[1] == '\'' {
        match scalar_in(s.skip(2)) {
            Some((text, after)) => Some((seq!['\''] + text, after)),
            None => None,
        }
    } else {
        Some((Seq::empty(), s.skip(1)))
    }
}

proof fn lemma_doubled(s: Seq<char>, rest: Seq<char>)
    requires
        rest.len() > 0,
        rest[0] == '\'',
        rest.len() == 1 || rest[1] != '\'',
    ensures
        scalar_in(replace_char(s, '\'', "''"@) + rest) == Some((s, rest.skip(1))),
    decreases s.len(),
{
    reveal_strlit("''");
    if s.len() == 0 {
        assert(replace_char(s, '\'', "''"@) + rest =~= rest);
        assert(s =~= Seq::<char>::empty());
    } else {
        let t = s.skip(1);
        let tail = replace_char(t, '\'', "''"@) + rest;
        lemma_doubled(t, rest);
        let one = seq![s[0]];
        assert(s =~= one + t);
        if s[0] == '\'' {
            let none = Seq::<char>::empty();
            crate::text_laws::law_replace_char(none, '\'', t, "''"@);
            assert(none + seq!['\''] + t =~= s);
            let all = replace_char(s, '\'', "''"@) + rest;
            assert(all =~= "''"@ + tail);
            assert(all[0] == '\'' && all[1] == '\'');
            assert(all.skip(2) =~= tail);
        } else {
            lemma_replace_front(s[0], t);
            let all = replace_char(s, '\'', "''"@) + rest;
            assert(all =~= one + tail);
            assert(all.skip(1) =~= tail);
        }
    }
}

proof fn lemma_replace_front(c: char, t: Seq<char>)
    requires
        c != '\'',
    ensures
        replace_char(seq![c] + t, '\'', "''"@) == seq![c] + replace_char(t, '\'', "''"@),
    decreases t.len(),
{
    let s = seq![c] + t;
    if t.len() == 0 {
        assert(s =~= seq![c]);
        crate::text_laws::lemma_replace_none(s, '\'', "''"@);
        crate::text_laws::lemma_replace_none(t, '\'', "''"@);
    } else {
        let u = t.drop_last();
        lemma_replace_front(c, u);
        assert(s.drop_last() =~= seq![c] + u);
        assert(s.last() == t.last());
    }
    assert(replace_char(s, '\'', "''"@) =~= seq![c] + replace_char(t, '\'', "''"@));
}

/// A quoted text is a single-quoted YAML scalar that stands for the text, whatever quotes it has.
pub proof fn law_quoted_scalar_reads_back(s: Seq<char>, after: Seq<char>)
    requires
        after.len() == 0 || after[0] != '\'',
    ensures
        yaml_quoted(s).len() > 0,
        yaml_quoted(s)[0] == '\'',
        scalar_in((yaml_quoted(s) + after).skip(1)) == Some((s, after)),
{
    reveal_strlit("'");
    let rest = seq!['\''] + after;
    lemma_doubled(s, rest);
    assert((yaml_quoted(s) + after).skip(1) =~= replace_char(s, '\'', "''"@) + rest);
    assert(rest.skip(1) =~= after);
}

// ── items ──

proof fn lemma_env_lines(env: Seq<(Seq<char>, Seq<char>)>)
    ensures
        env_lines(env) == join(
            Seq::new(
                env.len(),
                |i: int| "          "@ + yaml_quoted(env[i].0) + ": "@ + yaml_quoted(env[i].1) + "\n"@,
            ),
            Seq::empty(),
        ),
    decreases env.len(),
{
    let lines = Seq::new(
        env.len(),
        |i: int| "          "@ + yaml_quoted(env[i].0) + ": "@ + yaml_quoted(env[i].1) + "\n"@,
    );
    if env.len() > 0 {
        let front = env.drop_last();
        lemma_env_lines(front);
        let before = Seq::new(
            front.len(),
            |i: int|
                "          "@ + yaml_quoted(front[i].0) + ": "@ + yaml_quoted(front[i].1) + "\n"@,
        );
        assert(lines.drop_last() =~= before);
        crate::mcp_upstream::check_laws::lemma_join_last(lines);
    } else {
        assert(join(lines, Seq::empty()) =~= Seq::<char>::empty());
    }
}

/// A stdio plugin says its command, its arguments in order and every variable, each quoted.
pub proof fn law_stdio_plugin_is_rendered(e: EntryDef, command: Seq<char>)
    requires
        e.transport == "stdio"@,
        e.command == Some(command),
        e.args.len() > 0,
        e.env.len() > 0,
    ensures
        plugin_item(e) == "    - id: "@ + yaml_quoted(slug_of(e.name)) + "\n      name: "@ + yaml_quoted(
            "@deepseek-ai/dsh-mcp-client"@,
        ) + "\n      config:\n"@ + ("        transport: stdio\n"@ + ("        serverName: "@
            + yaml_quoted(e.name) + "\n"@) + ("        command: "@ + yaml_quoted(command) + "\n"@) + (
        "        args: ["@ + join(Seq::new(e.args.len(), |i: int| yaml_quoted(e.args[i])), ", "@)
            + "]\n"@)) + ("        env:\n"@ + join(
            Seq::new(
                e.env.len(),
                |i: int|
                    "          "@ + yaml_quoted(e.env[i].0) + ": "@ + yaml_quoted(e.env[i].1) + "\n"@,
            ),
            Seq::empty(),
        )),
{
    lemma_env_lines(e.env);
    assert(quoted_all(e.args) =~= Seq::new(e.args.len(), |i: int| yaml_quoted(e.args[i])));
    lemma_key_lines(e, command);
}

proof fn lemma_key_lines(e: EntryDef, command: Seq<char>)
    ensures
        crate::mcp_writers::dsh_yaml::key_line("transport"@, "stdio"@)
            == "        transport: stdio\n"@,
        crate::mcp_writers::dsh_yaml::key_line("serverName"@, yaml_quoted(e.name))
            == "        serverName: "@ + yaml_quoted(e.name) + "\n"@,
        crate::mcp_writers::dsh_yaml::key_line("command"@, yaml_quoted(command))
            == "        command: "@ + yaml_quoted(command) + "\n"@,
        crate::mcp_writers::dsh_yaml::key_line("url"@, yaml_quoted(command)) == "        url: "@
            + yaml_quoted(command) + "\n"@,
        crate::mcp_writers::dsh_yaml::key_line(
            "args"@,
            "["@ + join(quoted_all(e.args), ", "@) + "]"@,
        ) == "        args: ["@ + join(quoted_all(e.args), ", "@) + "]\n"@,
        crate::mcp_writers::dsh_yaml::key_line("transport"@, e.transport) == "        transport: "@
            + e.transport + "\n"@,
{
    reveal_strlit("        ");
    reveal_strlit("transport");
    reveal_strlit("stdio");
    reveal_strlit("serverName");
    reveal_strlit("command");
    reveal_strlit("args");
    reveal_strlit("url");
    reveal_strlit(": ");
    reveal_strlit("\n");
    reveal_strlit("[");
    reveal_strlit("]");
    reveal_strlit("]\n");
    reveal_strlit("        transport: stdio\n");
    reveal_strlit("        transport: ");
    reveal_strlit("        serverName: ");
    reveal_strlit("        command: ");
    reveal_strlit("        args: [");
    reveal_strlit("        url: ");
    assert("        "@ + "serverName"@ + ": "@ =~= "        serverName: "@);
    assert("        "@ + "command"@ + ": "@ =~= "        command: "@);
    assert("        "@ + "url"@ + ": "@ =~= "        url: "@);
    assert("        "@ + "transport"@ + ": "@ =~= "        transport: "@);
    assert("        "@ + "args"@ + ": "@ + "["@ =~= "        args: ["@);
    assert("        transport: "@ + "stdio"@ + "\n"@ =~= "        transport: stdio\n"@);
    assert("]"@ + "\n"@ =~= "]\n"@);
    let list = join(quoted_all(e.args), ", "@);
    assert("        "@ + "args"@ + ": "@ + ("["@ + list + "]"@) + "\n"@ =~= "        args: ["@ + list
        + "]\n"@);
}

/// An http plugin says its address and every variable, each quoted.
pub proof fn law_http_plugin_is_rendered(e: EntryDef, url: Seq<char>)
    requires
        e.transport == "http"@ || e.transport == "streamable-http"@,
        e.url == Some(url),
        e.env.len() > 0,
    ensures
        plugin_item(e) == "    - id: "@ + yaml_quoted(slug_of(e.name)) + "\n      name: "@ + yaml_quoted(
            "@deepseek-ai/dsh-mcp-client"@,
        ) + "\n      config:\n"@ + (("        transport: "@ + e.transport + "\n"@) + (
        "        serverName: "@ + yaml_quoted(e.name) + "\n"@) + ("        url: "@ + yaml_quoted(url)
            + "\n"@)) + ("        env:\n"@ + join(
            Seq::new(
                e.env.len(),
                |i: int|
                    "          "@ + yaml_quoted(e.env[i].0) + ": "@ + yaml_quoted(e.env[i].1) + "\n"@,
            ),
            Seq::empty(),
        )),
{
    reveal_strlit("http");
    reveal_strlit("streamable-http");
    reveal_strlit("stdio");
    assert("http"@.len() == 4 && "streamable-http"@.len() == 15 && "stdio"@.len() == 5);
    lemma_env_lines(e.env);
    lemma_key_lines(e, url);
}

/// A block says every definition it is given, in order.
pub proof fn law_block_is_rendered(defs: Seq<EntryDef>)
    ensures
        block_text(defs) == "- insert:\n"@ + join(
            Seq::new(defs.len(), |i: int| plugin_item(defs[i])),
            Seq::empty(),
        ),
{
    lemma_items_rendered(defs);
}

proof fn lemma_items_rendered(defs: Seq<EntryDef>)
    ensures
        crate::mcp_writers::dsh_yaml::plugin_items(defs) == join(
            Seq::new(defs.len(), |i: int| plugin_item(defs[i])),
            Seq::empty(),
        ),
    decreases defs.len(),
{
    let items = Seq::new(defs.len(), |i: int| plugin_item(defs[i]));
    if defs.len() > 0 {
        let front = defs.drop_last();
        lemma_items_rendered(front);
        assert(items.drop_last() =~= Seq::new(front.len(), |i: int| plugin_item(front[i])));
        crate::mcp_upstream::check_laws::lemma_join_last(items);
    } else {
        assert(join(items, Seq::empty()) =~= Seq::<char>::empty());
    }
}

/// A new block stands behind the whole text, after one blank line; only the empty list gives way.
pub proof fn law_new_block_follows_the_text(text: Seq<char>, entry: EntryDef)
    ensures
        text != "[]"@ && text.len() > 0 && text.last() == '\n' ==> block_appended(text, entry) == text
            + "\n"@ + block_text(seq![entry]),
        text != "[]"@ && text.len() > 0 && text.last() != '\n' ==> block_appended(text, entry) == text
            + "\n\n"@ + block_text(seq![entry]),
        block_appended("[]"@, entry) == block_text(seq![entry]),
{
    reveal_strlit("\n");
    reveal_strlit("\n\n");
    assert(text.push('\n') + "\n"@ =~= text + "\n\n"@);
}

// ── what is left of a block ──

/// A definition replaces the one of its name where that stands, and the others stay as they are; a
/// removal leaves exactly the others, in order.
pub proof fn law_others_stay(defs: Seq<EntryDef>, entry: EntryDef, p: int)
    requires
        0 <= p < defs.len(),
        defs[p].name == entry.name,
        forall|i: int| 0 <= i < defs.len() && i != p ==> (#[trigger] defs[i]).name != entry.name,
    ensures
        rebuilt(defs, entry) == defs.update(p, entry),
        without_name(defs, entry.name) == defs.remove(p),
    decreases defs.len(),
{
    let t = defs.drop_last();
    assert forall|i: int| 0 <= i < t.len() && i != p implies (#[trigger] t[i]).name != entry.name by {
        assert(t[i] == defs[i]);
    }
    if p == defs.len() - 1 {
        lemma_none_named(t, entry);
        assert(!def_names(t).contains(entry.name)) by {
            if def_names(t).contains(entry.name) {
                let i = choose|i: int| 0 <= i < def_names(t).len() && def_names(t)[i] == entry.name;
                assert(t[i].name == entry.name);
            }
        }
        assert(rebuilt(defs, entry) =~= defs.update(p, entry));
        assert(without_name(defs, entry.name) =~= defs.remove(p));
    } else {
        assert(t[p] == defs[p]);
        law_others_stay(t, entry, p);
        assert(defs.last() == defs[defs.len() - 1]);
        assert(rebuilt(defs, entry) =~= defs.update(p, entry));
        assert(without_name(defs, entry.name) =~= defs.remove(p));
    }
}

/// However often a block declares a name, it does so once when it is rendered anew, and the others are
/// those it had.
pub proof fn law_one_of_a_name_is_left(defs: Seq<EntryDef>, entry: EntryDef, i: int, j: int)
    ensures
        without_name(rebuilt(defs, entry), entry.name) == without_name(defs, entry.name),
        0 <= i < j < rebuilt(defs, entry).len() ==> rebuilt(defs, entry)[i].name != entry.name
            || rebuilt(defs, entry)[j].name != entry.name,
        0 <= i < defs.len() && defs[i].name == entry.name ==> rebuilt(defs, entry).contains(entry),
    decreases defs.len(),
{
    if defs.len() > 0 {
        let front = defs.drop_last();
        let last = defs.last();
        let before = rebuilt(front, entry);
        let all = rebuilt(defs, entry);
        law_one_of_a_name_is_left(front, entry, i, j);
        assert(last == defs[defs.len() - 1]);
        if last.name != entry.name {
            assert(all == before.push(last));
            assert(all.drop_last() =~= before);
            if 0 <= i < front.len() && front[i].name == entry.name {
                let p = choose|p: int| 0 <= p < before.len() && before[p] == entry;
                assert(all[p] == entry);
            }
        } else if def_names(front).contains(entry.name) {
            let q = choose|q: int| 0 <= q < def_names(front).len() && def_names(front)[q] == entry.name;
            assert(front[q].name == entry.name);
            law_one_of_a_name_is_left(front, entry, q, j);
        } else {
            assert forall|k: int| 0 <= k < front.len() implies (#[trigger] front[k]).name
                != entry.name by {
                if front[k].name == entry.name {
                    assert(def_names(front)[k] == entry.name);
                }
            }
            lemma_none_named(front, entry);
            assert(all == before.push(entry));
            assert(all.drop_last() =~= before);
            assert(all[before.len() as int] == entry);
            if 0 <= i < j < all.len() {
                assert(all[i] == front[i]);
            }
        }
    } else {
        assert(rebuilt(defs, entry) =~= defs);
    }
}

proof fn lemma_none_named(defs: Seq<EntryDef>, entry: EntryDef)
    requires
        forall|i: int| 0 <= i < defs.len() ==> (#[trigger] defs[i]).name != entry.name,
    ensures
        rebuilt(defs, entry) == defs,
        without_name(defs, entry.name) == defs,
    decreases defs.len(),
{
    if defs.len() > 0 {
        let t = defs.drop_last();
        assert forall|i: int| 0 <= i < t.len() implies (#[trigger] t[i]).name != entry.name by {
            assert(t[i] == defs[i]);
        }
        lemma_none_named(t, entry);
        assert(defs.last() == defs[defs.len() - 1]);
        assert(t.push(defs.last()) =~= defs);
    } else {
        assert(rebuilt(defs, entry) =~= defs);
        assert(without_name(defs, entry.name) =~= defs);
    }
}

/// An entry is read from the first plugin of its name.
pub proof fn law_first_definition_counts(defs: Seq<EntryDef>, name: Seq<char>, i: int)
    ensures
        0 <= i < defs.len() && defs[i].name == name && (forall|j: int|
            0 <= j < i ==> (#[trigger] defs[j]).name != name) ==> first_def(defs, name) == Some(defs[i]),
        (forall|j: int| 0 <= j < defs.len() ==> (#[trigger] defs[j]).name != name) ==> first_def(
            defs,
            name,
        ) is None,
    decreases defs.len(),
{
    if defs.len() > 0 {
        let rest = defs.drop_first();
        law_first_definition_counts(rest, name, i - 1);
        assert(forall|j: int| 0 <= j < rest.len() ==> #[trigger] rest[j] == defs[j + 1]);
    }
}

// ── which blocks may be edited ──

/// A plugin of another kind.
pub open spec fn other_plugin(plugin: YamlTree) -> bool {
    yaml_map(plugin) matches Some(fields) ==> text_field(fields, "name"@) != Some(
        "@deepseek-ai/dsh-mcp-client"@,
    )
}

proof fn lemma_block_foreign(lines: Seq<Seq<char>>, i: int, k: int, j: int, m: int)
    requires
        0 <= i,
        0 <= k < blocks_from(lines, i).len(),
        blocks_from(lines, i)[k].start < j <= lines.len(),
        forall|n: int| blocks_from(lines, i)[k].start < n < j ==> !opens_item(#[trigger] lines[n]),
        j < lines.len() ==> opens_item(lines[j]),
        yaml_document(joined(lines.subrange(blocks_from(lines, i)[k].start, j))) matches Ok(doc)
            && yaml_list(doc) matches Some(patches) && 0 <= m < plugins_of(patches).len()
            && other_plugin(plugins_of(patches)[m]),
    ensures
        blocks_from(lines, i)[k].foreign,
    decreases lines.len() - i,
{
    if i < lines.len() {
        if !is_insert(lines[i]) {
            lemma_block_foreign(lines, i + 1, k, j, m);
        } else {
            let n = next_item(lines, i + 1);
            lemma_next(lines, i + 1);
            if k > 0 {
                assert(blocks_from(lines, i)[k] == blocks_from(lines, n)[k - 1]);
                lemma_block_foreign(lines, n, k - 1, j, m);
            } else {
                if n < j {
                    assert(opens_item(lines[n]));
                } else if j < n {
                    assert(!opens_item(lines[j]));
                }
                let doc = yaml_document(joined(lines.subrange(i, j)))->Ok_0;
                let patches = yaml_list(doc)->Some_0;
                assert(crate::mcp_writers::dsh_yaml::is_foreign(plugins_of(patches)[m]));
            }
        }
    }
}

proof fn lemma_hit(blocks: Seq<Block>, name: Seq<char>, k: int)
    requires
        0 <= k < blocks.len(),
        def_names(blocks[k].defs).contains(name),
    ensures
        hits(blocks, name).len() > 0,
        hits(blocks, name).contains(blocks[k]),
    decreases blocks.len(),
{
    let before = hits(blocks.drop_last(), name);
    if k < blocks.len() - 1 {
        lemma_hit(blocks.drop_last(), name, k);
        let p = choose|p: int| 0 <= p < before.len() && before[p] == blocks[k];
        assert(hits(blocks, name)[p] == blocks[k]);
    } else {
        assert(hits(blocks, name)[before.len() as int] == blocks[k]);
    }
}

proof fn lemma_two_hits(blocks: Seq<Block>, name: Seq<char>, k: int, n: int)
    requires
        0 <= k < n < blocks.len(),
        def_names(blocks[k].defs).contains(name),
        def_names(blocks[n].defs).contains(name),
    ensures
        hits(blocks, name).len() >= 2,
    decreases blocks.len(),
{
    if n < blocks.len() - 1 {
        lemma_two_hits(blocks.drop_last(), name, k, n);
    } else {
        lemma_hit(blocks.drop_last(), name, k);
    }
}

/// A block that also holds a plugin of another kind is never edited: an upsert of one of its names
/// is refused, and a removal is refused or leaves the text as it is.
pub proof fn law_mixed_block_is_never_edited(
    text: Seq<char>,
    entry: EntryDef,
    k: int,
    j: int,
    m: int,
)
    requires
        0 <= k < blocks_from(lines_of(text), 0).len(),
        def_names(blocks_from(lines_of(text), 0)[k].defs).contains(entry.name),
        blocks_from(lines_of(text), 0)[k].start < j <= lines_of(text).len(),
        forall|n: int|
            blocks_from(lines_of(text), 0)[k].start < n < j ==> !opens_item(
                #[trigger] lines_of(text)[n],
            ),
        j < lines_of(text).len() ==> opens_item(lines_of(text)[j]),
        yaml_document(
            joined(lines_of(text).subrange(blocks_from(lines_of(text), 0)[k].start, j)),
        ) matches Ok(doc) && yaml_list(doc) matches Some(patches) && 0 <= m < plugins_of(
            patches,
        ).len() && other_plugin(plugins_of(patches)[m]),
    ensures
        dsh_upserted(text, entry) is Err,
        dsh_removed(text, entry.name) matches Ok(new) ==> new == text,
{
    let lines = lines_of(text);
    let blocks = blocks_from(lines, 0);
    lemma_block_foreign(lines, 0, k, j, m);
    lemma_hit(blocks, entry.name, k);
    let found = hits(blocks, entry.name);
    let p = choose|p: int| 0 <= p < found.len() && found[p] == blocks[k];
    assert(found.len() == 1 ==> found[0] == blocks[k]);
}

/// A name that two blocks declare is never edited in either.
pub proof fn law_ambiguous_name_is_never_edited(text: Seq<char>, entry: EntryDef, k: int, n: int)
    requires
        0 <= k < n < blocks_from(lines_of(text), 0).len(),
        def_names(blocks_from(lines_of(text), 0)[k].defs).contains(entry.name),
        def_names(blocks_from(lines_of(text), 0)[n].defs).contains(entry.name),
    ensures
        dsh_upserted(text, entry) is Err,
        dsh_removed(text, entry.name) matches Ok(new) ==> new == text,
{
    lemma_two_hits(blocks_from(lines_of(text), 0), entry.name, k, n);
}

/// A text that is no YAML list is neither written to nor read from.
pub proof fn law_other_texts_are_refused(text: Seq<char>, entry: EntryDef)
    requires
        yaml_document(text) matches Ok(doc) ==> yaml_list(doc) is None,
    ensures
        dsh_upserted(text, entry) matches Err(WriteError::Unsafe(_)),
        dsh_removed(text, entry.name) matches Err(WriteError::Unsafe(_)),
        parsed_defs(text) matches Err(WriteError::Unsafe(_)),
{
}

/// A definition is written where the result lists it beside the others: behind the text where no
/// block declares it, else in the one block that does, unless that holds other plugins.
pub proof fn law_sound_upsert_goes_through(
    text: Seq<char>,
    entry: EntryDef,
    new: Seq<char>,
    old: Seq<EntryDef>,
    listed: Seq<RawEntry>,
)
    requires
        parsed_defs(text) == Ok::<Seq<EntryDef>, WriteError>(old),
        dsh_config(new) == Ok::<Seq<RawEntry>, Seq<char>>(listed),
        entry_names(listed).to_multiset() == others(def_names(old), entry.name).push(
            entry.name,
        ).to_multiset(),
        ({
            let lines = lines_of(text);
            let found = hits(blocks_from(lines, 0), entry.name);
            ||| found.len() == 0 && new == block_appended(text, entry)
            ||| found.len() == 1 && !found[0].foreign && new == joined(lines.take(found[0].start))
                + block_text(rebuilt(found[0].defs, entry)) + joined(lines.skip(found[0].content_end))
        }),
    ensures
        dsh_upserted(text, entry) == Ok::<Seq<char>, WriteError>(new),
{
    law_same_plan_is_same_commands(
        entry_names(listed),
        others(def_names(old), entry.name).push(entry.name),
    );
}

/// A definition is taken out where the result lists exactly the others.
pub proof fn law_sound_removal_goes_through(
    text: Seq<char>,
    name: Seq<char>,
    new: Seq<char>,
    old: Seq<EntryDef>,
    listed: Seq<RawEntry>,
)
    requires
        parsed_defs(text) == Ok::<Seq<EntryDef>, WriteError>(old),
        def_names(old).contains(name),
        dsh_config(new) == Ok::<Seq<RawEntry>, Seq<char>>(listed),
        entry_names(listed).to_multiset() == others(def_names(old), name).to_multiset(),
        ({
            let lines = lines_of(text);
            let found = hits(blocks_from(lines, 0), name);
            found.len() == 1 && !found[0].foreign && without_name(found[0].defs, name).len() > 0 && new
                == joined(lines.take(found[0].start)) + block_text(without_name(found[0].defs, name))
                + joined(lines.skip(found[0].content_end))
        }),
    ensures
        dsh_removed(text, name) == Ok::<Seq<char>, WriteError>(new),
{
    law_same_plan_is_same_commands(entry_names(listed), others(def_names(old), name));
}

/// What no plugin declares needs no removal.
pub proof fn law_absent_name_is_left_alone(text: Seq<char>, name: Seq<char>, old: Seq<EntryDef>)
    requires
        parsed_defs(text) == Ok::<Seq<EntryDef>, WriteError>(old),
        forall|i: int| 0 <= i < old.len() ==> (#[trigger] old[i]).name != name,
    ensures
        dsh_removed(text, name) == Ok::<Seq<char>, WriteError>(text),
{
    if def_names(old).contains(name) {
        let i = choose|i: int| 0 <= i < def_names(old).len() && def_names(old)[i] == name;
        assert(old[i].name == name);
    }
}

// ── what a plugin says ──

/// A plugin's definition has its own name, command, address and arguments.
pub proof fn law_plugin_definition(p: ClientPlugin)
    ensures
        plugin_def(p).name == p.name,
        plugin_def(p).command == text_field(p.config, "command"@),
        plugin_def(p).url == text_field(p.config, "url"@),
        list_field(p.config, "args"@) is None ==> plugin_def(p).args.len() == 0,
        list_field(p.config, "args"@) matches Some(items) ==> plugin_def(p).args == yaml_texts(items),
        map_field(p.config, "env"@) is None ==> plugin_def(p).env.len() == 0,
        plugin_def(p).transport == transport_of(
            text_field(p.config, "transport"@),
            text_field(p.config, "url"@) is Some,
            text_field(p.config, "command"@) is Some || plugin_def(p).args.len() > 0,
        ),
{
}

/// The texts among the items, all of them and in order.
pub proof fn law_texts_of_items(items: Seq<YamlTree>, texts: Seq<Seq<char>>)
    requires
        items.len() == texts.len(),
        forall|i: int| 0 <= i < items.len() ==> yaml_text(#[trigger] items[i]) == Some(texts[i]),
    ensures
        yaml_texts(items) == texts,
    decreases items.len(),
{
    if items.len() > 0 {
        let front = items.drop_last();
        assert forall|i: int| 0 <= i < front.len() implies yaml_text(#[trigger] front[i]) == Some(
            texts.drop_last()[i],
        ) by {
            assert(front[i] == items[i]);
        }
        law_texts_of_items(front, texts.drop_last());
        assert(items.last() == items[items.len() - 1]);
        assert(texts.drop_last().push(texts.last()) =~= texts);
    } else {
        assert(yaml_texts(items) =~= texts);
    }
}

proof fn lemma_env_place(entries: Seq<(YamlTree, YamlTree)>, key: Seq<char>, i: int) -> (p: int)
    requires
        0 <= i < entries.len(),
        yaml_text(entries[i].0) == Some(key),
        forall|k: int| i < k < entries.len() ==> yaml_text((#[trigger] entries[k]).0) != Some(key),
    ensures
        0 <= p < yaml_env(entries).len(),
        yaml_env(entries)[p].0 == key,
        yaml_env(entries)[p].1 == match yaml_text(entries[i].1) {
            Some(value) => value,
            None => debug_form(entries[i].1),
        },
        forall|k: int| p < k < yaml_env(entries).len() ==> (#[trigger] yaml_env(entries)[k]).0 != key,
    decreases entries.len(),
{
    let front = entries.drop_last();
    let before = yaml_env(front);
    let all = yaml_env(entries);
    assert(entries.last() == entries[entries.len() - 1]);
    if i == entries.len() - 1 {
        before.len() as int
    } else {
        assert forall|k: int| i < k < front.len() implies yaml_text((#[trigger] front[k]).0) != Some(
            key,
        ) by {
            assert(front[k] == entries[k]);
        }
        assert(front[i] == entries[i]);
        let p = lemma_env_place(front, key, i);
        assert(all[p] == before[p]);
        assert forall|k: int| p < k < all.len() implies (#[trigger] all[k]).0 != key by {
            if k < before.len() {
                assert(all[k] == before[k]);
            }
        }
        p
    }
}

/// Every variable of a plugin is in its definition with its value, the last one where a key stands
/// twice.
pub proof fn law_plugin_variables(
    p: ClientPlugin,
    entries: Seq<(YamlTree, YamlTree)>,
    key: Seq<char>,
    i: int,
)
    requires
        map_field(p.config, "env"@) == Some(entries),
        0 <= i < entries.len(),
        yaml_text(entries[i].0) == Some(key),
        forall|k: int| i < k < entries.len() ==> yaml_text((#[trigger] entries[k]).0) != Some(key),
    ensures
        bound(plugin_def(p).env, key) == match yaml_text(entries[i].1) {
            Some(value) => Some(value),
            None => Some(debug_form(entries[i].1)),
        },
{
    let at = lemma_env_place(entries, key, i);
    lemma_bind_all_bound(yaml_env(entries), key, at);
}

/// The agents whose files are written, each by its own writer.
pub proof fn law_registered_writers(agent: Seq<char>)
    ensures
        registered_writer("opencode"@) matches Some(AgentWriter::OpenCode(_)),
        registered_writer("deepseek_harness"@) matches Some(AgentWriter::DshYaml(_)),
        agent != "opencode"@ && agent != "deepseek_harness"@ ==> registered_writer(agent) is None,
{
    reveal_strlit("opencode");
    reveal_strlit("deepseek_harness");
    assert("opencode"@.len() == 8 && "deepseek_harness"@.len() == 16);
}

} // verus!
