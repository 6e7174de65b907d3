//! A rendered block is one block: none of its lines but the first opens a list item at column 0,
//! where the writer's scanner would split it.

use vstd::prelude::*;
use crate::mcp_inventory::DSH_MCP_PLUGIN;
use crate::mcp_writers::EntryDef;
use crate::mcp_writers::dsh_yaml::{
    access_lines, block_text, env_lines, is_ascii_alphanumeric, is_insert, is_top_item, key_line,
    line_text, next_item, plugin_item, plugin_items, quoted_all, slug_of, slug_state,
    transport_scalar, yaml_quoted,
};
use crate::text::{
    ascii_lower, find_char, join, lemma_find_char, lemma_find_char_meaning, lines_of, replace_char,
    starts_with,
};

verus! {

/// No line feed in a text.
pub open spec fn flat(s: Seq<char>) -> bool {
    forall|i: int| 0 <= i < s.len() ==> #[trigger] s[i] != '\n'
}

pub open spec fn flat_option(s: Option<Seq<char>>) -> bool {
    match s {
        Some(t) => flat(t),
        None => true,
    }
}

/// No line feed in any scalar of a definition.
pub open spec fn flat_entry(e: EntryDef) -> bool {
    &&& flat(e.name) && flat(e.transport)
    &&& flat_option(e.command) && flat_option(e.url)
    &&& forall|i: int| 0 <= i < e.args.len() ==> flat(#[trigger] e.args[i])
    &&& forall|i: int| 0 <= i < e.env.len() ==> flat((#[trigger] e.env[i]).0) && flat(e.env[i].1)
}

/// Whole lines, each of them indented.
pub open spec fn indented(s: Seq<char>) -> bool {
    s.len() > 0 ==> {
        &&& s[0] == ' '
        &&& s.last() == '\n'
        &&& forall|i: int| 0 <= i < s.len() - 1 && #[trigger] s[i] == '\n' ==> s[i + 1] == ' '
    }
}

proof fn lemma_indented_concat(a: Seq<char>, b: Seq<char>)
    requires
        indented(a),
        indented(b),
    ensures
        indented(a + b),
{
    let s = a + b;
    if a.len() == 0 {
        assert(s =~= b);
    } else if b.len() == 0 {
        assert(s =~= a);
    } else {
        assert forall|i: int| 0 <= i < s.len() - 1 && #[trigger] s[i] == '\n' implies s[i + 1]
            == ' ' by {
            if i < a.len() - 1 {
                assert(a[i] == '\n');
                assert(a[i + 1] == ' ');
            } else if i == a.len() - 1 {
                assert(s[i + 1] == b[0]);
            } else {
                assert(b[i - a.len()] == '\n');
                assert(b[i - a.len() + 1] == ' ');
            }
        }
    }
}

// One indented line.
proof fn lemma_line(head: Seq<char>, body: Seq<char>)
    requires
        head.len() > 0,
        head[0] == ' ',
        flat(head),
        flat(body),
    ensures
        indented(head + body + "\n"@),
{
    reveal_strlit("\n");
    let s = head + body + "\n"@;
    assert(s[0] == head[0]);
    assert(s.last() == '\n');
    assert forall|i: int| 0 <= i < s.len() - 1 && #[trigger] s[i] == '\n' implies s[i + 1] == ' ' by {
        if i < head.len() {
            assert(s[i] == head[i]);
        } else {
            assert(s[i] == body[i - head.len()]);
        }
    }
}

proof fn lemma_quoted_flat(s: Seq<char>)
    requires
        flat(s),
    ensures
        flat(yaml_quoted(s)),
{
    reveal_strlit("'");
    reveal_strlit("''");
    lemma_replaced_flat(s);
}

proof fn lemma_replaced_flat(s: Seq<char>)
    requires
        flat(s),
    ensures
        flat(replace_char(s, '\'', "''"@)),
    decreases s.len(),
{
    reveal_strlit("''");
    if s.len() > 0 {
        assert(flat(s.drop_last()));
        lemma_replaced_flat(s.drop_last());
        assert(s[s.len() - 1] != '\n');
    }
}

proof fn lemma_join_flat(parts: Seq<Seq<char>>)
    requires
        forall|i: int| 0 <= i < parts.len() ==> flat(#[trigger] parts[i]),
    ensures
        flat(join(parts, ", "@)),
    decreases parts.len(),
{
    reveal_strlit(", ");
    if parts.len() > 1 {
        let rest = parts.drop_last();
        assert forall|i: int| 0 <= i < rest.len() implies flat(#[trigger] rest[i]) by {
            assert(rest[i] == parts[i]);
        }
        lemma_join_flat(rest);
        assert(flat(parts[parts.len() - 1]));
    } else if parts.len() == 1 {
        assert(flat(parts[0]));
    }
}

proof fn lemma_slug_flat(s: Seq<char>)
    ensures
        flat(slug_state(s).0),
    decreases s.len(),
{
    if s.len() > 0 {
        lemma_slug_flat(s.drop_last());
        lemma_lower_flat(s.last());
    }
}

proof fn lemma_lower_flat(c: char)
    ensures
        is_ascii_alphanumeric(c) ==> ascii_lower(c) != '\n',
{
}

proof fn lemma_key_line(key: Seq<char>, value: Seq<char>)
    requires
        flat(key),
        flat(value),
    ensures
        indented(key_line(key, value)),
{
    reveal_strlit("        ");
    reveal_strlit(": ");
    let head = "        "@;
    let body = key + ": "@ + value;
    lemma_line(head, body);
    assert(key_line(key, value) =~= head + body + "\n"@);
}

proof fn lemma_env_lines(env: Seq<(Seq<char>, Seq<char>)>)
    requires
        forall|i: int| 0 <= i < env.len() ==> flat((#[trigger] env[i]).0) && flat(env[i].1),
    ensures
        indented(env_lines(env)),
    decreases env.len(),
{
    if env.len() > 0 {
        let rest = env.drop_last();
        assert forall|i: int| 0 <= i < rest.len() implies flat((#[trigger] rest[i]).0) && flat(
            rest[i].1,
        ) by {
            assert(rest[i] == env[i]);
        }
        lemma_env_lines(rest);
        let last = env[env.len() - 1];
        reveal_strlit("          ");
        reveal_strlit(": ");
        lemma_quoted_flat(last.0);
        lemma_quoted_flat(last.1);
        let head = "          "@;
        let body = yaml_quoted(last.0) + ": "@ + yaml_quoted(last.1);
        lemma_line(head, body);
        let line = "          "@ + yaml_quoted(last.0) + ": "@ + yaml_quoted(last.1) + "\n"@;
        assert(line =~= head + body + "\n"@);
        lemma_indented_concat(env_lines(rest), line);
    }
}

proof fn lemma_access_lines(e: EntryDef)
    requires
        flat_entry(e),
    ensures
        indented(access_lines(e)),
{
    reveal_strlit("transport");
    reveal_strlit("serverName");
    reveal_strlit("command");
    reveal_strlit("args");
    reveal_strlit("url");
    reveal_strlit("stdio");
    reveal_strlit("http");
    reveal_strlit("streamable-http");
    reveal_strlit("[");
    reveal_strlit("]");
    lemma_quoted_flat(e.name);
    lemma_quoted_flat(e.transport);
    lemma_key_line("serverName"@, yaml_quoted(e.name));
    if e.transport == "stdio"@ {
        let a = key_line("transport"@, "stdio"@);
        let b = key_line("serverName"@, yaml_quoted(e.name));
        lemma_key_line("transport"@, "stdio"@);
        lemma_indented_concat(a, b);
        let c = match e.command {
            Some(command) => key_line("command"@, yaml_quoted(command)),
            None => Seq::empty(),
        };
        if let Some(command) = e.command {
            lemma_quoted_flat(command);
            lemma_key_line("command"@, yaml_quoted(command));
        }
        lemma_indented_concat(a + b, c);
        let parts = quoted_all(e.args);
        assert forall|i: int| 0 <= i < parts.len() implies flat(#[trigger] parts[i]) by {
            lemma_quoted_flat(e.args[i]);
        }
        lemma_join_flat(parts);
        let list = "["@ + join(parts, ", "@) + "]"@;
        assert(flat(list));
        lemma_key_line("args"@, list);
        let d = if e.args.len() == 0 {
            Seq::empty()
        } else {
            key_line("args"@, list)
        };
        lemma_indented_concat(a + b + c, d);
    } else {
        let a = key_line("transport"@, transport_scalar(e.transport));
        let b = key_line("serverName"@, yaml_quoted(e.name));
        lemma_key_line("transport"@, transport_scalar(e.transport));
        lemma_indented_concat(a, b);
        let url = match e.url {
            Some(url) => url,
            None => Seq::empty(),
        };
        lemma_quoted_flat(url);
        lemma_key_line("url"@, yaml_quoted(url));
        lemma_indented_concat(a + b, key_line("url"@, yaml_quoted(url)));
    }
}

proof fn lemma_plugin_item(e: EntryDef)
    requires
        flat_entry(e),
    ensures
        indented(plugin_item(e)),
{
    reveal_strlit("    - id: ");
    reveal_strlit("\n      name: ");
    reveal_strlit("\n      config:\n");
    reveal_strlit("      name: ");
    reveal_strlit("      config:");
    reveal_strlit("\n");
    reveal_strlit("        env:\n");
    reveal_strlit("@deepseek-ai/dsh-mcp-client");
    reveal_strlit("mcp");
    lemma_slug_flat(e.name);
    let id = yaml_quoted(slug_of(e.name));
    lemma_quoted_flat(slug_of(e.name));
    let plugin = yaml_quoted(DSH_MCP_PLUGIN@);
    lemma_quoted_flat(DSH_MCP_PLUGIN@);
    let a = "    - id: "@ + id + "\n"@;
    let b = "      name: "@ + plugin + "\n"@;
    let c = "      config:"@ + Seq::empty() + "\n"@;
    lemma_line("    - id: "@, id);
    lemma_line("      name: "@, plugin);
    lemma_line("      config:"@, Seq::empty());
    let head = "    - id: "@ + id + "\n      name: "@ + plugin + "\n      config:\n"@;
    assert("\n      name: "@ =~= "\n"@ + "      name: "@);
    assert("\n      config:\n"@ =~= "\n"@ + "      config:"@ + "\n"@);
    assert(head =~= a + b + c);
    lemma_indented_concat(a, b);
    lemma_indented_concat(a + b, c);
    lemma_access_lines(e);
    lemma_indented_concat(head, access_lines(e));
    let env = if e.env.len() == 0 {
        Seq::empty()
    } else {
        "        env:\n"@ + env_lines(e.env)
    };
    if e.env.len() > 0 {
        assert(indented("        env:\n"@));
        lemma_env_lines(e.env);
        lemma_indented_concat("        env:\n"@, env_lines(e.env));
    }
    lemma_indented_concat(head + access_lines(e), env);
}

proof fn lemma_plugin_items(entries: Seq<EntryDef>)
    requires
        forall|i: int| 0 <= i < entries.len() ==> flat_entry(#[trigger] entries[i]),
    ensures
        indented(plugin_items(entries)),
    decreases entries.len(),
{
    if entries.len() > 0 {
        let rest = entries.drop_last();
        assert forall|i: int| 0 <= i < rest.len() implies flat_entry(#[trigger] rest[i]) by {
            assert(rest[i] == entries[i]);
        }
        lemma_plugin_items(rest);
        assert(flat_entry(entries[entries.len() - 1]));
        lemma_plugin_item(entries.last());
        lemma_indented_concat(plugin_items(rest), plugin_item(entries.last()));
    }
}

// Each line of whole indented lines is indented.
proof fn lemma_lines_indented(s: Seq<char>)
    requires
        indented(s),
    ensures
        forall|k: int|
            0 <= k < lines_of(s).len() ==> (#[trigger] lines_of(s)[k]).len() > 0 && lines_of(
                s,
            )[k][0] == ' ',
    decreases s.len(),
{
    if s.len() > 0 {
        lemma_find_char_meaning(s, '\n');
        match find_char(s, '\n') {
            Some(i) => {
                let rest = s.skip(i + 1);
                if i + 1 < s.len() {
                    assert(s[i] == '\n');
                    assert(rest[0] == ' ');
                    assert(rest.last() == s.last());
                    assert forall|p: int|
                        0 <= p < rest.len() - 1 && #[trigger] rest[p] == '\n' implies rest[p + 1]
                        == ' ' by {
                        assert(s[p + i + 1] == '\n');
                        assert(s[p + i + 2] == ' ');
                    }
                }
                lemma_lines_indented(rest);
                let lines = lines_of(s);
                let more = lines_of(rest);
                assert(lines =~= seq![s.take(i + 1)] + more);
                assert forall|k: int| 0 <= k < lines.len() implies (#[trigger] lines[k]).len() > 0
                    && lines[k][0] == ' ' by {
                    if k == 0 {
                        assert(lines[0] == s.take(i + 1));
                    } else {
                        assert(lines[k] == more[k - 1]);
                    }
                }
            },
            None => {},
        }
    }
}

// An indented line opens no item at column 0.
proof fn lemma_not_top(line: Seq<char>)
    requires
        line.len() > 0,
        line[0] == ' ',
    ensures
        !is_top_item(line),
    decreases line.len(),
{
    reveal_strlit("- ");
    reveal_strlit("-");
    lemma_line_text_start(line);
    let t = line_text(line);
    if starts_with(t, "- "@) {
        assert(t.take(2)[0] == '-');
        assert(t[0] == '-');
    }
}

proof fn lemma_line_text_start(line: Seq<char>)
    requires
        line.len() > 0,
        line[0] == ' ',
    ensures
        line_text(line).len() > 0,
        line_text(line)[0] == ' ',
    decreases line.len(),
{
    if crate::mcp_writers::dsh_yaml::is_line_end(line.last()) {
        assert(line.len() > 1);
        lemma_line_text_start(line.drop_last());
    }
}

proof fn lemma_next_item_end(lines: Seq<Seq<char>>, j: int)
    requires
        0 <= j <= lines.len(),
        forall|k: int| j <= k < lines.len() ==> !is_top_item(#[trigger] lines[k]),
    ensures
        next_item(lines, j) == lines.len(),
    decreases lines.len() - j,
{
    if j < lines.len() {
        lemma_next_item_end(lines, j + 1);
    }
}

/// Definitions without line feeds render to one block: its first line opens it, and the next
/// item at column 0 is behind its last line.
pub proof fn law_rendered_block_is_one_block(entries: Seq<EntryDef>)
    requires
        forall|i: int| 0 <= i < entries.len() ==> flat_entry(#[trigger] entries[i]),
    ensures
        lines_of(block_text(entries)).len() > 0,
        is_insert(lines_of(block_text(entries))[0]),
        next_item(lines_of(block_text(entries)), 1) == lines_of(block_text(entries)).len(),
{
    reveal_strlit("- insert:\n");
    reveal_strlit("- insert:");
    let s = block_text(entries);
    let first = "- insert:\n"@;
    let rest = plugin_items(entries);
    lemma_plugin_items(entries);
    lemma_lines_indented(rest);
    assert(first.len() == 10 && first[9] == '\n');
    assert(s[9] == '\n');
    lemma_find_char(s, '\n', 9);
    assert(s.take(10) =~= first);
    assert(s.skip(10) =~= rest);
    let lines = lines_of(s);
    assert(lines =~= seq![first] + lines_of(rest));
    assert(lines[0] == first);
    assert(is_insert(first)) by {
        reveal_with_fuel(line_text, 3);
        assert(first.drop_last() =~= "- insert:"@);
        assert("- insert:"@.take(9) =~= "- insert:"@);
    }
    assert forall|k: int| 1 <= k < lines.len() implies !is_top_item(#[trigger] lines[k]) by {
        assert(lines[k] == lines_of(rest)[k - 1]);
        lemma_not_top(lines[k]);
    }
    lemma_next_item_end(lines, 1);
}

} // verus!
