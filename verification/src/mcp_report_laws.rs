//! What a scan and its report say of the entries they are made of, field by field.

use vstd::prelude::*;
use crate::json::{json_document, lookup, member, JsonTree};
use crate::mcp_inventory::{
    candidates, chosen_candidate, client_plugin, config_scans, dsh_config, dsh_entries, dsh_entry,
    field_texts, first_true, named_occurrences, occurrence_names, occurrences_of, opencode_config,
    opencode_entries, opencode_entry, plugins_of, report_of, transport_of, AgentConfig, ConfigRead,
    McpConfigFormat, Occurrence, RawEntry, Scan,
};
use crate::order::{distinct_sorted, law_distinct_sorted};
use crate::paths::{child_of, path_key, seen_path};
use crate::text::starts_with;
use crate::yaml::{
    list_field, map_field, text_field, yaml_document, yaml_list, yaml_map, yaml_text, yaml_texts,
    YamlTree,
};

verus! {

/// Whether an occurrence says of an entry and of the agent it was found in all that is known.
pub open spec fn tells_of(o: Occurrence, scan: Scan, entry: RawEntry) -> bool {
    &&& o.agent_key == scan.status.agent_key
    &&& o.agent_display_name == scan.status.display_name
    &&& o.config_path == scan.status.config_path
    &&& o.transport == entry.transport
    &&& o.command == entry.command
    &&& o.url == entry.url
    &&& o.env_keys == entry.env_keys
    &&& o.enabled == entry.enabled
    &&& o.entry_id == entry.entry_id
}

// Where the occurrences of a scan start among all.
spec fn offset(scans: Seq<Scan>, i: int) -> int {
    named_occurrences(scans.take(i)).len() as int
}

proof fn lemma_place(scans: Seq<Scan>, i: int, j: int)
    requires
        0 <= i < scans.len(),
        0 <= j < scans[i].entries.len(),
    ensures
        0 <= offset(scans, i) + j < named_occurrences(scans).len(),
        named_occurrences(scans)[offset(scans, i) + j].0 == scans[i].entries[j].name,
        tells_of(
            named_occurrences(scans)[offset(scans, i) + j].1,
            scans[i],
            scans[i].entries[j],
        ),
        offset(scans, i + 1) == offset(scans, i) + scans[i].entries.len(),
    decreases scans.len(),
{
    let front = scans.drop_last();
    assert(scans.take(i + 1).drop_last() =~= scans.take(i));
    assert(scans.take(i + 1).last() == scans[i]);
    if i == scans.len() - 1 {
        assert(scans.take(i) =~= front);
        let all = named_occurrences(scans);
        assert(all[offset(scans, i) + j].0 == scans[i].entries[j].name);
    } else {
        assert(front.take(i) =~= scans.take(i));
        assert(front[i] == scans[i]);
        lemma_place(front, i, j);
    }
}

// Which entry an occurrence among all is of.
proof fn lemma_origin(scans: Seq<Scan>, p: int) -> (at: (int, int))
    requires
        0 <= p < named_occurrences(scans).len(),
    ensures
        0 <= at.0 < scans.len(),
        0 <= at.1 < scans[at.0].entries.len(),
        p == offset(scans, at.0) + at.1,
    decreases scans.len(),
{
    let front = scans.drop_last();
    let n = named_occurrences(front).len();
    if p < n {
        let (i, j) = lemma_origin(front, p);
        assert(front.take(i) =~= scans.take(i));
        assert(front[i] == scans[i]);
        (i, j)
    } else {
        assert(scans.take(scans.len() - 1) =~= front);
        (scans.len() - 1, p - n)
    }
}

proof fn lemma_offset_grows(scans: Seq<Scan>, i: int, k: int)
    requires
        0 <= i <= k <= scans.len(),
    ensures
        offset(scans, i) <= offset(scans, k),
    decreases k - i,
{
    if i < k {
        lemma_offset_grows(scans, i, k - 1);
        assert(scans.take(k).drop_last() =~= scans.take(k - 1));
    }
}

// Which of all occurrences the `q`-th of a name is.
proof fn lemma_selected(all: Seq<(Seq<char>, Occurrence)>, name: Seq<char>, q: int) -> (p: int)
    requires
        0 <= q < occurrences_of(all, name).len(),
    ensures
        0 <= p < all.len(),
        all[p] == (name, occurrences_of(all, name)[q]),
        occurrences_of(all.take(p), name).len() == q,
    decreases all.len(),
{
    let front = all.drop_last();
    let before = occurrences_of(front, name);
    if q < before.len() {
        let p = lemma_selected(front, name, q);
        assert(front.take(p) =~= all.take(p));
        p
    } else {
        assert(all.take(all.len() - 1) =~= front);
        all.len() - 1
    }
}

// How many occurrences of a name stand in front of one of them.
proof fn lemma_selected_place(all: Seq<(Seq<char>, Occurrence)>, p: int)
    requires
        0 <= p < all.len(),
    ensures
        ({
            let own = occurrences_of(all, all[p].0);
            let q = occurrences_of(all.take(p), all[p].0).len();
            q < own.len() && own[q as int] == all[p].1
        }),
    decreases all.len(),
{
    let front = all.drop_last();
    if p == all.len() - 1 {
        assert(all.take(p) =~= front);
    } else {
        assert(front.take(p) =~= all.take(p));
        assert(front[p] == all[p]);
        lemma_selected_place(front, p);
    }
}

proof fn lemma_count_grows(all: Seq<(Seq<char>, Occurrence)>, name: Seq<char>, a: int, b: int)
    requires
        0 <= a <= b <= all.len(),
    ensures
        occurrences_of(all.take(a), name).len() <= occurrences_of(all.take(b), name).len(),
    decreases b - a,
{
    if a < b {
        lemma_count_grows(all, name, a, b - 1);
        assert(all.take(b).drop_last() =~= all.take(b - 1));
    }
}

/// Every entry of every scan is reported under its name, by an occurrence that has each of its
/// fields as it was found, and those of the agent.
pub proof fn law_entry_is_reported_as_found(scans: Seq<Scan>, at: u64, i: int, j: int) -> (place: (
    int,
    int,
))
    requires
        0 <= i < scans.len(),
        0 <= j < scans[i].entries.len(),
    ensures
        ({
            let servers = report_of(scans, at).servers;
            &&& 0 <= place.0 < servers.len()
            &&& servers[place.0].name == scans[i].entries[j].name
            &&& 0 <= place.1 < servers[place.0].agents.len()
            &&& tells_of(servers[place.0].agents[place.1], scans[i], scans[i].entries[j])
        }),
{
    let all = named_occurrences(scans);
    let p = offset(scans, i) + j;
    let name = scans[i].entries[j].name;
    lemma_place(scans, i, j);
    lemma_selected_place(all, p);
    let q = occurrences_of(all.take(p), name).len() as int;
    let names = occurrence_names(all);
    assert(names[p] == name);
    assert(names.contains(name));
    law_distinct_sorted(names, name);
    let sorted_names = distinct_sorted(names);
    let k = choose|k: int| 0 <= k < sorted_names.len() && sorted_names[k] == name;
    assert(report_of(scans, at).servers[k].name == name);
    assert(report_of(scans, at).servers[k].agents == occurrences_of(all, name));
    (k, q)
}

/// Every occurrence in a report is of an entry that was found under that name, and the occurrences
/// of a server stand in the order in which its entries were found.
pub proof fn law_occurrences_in_scan_order(scans: Seq<Scan>, at: u64, k: int, q: int, r: int) -> (from: (
    (int, int),
    (int, int),
))
    requires
        0 <= k < report_of(scans, at).servers.len(),
        0 <= q < r < report_of(scans, at).servers[k].agents.len(),
    ensures
        ({
            let server = report_of(scans, at).servers[k];
            let (i, j) = from.0;
            let (m, n) = from.1;
            &&& 0 <= i < scans.len() && 0 <= j < scans[i].entries.len()
            &&& 0 <= m < scans.len() && 0 <= n < scans[m].entries.len()
            &&& scans[i].entries[j].name == server.name && scans[m].entries[n].name == server.name
            &&& tells_of(server.agents[q], scans[i], scans[i].entries[j])
            &&& tells_of(server.agents[r], scans[m], scans[m].entries[n])
            &&& i < m || (i == m && j < n)
        }),
{
    let all = named_occurrences(scans);
    let name = report_of(scans, at).servers[k].name;
    let p = lemma_selected(all, name, q);
    let s = lemma_selected(all, name, r);
    if s <= p {
        lemma_count_grows(all, name, s, p);
    }
    let (i, j) = lemma_origin(scans, p);
    let (m, n) = lemma_origin(scans, s);
    lemma_place(scans, i, j);
    lemma_place(scans, m, n);
    if m < i {
        lemma_offset_grows(scans, m + 1, i);
    }
    ((i, j), (m, n))
}

/// A server is summed up by its first occurrence, has at least one, and lists nothing that was not
/// found; every agent's status is reported as it was.
pub proof fn law_summary_is_first_occurrence(scans: Seq<Scan>, at: u64, k: int) -> (from: (int, int))
    requires
        0 <= k < report_of(scans, at).servers.len(),
    ensures
        ({
            let server = report_of(scans, at).servers[k];
            let (i, j) = from;
            &&& 0 <= i < scans.len() && 0 <= j < scans[i].entries.len()
            &&& scans[i].entries[j].name == server.name
            &&& server.agents.len() > 0
            &&& tells_of(server.agents[0], scans[i], scans[i].entries[j])
            &&& server.transport == scans[i].entries[j].transport
            &&& server.command == scans[i].entries[j].command
            &&& server.url == scans[i].entries[j].url
        }),
{
    let all = named_occurrences(scans);
    let names = occurrence_names(all);
    let sorted_names = distinct_sorted(names);
    let name = sorted_names[k];
    assert(sorted_names.contains(name));
    law_distinct_sorted(names, name);
    let p = choose|p: int| 0 <= p < names.len() && names[p] == name;
    lemma_selected_place(all, p);
    let f = lemma_selected(all, name, 0);
    let (i, j) = lemma_origin(scans, f);
    lemma_place(scans, i, j);
    (i, j)
}

/// Every agent that was scanned is reported with its status, in order, and the time of the scan
/// with them.
pub proof fn law_every_agent_is_reported(scans: Seq<Scan>, at: u64)
    ensures
        report_of(scans, at).agents.len() == scans.len(),
        forall|i: int|
            0 <= i < scans.len() ==> #[trigger] report_of(scans, at).agents[i] == scans[i].status,
        report_of(scans, at).scanned_at_ms == at,
{
}

/// The scan of an agent says of it what is known, and lists what its file says; a file that is
/// missing has no servers and is no error, one that cannot be read or parsed has none and is.
pub proof fn law_scan_tells_of_agent(configs: Seq<AgentConfig>, i: int)
    requires
        0 <= i < configs.len(),
    ensures
        ({
            let c = configs[i];
            let scan = config_scans(configs)[i];
            &&& config_scans(configs).len() == configs.len()
            &&& scan.status.agent_key == c.agent.key@
            &&& scan.status.display_name == c.agent.display_name@
            &&& scan.status.installed == c.installed
            &&& scan.status.config_path == c.config_path@
            &&& scan.status.config_exists == !(c.read is Missing)
            &&& scan.status.server_count == scan.entries.len()
            &&& scan.status.error is Some ==> scan.entries.len() == 0
            &&& c.read is Missing ==> scan.entries.len() == 0 && scan.status.error is None
            &&& c.read is Failed ==> scan.status.error is Some
            &&& c.read matches ConfigRead::Text(text) ==> {
                let listed = if c.agent.format == McpConfigFormat::OpenCodeJson {
                    opencode_config(text@)
                } else {
                    dsh_config(text@)
                };
                match listed {
                    Ok(entries) => scan.entries == entries && scan.status.error is None,
                    Err(message) => scan.status.error == Some(message),
                }
            }
        }),
{
}

// ── OpenCode ──

/// The value of the first member with a key.
pub proof fn law_lookup(members: Seq<(Seq<char>, JsonTree)>, key: Seq<char>, i: int)
    requires
        0 <= i < members.len(),
        members[i].0 == key,
        forall|j: int| 0 <= j < i ==> (#[trigger] members[j]).0 != key,
    ensures
        lookup(members, key) == Some(members[i].1),
        member(JsonTree::Object(members), key) == Some(members[i].1),
    decreases i,
{
    if i > 0 {
        let rest = members.drop_first();
        assert forall|j: int| 0 <= j < i - 1 implies (#[trigger] rest[j]).0 != key by {
            assert(rest[j] == members[j + 1]);
        }
        assert(members[0].0 != key);
        law_lookup(rest, key, i - 1);
    }
}

/// A key that no member has is not found.
pub proof fn law_lookup_none(members: Seq<(Seq<char>, JsonTree)>, key: Seq<char>)
    requires
        forall|j: int| 0 <= j < members.len() ==> (#[trigger] members[j]).0 != key,
    ensures
        lookup(members, key) is None,
        member(JsonTree::Object(members), key) is None,
    decreases members.len(),
{
    if members.len() > 0 {
        let rest = members.drop_first();
        assert forall|j: int| 0 <= j < rest.len() implies (#[trigger] rest[j]).0 != key by {
            assert(rest[j] == members[j + 1]);
        }
        assert(members[0].0 != key);
        law_lookup_none(rest, key);
    }
}

/// Every member of the `mcp` object that is an object is listed under its key, in order, and
/// nothing else is.
pub proof fn law_opencode_lists_every_object(ms: Seq<(Seq<char>, JsonTree)>, i: int) -> (k: int)
    requires
        0 <= i < ms.len(),
    ensures
        ms[i].1 is Object ==> 0 <= k < opencode_entries(ms).len() && opencode_entries(ms)[k].name
            == ms[i].0 && opencode_entries(ms)[k] == opencode_entry(ms[i].0, ms[i].1),
        k == opencode_entries(ms.take(i)).len(),
        opencode_entries(ms.take(i + 1)).len() == k + if ms[i].1 is Object {
            1int
        } else {
            0int
        },
    decreases ms.len(),
{
    let front = ms.drop_last();
    assert(ms.take(i + 1).drop_last() =~= ms.take(i));
    assert(ms.take(i + 1).last() == ms[i]);
    if i == ms.len() - 1 {
        assert(ms.take(i) =~= front);
        assert(ms.take(i + 1) =~= ms);
    } else {
        assert(front[i] == ms[i]);
        assert(front.take(i) =~= ms.take(i));
        let k = law_opencode_lists_every_object(front, i);
    }
    opencode_entries(ms.take(i)).len() as int
}

/// What is listed of a server: its own `url`, whether it is enabled where it says so, the keys of
/// its environment, and its program and arguments on one line.
pub proof fn law_opencode_entry_fields(name: Seq<char>, v: JsonTree)
    ensures
        ({
            let e = opencode_entry(name, v);
            &&& e.name == name
            &&& e.entry_id is None
            &&& (member(v, "url"@) matches Some(JsonTree::Text(u)) ==> e.url == Some(u))
            &&& (!(member(v, "url"@) matches Some(JsonTree::Text(_))) ==> e.url is None)
            &&& (member(v, "enabled"@) matches Some(JsonTree::Bool(b)) ==> e.enabled == Some(b))
            &&& (!(member(v, "enabled"@) matches Some(JsonTree::Bool(_))) ==> e.enabled is None)
            &&& (member(v, "command"@) matches Some(JsonTree::Text(c)) ==> c.len() > 0
                ==> e.command == Some(c))
            &&& (member(v, "command"@) is None ==> e.command is None)
            &&& (member(v, "environment"@) matches Some(JsonTree::Object(env))
                ==> e.env_keys.to_multiset() == Seq::new(env.len(), |i: int| env[i].0).to_multiset())
            &&& (!(member(v, "environment"@) matches Some(JsonTree::Object(_))) ==> e.env_keys.len()
                == 0)
            &&& crate::order::ascending(e.env_keys)
            &&& e.transport == transport_of(
                match member(v, "type"@) {
                    Some(JsonTree::Text(word)) => Some(word),
                    _ => None,
                },
                e.url is Some,
                e.command is Some,
            )
        }),
{
    let keys = crate::mcp_inventory::member_keys(member(v, "environment"@));
    crate::order::law_sorted_is_ascending_permutation(keys);
    if let Some(JsonTree::Object(env)) = member(v, "environment"@) {
        assert(keys =~= Seq::new(env.len(), |i: int| env[i].0));
    }
}

/// A server's command is its parts with single spaces between them, all of them and in order.
pub proof fn law_opencode_command_line(name: Seq<char>, v: JsonTree, parts: Seq<Seq<char>>)
    requires
        member(v, "command"@) matches Some(JsonTree::List(items)) && items.len() == parts.len()
            && forall|i: int| 0 <= i < items.len() ==> #[trigger] items[i] == JsonTree::Text(parts[i]),
        parts.len() > 0,
        parts[0].len() > 0,
    ensures
        opencode_entry(name, v).command == Some(crate::text::join(parts, seq![' '])),
{
    let items = member(v, "command"@)->Some_0->List_0;
    lemma_all_texts(items, parts);
    reveal_strlit(" ");
    assert(" "@ =~= seq![' ']);
    lemma_join_longer(parts);
}

proof fn lemma_all_texts(items: Seq<JsonTree>, parts: Seq<Seq<char>>)
    requires
        items.len() == parts.len(),
        forall|i: int| 0 <= i < items.len() ==> #[trigger] items[i] == JsonTree::Text(parts[i]),
    ensures
        crate::mcp_writers::opencode_json::text_items(items) == parts,
    decreases items.len(),
{
    if items.len() > 0 {
        let a = items.drop_last();
        let b = parts.drop_last();
        assert forall|i: int| 0 <= i < a.len() implies #[trigger] a[i] == JsonTree::Text(b[i]) by {
            assert(a[i] == items[i]);
        }
        lemma_all_texts(a, b);
        assert(items.last() == items[items.len() - 1]);
        assert(b.push(parts.last()) =~= parts);
    } else {
        assert(crate::mcp_writers::opencode_json::text_items(items) =~= parts);
    }
}

proof fn lemma_join_longer(parts: Seq<Seq<char>>)
    requires
        parts.len() > 0,
    ensures
        crate::text::join(parts, seq![' ']).len() >= parts[0].len(),
    decreases parts.len(),
{
    if parts.len() > 1 {
        lemma_join_longer(parts.drop_last());
    }
}

// ── DeepSeek Harness ──

/// Every plugin under an `insert:` list of a patch is one of the plugins, in order.
pub proof fn law_every_plugin_is_read(patches: Seq<YamlTree>, i: int, j: int) -> (k: int)
    requires
        0 <= i < patches.len(),
        yaml_map(patches[i]) matches Some(fields) && list_field(fields, "insert"@) matches Some(own)
            && 0 <= j < own.len(),
    ensures
        k == plugins_of(patches.take(i)).len() + j,
        0 <= k < plugins_of(patches).len(),
        plugins_of(patches)[k] == list_field(yaml_map(patches[i])->Some_0, "insert"@)->Some_0[j],
    decreases patches.len(),
{
    let front = patches.drop_last();
    if i == patches.len() - 1 {
        assert(patches.take(i) =~= front);
        plugins_of(front).len() + j
    } else {
        assert(front[i] == patches[i]);
        assert(front.take(i) =~= patches.take(i));
        let k = law_every_plugin_is_read(front, i, j);
        assert(plugins_of(patches)[k] == plugins_of(front)[k]);
        k
    }
}

/// Every MCP client plugin is listed, in order, and no other plugin is.
pub proof fn law_dsh_lists_every_client(plugins: Seq<YamlTree>, i: int) -> (k: int)
    requires
        0 <= i < plugins.len(),
    ensures
        k == dsh_entries(plugins.take(i)).len(),
        client_plugin(plugins[i]) matches Some(p) ==> 0 <= k < dsh_entries(plugins).len()
            && dsh_entries(plugins)[k] == dsh_entry(p),
        dsh_entries(plugins.take(i + 1)).len() == k + if client_plugin(plugins[i]) is Some {
            1int
        } else {
            0int
        },
    decreases plugins.len(),
{
    let front = plugins.drop_last();
    assert(plugins.take(i + 1).drop_last() =~= plugins.take(i));
    assert(plugins.take(i + 1).last() == plugins[i]);
    if i == plugins.len() - 1 {
        assert(plugins.take(i) =~= front);
        assert(plugins.take(i + 1) =~= plugins);
    } else {
        assert(front[i] == plugins[i]);
        assert(front.take(i) =~= plugins.take(i));
        let k = law_dsh_lists_every_client(front, i);
    }
    dsh_entries(plugins.take(i)).len() as int
}

/// An MCP client plugin is one that has the client's name and a config; it is called by its
/// `serverName`, or else by its id.
pub proof fn law_client_plugin(plugin: YamlTree, fields: Seq<(YamlTree, YamlTree)>)
    requires
        yaml_map(plugin) == Some(fields),
    ensures
        ({
            let config = map_field(fields, "config"@);
            let id = text_field(fields, "id"@);
            let is_client = text_field(fields, "name"@) == Some("@deepseek-ai/dsh-mcp-client"@);
            match client_plugin(plugin) {
                Some(p) => {
                    &&& is_client
                    &&& config == Some(p.config)
                    &&& p.id == id
                    &&& (text_field(p.config, "serverName"@) matches Some(name) ==> p.name == name)
                    &&& (text_field(p.config, "serverName"@) is None ==> id == Some(p.name))
                },
                None => !is_client || config is None || (id is None && text_field(
                    config->Some_0,
                    "serverName"@,
                ) is None),
            }
        }),
{
}

/// What is listed of a plugin: its own address, its id, the keys of its environment, and its program
/// and arguments with spaces between them.
pub proof fn law_dsh_entry_fields(p: crate::mcp_inventory::ClientPlugin)
    ensures
        ({
            let e = dsh_entry(p);
            let args = field_texts(list_field(p.config, "args"@));
            &&& e.name == p.name
            &&& e.entry_id == p.id
            &&& e.enabled is None
            &&& e.url == text_field(p.config, "url"@)
            &&& (text_field(p.config, "command"@) matches Some(c) ==> e.command == Some(
                crate::text::join(seq![c] + args, seq![' ']),
            ))
            &&& (text_field(p.config, "command"@) is None && args.len() > 0 ==> e.command == Some(
                crate::text::join(args, seq![' ']),
            ))
            &&& (text_field(p.config, "command"@) is None && args.len() == 0 ==> e.command is None)
            &&& e.transport == transport_of(
                text_field(p.config, "transport"@),
                e.url is Some,
                e.command is Some,
            )
            &&& crate::order::ascending(e.env_keys)
            &&& (map_field(p.config, "env"@) is None ==> e.env_keys.len() == 0)
            &&& (map_field(p.config, "env"@) matches Some(env) ==> e.env_keys.to_multiset()
                == yaml_texts(Seq::new(env.len(), |i: int| env[i].0)).to_multiset())
        }),
{
    let args = field_texts(list_field(p.config, "args"@));
    reveal_strlit(" ");
    assert(" "@ =~= seq![' ']);
    if let Some(c) = text_field(p.config, "command"@) {
        if args.len() == 0 {
            assert(seq![c] + args =~= seq![c]);
        } else {
            crate::text_laws::lemma_join_first(c, args, seq![' ']);
        }
    }
    if let Some(env) = map_field(p.config, "env"@) {
        let keys = crate::mcp_inventory::key_trees(env);
        assert(keys =~= Seq::new(env.len(), |i: int| env[i].0));
        crate::order::law_sorted_is_ascending_permutation(yaml_texts(keys));
    }
}

// ── where configs are looked for ──

/// Of the places of a config file the first that exists is used, and the first where none does.
pub proof fn law_first_existing_place(exist: Seq<bool>)
    ensures
        exist.len() == 0 <==> chosen_candidate(exist) is None,
        chosen_candidate(exist) matches Some(i) ==> 0 <= i < exist.len() && (exist[i] || (i == 0
            && forall|k: int| 0 <= k < exist.len() ==> !#[trigger] exist[k])) && forall|k: int|
            0 <= k < i ==> !#[trigger] exist[k],
{
    lemma_first_true(exist);
}

proof fn lemma_first_true(exist: Seq<bool>)
    ensures
        match first_true(exist) {
            Some(i) => 0 <= i < exist.len() && exist[i] && forall|k: int|
                0 <= k < i ==> !#[trigger] exist[k],
            None => forall|k: int| 0 <= k < exist.len() ==> !#[trigger] exist[k],
        },
    decreases exist.len(),
{
    if exist.len() > 0 && !exist[0] {
        let rest = exist.drop_first();
        lemma_first_true(rest);
        match first_true(rest) {
            Some(i) => {
                assert(rest[i] == exist[i + 1]);
                assert forall|k: int| 0 <= k < i + 1 implies !#[trigger] exist[k] by {
                    if k > 0 {
                        assert(!rest[k - 1]);
                    }
                }
            },
            None => {
                assert forall|k: int| 0 <= k < exist.len() implies !#[trigger] exist[k] by {
                    if k > 0 {
                        assert(!rest[k - 1]);
                    }
                }
            },
        }
    }
}

/// A config file is looked for below the home directory, and one of `.config` also below the place
/// that the system names for it, where that is another.
pub proof fn law_config_places(relative: Seq<char>, home: Seq<char>, config: Seq<char>)
    ensures
        candidates(relative, Some(home), None) == seq![child_of(home, relative)],
        candidates(relative, None, None).len() == 0,
        !starts_with(relative, ".config/"@) ==> candidates(relative, Some(home), Some(config)) == seq![
            child_of(home, relative),
        ],
        path_key(child_of(config, relative)) != path_key(child_of(home, ".config/"@ + relative))
            ==> candidates(".config/"@ + relative, Some(home), Some(config)) == seq![
            child_of(home, ".config/"@ + relative),
            child_of(config, relative),
        ],
        path_key(child_of(config, relative)) == path_key(child_of(home, ".config/"@ + relative))
            ==> candidates(".config/"@ + relative, Some(home), Some(config)) == seq![
            child_of(home, ".config/"@ + relative),
        ],
        candidates(".config/"@ + relative, None, Some(config)) == seq![child_of(config, relative)],
{
    let whole = ".config/"@ + relative;
    let n = ".config/"@.len() as int;
    assert(whole.take(n) =~= ".config/"@);
    assert(whole.skip(n) =~= relative);
    let first = seq![child_of(home, whole)];
    let path = child_of(config, relative);
    if path_key(path) == path_key(first[0]) {
        assert(seen_path(first, path));
    }
    assert(first.push(path) =~= seq![child_of(home, whole), path]);
    let none = Seq::<Seq<char>>::empty();
    assert(!seen_path(none, path));
    assert(none.push(path) =~= seq![path]);
}

/// A config without a section of servers has none; a section of another kind, and a text that does
/// not parse, are errors.
pub proof fn law_config_is_listed(text: Seq<char>, doc: JsonTree, ms: Seq<(Seq<char>, JsonTree)>)
    ensures
        json_document(text) is Err ==> opencode_config(text) is Err,
        json_document(text) == Ok::<JsonTree, Seq<char>>(doc) && member(doc, "mcp"@) is None
            ==> opencode_config(text) == Ok::<Seq<RawEntry>, Seq<char>>(Seq::empty()),
        json_document(text) == Ok::<JsonTree, Seq<char>>(doc) && member(doc, "mcp"@) == Some(
            JsonTree::Object(ms),
        ) ==> opencode_config(text) == Ok::<Seq<RawEntry>, Seq<char>>(opencode_entries(ms)),
        json_document(text) == Ok::<JsonTree, Seq<char>>(doc) && member(doc, "mcp"@) is Some && !(
        member(doc, "mcp"@)->Some_0 is Object) ==> opencode_config(text) is Err,
        yaml_document(text) is Err ==> dsh_config(text) is Err,
        yaml_document(text) matches Ok(tree) ==> (dsh_config(text) is Err <==> yaml_list(tree) is None),
        yaml_document(text) matches Ok(tree) ==> (yaml_list(tree) matches Some(patches) ==> dsh_config(
            text,
        ) == Ok::<Seq<RawEntry>, Seq<char>>(dsh_entries(plugins_of(patches)))),
{
}

/// A tag on a YAML value does not change what it says, and a field is the first of its key.
pub proof fn law_yaml_values(
    v: YamlTree,
    tag: Seq<char>,
    entries: Seq<(YamlTree, YamlTree)>,
    key: Seq<char>,
    i: int,
)
    ensures
        yaml_text(YamlTree::Tagged(Box::new(v), tag)) == yaml_text(v),
        yaml_list(YamlTree::Tagged(Box::new(v), tag)) == yaml_list(v),
        yaml_map(YamlTree::Tagged(Box::new(v), tag)) == yaml_map(v),
        0 <= i < entries.len() && entries[i].0 == YamlTree::Text(key) && (forall|j: int|
            0 <= j < i ==> (#[trigger] entries[j]).0 != YamlTree::Text(key)) ==> text_field(entries, key)
            == yaml_text(entries[i].1) && list_field(entries, key) == yaml_list(entries[i].1)
            && map_field(entries, key) == yaml_map(entries[i].1),
        (forall|j: int| 0 <= j < entries.len() ==> (#[trigger] entries[j]).0 != YamlTree::Text(key))
            ==> text_field(entries, key) is None && list_field(entries, key) is None && map_field(
            entries,
            key,
        ) is None,
    decreases entries.len(),
{
    if entries.len() > 0 {
        let rest = entries.drop_first();
        law_yaml_values(v, tag, rest, key, i - 1);
        assert(forall|j: int| 0 <= j < rest.len() ==> #[trigger] rest[j] == entries[j + 1]);
    }
}

} // verus!
