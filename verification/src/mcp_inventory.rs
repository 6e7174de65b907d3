//! Read-only MCP inventory: which MCP servers are configured in which local agents.
//!
//! Supported agents: OpenCode (`~/.config/opencode/opencode.json`, `mcp` key) and DeepSeek
//! Harness (`~/.dsh/cordis.patch.yml`, plugins named `@deepseek-ai/dsh-mcp-client`).
//!
//! Aggregation is by server name across agents (one entry per name, one occurrence per agent
//! that configures it). Env values are never read — only key names leave this module.

use vstd::prelude::*;
use crate::json::{json_document, member, parse_json, text_member, tree, Json, JsonTree};
use crate::mcp_writers::opencode_json::{text_items, text_parts};
use crate::order::{distinct_sorted, sort_distinct, sort_texts, sorted};
use crate::paths::{child_of, child_path, path_key, same_path, seen_path};
use crate::text::{
    ascii_lowered, join, join_with, lower_ascii, same, starts_with, texts, trim, trimmed,
    without_prefix,
};
use crate::text_lists::{copy_text, copy_texts, text_ref};
use crate::yaml::{
    find_list, find_map, find_text, list_field, map_field, parse_yaml, text_field, text_list,
    yaml_document, yaml_list, yaml_map, yaml_pairs, yaml_texts, yaml_tree, yaml_trees, Yaml,
    YamlTree,
};

verus! {

/// DSH plugin name that registers an MCP client. Other plugins in the same file (hooks,
/// providers, …) are not MCP servers and must be skipped.
pub const DSH_MCP_PLUGIN: &'static str = "@deepseek-ai/dsh-mcp-client";

#[derive(Debug)]
pub struct McpInventoryReport {
    pub servers: Vec<McpServerSummary>,
    pub agents: Vec<McpAgentStatus>,
    pub scanned_at_ms: u64,
}

/// Per-agent scan outcome. `error` is set when the config file exists but cannot be read or
/// parsed.
#[derive(Debug)]
pub struct McpAgentStatus {
    pub agent_key: String,
    pub display_name: String,
    pub installed: bool,
    pub config_path: String,
    pub config_exists: bool,
    pub server_count: usize,
    pub error: Option<String>,
}

#[derive(Debug)]
pub struct McpServerSummary {
    pub name: String,
    /// Transport of the first occurrence; per-agent transports live in `agents`.
    pub transport: String,
    pub command: Option<String>,
    pub url: Option<String>,
    /// Union of env key names across occurrences — never values.
    pub env_keys: Vec<String>,
    pub agents: Vec<McpServerOccurrence>,
}

#[derive(Debug)]
pub struct McpServerOccurrence {
    pub agent_key: String,
    pub agent_display_name: String,
    pub transport: String,
    pub command: Option<String>,
    pub url: Option<String>,
    pub env_keys: Vec<String>,
    /// OpenCode stores a native `enabled` flag; DSH has none, so `None` means "registered".
    pub enabled: Option<bool>,
    /// DSH plugin id, when the agent exposes one.
    pub entry_id: Option<String>,
    pub config_path: String,
}

#[derive(Clone, Copy, PartialEq, Eq, Debug)]
pub enum McpConfigFormat {
    OpenCodeJson,
    DshYaml,
}

/// One entry of an agent's config file.
#[derive(Debug)]
pub struct RawMcpEntry {
    pub name: String,
    pub transport: String,
    pub command: Option<String>,
    pub url: Option<String>,
    pub env_keys: Vec<String>,
    pub enabled: Option<bool>,
    pub entry_id: Option<String>,
}

#[derive(Debug)]
pub struct AgentScan {
    pub status: McpAgentStatus,
    pub entries: Vec<RawMcpEntry>,
}

#[verifier::ext_equal]
pub ghost struct RawEntry {
    pub name: Seq<char>,
    pub transport: Seq<char>,
    pub command: Option<Seq<char>>,
    pub url: Option<Seq<char>>,
    pub env_keys: Seq<Seq<char>>,
    pub enabled: Option<bool>,
    pub entry_id: Option<Seq<char>>,
}

#[verifier::ext_equal]
pub ghost struct Status {
    pub agent_key: Seq<char>,
    pub display_name: Seq<char>,
    pub installed: bool,
    pub config_path: Seq<char>,
    pub config_exists: bool,
    pub server_count: int,
    pub error: Option<Seq<char>>,
}

#[verifier::ext_equal]
pub ghost struct Occurrence {
    pub agent_key: Seq<char>,
    pub agent_display_name: Seq<char>,
    pub transport: Seq<char>,
    pub command: Option<Seq<char>>,
    pub url: Option<Seq<char>>,
    pub env_keys: Seq<Seq<char>>,
    pub enabled: Option<bool>,
    pub entry_id: Option<Seq<char>>,
    pub config_path: Seq<char>,
}

#[verifier::ext_equal]
pub ghost struct Summary {
    pub name: Seq<char>,
    pub transport: Seq<char>,
    pub command: Option<Seq<char>>,
    pub url: Option<Seq<char>>,
    pub env_keys: Seq<Seq<char>>,
    pub agents: Seq<Occurrence>,
}

#[verifier::ext_equal]
pub ghost struct Scan {
    pub status: Status,
    pub entries: Seq<RawEntry>,
}

#[verifier::ext_equal]
pub ghost struct Report {
    pub servers: Seq<Summary>,
    pub agents: Seq<Status>,
    pub scanned_at_ms: u64,
}

impl View for RawMcpEntry {
    type V = RawEntry;

    open spec fn view(&self) -> RawEntry {
        RawEntry {
            name: self.name@,
            transport: self.transport@,
            command: self.command.deep_view(),
            url: self.url.deep_view(),
            env_keys: texts(self.env_keys@),
            enabled: self.enabled,
            entry_id: self.entry_id.deep_view(),
        }
    }
}

impl View for McpAgentStatus {
    type V = Status;

    open spec fn view(&self) -> Status {
        Status {
            agent_key: self.agent_key@,
            display_name: self.display_name@,
            installed: self.installed,
            config_path: self.config_path@,
            config_exists: self.config_exists,
            server_count: self.server_count as int,
            error: self.error.deep_view(),
        }
    }
}

impl View for McpServerOccurrence {
    type V = Occurrence;

    open spec fn view(&self) -> Occurrence {
        Occurrence {
            agent_key: self.agent_key@,
            agent_display_name: self.agent_display_name@,
            transport: self.transport@,
            command: self.command.deep_view(),
            url: self.url.deep_view(),
            env_keys: texts(self.env_keys@),
            enabled: self.enabled,
            entry_id: self.entry_id.deep_view(),
            config_path: self.config_path@,
        }
    }
}

impl View for McpServerSummary {
    type V = Summary;

    open spec fn view(&self) -> Summary {
        Summary {
            name: self.name@,
            transport: self.transport@,
            command: self.command.deep_view(),
            url: self.url.deep_view(),
            env_keys: texts(self.env_keys@),
            agents: self.agents@.map_values(|o: McpServerOccurrence| o@),
        }
    }
}

impl View for AgentScan {
    type V = Scan;

    open spec fn view(&self) -> Scan {
        Scan { status: self.status@, entries: raw_entries(self.entries@) }
    }
}

impl View for McpInventoryReport {
    type V = Report;

    open spec fn view(&self) -> Report {
        Report {
            servers: self.servers@.map_values(|s: McpServerSummary| s@),
            agents: self.agents@.map_values(|s: McpAgentStatus| s@),
            scanned_at_ms: self.scanned_at_ms,
        }
    }
}

pub open spec fn raw_entries(s: Seq<RawMcpEntry>) -> Seq<RawEntry> {
    s.map_values(|e: RawMcpEntry| e@)
}

/// The transport vocabulary: `stdio`, `streamable-http` and `http` under their various
/// spellings, any other word as it stands, and a guess from the fields without a word.
pub open spec fn transport_of(raw: Option<Seq<char>>, has_url: bool, has_command: bool) -> Seq<
    char,
> {
    let kind = match raw {
        Some(word) => ascii_lowered(trimmed(word)),
        None => Seq::empty(),
    };
    if kind == "local"@ || kind == "stdio"@ {
        "stdio"@
    } else if kind == "streamable-http"@ {
        "streamable-http"@
    } else if kind == "remote"@ || kind == "http"@ || kind == "sse"@ {
        "http"@
    } else if kind.len() > 0 {
        kind
    } else if has_url {
        "http"@
    } else if has_command {
        "stdio"@
    } else {
        "unknown"@
    }
}

/// Shared transport vocabulary — also consumed by `mcp_writers` so the inventory report and
/// a writer's `read_entry` can never disagree.
pub fn normalize_transport(raw: Option<&str>, has_url: bool, has_command: bool) -> (r: String)
    ensures
        r@ == transport_of(
            match raw {
                Some(word) => Some(word@),
                None => None,
            },
            has_url,
            has_command,
        ),
{
    let kind = match raw {
        Some(word) => lower_ascii(trim(word).as_str()),
        None => String::new(),
    };
    let k = kind.as_str();
    if same(k, "local") || same(k, "stdio") {
        "stdio".to_owned()
    } else if same(k, "streamable-http") {
        "streamable-http".to_owned()
    } else if same(k, "remote") || same(k, "http") || same(k, "sse") {
        "http".to_owned()
    } else if !k.is_empty() {
        kind
    } else if has_url {
        "http".to_owned()
    } else if has_command {
        "stdio".to_owned()
    } else {
        "unknown".to_owned()
    }
}

/// The command as one line: program and arguments with spaces between them.
pub open spec fn command_line(v: Option<JsonTree>) -> Option<Seq<char>> {
    match v {
        Some(JsonTree::List(items)) => Some(join(text_items(items), " "@)),
        Some(JsonTree::Text(text)) => Some(text),
        _ => None,
    }
}

pub open spec fn non_empty(s: Option<Seq<char>>) -> Option<Seq<char>> {
    match s {
        Some(t) if t.len() > 0 => Some(t),
        _ => None,
    }
}

pub open spec fn member_keys(v: Option<JsonTree>) -> Seq<Seq<char>> {
    match v {
        Some(JsonTree::Object(ms)) => Seq::new(ms.len(), |i: int| ms[i].0),
        _ => Seq::empty(),
    }
}

/// What is listed of one server of opencode.json.
pub open spec fn opencode_entry(name: Seq<char>, v: JsonTree) -> RawEntry {
    let url = text_member(v, "url"@);
    let command = non_empty(command_line(member(v, "command"@)));
    RawEntry {
        name,
        transport: transport_of(text_member(v, "type"@), url is Some, command is Some),
        command,
        url,
        env_keys: sorted(member_keys(member(v, "environment"@))),
        enabled: match member(v, "enabled"@) {
            Some(JsonTree::Bool(b)) => Some(b),
            _ => None,
        },
        entry_id: None,
    }
}

/// What is listed of the `mcp` object: its members that are objects.
pub open spec fn opencode_entries(ms: Seq<(Seq<char>, JsonTree)>) -> Seq<RawEntry>
    decreases ms.len(),
{
    if ms.len() == 0 {
        Seq::empty()
    } else {
        let before = opencode_entries(ms.drop_last());
        if ms.last().1 is Object {
            before.push(opencode_entry(ms.last().0, ms.last().1))
        } else {
            before
        }
    }
}

pub open spec fn opencode_listing(doc: JsonTree) -> Result<Seq<RawEntry>, Seq<char>> {
    match member(doc, "mcp"@) {
        None => Ok(Seq::empty()),
        Some(JsonTree::Object(ms)) => Ok(opencode_entries(ms)),
        Some(_) => Err("mcp 字段不是对象"@),
    }
}

/// What is listed of the text of an opencode.json.
pub open spec fn opencode_config(text: Seq<char>) -> Result<Seq<RawEntry>, Seq<char>> {
    match json_document(text) {
        Err(message) => Err("JSON 解析失败："@ + message),
        Ok(doc) => opencode_listing(doc),
    }
}

pub open spec fn listing(r: Result<Vec<RawMcpEntry>, String>) -> Result<Seq<RawEntry>, Seq<char>> {
    match r {
        Ok(entries) => Ok(raw_entries(entries@)),
        Err(message) => Err(message@),
    }
}

fn json_command_line(value: Option<&Json>) -> (r: Option<String>)
    ensures
        r.deep_view() == command_line(
            match value {
                Some(v) => Some(v@),
                None => None,
            },
        ),
{
    let value = match value {
        Some(value) => value,
        None => {
            return None;
        },
    };
    match value {
        // OpenCode merges executable and args into one array.
        Json::List(items) => {
            assert(*value == Json::List(*items));
            Some(join_with(&text_parts(items), " "))
        },
        Json::Text(text) => Some(text.clone()),
        _ => None,
    }
}

fn object_keys(value: Option<&Json>) -> (r: Vec<String>)
    ensures
        texts(r@) == member_keys(
            match value {
                Some(v) => Some(v@),
                None => None,
            },
        ),
{
    let mut r: Vec<String> = Vec::new();
    assert(texts(r@) =~= Seq::<Seq<char>>::empty());
    let value = match value {
        Some(value) => value,
        None => {
            return r;
        },
    };
    if let Json::Object(members) = value {
        let ghost ms = value@->Object_0;
        let mut i: usize = 0;
        while i < members.len()
            invariant
                i <= members.len(),
                ms.len() == members.len(),
                forall|k: int|
                    0 <= k < ms.len() ==> #[trigger] ms[k] == (members@[k].0@, tree(members@[k].1)),
                r@.len() == i,
                forall|k: int| 0 <= k < i ==> (#[trigger] r@[k])@ == ms[k].0,
            decreases members.len() - i,
        {
            assert(ms[i as int].0 == members@[i as int].0@);
            r.push(members[i].0.clone());
            i = i + 1;
        }
        assert(texts(r@) =~= member_keys(Some(value@)));
    }
    r
}

fn text_of_member(object: &Json, key: &str) -> (r: Option<String>)
    ensures
        r.deep_view() == text_member(object@, key@),
{
    match object.get(key) {
        Some(v) => match v.as_str() {
            Some(s) => Some(s.clone()),
            None => None,
        },
        None => None,
    }
}

pub fn opt_str(s: &Option<String>) -> (r: Option<&str>)
    ensures
        match r {
            Some(t) => s.deep_view() == Some(t@),
            None => s.deep_view() is None,
        },
{
    match s {
        Some(t) => Some(t.as_str()),
        None => None,
    }
}

fn list_opencode_entry(name: &String, object: &Json) -> (r: RawMcpEntry)
    ensures
        r@ == opencode_entry(name@, object@),
{
    let raw_type = text_of_member(object, "type");
    let url = text_of_member(object, "url");
    let command = match json_command_line(object.get("command")) {
        Some(line) => if line.as_str().is_empty() {
            None
        } else {
            Some(line)
        },
        None => None,
    };
    let env_keys = sort_texts(&object_keys(object.get("environment")));
    let enabled = match object.get("enabled") {
        Some(v) => v.as_bool(),
        None => None,
    };
    RawMcpEntry {
        name: name.clone(),
        transport: normalize_transport(opt_str(&raw_type), url.is_some(), command.is_some()),
        command,
        url,
        env_keys,
        enabled,
        entry_id: None,
    }
}

/// Entry shape: `{ "type": "local"|"remote", "command": [..], "environment": {..}, "enabled":
/// bool, "url": ".." }`. A file without an `mcp` key is not an error — it simply has no
/// servers.
pub fn parse_opencode_config(content: &str) -> (r: Result<Vec<RawMcpEntry>, String>)
    ensures
        listing(r) == opencode_config(content@),
{
    let root = match parse_json(content) {
        Ok(root) => root,
        Err(message) => {
            let mut m = "JSON 解析失败：".to_owned();
            m.append(message.as_str());
            return Err(m);
        },
    };
    let mut entries: Vec<RawMcpEntry> = Vec::new();
    assert(raw_entries(entries@) =~= Seq::<RawEntry>::empty());
    let mcp = match root.get("mcp") {
        Some(value) => value,
        None => {
            return Ok(entries);
        },
    };
    let members = match mcp {
        Json::Object(members) => members,
        _ => {
            return Err("mcp 字段不是对象".to_owned());
        },
    };
    let ghost ms = mcp@->Object_0;
    let mut i: usize = 0;
    assert(ms.take(0) =~= Seq::<(Seq<char>, JsonTree)>::empty());
    while i < members.len()
        invariant
            i <= members.len(),
            ms.len() == members.len(),
            forall|k: int|
                0 <= k < ms.len() ==> #[trigger] ms[k] == (members@[k].0@, tree(members@[k].1)),
            raw_entries(entries@) == opencode_entries(ms.take(i as int)),
        decreases members.len() - i,
    {
        let ghost before = raw_entries(entries@);
        proof {
            assert(ms.take(i + 1).drop_last() =~= ms.take(i as int));
            assert(ms.take(i + 1).last() == ms[i as int]);
        }
        if members[i].1.is_object() {
            let entry = list_opencode_entry(&members[i].0, &members[i].1);
            let ghost e = entry@;
            entries.push(entry);
            assert(raw_entries(entries@) =~= before.push(e));
        }
        i = i + 1;
    }
    assert(ms.take(i as int) =~= ms);
    Ok(entries)
}

/// The plugins under each patch item's `insert:` list, in file order.
pub open spec fn plugins_of(patches: Seq<YamlTree>) -> Seq<YamlTree>
    decreases patches.len(),
{
    if patches.len() == 0 {
        Seq::empty()
    } else {
        let before = plugins_of(patches.drop_last());
        match yaml_map(patches.last()) {
            None => before,
            Some(entries) => match list_field(entries, "insert"@) {
                None => before,
                Some(plugins) => before + plugins,
            },
        }
    }
}

/// An MCP client plugin: the server's name, the plugin's id and its config. The name is
/// `serverName`, or else the id.
pub ghost struct ClientPlugin {
    pub name: Seq<char>,
    pub id: Option<Seq<char>>,
    pub config: Seq<(YamlTree, YamlTree)>,
}

pub open spec fn client_plugin(plugin: YamlTree) -> Option<ClientPlugin> {
    match yaml_map(plugin) {
        None => None,
        Some(fields) => if text_field(fields, "name"@) != Some(DSH_MCP_PLUGIN@) {
            None
        } else {
            let id = text_field(fields, "id"@);
            match map_field(fields, "config"@) {
                None => None,
                Some(config) => match text_field(config, "serverName"@) {
                    Some(name) => Some(ClientPlugin { name, id, config }),
                    None => match id {
                        Some(name) => Some(ClientPlugin { name, id, config }),
                        None => None,
                    },
                },
            }
        },
    }
}

pub open spec fn field_texts(v: Option<Seq<YamlTree>>) -> Seq<Seq<char>> {
    match v {
        Some(items) => yaml_texts(items),
        None => Seq::empty(),
    }
}

pub open spec fn key_trees(entries: Seq<(YamlTree, YamlTree)>) -> Seq<YamlTree> {
    Seq::new(entries.len(), |i: int| entries[i].0)
}

/// Program and arguments as one line.
pub open spec fn merged_command(command: Option<Seq<char>>, args: Seq<Seq<char>>) -> Option<
    Seq<char>,
> {
    match command {
        Some(program) => if args.len() == 0 {
            Some(program)
        } else {
            Some(program + " "@ + join(args, " "@))
        },
        None => if args.len() == 0 {
            None
        } else {
            Some(join(args, " "@))
        },
    }
}

/// What is listed of one MCP client plugin.
pub open spec fn dsh_entry(p: ClientPlugin) -> RawEntry {
    let command = merged_command(
        text_field(p.config, "command"@),
        field_texts(list_field(p.config, "args"@)),
    );
    let url = text_field(p.config, "url"@);
    RawEntry {
        name: p.name,
        transport: transport_of(text_field(p.config, "transport"@), url is Some, command is Some),
        command,
        url,
        env_keys: match map_field(p.config, "env"@) {
            Some(env) => sorted(yaml_texts(key_trees(env))),
            None => Seq::empty(),
        },
        enabled: None,
        entry_id: p.id,
    }
}

/// What is listed of a list of plugins: those that are MCP clients.
pub open spec fn dsh_entries(plugins: Seq<YamlTree>) -> Seq<RawEntry>
    decreases plugins.len(),
{
    if plugins.len() == 0 {
        Seq::empty()
    } else {
        let before = dsh_entries(plugins.drop_last());
        match client_plugin(plugins.last()) {
            Some(p) => before.push(dsh_entry(p)),
            None => before,
        }
    }
}

pub open spec fn dsh_listing(doc: YamlTree) -> Result<Seq<RawEntry>, Seq<char>> {
    match yaml_list(doc) {
        None => Err("顶层不是插件列表"@),
        Some(patches) => Ok(dsh_entries(plugins_of(patches))),
    }
}

/// What is listed of the text of a cordis.patch.yml.
pub open spec fn dsh_config(text: Seq<char>) -> Result<Seq<RawEntry>, Seq<char>> {
    match yaml_document(text) {
        Err(message) => Err("YAML 解析失败："@ + message),
        Ok(doc) => dsh_listing(doc),
    }
}

pub open spec fn ref_trees(s: Seq<&Yaml>) -> Seq<YamlTree> {
    Seq::new(s.len(), |i: int| s[i]@)
}

/// All plugin values under each patch item's `insert:` list, in file order.
pub fn plugins_of_patches<'a>(patches: &'a Vec<Yaml>) -> (r: Vec<&'a Yaml>)
    ensures
        ref_trees(r@) == plugins_of(yaml_trees(patches@)),
{
    let mut r: Vec<&'a Yaml> = Vec::new();
    let ghost trees = yaml_trees(patches@);
    let mut i: usize = 0;
    assert(ref_trees(r@) =~= plugins_of(trees.take(0)));
    while i < patches.len()
        invariant
            i <= patches.len(),
            trees == yaml_trees(patches@),
            ref_trees(r@) == plugins_of(trees.take(i as int)),
        decreases patches.len() - i,
    {
        proof {
            assert(trees.take(i + 1).drop_last() =~= trees.take(i as int));
            assert(trees[i as int] == yaml_tree(patches@[i as int]));
        }
        if let Some(fields) = patches[i].as_map() {
            if let Some(inserts) = find_list(fields, "insert") {
                let ghost before = ref_trees(r@);
                let ghost more = yaml_trees(inserts@);
                let mut j: usize = 0;
                assert(before + more.take(0) =~= before);
                while j < inserts.len()
                    invariant
                        j <= inserts.len(),
                        more == yaml_trees(inserts@),
                        ref_trees(r@) == before + more.take(j as int),
                    decreases inserts.len() - j,
                {
                    let ghost now = ref_trees(r@);
                    r.push(&inserts[j]);
                    proof {
                        assert(more[j as int] == yaml_tree(inserts@[j as int]));
                        assert(ref_trees(r@) =~= now.push(more[j as int]));
                        assert(more.take(j + 1) =~= more.take(j as int).push(more[j as int]));
                        assert(before + more.take(j + 1) =~= now.push(more[j as int]));
                    }
                    j = j + 1;
                }
                assert(more.take(j as int) =~= more);
            }
        }
        i = i + 1;
    }
    assert(trees.take(i as int) =~= trees);
    r
}

/// An MCP client plugin's server name, id and config.
pub struct PluginParts<'a> {
    pub name: String,
    pub id: Option<String>,
    pub config: &'a Vec<(Yaml, Yaml)>,
}

impl<'a> PluginParts<'a> {
    pub open spec fn is(self, p: ClientPlugin) -> bool {
        self.name@ == p.name && self.id.deep_view() == p.id && yaml_pairs(self.config@) == p.config
    }
}

pub fn client_plugin_parts<'a>(plugin: &'a Yaml) -> (r: Option<PluginParts<'a>>)
    ensures
        match r {
            Some(parts) => client_plugin(plugin@) matches Some(p) && parts.is(p),
            None => client_plugin(plugin@) is None,
        },
{
    let fields = match plugin.as_map() {
        Some(fields) => fields,
        None => {
            return None;
        },
    };
    let is_client = match find_text(fields, "name") {
        Some(name) => same(name.as_str(), DSH_MCP_PLUGIN),
        None => false,
    };
    if !is_client {
        return None;
    }
    let id = find_text(fields, "id");
    let config = match find_map(fields, "config") {
        Some(config) => config,
        None => {
            return None;
        },
    };
    match find_text(config, "serverName") {
        Some(name) => Some(PluginParts { name, id, config }),
        None => match copy_text(&id) {
            Some(name) => Some(PluginParts { name, id, config }),
            None => None,
        },
    }
}

pub fn text_list_field(config: &Vec<(Yaml, Yaml)>, key: &str) -> (r: Vec<String>)
    ensures
        texts(r@) == field_texts(list_field(yaml_pairs(config@), key@)),
{
    match find_list(config, key) {
        Some(items) => text_list(items),
        None => {
            let r: Vec<String> = Vec::new();
            assert(texts(r@) =~= Seq::<Seq<char>>::empty());
            r
        },
    }
}

fn merge_command(command: Option<String>, args: &Vec<String>) -> (r: Option<String>)
    ensures
        r.deep_view() == merged_command(command.deep_view(), texts(args@)),
{
    match command {
        Some(program) => {
            if args.len() == 0 {
                Some(program)
            } else {
                let mut line = program;
                line.append(" ");
                line.append(join_with(args, " ").as_str());
                Some(line)
            }
        },
        None => if args.len() == 0 {
            None
        } else {
            Some(join_with(args, " "))
        },
    }
}

fn env_key_texts(env: &Vec<(Yaml, Yaml)>) -> (r: Vec<String>)
    ensures
        texts(r@) == yaml_texts(key_trees(yaml_pairs(env@))),
{
    let ghost keys = key_trees(yaml_pairs(env@));
    let mut r: Vec<String> = Vec::new();
    let mut i: usize = 0;
    assert(texts(r@) =~= yaml_texts(keys.take(0)));
    while i < env.len()
        invariant
            i <= env.len(),
            keys == key_trees(yaml_pairs(env@)),
            texts(r@) == yaml_texts(keys.take(i as int)),
        decreases env.len() - i,
    {
        let ghost before = texts(r@);
        proof {
            assert(keys.take(i + 1).drop_last() =~= keys.take(i as int));
            assert(yaml_pairs(env@)[i as int].0 == yaml_tree(env@[i as int].0));
        }
        if let Some(s) = env[i].0.as_str() {
            r.push(s.clone());
            assert(texts(r@) =~= before.push(s@));
        }
        i = i + 1;
    }
    assert(keys.take(i as int) =~= keys);
    r
}

fn list_dsh_entry(parts: PluginParts) -> (r: RawMcpEntry)
    ensures
        forall|p: ClientPlugin| #[trigger] parts.is(p) ==> r@ == dsh_entry(p),
{
    let config = parts.config;
    let transport_raw = find_text(config, "transport");
    let args = text_list_field(config, "args");
    let command = merge_command(find_text(config, "command"), &args);
    let url = find_text(config, "url");
    let env_keys = match find_map(config, "env") {
        Some(env) => sort_texts(&env_key_texts(env)),
        None => {
            let none: Vec<String> = Vec::new();
            assert(texts(none@) =~= Seq::<Seq<char>>::empty());
            none
        },
    };
    RawMcpEntry {
        name: parts.name,
        transport: normalize_transport(opt_str(&transport_raw), url.is_some(), command.is_some()),
        command,
        url,
        env_keys,
        enabled: None,
        entry_id: parts.id,
    }
}

/// Only plugins named [`DSH_MCP_PLUGIN`] count as MCP servers; the same file also carries
/// hooks and provider plugins. Returns an error when the file is not the expected top-level
/// list.
pub fn parse_dsh_config(content: &str) -> (r: Result<Vec<RawMcpEntry>, String>)
    ensures
        listing(r) == dsh_config(content@),
{
    let root = match parse_yaml(content) {
        Ok(root) => root,
        Err(message) => {
            let mut m = "YAML 解析失败：".to_owned();
            m.append(message.as_str());
            return Err(m);
        },
    };
    let patches = match root.as_list() {
        Some(patches) => patches,
        None => {
            return Err("顶层不是插件列表".to_owned());
        },
    };
    let plugins = plugins_of_patches(patches);
    let ghost trees = ref_trees(plugins@);
    let mut entries: Vec<RawMcpEntry> = Vec::new();
    let mut i: usize = 0;
    assert(raw_entries(entries@) =~= dsh_entries(trees.take(0)));
    while i < plugins.len()
        invariant
            i <= plugins.len(),
            trees == ref_trees(plugins@),
            raw_entries(entries@) == dsh_entries(trees.take(i as int)),
        decreases plugins.len() - i,
    {
        let ghost before = raw_entries(entries@);
        proof {
            assert(trees.take(i + 1).drop_last() =~= trees.take(i as int));
            assert(trees.take(i + 1).last() == plugins@[i as int]@);
        }
        if let Some(parts) = client_plugin_parts(plugins[i]) {
            let entry = list_dsh_entry(parts);
            let ghost e = entry@;
            entries.push(entry);
            assert(raw_entries(entries@) =~= before.push(e));
        }
        i = i + 1;
    }
    assert(trees.take(i as int) =~= trees);
    Ok(entries)
}

/// An agent whose config file is scanned.
#[derive(Debug)]
pub struct McpAgentSpec {
    pub key: String,
    pub display_name: String,
    pub detect_dir: String,
    pub config_relative: String,
    pub format: McpConfigFormat,
}

/// The supported agents, in the order in which they are reported.
pub fn mcp_agents() -> (r: Vec<McpAgentSpec>)
    ensures
        r@.len() == 2,
        r@[0].key@ == "opencode"@ && r@[0].display_name@ == "OpenCode"@ && r@[0].detect_dir@
            == ".config/opencode"@ && r@[0].config_relative@ == ".config/opencode/opencode.json"@
            && r@[0].format == McpConfigFormat::OpenCodeJson,
        r@[1].key@ == "deepseek_harness"@ && r@[1].display_name@ == "DeepSeek Harness"@
            && r@[1].detect_dir@ == ".dsh"@ && r@[1].config_relative@ == ".dsh/cordis.patch.yml"@
            && r@[1].format == McpConfigFormat::DshYaml,
{
    let mut r: Vec<McpAgentSpec> = Vec::new();
    r.push(
        McpAgentSpec {
            key: "opencode".to_owned(),
            display_name: "OpenCode".to_owned(),
            detect_dir: ".config/opencode".to_owned(),
            config_relative: ".config/opencode/opencode.json".to_owned(),
            format: McpConfigFormat::OpenCodeJson,
        },
    );
    r.push(
        McpAgentSpec {
            key: "deepseek_harness".to_owned(),
            display_name: "DeepSeek Harness".to_owned(),
            detect_dir: ".dsh".to_owned(),
            config_relative: ".dsh/cordis.patch.yml".to_owned(),
            format: McpConfigFormat::DshYaml,
        },
    );
    r
}

/// Where an agent may keep a file: below the home directory, and where that is below `.config`,
/// below the user's config directory too.
pub open spec fn candidates(
    relative: Seq<char>,
    home: Option<Seq<char>>,
    config_dir: Option<Seq<char>>,
) -> Seq<Seq<char>> {
    let first = match home {
        Some(h) => seq![child_of(h, relative)],
        None => Seq::empty(),
    };
    match config_dir {
        Some(c) => if starts_with(relative, ".config/"@) {
            let path = child_of(c, relative.skip(".config/"@.len() as int));
            if seen_path(first, path) {
                first
            } else {
                first.push(path)
            }
        } else {
            first
        },
        None => first,
    }
}

pub fn candidate_paths(relative: &str, home: Option<&String>, config_dir: Option<&String>) -> (r: Vec<
    String,
>)
    ensures
        texts(r@) == candidates(relative@, text_ref(home), text_ref(config_dir)),
{
    let mut paths: Vec<String> = Vec::new();
    assert(texts(paths@) =~= Seq::<Seq<char>>::empty());
    if let Some(h) = home {
        let path = child_path(h.as_str(), relative);
        let ghost p = path@;
        paths.push(path);
        assert(texts(paths@) =~= seq![p]);
    }
    if let Some(c) = config_dir {
        if let Some(suffix) = without_prefix(relative, ".config/") {
            let path = child_path(c.as_str(), suffix.as_str());
            let ghost first = texts(paths@);
            let ghost p = path@;
            if paths.len() > 0 && same_path(paths[0].as_str(), path.as_str()) {
                assert(path_key(first[0]) == path_key(p));
                return paths;
            }
            proof {
                assert forall|i: int| 0 <= i < first.len() implies path_key(#[trigger] first[i])
                    != path_key(p) by {
                    assert(first[i] == paths@[0]@);
                }
            }
            paths.push(path);
            assert(texts(paths@) =~= first.push(p));
        }
    }
    paths
}

/// Which of the candidate paths of a config file to use: the first that exists, or else the
/// first.
pub open spec fn chosen_candidate(exist: Seq<bool>) -> Option<int>
    decreases exist.len(),
{
    if exist.len() == 0 {
        None
    } else {
        match first_true(exist) {
            Some(i) => Some(i),
            None => Some(0),
        }
    }
}

pub open spec fn first_true(exist: Seq<bool>) -> Option<int>
    decreases exist.len(),
{
    if exist.len() == 0 {
        None
    } else if exist[0] {
        Some(0)
    } else {
        match first_true(exist.drop_first()) {
            Some(i) => Some(i + 1),
            None => None,
        }
    }
}

pub fn resolve_config_path(exist: &Vec<bool>) -> (r: Option<usize>)
    ensures
        match r {
            Some(i) => chosen_candidate(exist@) == Some(i as int) && i < exist@.len(),
            None => chosen_candidate(exist@) is None,
        },
{
    let mut i: usize = 0;
    assert(exist@.skip(0) =~= exist@);
    while i < exist.len()
        invariant
            i <= exist.len(),
            first_true(exist@) == match first_true(exist@.skip(i as int)) {
                Some(j) => Some(j + i),
                None => None,
            },
        decreases exist.len() - i,
    {
        assert(exist@.skip(i as int).drop_first() =~= exist@.skip(i + 1));
        if exist[i] {
            return Some(i);
        }
        i = i + 1;
    }
    if exist.len() > 0 {
        Some(0)
    } else {
        None
    }
}

/// What reading an agent's config file came to.
#[derive(Debug)]
pub enum ConfigRead {
    /// The file does not exist.
    Missing,
    /// The file exists and could not be read.
    Failed(String),
    Text(String),
}

/// What a [`ConfigRead`] holds.
pub ghost enum FileState {
    Missing,
    Failed(Seq<char>),
    Text(Seq<char>),
}

impl View for ConfigRead {
    type V = FileState;

    open spec fn view(&self) -> FileState {
        match self {
            ConfigRead::Missing => FileState::Missing,
            ConfigRead::Failed(message) => FileState::Failed(message@),
            ConfigRead::Text(text) => FileState::Text(text@),
        }
    }
}

/// One agent as it is found on this machine.
#[derive(Debug)]
pub struct AgentConfig {
    pub agent: McpAgentSpec,
    pub installed: bool,
    pub config_path: String,
    pub read: ConfigRead,
}

/// What a config text of a format lists.
pub open spec fn config_listing(format: McpConfigFormat, text: Seq<char>) -> Result<
    Seq<RawEntry>,
    Seq<char>,
> {
    match format {
        McpConfigFormat::OpenCodeJson => opencode_config(text),
        McpConfigFormat::DshYaml => dsh_config(text),
    }
}

/// The scan of one agent: its servers, or why its file could not be read or parsed.
pub open spec fn agent_scan(config: AgentConfig) -> Scan {
    let outcome: Result<Seq<RawEntry>, Seq<char>> = match config.read {
        ConfigRead::Missing => Ok(Seq::empty()),
        ConfigRead::Failed(message) => Err("读取失败："@ + message@),
        ConfigRead::Text(text) => config_listing(config.agent.format, text@),
    };
    let entries = match outcome {
        Ok(entries) => entries,
        Err(_) => Seq::empty(),
    };
    Scan {
        status: Status {
            agent_key: config.agent.key@,
            display_name: config.agent.display_name@,
            installed: config.installed,
            config_path: config.config_path@,
            config_exists: !(config.read is Missing),
            server_count: entries.len() as int,
            error: match outcome {
                Ok(_) => None,
                Err(message) => Some(message),
            },
        },
        entries,
    }
}

pub fn scan_agent(config: &AgentConfig) -> (r: AgentScan)
    ensures
        r@ == agent_scan(*config),
{
    let mut entries: Vec<RawMcpEntry> = Vec::new();
    let mut error: Option<String> = None;
    let mut config_exists = true;
    assert(raw_entries(entries@) =~= Seq::<RawEntry>::empty());
    match &config.read {
        ConfigRead::Missing => {
            config_exists = false;
        },
        ConfigRead::Failed(message) => {
            let mut m = "读取失败：".to_owned();
            m.append(message.as_str());
            error = Some(m);
        },
        ConfigRead::Text(content) => {
            let parsed = match config.agent.format {
                McpConfigFormat::OpenCodeJson => parse_opencode_config(content.as_str()),
                McpConfigFormat::DshYaml => parse_dsh_config(content.as_str()),
            };
            match parsed {
                Ok(found) => {
                    entries = found;
                },
                Err(message) => {
                    error = Some(message);
                },
            }
        },
    }
    let r = AgentScan {
        status: McpAgentStatus {
            agent_key: config.agent.key.clone(),
            display_name: config.agent.display_name.clone(),
            installed: config.installed,
            config_path: config.config_path.clone(),
            config_exists,
            server_count: entries.len(),
            error,
        },
        entries,
    };
    assert(r@ =~= agent_scan(*config));
    r
}

/// One entry of an agent as an occurrence of its server.
pub open spec fn occurrence_of(status: Status, entry: RawEntry) -> Occurrence {
    Occurrence {
        agent_key: status.agent_key,
        agent_display_name: status.display_name,
        transport: entry.transport,
        command: entry.command,
        url: entry.url,
        env_keys: entry.env_keys,
        enabled: entry.enabled,
        entry_id: entry.entry_id,
        config_path: status.config_path,
    }
}

/// All occurrences with their servers' names, in scan order.
pub open spec fn named_occurrences(scans: Seq<Scan>) -> Seq<(Seq<char>, Occurrence)>
    decreases scans.len(),
{
    if scans.len() == 0 {
        Seq::empty()
    } else {
        let scan = scans.last();
        named_occurrences(scans.drop_last()) + Seq::new(
            scan.entries.len(),
            |i: int| (scan.entries[i].name, occurrence_of(scan.status, scan.entries[i])),
        )
    }
}

/// The occurrences of one server.
pub open spec fn occurrences_of(all: Seq<(Seq<char>, Occurrence)>, name: Seq<char>) -> Seq<
    Occurrence,
>
    decreases all.len(),
{
    if all.len() == 0 {
        Seq::empty()
    } else {
        let before = occurrences_of(all.drop_last(), name);
        if all.last().0 == name {
            before.push(all.last().1)
        } else {
            before
        }
    }
}

pub open spec fn occurrence_names(all: Seq<(Seq<char>, Occurrence)>) -> Seq<Seq<char>> {
    Seq::new(all.len(), |i: int| all[i].0)
}

pub open spec fn all_env_keys(agents: Seq<Occurrence>) -> Seq<Seq<char>>
    decreases agents.len(),
{
    if agents.len() == 0 {
        Seq::empty()
    } else {
        all_env_keys(agents.drop_last()) + agents.last().env_keys
    }
}

/// One server over all its occurrences.
pub open spec fn summary_of(name: Seq<char>, agents: Seq<Occurrence>) -> Summary {
    Summary {
        name,
        transport: agents[0].transport,
        command: agents[0].command,
        url: agents[0].url,
        env_keys: distinct_sorted(all_env_keys(agents)),
        agents,
    }
}

/// One summary for each server name, in the order of the names.
pub open spec fn summaries(all: Seq<(Seq<char>, Occurrence)>) -> Seq<Summary> {
    let names = distinct_sorted(occurrence_names(all));
    Seq::new(names.len(), |i: int| summary_of(names[i], occurrences_of(all, names[i])))
}

pub open spec fn report_of(scans: Seq<Scan>, scanned_at_ms: u64) -> Report {
    Report {
        servers: summaries(named_occurrences(scans)),
        agents: Seq::new(scans.len(), |i: int| scans[i].status),
        scanned_at_ms,
    }
}

pub open spec fn scan_views(scans: Seq<AgentScan>) -> Seq<Scan> {
    Seq::new(scans.len(), |i: int| scans[i]@)
}

fn copy_occurrence(o: &McpServerOccurrence) -> (r: McpServerOccurrence)
    ensures
        r@ == o@,
{
    let r = McpServerOccurrence {
        agent_key: o.agent_key.clone(),
        agent_display_name: o.agent_display_name.clone(),
        transport: o.transport.clone(),
        command: copy_text(&o.command),
        url: copy_text(&o.url),
        env_keys: copy_texts(&o.env_keys),
        enabled: o.enabled,
        entry_id: copy_text(&o.entry_id),
        config_path: o.config_path.clone(),
    };
    assert(r@ =~= o@);
    r
}

fn make_occurrence(status: &McpAgentStatus, entry: &RawMcpEntry) -> (r: McpServerOccurrence)
    ensures
        r@ == occurrence_of(status@, entry@),
{
    let r = McpServerOccurrence {
        agent_key: status.agent_key.clone(),
        agent_display_name: status.display_name.clone(),
        transport: entry.transport.clone(),
        command: copy_text(&entry.command),
        url: copy_text(&entry.url),
        env_keys: copy_texts(&entry.env_keys),
        enabled: entry.enabled,
        entry_id: copy_text(&entry.entry_id),
        config_path: status.config_path.clone(),
    };
    assert(r@ =~= occurrence_of(status@, entry@));
    r
}

pub open spec fn named_views(s: Seq<(String, McpServerOccurrence)>) -> Seq<
    (Seq<char>, Occurrence),
> {
    Seq::new(s.len(), |i: int| (s[i].0@, s[i].1@))
}

fn collect_occurrences(scans: &Vec<AgentScan>) -> (r: Vec<(String, McpServerOccurrence)>)
    ensures
        named_views(r@) == named_occurrences(scan_views(scans@)),
{
    let ghost all = scan_views(scans@);
    let mut r: Vec<(String, McpServerOccurrence)> = Vec::new();
    let mut i: usize = 0;
    assert(named_views(r@) =~= named_occurrences(all.take(0)));
    while i < scans.len()
        invariant
            i <= scans.len(),
            all == scan_views(scans@),
            named_views(r@) == named_occurrences(all.take(i as int)),
        decreases scans.len() - i,
    {
        let scan = &scans[i];
        let ghost before = named_views(r@);
        let ghost sv = scan@;
        let ghost more = Seq::new(
            sv.entries.len(),
            |k: int| (sv.entries[k].name, occurrence_of(sv.status, sv.entries[k])),
        );
        let mut j: usize = 0;
        proof {
            assert(before + more.take(0) =~= before);
            assert(all.take(i + 1).drop_last() =~= all.take(i as int));
            assert(all.take(i + 1).last() == sv);
        }
        while j < scan.entries.len()
            invariant
                j <= scan.entries.len(),
                sv == scan@,
                more == Seq::new(
                    sv.entries.len(),
                    |k: int| (sv.entries[k].name, occurrence_of(sv.status, sv.entries[k])),
                ),
                named_views(r@) == before + more.take(j as int),
            decreases scan.entries.len() - j,
        {
            let entry = &scan.entries[j];
            let ghost now = named_views(r@);
            assert(sv.entries[j as int] == entry@);
            r.push((entry.name.clone(), make_occurrence(&scan.status, entry)));
            proof {
                assert(named_views(r@) =~= now.push(more[j as int]));
                assert(more.take(j + 1) =~= more.take(j as int).push(more[j as int]));
                assert(before + more.take(j + 1) =~= now.push(more[j as int]));
            }
            j = j + 1;
        }
        assert(more.take(j as int) =~= more);
        i = i + 1;
    }
    assert(all.take(i as int) =~= all);
    r
}

fn select_occurrences(all: &Vec<(String, McpServerOccurrence)>, name: &str) -> (r: Vec<
    McpServerOccurrence,
>)
    ensures
        r@.map_values(|o: McpServerOccurrence| o@) == occurrences_of(named_views(all@), name@),
{
    let ghost views = named_views(all@);
    let mut r: Vec<McpServerOccurrence> = Vec::new();
    let mut i: usize = 0;
    assert(r@.map_values(|o: McpServerOccurrence| o@) =~= occurrences_of(views.take(0), name@));
    while i < all.len()
        invariant
            i <= all.len(),
            views == named_views(all@),
            r@.map_values(|o: McpServerOccurrence| o@) == occurrences_of(
                views.take(i as int),
                name@,
            ),
        decreases all.len() - i,
    {
        let ghost before = r@.map_values(|o: McpServerOccurrence| o@);
        proof {
            assert(views.take(i + 1).drop_last() =~= views.take(i as int));
            assert(views.take(i + 1).last() == views[i as int]);
        }
        if same(all[i].0.as_str(), name) {
            r.push(copy_occurrence(&all[i].1));
            assert(r@.map_values(|o: McpServerOccurrence| o@) =~= before.push(views[i as int].1));
        }
        i = i + 1;
    }
    assert(views.take(i as int) =~= views);
    r
}

fn collect_env_keys(agents: &Vec<McpServerOccurrence>) -> (r: Vec<String>)
    ensures
        texts(r@) == all_env_keys(agents@.map_values(|o: McpServerOccurrence| o@)),
{
    let ghost views = agents@.map_values(|o: McpServerOccurrence| o@);
    let mut r: Vec<String> = Vec::new();
    let mut i: usize = 0;
    assert(texts(r@) =~= all_env_keys(views.take(0)));
    while i < agents.len()
        invariant
            i <= agents.len(),
            views == agents@.map_values(|o: McpServerOccurrence| o@),
            texts(r@) == all_env_keys(views.take(i as int)),
        decreases agents.len() - i,
    {
        let ghost before = texts(r@);
        let mut more = copy_texts(&agents[i].env_keys);
        let ghost added = texts(more@);
        let ghost old_r = r@;
        let ghost old_more = more@;
        r.append(&mut more);
        proof {
            assert(texts(r@) =~= before + added);
            assert(views.take(i + 1).drop_last() =~= views.take(i as int));
            assert(views.take(i + 1).last() == views[i as int]);
        }
        i = i + 1;
    }
    assert(views.take(i as int) =~= views);
    r
}

proof fn lemma_occurs(all: Seq<(Seq<char>, Occurrence)>, name: Seq<char>)
    requires
        occurrence_names(all).contains(name),
    ensures
        occurrences_of(all, name).len() > 0,
    decreases all.len(),
{
    let names = occurrence_names(all);
    let i = choose|i: int| 0 <= i < names.len() && names[i] == name;
    if all.last().0 != name {
        let t = all.drop_last();
        assert(occurrence_names(t)[i] == name);
        lemma_occurs(t, name);
    }
}

fn summarize(name: &String, agents: Vec<McpServerOccurrence>) -> (r: McpServerSummary)
    requires
        agents@.len() > 0,
    ensures
        r@ == summary_of(name@, agents@.map_values(|o: McpServerOccurrence| o@)),
{
    let env_keys = sort_distinct(&collect_env_keys(&agents));
    let transport = agents[0].transport.clone();
    let command = copy_text(&agents[0].command);
    let url = copy_text(&agents[0].url);
    let r = McpServerSummary { name: name.clone(), transport, command, url, env_keys, agents };
    assert(r@ =~= summary_of(name@, agents@.map_values(|o: McpServerOccurrence| o@)));
    r
}

fn copy_status(s: &McpAgentStatus) -> (r: McpAgentStatus)
    ensures
        r@ == s@,
{
    let r = McpAgentStatus {
        agent_key: s.agent_key.clone(),
        display_name: s.display_name.clone(),
        installed: s.installed,
        config_path: s.config_path.clone(),
        config_exists: s.config_exists,
        server_count: s.server_count,
        error: copy_text(&s.error),
    };
    assert(r@ =~= s@);
    r
}

fn statuses(scans: &Vec<AgentScan>) -> (r: Vec<McpAgentStatus>)
    ensures
        r@.map_values(|s: McpAgentStatus| s@) == Seq::new(
            scans@.len(),
            |i: int| scan_views(scans@)[i].status,
        ),
{
    let mut r: Vec<McpAgentStatus> = Vec::new();
    let mut i: usize = 0;
    while i < scans.len()
        invariant
            i <= scans.len(),
            r@.len() == i,
            forall|k: int| 0 <= k < i ==> (#[trigger] r@[k])@ == scans@[k].status@,
        decreases scans.len() - i,
    {
        r.push(copy_status(&scans[i].status));
        i = i + 1;
    }
    assert(r@.map_values(|s: McpAgentStatus| s@) =~= Seq::new(
        scans@.len(),
        |i: int| scan_views(scans@)[i].status,
    ));
    r
}

fn occurrence_name_list(all: &Vec<(String, McpServerOccurrence)>) -> (r: Vec<String>)
    ensures
        texts(r@) == occurrence_names(named_views(all@)),
{
    let mut r: Vec<String> = Vec::new();
    let mut i: usize = 0;
    while i < all.len()
        invariant
            i <= all.len(),
            r@.len() == i,
            forall|k: int| 0 <= k < i ==> (#[trigger] r@[k])@ == all@[k].0@,
        decreases all.len() - i,
    {
        r.push(all[i].0.clone());
        i = i + 1;
    }
    assert(texts(r@) =~= occurrence_names(named_views(all@)));
    r
}

/// The report over all scans: one summary for each server name, in the order of the names,
/// with its occurrences in scan order, and the status of every agent.
pub fn build_report(scans: &Vec<AgentScan>, scanned_at_ms: u64) -> (r: McpInventoryReport)
    ensures
        r@ == report_of(scan_views(scans@), scanned_at_ms),
{
    let all = collect_occurrences(scans);
    let ghost views = named_views(all@);
    let names = sort_distinct(&occurrence_name_list(&all));
    let ghost order = distinct_sorted(occurrence_names(views));
    let mut servers: Vec<McpServerSummary> = Vec::new();
    let mut i: usize = 0;
    while i < names.len()
        invariant
            i <= names.len(),
            views == named_views(all@),
            order == distinct_sorted(occurrence_names(views)),
            texts(names@) == order,
            servers@.len() == i,
            forall|k: int|
                0 <= k < i ==> (#[trigger] servers@[k])@ == summary_of(
                    order[k],
                    occurrences_of(views, order[k]),
                ),
        decreases names.len() - i,
    {
        proof {
            assert(order[i as int] == names@[i as int]@);
            crate::order::law_distinct_sorted(occurrence_names(views), order[i as int]);
            assert(order.contains(order[i as int]));
            lemma_occurs(views, order[i as int]);
        }
        let agents = select_occurrences(&all, names[i].as_str());
        servers.push(summarize(&names[i], agents));
        i = i + 1;
    }
    let r = McpInventoryReport { servers, agents: statuses(scans), scanned_at_ms };
    proof {
        assert(order.len() == names@.len());
        assert(r@.servers =~= summaries(views));
        assert(r@ =~= report_of(scan_views(scans@), scanned_at_ms));
    }
    r
}

pub open spec fn config_scans(configs: Seq<AgentConfig>) -> Seq<Scan> {
    Seq::new(configs.len(), |i: int| agent_scan(configs[i]))
}

/// Scan every agent as it was found. Never fails: per-agent problems land in
/// `McpAgentStatus::error` so one broken config cannot hide the others.
pub fn scan_mcp_inventory(configs: &Vec<AgentConfig>, scanned_at_ms: u64) -> (r: McpInventoryReport)
    ensures
        r@ == report_of(config_scans(configs@), scanned_at_ms),
{
    let mut scans: Vec<AgentScan> = Vec::new();
    let mut i: usize = 0;
    while i < configs.len()
        invariant
            i <= configs.len(),
            scans@.len() == i,
            forall|k: int| 0 <= k < i ==> (#[trigger] scans@[k])@ == agent_scan(configs@[k]),
        decreases configs.len() - i,
    {
        scans.push(scan_agent(&configs[i]));
        i = i + 1;
    }
    assert(scan_views(scans@) =~= config_scans(configs@));
    build_report(&scans, scanned_at_ms)
}

} // verus!
