//! The library's laws on concrete values.

use skills_manager::bytes::{cut, piece};
use skills_manager::digest::hex_digest;
use skills_manager::env_map::EnvMap;
use skills_manager::json::{copy_json, json_string, json_text, parse_json, same_json, Json};
use skills_manager::mcp_inventory::{
    build_report, candidate_paths, normalize_transport, resolve_config_path, scan_mcp_inventory, mcp_agents, AgentConfig,
    AgentScan, ConfigRead, McpAgentStatus, RawMcpEntry,
};
use skills_manager::mcp_library::audit::{
    audit_failed_upgrade, audit_takeover, audit_upgrade, audit_write,
};
use skills_manager::mcp_library::upgrade::{upgrade_command_union, ProbeStateDto};
use skills_manager::mcp_library::WriteOutcome;
use skills_manager::mcp_store::McpServerRecord;
use skills_manager::mcp_upstream::checks::{
    check_status, registry_outcome, registry_url, CheckOutcome,
};
use skills_manager::mcp_upstream::clones::clone_target;
use skills_manager::mcp_upstream::{
    infer_source, parse_source, semver_less, source_to_json, upgrade_commands_for_source, McpSource,
};
use skills_manager::mcp_writers::dsh_yaml::DshYamlWriter;
use skills_manager::mcp_writers::opencode_json::OpenCodeWriter;
use skills_manager::mcp_writers::{entry_fingerprint, McpEntryDef, McpWriter};
use skills_manager::order::{sort_distinct, sort_texts};
use skills_manager::repo_key::canonical_repo_key;
use skills_manager::text::{
    decimal_of, decimal_of_signed, hex_of, join_lines, lower_ascii, parse_u64, split_lines, trim,
};
use skills_manager::yaml::{parse_yaml, Yaml};

fn s(list: &[&str]) -> Vec<String> {
    list.iter().map(|a| a.to_string()).collect()
}

fn entry(name: &str, transport: &str) -> McpEntryDef {
    McpEntryDef {
        name: name.to_string(),
        transport: transport.to_string(),
        command: None,
        args: Vec::new(),
        url: None,
        env: EnvMap::new(),
    }
}

fn stdio(name: &str, command: &str, args: &[&str]) -> McpEntryDef {
    McpEntryDef { command: Some(command.to_string()), args: s(args), ..entry(name, "stdio") }
}

// ── texts and orders ──

fn why(_: &Json) -> String {
    "no source".to_string()
}

#[test]
fn sorting_keeps_every_text_and_orders_by_code_point() {
    assert_eq!(sort_texts(&s(&["b", "a", "B", "a", "é", "z"])), s(&["B", "a", "a", "b", "z", "é"]));
    assert_eq!(sort_distinct(&s(&["b", "a", "b", ""])), s(&["", "a", "b"]));
}

#[test]
fn lines_make_up_their_text() {
    for text in ["", "a", "a\n", "a\n\nb", "\n", "x\r\ny\r\n"] {
        let lines = split_lines(text);
        assert_eq!(join_lines(&lines, 0, lines.len()), text);
    }
    assert_eq!(split_lines("a\nb\n").len(), 2);
}

#[test]
fn numbers_are_written_and_read_in_decimal() {
    assert_eq!(decimal_of(0), "0");
    assert_eq!(decimal_of(18446744073709551615), "18446744073709551615");
    assert_eq!(decimal_of_signed(-9223372036854775808), "-9223372036854775808");
    assert_eq!(parse_u64("007"), Some(7));
    assert_eq!(parse_u64("+7"), Some(7));
    assert_eq!(parse_u64("18446744073709551616"), None);
    assert_eq!(parse_u64(""), None);
    assert_eq!(parse_u64("-1"), None);
    assert_eq!(hex_of(&vec![0, 15, 255]), "000fff");
    assert_eq!(lower_ascii("ÄbC"), "Äbc");
    assert_eq!(trim("\u{a0} x\u{2003}\n"), "x");
}

#[test]
fn digests_are_sha256_in_hex() {
    assert_eq!(
        hex_digest(""),
        "e3b0c44298fc1c149afbf4c8996fb92427ae41e4649b934ca495991b7852b855"
    );
    assert_eq!(
        hex_digest("abc"),
        "ba7816bf8f01cfea414140de5dae2223b00361a396177a9cb410ff61f20015ad"
    );
}

#[test]
fn texts_are_cut_at_byte_positions() {
    let (before, after) = cut("aé日b", 3);
    assert_eq!((before, after), ("aé", "日b"));
    assert_eq!(piece("aé日b", 1, 6), "é日");
}

#[test]
fn what_is_bound_last_is_found() {
    let mut env = EnvMap::new();
    env.insert("B".to_string(), "1".to_string());
    env.insert("A".to_string(), "2".to_string());
    env.insert("B".to_string(), "3".to_string());
    assert_eq!(env.keys(), s(&["A", "B"]));
    assert_eq!(env.get("B").map(String::as_str), Some("3"));
    assert_eq!(env.get("C"), None);
    assert!(!env.is_empty());
}

// ── JSON and YAML ──

#[test]
fn compact_texts_are_one_line_and_read_back() {
    let text = r#"{"a":["line\nbreak","\u0001\"\\"],"b":{"c":null,"d":true}}"#;
    let json = parse_json(text).unwrap();
    assert_eq!(json_text(&json), text);
    assert!(!json_text(&json).contains('\n'));
    assert!(same_json(&parse_json(&json_text(&json)).unwrap(), &json));
    assert_eq!(copy_json(&json), json);
    let other = parse_json(r#"{"a":[],"b":1.5}"#).unwrap();
    assert_ne!(json_text(&other), json_text(&json));
    assert!(!same_json(&other, &json));
    assert_eq!(json_text(&copy_json(&other)), r#"{"a":[],"b":1.5}"#);
}

#[test]
fn members_are_written_in_the_order_of_their_keys() {
    let text = |t: &str| Json::Text(t.to_string());
    let inner = Json::Object(vec![("z".to_string(), Json::Null), ("y".to_string(), text("1"))]);
    let json = Json::Object(vec![
        ("b".to_string(), Json::List(vec![inner])),
        ("a".to_string(), text("old")),
        ("a".to_string(), text("new")),
    ]);
    assert_eq!(json_text(&json), r#"{"a":"new","b":[{"y":"1","z":null}]}"#);
}

#[test]
fn json_strings_are_escaped() {
    assert_eq!(json_string("a\"b\\c\n\u{1}é"), "\"a\\\"b\\\\c\\n\\u0001é\"");
    let big = parse_json("[18446744073709551615,-1,1.5]").unwrap();
    match &big {
        Json::List(items) => {
            assert_eq!(items[0].as_u64(), Some(u64::MAX));
            assert_eq!(items[0].as_i64(), None);
            assert_eq!(items[1].as_i64(), Some(-1));
            assert_eq!(items[2].as_u64(), None);
        }
        other => panic!("not a list: {other:?}"),
    }
    assert!(parse_json("{,}").is_err());
}

#[test]
fn yaml_values_keep_their_debug_form() {
    let yaml = parse_yaml("- a\n- 1\n- !t x\n").unwrap();
    match &yaml {
        Yaml::List(items, _) => {
            assert_eq!(items[0].as_str().map(String::as_str), Some("a"));
            assert_eq!(items[1].as_str(), None);
            assert_eq!(items[1].debug_text(), "Number(1)");
            assert_eq!(items[2].as_str().map(String::as_str), Some("x"));
        }
        _ => panic!("not a list"),
    }
    assert!(parse_yaml("[").is_err());
}

// ── definitions and writers ──

#[test]
fn definitions_that_differ_anywhere_differ_in_fingerprint() {
    // The same words in other fields.
    let a = stdio("n", "x", &["y"]);
    let b = stdio("n", "x y", &[]);
    let c = stdio("n", "x", &["y", ""]);
    assert_ne!(entry_fingerprint(&a), entry_fingerprint(&b));
    assert_ne!(entry_fingerprint(&a), entry_fingerprint(&c));
    assert_eq!(entry_fingerprint(&a), entry_fingerprint(&stdio("n", "x", &["y"])));
}

#[test]
fn an_opencode_write_reads_back_and_leaves_other_names_alone() {
    let text = r#"{"mcp":{"a":{"type":"local","command":["a"]},"b":{"type":"remote","url":"u"}}}"#;
    let a = OpenCodeWriter.read_entry(text, "a").unwrap();
    let written = stdio("b", "cmd", &["-x"]);
    let new = OpenCodeWriter.upsert(text, &written).unwrap();
    assert_eq!(OpenCodeWriter.read_entry(&new, "b").unwrap(), Some(written));
    assert_eq!(OpenCodeWriter.read_entry(&new, "a").unwrap(), a);
    let gone = OpenCodeWriter.remove(&new, "b").unwrap();
    assert_eq!(OpenCodeWriter.read_entry(&gone, "b").unwrap(), None);
    assert_eq!(OpenCodeWriter.read_entry(&gone, "a").unwrap(), a);
    assert_eq!(OpenCodeWriter.remove(&gone, "b").unwrap(), gone);
}

const DSH: &str = "# head\n- insert:\n    - id: a\n      name: '@deepseek-ai/dsh-mcp-client'\n      config:\n        serverName: a\n        command: x\n# tail\n";

#[test]
fn a_dsh_write_names_what_it_wrote_once() {
    let new = DshYamlWriter.upsert(DSH, &stdio("b", "y", &[])).unwrap();
    assert_eq!(DshYamlWriter.read_entry(&new, "b").unwrap(), Some(stdio("b", "y", &[])));
    assert_eq!(
        DshYamlWriter.read_entry(&new, "a").unwrap(),
        DshYamlWriter.read_entry(DSH, "a").unwrap()
    );
    let gone = DshYamlWriter.remove(&new, "b").unwrap();
    assert_eq!(DshYamlWriter.read_entry(&gone, "b").unwrap(), None);
    assert_eq!(DshYamlWriter.remove(&gone, "b").unwrap(), gone);
}

#[test]
fn a_rendered_block_has_one_line_at_column_zero() {
    let mut e = stdio("my server", "cmd", &["- insert:", "it's"]);
    e.env.insert("- K".to_string(), "- v".to_string());
    let new = DshYamlWriter.upsert(DSH, &e).unwrap();
    let block = &new[DSH.len() + 1..];
    let openers: Vec<&str> = block.lines().filter(|l| !l.starts_with(' ')).collect();
    assert_eq!(openers, vec!["- insert:"]);
}

// ── inventory ──

fn scan(key: &str, entries: Vec<RawMcpEntry>, error: Option<&str>) -> AgentScan {
    AgentScan {
        status: McpAgentStatus {
            agent_key: key.to_string(),
            display_name: key.to_string(),
            installed: true,
            config_path: format!("/{key}"),
            config_exists: true,
            server_count: entries.len(),
            error: error.map(str::to_string),
        },
        entries,
    }
}

fn raw(name: &str, env: &[&str]) -> RawMcpEntry {
    RawMcpEntry {
        name: name.to_string(),
        transport: "stdio".to_string(),
        command: None,
        url: None,
        env_keys: s(env),
        enabled: None,
        entry_id: None,
    }
}

#[test]
fn every_entry_is_reported_once_under_its_name() {
    let scans = vec![
        scan("broken", Vec::new(), Some("unreadable")),
        scan("x", vec![raw("b", &["K"]), raw("a", &[])], None),
        scan("y", vec![raw("b", &["J", "K"])], None),
    ];
    let report = build_report(&scans, 7);
    let names: Vec<&str> = report.servers.iter().map(|v| v.name.as_str()).collect();
    assert_eq!(names, vec!["a", "b"]);
    assert_eq!(report.servers[1].env_keys, s(&["J", "K"]));
    let agents: Vec<&str> =
        report.servers[1].agents.iter().map(|o| o.agent_key.as_str()).collect();
    assert_eq!(agents, vec!["x", "y"]);
    assert_eq!(report.agents.len(), 3);
    assert_eq!(report.agents[0].error.as_deref(), Some("unreadable"));
}

#[test]
fn configs_are_looked_for_below_home_and_config_directory() {
    let home = "/home/u".to_string();
    let config = "/home/u/Library".to_string();
    assert_eq!(
        candidate_paths(".config/o/c.json", Some(&home), Some(&config)),
        s(&["/home/u/.config/o/c.json", "/home/u/Library/o/c.json"])
    );
    let same = "/home/u/.config/".to_string();
    assert_eq!(
        candidate_paths(".config/o/c.json", Some(&home), Some(&same)),
        s(&["/home/u/.config/o/c.json"])
    );
    assert_eq!(candidate_paths(".dsh/p.yml", Some(&home), Some(&config)).len(), 1);
    assert!(candidate_paths(".dsh/p.yml", None, None).is_empty());
    assert_eq!(resolve_config_path(&vec![false, true]), Some(1));
    assert_eq!(resolve_config_path(&vec![false, false]), Some(0));
    assert_eq!(resolve_config_path(&Vec::new()), None);
}

#[test]
fn a_scan_reads_each_agent_in_its_format() {
    let mut configs: Vec<AgentConfig> = mcp_agents()
        .into_iter()
        .map(|agent| AgentConfig {
            agent,
            installed: true,
            config_path: "p".to_string(),
            read: ConfigRead::Missing,
        })
        .collect();
    configs[0].read = ConfigRead::Text(r#"{"mcp":{"n":{"command":["c"]}}}"#.to_string());
    configs[1].read = ConfigRead::Failed("denied".to_string());
    let report = scan_mcp_inventory(&configs, 9);
    assert_eq!(report.servers.len(), 1);
    assert_eq!(report.servers[0].name, "n");
    assert_eq!(report.agents[1].error.as_deref(), Some("读取失败：denied"));
    assert!(report.agents[1].config_exists);
    assert_eq!(report.scanned_at_ms, 9);
}

// ── upstream ──

#[test]
fn sources_read_back_from_what_is_stored() {
    for source in [
        McpSource::Unknown,
        McpSource::NpmGlobal { package: "p".into() },
        McpSource::Npx { package: "@s/p".into() },
        McpSource::PypiUvx { package: "q".into() },
        McpSource::Git { repo_url: "u".into(), clone_path: "/c".into() },
    ] {
        assert_eq!(parse_source(&source_to_json(&source), &why).unwrap(), source);
    }
    assert!(parse_source(&parse_json(r#"{"kind":"npx"}"#).unwrap(), &why).is_err());
    assert!(parse_source(&parse_json(r#"{"kind":"svn"}"#).unwrap(), &why).is_err());
}

#[test]
fn inference_looks_past_directories_flags_and_outer_packages() {
    let infer = |command: &str, args: &[&str]| infer_source(Some(command), &s(args));
    let npx = McpSource::Npx { package: "p".into() };
    assert_eq!(infer(" C:\\Tools\\NPX.exe", &["p"]), npx);
    assert_eq!(infer("/opt/bin/npx", &["--with", "x", "-y", "p@1"]), npx);
    assert_eq!(
        infer("node", &["/a/node_modules/outer/node_modules/@s/inner/i.js"]),
        McpSource::NpmGlobal { package: "@s/inner".into() }
    );
}

#[test]
fn versions_are_strictly_ordered() {
    let versions = ["1.2", "1.2.1", "1.10", "2", "10.0.0"];
    for (i, a) in versions.iter().enumerate() {
        for (j, b) in versions.iter().enumerate() {
            assert_eq!(semver_less(a, b), i < j, "{a} < {b}");
        }
    }
    assert!(!semver_less("1.2.0.0", "1.2") && !semver_less("1.2", "1.2.0.0"));
}

#[test]
fn quoted_values_are_one_shell_word() {
    let commands = upgrade_commands_for_source(
        &McpSource::PypiUvx { package: "a b;'$x'".into() },
        &Vec::new(),
    )
    .unwrap();
    assert_eq!(commands, s(&["uv cache clean 'a b;'\\''$x'\\'''"]));
}

#[test]
fn checks_ask_one_address_and_claim_no_more_than_they_know() {
    let pypi = McpSource::PypiUvx { package: "p".into() };
    assert_eq!(registry_url(&pypi).as_deref(), Some("https://pypi.org/pypi/p/json"));
    assert_eq!(registry_url(&McpSource::Unknown), None);
    let body = || Ok(parse_json(r#"{"info":{"version":"9.0"}}"#).unwrap());
    let unknown = registry_outcome(&pypi, None, body());
    assert!(!unknown.behind);
    assert_eq!(check_status(&unknown), "up_to_date");
    let old = "1.0".to_string();
    assert_eq!(check_status(&registry_outcome(&pypi, Some(&old), body())), "update_available");
    let failed = registry_outcome(&pypi, Some(&old), Err("down".to_string()));
    assert_eq!(check_status(&failed), "error");
    assert!(failed.latest.is_none() && !failed.behind);
}

#[test]
fn spellings_of_a_repository_share_its_key_and_clone() {
    let spellings =
        ["https://github.com/O/R.git", "git@github.com:o/r", "o/r", "ssh://git@github.com/o/r.git/"];
    for spelling in spellings {
        assert_eq!(canonical_repo_key(spelling).as_deref(), Some("github.com/o/r"), "{spelling}");
        assert_eq!(clone_target("/c", spelling), "/c/o-r");
    }
}

#[test]
fn a_plan_has_every_command_once() {
    let sources = vec![
        McpSource::Npx { package: "p".into() },
        McpSource::Unknown,
        McpSource::NpmGlobal { package: "p".into() },
    ];
    let dirs = vec![s(&["/c/1", "/c/1"]), Vec::new(), Vec::new()];
    assert_eq!(
        upgrade_command_union(&sources, &dirs).unwrap(),
        s(&["rm -rf '/c/1'", "npm i -g 'p@latest'"])
    );
    let none = vec![McpSource::Unknown, McpSource::Npx { package: "p".into() }];
    assert_eq!(
        upgrade_command_union(&none, &vec![Vec::new(), Vec::new()]).unwrap_err().message,
        "no npx cache entries to clear"
    );
}

// ── audit ──

fn record() -> McpServerRecord {
    McpServerRecord {
        id: "i".to_string(),
        name: "n".to_string(),
        transport: "stdio".to_string(),
        command: None,
        args: Vec::new(),
        url: None,
        env: EnvMap::new(),
        source: Json::Null,
        update_status: "unknown".to_string(),
        remote_version: None,
        last_checked_at: None,
        last_check_error: None,
        probe_status: "pending".to_string(),
        probe_message: None,
        probe_checked_at: None,
        created_at: 0,
        updated_at: 0,
    }
}

#[test]
fn single_writes_and_takeovers_are_logged() {
    let entry = audit_write("mcp_sync", &record(), "opencode", &WriteOutcome::Applied);
    assert_eq!(entry.detail, "agent 'opencode'");
    assert_eq!((entry.action.as_str(), entry.failure), ("mcp_sync", None));
    assert_eq!(
        audit_takeover(&record(), "a", true).detail,
        "claimed in place from agent 'a'"
    );
    assert_eq!(audit_takeover(&record(), "a", false).detail, "adopted from agent 'a'");
}

#[test]
fn upgrades_are_logged_with_what_followed_or_why_they_failed() {
    let probe = ProbeStateDto { probe_status: "ok".to_string(), probe_message: None };
    let check = CheckOutcome { latest: Some("2.0".to_string()), behind: false, error: None };
    let entry = audit_upgrade(&record(), Some(&check), &probe);
    assert_eq!(entry.detail, "latest is 2.0; probe ok");
    assert_eq!((entry.action.as_str(), entry.failure), ("mcp_upgrade", None));
    let entry = audit_failed_upgrade(&record(), "MCP upgrade failed: no npm");
    assert_eq!(entry.failure.as_deref(), Some("no npm"));
    assert_eq!(audit_failed_upgrade(&record(), "other").failure.as_deref(), Some("other"));
}

#[test]
fn transports_are_stable_and_spelled_in_any_case() {
    let t = |raw: Option<&str>, url, command| normalize_transport(raw, url, command);
    for raw in [None, Some(""), Some(" \t"), Some("SSE"), Some("local"), Some(" Custom "), Some("http")] {
        for (url, command) in [(true, true), (true, false), (false, true), (false, false)] {
            let once = t(raw, url, command);
            assert_eq!(t(Some(&once), !url, !command), once);
        }
    }
    assert_eq!(t(Some(" \n StreamABLE-http "), false, true), "streamable-http");
    assert_eq!(t(Some("Remote"), false, true), "http");
    assert_eq!(t(Some(" Custom "), true, true), "custom");
    assert_eq!(t(Some("  "), true, true), "http");
    assert_eq!(t(None, false, true), "stdio");
    assert_eq!(t(Some(""), false, false), "unknown");
}

#[test]
fn launchers_infer_alike_bare_by_path_and_with_exe() {
    let npx = s(&["-y", "@o/p@1.2"]);
    let node = s(&["/g/node_modules/@o/p/i.js"]);
    for dir in ["", "/usr/bin/", "C:\\tools\\", "/\u{e9}t\u{e9}/"] {
        for exe in ["", ".exe"] {
            let source = |tool: &str, args: &Vec<String>| {
                infer_source(Some(format!("{dir}{tool}{exe}").as_str()), args)
            };
            assert_eq!(source("npx", &npx), McpSource::Npx { package: "@o/p".to_string() });
            assert_eq!(source("NPX", &npx), McpSource::Npx { package: "@o/p".to_string() });
            assert_eq!(source("uvx", &npx), McpSource::PypiUvx { package: "@o/p".to_string() });
            for tool in ["node", "nodejs", "bun"] {
                assert_eq!(
                    source(tool, &node),
                    McpSource::NpmGlobal { package: "@o/p".to_string() }
                );
            }
        }
    }
    assert_eq!(infer_source(None, &npx), McpSource::Unknown);
}

#[test]
fn version_suffixes_and_ties_make_no_difference() {
    for suffix in ["-beta.1", "+build ", "-", "+a-b"] {
        for v in ["1.2.3", " v1.2", "", "vv"] {
            let longer = format!("{v}{suffix}");
            assert!(!semver_less(&longer, v) && !semver_less(v, &longer), "{longer}");
        }
    }
    // All three stand at one place.
    let ties = ["1.2", "v1.2.0", "1.2.0.0-x"];
    for a in ties {
        for b in ties {
            assert!(!semver_less(a, b));
        }
    }
}

#[test]
fn clones_are_named_by_the_last_two_segments() {
    assert_eq!(clone_target("/c", "git@gitlab.com:g/sub/proj.git"), "/c/sub-proj");
    assert_eq!(clone_target("/c", "https://github.com/\u{d6}wner/r.x"), "/c/-wner-r-x");
}

#[test]
fn an_opencode_write_is_local_and_can_be_undone() {
    let writer = OpenCodeWriter;
    let old = "{ \"a\" : [1, {\"x\":2}],\n \"mcp\": {\"k\" : {} },\"z\":null}";
    let e = stdio("new", "npx", &["-y"]);
    let new = writer.upsert(old, &e).unwrap();
    assert!(new.starts_with("{ \"a\" : [1, {\"x\":2}],\n \"mcp\": {\"k\" : {}, \"new\""));
    assert!(new.ends_with(" },\"z\":null}"));
    assert_eq!(writer.upsert(&new, &e).unwrap(), new);
    assert_eq!(writer.remove(&new, "new").unwrap(), old);
    let replaced = writer.upsert(&new, &stdio("new", "uvx", &[])).unwrap();
    assert!(replaced.starts_with("{ \"a\" : [1, {\"x\":2}],\n \"mcp\": {\"k\" : {}, \"new\": {"));
    assert!(replaced.ends_with("} },\"z\":null}"));
}

#[test]
fn plugin_ids_have_single_inner_dashes() {
    let writer = DshYamlWriter;
    for (name, id) in [("--My  Server!!", "my-server"), ("a--b", "a-b"), ("\u{65e5}", "mcp"), ("x9", "x9"), ("zvec_grep", "zvec-grep"), ("My Server_1", "my-server-1")] {
        let text = writer.upsert("[]", &stdio(name, "npx", &[])).unwrap();
        assert!(text.contains(&format!("id: {id}\n")) || text.contains(&format!("id: '{id}'\n")), "{text}");
    }
}

#[test]
fn numbers_keep_their_value_and_their_text() {
    let text = r#"[1,-1,18446744073709551615,1.50,1e3]"#;
    let json = parse_json(text).unwrap();
    let copy = copy_json(&json);
    assert!(same_json(&json, &copy));
    let reference: serde_json::Value = serde_json::from_str(text).unwrap();
    assert_eq!(json_text(&copy), reference.to_string());
    let items = match copy {
        Json::List(items) => items,
        _ => panic!("a list"),
    };
    assert_eq!(items[0].as_u64(), Some(1));
    assert_eq!(items[1].as_i64(), Some(-1));
    assert_eq!(items[1].as_u64(), None);
    assert_eq!(items[2].as_u64(), Some(u64::MAX));
    assert_eq!(items[2].as_i64(), None);
    assert!(!same_json(&items[3], &items[4]));
}

#[test]
fn a_dsh_write_changes_nothing_in_which_other_names_are_found() {
    let writer = DshYamlWriter;
    let one = writer.upsert("[]", &stdio("one", "npx", &["-y"])).unwrap();
    let two = writer.upsert(&one, &stdio("two", "uvx", &[])).unwrap();
    let again = writer.upsert(&two, &stdio("one", "node", &["x"])).unwrap();
    for name in ["one", "two", "three"] {
        assert_eq!(
            writer.read_entry(&two, name).unwrap().is_some(),
            writer.read_entry(&again, name).unwrap().is_some()
        );
    }
    assert_eq!(
        writer.read_entry(&again, "two").unwrap(),
        writer.read_entry(&two, "two").unwrap()
    );
}

#[test]
fn the_seed_of_a_missing_file_has_no_entry() {
    let writer = OpenCodeWriter;
    for name in ["a", "mcp", ""] {
        assert!(writer.read_entry(writer.empty_doc(), name).unwrap().is_none());
    }
}
