use skills_manager::mcp_inventory::{
    build_report, normalize_transport, parse_dsh_config, parse_opencode_config, AgentScan,
    McpAgentStatus, RawMcpEntry,
};

const OPENCODE_FIXTURE: &str = r#"{
      "$schema": "https://opencode.ai/config.json",
      "mcp": {
        "godot": {
          "type": "local",
          "command": ["/Users/me/.local/bin/godot-mcp", "serve", "-project", "/tmp/game"],
          "enabled": true
        },
        "github": {
          "type": "local",
          "command": ["/Users/me/.local/bin/github-mcp-server", "stdio"],
          "environment": { "GITHUB_TOKEN": "secret", "GITHUB_HOST": "github.com" },
          "enabled": false
        },
        "zvec-grep-remote": {
          "type": "remote",
          "url": "http://127.0.0.1:7999/mcp"
        }
      },
      "provider": { "openai": { "apiKey": "nope" } }
    }"#;

const DSH_FIXTURE: &str = r#"# zvec-grep comments must not break parsing
- insert:
    - id: agentmemory
      name: '@deepseek-ai/dsh-mcp-client'
      config:
        transport: stdio
        serverName: agentmemory
        command: npx
        args: ['-y', '@agentmemory/mcp']
        env:
          AGENTMEMORY_URL: http://localhost:3111

- insert:
    - id: mcp-zvec-grep
      name: '@deepseek-ai/dsh-mcp-client'
      config:
        transport: streamable-http
        serverName: zvec_grep
        url: http://127.0.0.1:7999/mcp
        toolCallTimeoutMs: 60000

- insert:
    - id: agentmemory-hooks
      name: '@deepseek-ai/dsh-hooks-shell'
      config:
        configPath: "/Users/me/.dsh/agentmemory.hooks.json"
"#;

fn occurrence(name: &str, command: &str, env: &[&str]) -> RawMcpEntry {
    RawMcpEntry {
        name: name.to_string(),
        transport: "stdio".to_string(),
        command: Some(command.to_string()),
        url: None,
        env_keys: env.iter().map(|key| key.to_string()).collect(),
        enabled: None,
        entry_id: None,
    }
}

fn scan_of(key: &str, display: &str, entries: Vec<RawMcpEntry>) -> AgentScan {
    AgentScan {
        status: McpAgentStatus {
            agent_key: key.to_string(),
            display_name: display.to_string(),
            installed: true,
            config_path: format!("/tmp/{key}.json"),
            config_exists: true,
            server_count: entries.len(),
            error: None,
        },
        entries,
    }
}

#[test]
fn opencode_reads_local_and_remote_entries() {
    let entries = parse_opencode_config(OPENCODE_FIXTURE).expect("fixture parses");

    assert_eq!(entries.len(), 3);

    let godot = entries.iter().find(|entry| entry.name == "godot").unwrap();
    assert_eq!(godot.transport, "stdio");
    assert_eq!(
        godot.command.as_deref(),
        Some("/Users/me/.local/bin/godot-mcp serve -project /tmp/game")
    );
    assert_eq!(godot.enabled, Some(true));
    assert!(godot.env_keys.is_empty());

    let github = entries.iter().find(|entry| entry.name == "github").unwrap();
    assert_eq!(github.enabled, Some(false));
    assert_eq!(github.env_keys, vec!["GITHUB_HOST", "GITHUB_TOKEN"]);

    let remote = entries
        .iter()
        .find(|entry| entry.name == "zvec-grep-remote")
        .unwrap();
    assert_eq!(remote.transport, "http");
    assert_eq!(remote.url.as_deref(), Some("http://127.0.0.1:7999/mcp"));
    assert_eq!(remote.command, None);
}

#[test]
fn opencode_without_mcp_key_has_no_servers() {
    let entries = parse_opencode_config(r#"{ "$schema": "x", "provider": {} }"#)
        .expect("file without mcp key is valid");
    assert!(entries.is_empty());
}

#[test]
fn opencode_broken_json_reports_error() {
    let error = parse_opencode_config("{ not json").expect_err("invalid JSON must fail");
    assert!(error.contains("JSON 解析失败"), "unexpected: {error}");
}

#[test]
fn dsh_reads_only_mcp_client_plugins() {
    let entries = parse_dsh_config(DSH_FIXTURE).expect("fixture parses");

    assert_eq!(entries.len(), 2, "hooks plugin must be filtered out");

    let agentmemory = entries.iter().find(|entry| entry.name == "agentmemory").unwrap();
    assert_eq!(agentmemory.transport, "stdio");
    assert_eq!(agentmemory.command.as_deref(), Some("npx -y @agentmemory/mcp"));
    assert_eq!(agentmemory.env_keys, vec!["AGENTMEMORY_URL"]);
    assert_eq!(agentmemory.entry_id.as_deref(), Some("agentmemory"));
    assert_eq!(agentmemory.enabled, None);

    let zvec = entries.iter().find(|entry| entry.name == "zvec_grep").unwrap();
    assert_eq!(zvec.transport, "streamable-http");
    assert_eq!(zvec.url.as_deref(), Some("http://127.0.0.1:7999/mcp"));
    assert_eq!(zvec.command, None);
    assert_eq!(zvec.entry_id.as_deref(), Some("mcp-zvec-grep"));
}

#[test]
fn dsh_broken_yaml_reports_error() {
    let error = parse_dsh_config("- insert: [ {name: 'x' ").expect_err("invalid YAML must fail");
    assert!(error.contains("YAML 解析失败"), "unexpected: {error}");
}

#[test]
fn dsh_rejects_unexpected_top_level_shape() {
    let error = parse_dsh_config("insert: []").expect_err("mapping top level must fail");
    assert!(error.contains("顶层不是插件列表"), "unexpected: {error}");
}

#[test]
fn report_aggregates_same_name_across_agents() {
    let opencode = scan_of(
        "opencode",
        "OpenCode",
        vec![
            occurrence("agentmemory", "npx -y @agentmemory/mcp", &[]),
            occurrence("godot", "godot-mcp serve", &[]),
        ],
    );
    let dsh = scan_of(
        "deepseek_harness",
        "DeepSeek Harness",
        vec![
            occurrence(
                "agentmemory",
                "npx -y @agentmemory/mcp",
                &["AGENTMEMORY_URL"],
            ),
            occurrence("zvec_grep", "zvec serve", &[]),
        ],
    );

    let report = build_report(&vec![opencode, dsh], 42);

    assert_eq!(report.scanned_at_ms, 42);
    let names: Vec<&str> = report.servers.iter().map(|server| server.name.as_str()).collect();
    assert_eq!(names, vec!["agentmemory", "godot", "zvec_grep"]);

    let agentmemory = &report.servers[0];
    assert_eq!(agentmemory.agents.len(), 2);
    assert_eq!(agentmemory.env_keys, vec!["AGENTMEMORY_URL"]);
    assert_eq!(agentmemory.agents[0].agent_key, "opencode");
    assert_eq!(agentmemory.agents[1].agent_key, "deepseek_harness");
    assert_eq!(agentmemory.agents[1].env_keys, vec!["AGENTMEMORY_URL"]);

    let godot = &report.servers[1];
    assert_eq!(godot.agents.len(), 1);
    assert_eq!(godot.agents[0].agent_display_name, "OpenCode");

    assert_eq!(report.agents.len(), 2);
    assert_eq!(report.agents[0].server_count, 2);
}

#[test]
fn report_keeps_agent_error_without_servers() {
    let mut broken = scan_of("opencode", "OpenCode", Vec::new());
    broken.status.error = Some("JSON 解析失败：expected value".to_string());
    broken.status.server_count = 0;

    let report = build_report(&vec![broken], 1);

    assert!(report.servers.is_empty());
    assert_eq!(
        report.agents[0].error.as_deref(),
        Some("JSON 解析失败：expected value")
    );
}

#[test]
fn transport_falls_back_when_agent_omits_type() {
    assert_eq!(normalize_transport(None, true, false), "http");
    assert_eq!(normalize_transport(None, false, true), "stdio");
    assert_eq!(normalize_transport(None, false, false), "unknown");
    assert_eq!(normalize_transport(Some("LOCAL"), false, true), "stdio");
}
