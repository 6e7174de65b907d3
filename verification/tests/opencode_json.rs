use serde_json::Value as JsonValue;
use skills_manager::env_map::EnvMap;
use skills_manager::mcp_writers::opencode_json::OpenCodeWriter;
use skills_manager::mcp_writers::{writer_for_agent, AgentWriteError, McpEntryDef, McpWriter};

const FIXTURE: &str = r#"{
  "$schema": "https://opencode.ai/config.json",
  "mcp": {
    "agentmemory": { "type": "local", "command": ["npx","-y","@agentmemory/mcp"], "environment": { "AGENTMEMORY_URL": "http://localhost:3111" } },
    "zvec-grep-remote": { "type": "remote", "url": "http://127.0.0.1:7999/mcp" }
  },
  "provider": { "openai": { "apiKey": "nope" } }
}"#;

/// Foreign text that must survive every operation byte-for-byte.
const PROVIDER_MEMBER: &str = r#""provider": { "openai": { "apiKey": "nope" } }"#;
const AGENTMEMORY_MEMBER: &str = r#""agentmemory": { "type": "local", "command": ["npx","-y","@agentmemory/mcp"], "environment": { "AGENTMEMORY_URL": "http://localhost:3111" } }"#;
const ZVEC_MEMBER: &str = r#""zvec-grep-remote": { "type": "remote", "url": "http://127.0.0.1:7999/mcp" }"#;

const JSONC: &str = r#"{
  // hand-written note: keep me
  "mcp": {}
}"#;

fn stdio_entry(name: &str) -> McpEntryDef {
    let mut env = EnvMap::new();
    env.insert("API_TOKEN".to_string(), "sekrit-value".to_string());
    McpEntryDef {
        name: name.to_string(),
        transport: "stdio".to_string(),
        command: Some("node".to_string()),
        args: vec!["/opt/servers/index.js".to_string(), "--stdio".to_string()],
        url: None,
        env,
    }
}

fn remote_entry(name: &str) -> McpEntryDef {
    McpEntryDef {
        name: name.to_string(),
        transport: "http".to_string(),
        command: None,
        args: Vec::new(),
        url: Some("https://example.com/mcp".to_string()),
        env: EnvMap::new(),
    }
}

fn parse(text: &str) -> JsonValue {
    serde_json::from_str(text).expect("test expectation: writer output parses")
}

#[test]
fn upsert_appends_new_entry_leaving_foreign_text_untouched() {
    let out = OpenCodeWriter.upsert(FIXTURE, &stdio_entry("agentx")).unwrap();

    assert_eq!(
        parse(&out)["mcp"]["agentx"],
        parse(
            r#"{
            "type": "local",
            "command": ["node", "/opt/servers/index.js", "--stdio"],
            "environment": { "API_TOKEN": "sekrit-value" }
        }"#
        )
    );
    // Pre-existing members and unrelated sections keep their exact bytes.
    assert!(out.contains(PROVIDER_MEMBER));
    assert!(out.contains(AGENTMEMORY_MEMBER));
    assert!(out.contains(ZVEC_MEMBER));
    // The native enabled flag is never written.
    assert!(!out.contains("\"enabled\""));
}

#[test]
fn upsert_replaces_only_the_value_of_the_existing_member() {
    let out = OpenCodeWriter
        .upsert(FIXTURE, &stdio_entry("zvec-grep-remote"))
        .unwrap();

    assert_eq!(
        parse(&out)["mcp"]["zvec-grep-remote"]["type"],
        JsonValue::from("local")
    );
    // The old remote value is gone; everything else is byte-identical.
    assert!(!out.contains(r#""url": "http://127.0.0.1:7999/mcp""#));
    assert!(out.contains(AGENTMEMORY_MEMBER));
    assert!(out.contains(PROVIDER_MEMBER));
    assert!(out.contains(r#""$schema": "https://opencode.ai/config.json","#));
}

#[test]
fn upsert_into_missing_mcp_section_inserts_first_top_level_member() {
    let src = r#"{
  "$schema": "https://opencode.ai/config.json",
  "provider": { "openai": { "apiKey": "nope" } }
}"#;
    let out = OpenCodeWriter.upsert(src, &remote_entry("agentx")).unwrap();

    assert!(out.starts_with("{\n  \"mcp\": {"));
    assert_eq!(
        parse(&out)["mcp"]["agentx"],
        parse(r#"{ "type": "remote", "url": "https://example.com/mcp" }"#)
    );
    assert!(out.contains(PROVIDER_MEMBER));
}

#[test]
fn upsert_into_empty_mcp_object_has_no_leading_comma() {
    let out = OpenCodeWriter.upsert(r#"{"mcp": {}}"#, &remote_entry("agentx")).unwrap();
    assert_eq!(
        parse(&out)["mcp"]["agentx"]["url"],
        JsonValue::from("https://example.com/mcp")
    );
    // No stray "," before the only member.
    assert!(!out.contains("{ ,") && !out.contains(", \"agentx\""));
}

#[test]
fn upsert_into_empty_root_object_works() {
    let out = OpenCodeWriter.upsert("{}", &remote_entry("agentx")).unwrap();
    assert_eq!(parse(&out)["mcp"]["agentx"]["type"], JsonValue::from("remote"));
}

#[test]
fn upsert_refuses_jsonc_and_invalid_json() {
    for src in [JSONC, r#"{"mcp": {},}"#, r#"{"mcp": 5}"#, "[1,2]", "not json"] {
        let err = OpenCodeWriter.upsert(src, &remote_entry("agentx")).unwrap_err();
        assert!(
            matches!(err, AgentWriteError::Unsafe(_)),
            "expected Unsafe for {src:?}, got {err:?}"
        );
        assert!(
            err.message().contains("comments or invalid JSON")
                || err.message().contains("not a JSON object"),
            "unclear refusal reason: {err:?}"
        );
    }
}

#[test]
fn remove_middle_member_consumes_trailing_comma() {
    let out = OpenCodeWriter.remove(FIXTURE, "agentmemory").unwrap();

    assert_eq!(
        parse(&out)["mcp"]["zvec-grep-remote"]["type"],
        JsonValue::from("remote")
    );
    assert!(!out.contains("agentmemory"));
    assert!(out.contains(ZVEC_MEMBER));
    assert!(out.contains(PROVIDER_MEMBER));
    assert!(!out.contains(",,"));
}

#[test]
fn remove_last_member_consumes_leading_comma() {
    let out = OpenCodeWriter.remove(FIXTURE, "zvec-grep-remote").unwrap();

    assert!(out.contains(AGENTMEMORY_MEMBER));
    assert!(!out.contains("zvec-grep-remote"));
    assert!(out.contains(PROVIDER_MEMBER));
    // agentmemory is now the last member with no comma after it — proof
    // by re-parse, since serde_json rejects trailing commas.
    assert_eq!(parse(&out)["mcp"].as_object().unwrap().len(), 1);
}

#[test]
fn remove_only_member_leaves_empty_mcp_object() {
    let src = r#"{"mcp": {
    "solo": { "type": "remote", "url": "u" }
}}"#;
    let out = OpenCodeWriter.remove(src, "solo").unwrap();
    assert_eq!(parse(&out)["mcp"], parse("{}"));
}

#[test]
fn remove_is_idempotent_when_name_or_section_absent() {
    assert_eq!(
        OpenCodeWriter.remove(FIXTURE, "ghost").unwrap(),
        FIXTURE.to_string()
    );
    let no_mcp = r#"{"provider": { "openai": {} }}"#;
    assert_eq!(OpenCodeWriter.remove(no_mcp, "ghost").unwrap(), no_mcp);
}

#[test]
fn remove_refuses_jsonc() {
    let err = OpenCodeWriter.remove(JSONC, "agentmemory").unwrap_err();
    assert!(err.message().contains("comments or invalid JSON"));
}

#[test]
fn read_entry_parses_local_and_remote_with_full_env_values() {
    let local = OpenCodeWriter
        .read_entry(FIXTURE, "agentmemory")
        .unwrap()
        .expect("present");
    assert_eq!(local.transport, "stdio");
    assert_eq!(local.command.as_deref(), Some("npx"));
    assert_eq!(local.args, ["-y", "@agentmemory/mcp"]);
    assert_eq!(local.url, None);
    assert_eq!(
        local.env.get("AGENTMEMORY_URL").map(String::as_str),
        Some("http://localhost:3111")
    );

    let remote = OpenCodeWriter
        .read_entry(FIXTURE, "zvec-grep-remote")
        .unwrap()
        .expect("present");
    // opencode "remote" reports as "http" — exactly what the inventory
    // shows (shared normalize_transport vocabulary).
    assert_eq!(remote.transport, "http");
    assert_eq!(remote.url.as_deref(), Some("http://127.0.0.1:7999/mcp"));
    assert_eq!(remote.command, None);
    assert!(remote.args.is_empty());
}

#[test]
fn read_entry_absent_is_none_not_error() {
    assert_eq!(OpenCodeWriter.read_entry(FIXTURE, "ghost").unwrap(), None);
    assert_eq!(
        OpenCodeWriter
            .read_entry(r#"{"provider": {}}"#, "ghost")
            .unwrap(),
        None
    );
}

#[test]
fn read_entry_refuses_jsonc() {
    let err = OpenCodeWriter.read_entry(JSONC, "mcp").unwrap_err();
    assert!(err.message().contains("comments or invalid JSON"));
}

#[test]
fn render_then_read_roundtrips_entry_definition() {
    let entry = stdio_entry("roundtrip");
    let out = OpenCodeWriter.upsert(FIXTURE, &entry).unwrap();
    assert_eq!(
        OpenCodeWriter.read_entry(&out, "roundtrip").unwrap(),
        Some(entry)
    );

    let remote = remote_entry("roundtrip-r");
    let out = OpenCodeWriter.upsert(FIXTURE, &remote).unwrap();
    assert_eq!(
        OpenCodeWriter.read_entry(&out, "roundtrip-r").unwrap(),
        Some(remote)
    );
}

#[test]
fn writer_is_registered_for_opencode() {
    let writer = writer_for_agent("opencode").expect("registered");
    let out = writer.upsert(FIXTURE, &remote_entry("agentx")).unwrap();
    assert!(out.contains(PROVIDER_MEMBER));
    assert!(parse(&out)["mcp"]["agentx"].is_object());
}
