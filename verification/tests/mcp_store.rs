use skills_manager::env_map::EnvMap;
use skills_manager::error::ErrorKind;
use skills_manager::json::{parse_json, Json};
use skills_manager::mcp_store::columns::{json_columns, read_columns, JsonColumns};
use skills_manager::mcp_store::{McpBindingRecord, McpServerRecord, SkillStore};

fn json(text: &str) -> Json {
    parse_json(text).unwrap()
}

fn sample_server(id: &str, name: &str) -> McpServerRecord {
    let mut env = EnvMap::new();
    env.insert("ZEBRA".to_string(), "1".to_string());
    env.insert("alpha".to_string(), "2".to_string());
    McpServerRecord {
        id: id.to_string(),
        name: name.to_string(),
        transport: "stdio".to_string(),
        command: Some("npx".to_string()),
        args: vec!["-y".to_string(), "@agentmemory/mcp".to_string()],
        url: None,
        env,
        source: json(r#"{"kind": "npx", "package": "@agentmemory/mcp"}"#),
        update_status: "unknown".to_string(),
        remote_version: None,
        last_checked_at: None,
        last_check_error: None,
        probe_status: "pending".to_string(),
        probe_message: None,
        probe_checked_at: None,
        created_at: 100,
        updated_at: 100,
    }
}

fn sample_binding(server_id: &str, agent_key: &str, fp: &str) -> McpBindingRecord {
    McpBindingRecord {
        id: format!("{server_id}/{agent_key}/{fp}"),
        server_id: server_id.to_string(),
        agent_key: agent_key.to_string(),
        fingerprint: fp.to_string(),
        written_at: 200,
    }
}

/// args/env/source must survive the JSON TEXT round trip with their typed shapes, and the read
/// APIs (by id / by name / sorted list) must agree.
#[test]
fn insert_server_round_trips_json_fields() {
    let mut store = SkillStore::new();
    let record = sample_server("s1", "agentmemory");

    let columns = json_columns(&record);
    assert_eq!(columns.args, r#"["-y","@agentmemory/mcp"]"#);
    assert_eq!(columns.env, r#"{"ZEBRA":"1","alpha":"2"}"#);
    assert_eq!(columns.source, r#"{"kind":"npx","package":"@agentmemory/mcp"}"#);
    let fields = match read_columns(&columns) {
        Ok(fields) => fields,
        Err(e) => panic!("{e}"),
    };
    let mut reread = record.clone();
    reread.args = fields.args;
    reread.env = fields.env;
    reread.source = fields.source;
    store.insert_mcp_server(reread).unwrap();

    let loaded = store.get_mcp_server_by_id("s1").unwrap();
    assert_eq!(loaded, record, "typed fields must survive the JSON TEXT round trip");

    let by_name = store.get_mcp_server_by_name("agentmemory").unwrap();
    assert_eq!(by_name.id, "s1");

    // A second server that sorts before the first proves the order by name.
    store.insert_mcp_server(sample_server("s2", "aaa-zvec")).unwrap();
    let all = store.get_all_mcp_servers();
    assert_eq!(
        all.iter().map(|r| r.name.as_str()).collect::<Vec<_>>(),
        vec!["aaa-zvec", "agentmemory"]
    );
}

/// Name is the library identity: a duplicate insert is rejected with a *checkable* error.
#[test]
fn duplicate_name_is_rejected() {
    let mut store = SkillStore::new();
    store.insert_mcp_server(sample_server("s1", "dup")).unwrap();

    let err = store.insert_mcp_server(sample_server("s2", "dup")).unwrap_err();
    assert_eq!(err.kind, ErrorKind::InvalidInput);
    assert!(err.message.contains("dup"), "message names the clash: {}", err.message);
    assert_eq!(err.message, "MCP server name \"dup\" already exists");

    // The first row is untouched by the failed insert.
    assert_eq!(store.get_all_mcp_servers().len(), 1);

    let err = store.insert_mcp_server(sample_server("s1", "other")).unwrap_err();
    assert_eq!(err.kind, ErrorKind::Database);
}

/// Re-binding the same (server, agent) pair replaces the fingerprint in place — it is a ledger of
/// current deployments, not history.
#[test]
fn binding_upsert_replaces_fingerprint() {
    let mut store = SkillStore::new();
    store.insert_mcp_server(sample_server("s1", "mem")).unwrap();

    store.upsert_mcp_binding(sample_binding("s1", "opencode", "fp-v1")).unwrap();
    // Same (server, agent) pair, different id and fingerprint.
    store.upsert_mcp_binding(sample_binding("s1", "opencode", "fp-v2")).unwrap();
    // A different agent for the same server must not be collapsed.
    store.upsert_mcp_binding(sample_binding("s1", "deepseek_harness", "fp-x")).unwrap();

    let bindings = store.get_mcp_bindings_for_server("s1");
    assert_eq!(bindings.len(), 2, "one row per server and agent");
    let oc = bindings
        .iter()
        .find(|b| b.agent_key == "opencode")
        .expect("opencode binding");
    assert_eq!(oc.fingerprint, "fp-v2", "re-upsert replaced the fingerprint");
    assert_eq!(store.get_all_mcp_bindings().len(), 2);

    // Deleting one agent's row leaves the other.
    store.delete_mcp_binding("s1", "opencode");
    let rest = store.get_mcp_bindings_for_server("s1");
    assert_eq!(rest.len(), 1);
    assert_eq!(rest[0].agent_key, "deepseek_harness");

    // A binding belongs to a definition.
    let err = store.upsert_mcp_binding(sample_binding("ghost", "opencode", "fp")).unwrap_err();
    assert_eq!(err.kind, ErrorKind::Database);
}

/// Deleting a definition drops its binding ledger (the agent config files themselves are cleaned
/// by the writers before this call).
#[test]
fn delete_server_cascades_bindings() {
    let mut store = SkillStore::new();
    store.insert_mcp_server(sample_server("s1", "gone")).unwrap();
    store.insert_mcp_server(sample_server("s2", "stays")).unwrap();
    store.upsert_mcp_binding(sample_binding("s1", "opencode", "fp1")).unwrap();
    store.upsert_mcp_binding(sample_binding("s1", "deepseek_harness", "fp1")).unwrap();
    store.upsert_mcp_binding(sample_binding("s2", "opencode", "fp2")).unwrap();

    store.delete_mcp_server("s1").unwrap();

    assert!(store.get_mcp_server_by_id("s1").is_none());
    assert!(store.get_mcp_bindings_for_server("s1").is_empty());
    let all = store.get_all_mcp_bindings();
    assert_eq!(all.len(), 1, "only the surviving server's binding remains");
    assert_eq!(all[0].server_id, "s2");

    let err = store.delete_mcp_server("s1").unwrap_err();
    assert_eq!(err.kind, ErrorKind::NotFound);
    assert_eq!(err.message, "MCP server s1 not found");
}

/// Check-state and probe-state updates persist, and `None` arguments *clear* the column (a stale
/// error/badge must not haunt a passing re-check).
#[test]
fn set_check_state_and_probe_state_persist() {
    let mut store = SkillStore::new();
    store.insert_mcp_server(sample_server("s1", "mem")).unwrap();
    let some = |t: &str| Some(t.to_string());

    store.set_mcp_check_state("s1", "update_available", some("0.9.30"), None, 7).unwrap();
    let r = store.get_mcp_server_by_id("s1").unwrap();
    assert_eq!(r.update_status, "update_available");
    assert_eq!(r.remote_version.as_deref(), Some("0.9.30"));
    assert!(r.last_checked_at.is_some(), "a check just happened; stamp it");

    store.set_mcp_check_state("s1", "error", None, some("registry timeout"), 8).unwrap();
    let r = store.get_mcp_server_by_id("s1").unwrap();
    assert_eq!(r.update_status, "error");
    assert!(
        r.remote_version.is_none(),
        "None clears: no stale version from the previous check"
    );
    assert_eq!(r.last_check_error.as_deref(), Some("registry timeout"));

    store.set_mcp_check_state("s1", "up_to_date", some("0.9.29"), None, 9).unwrap();
    let r = store.get_mcp_server_by_id("s1").unwrap();
    assert_eq!(r.update_status, "up_to_date");
    assert!(
        r.last_check_error.is_none(),
        "None clears: the old error must not haunt a passing check"
    );

    store.set_mcp_probe_state("s1", "fail", some("handshake timeout"), 10).unwrap();
    let r = store.get_mcp_server_by_id("s1").unwrap();
    assert_eq!(r.probe_status, "fail");
    assert_eq!(r.probe_message.as_deref(), Some("handshake timeout"));
    assert!(r.probe_checked_at.is_some());

    store.set_mcp_probe_state("s1", "ok", None, 11).unwrap();
    let r = store.get_mcp_server_by_id("s1").unwrap();
    assert_eq!(r.probe_status, "ok");
    assert!(r.probe_message.is_none(), "None clears the old failure message");
    assert_eq!(r.updated_at, 100, "results are no change of the definition");
    assert_eq!(store.set_mcp_probe_state("s9", "ok", None, 1).unwrap_err().kind, ErrorKind::NotFound);
}

#[test]
fn updates_keep_the_time_of_creation_and_the_order_by_name() {
    let mut store = SkillStore::new();
    store.insert_mcp_server(sample_server("s1", "b")).unwrap();
    store.insert_mcp_server(sample_server("s2", "c")).unwrap();
    let mut changed = sample_server("s1", "d");
    changed.created_at = 5;
    changed.updated_at = 300;
    store.update_mcp_server(changed).unwrap();
    let names: Vec<String> = store.get_all_mcp_servers().into_iter().map(|r| r.name).collect();
    assert_eq!(names, vec!["c", "d"]);
    let r = store.get_mcp_server_by_id("s1").unwrap();
    assert_eq!((r.created_at, r.updated_at), (100, 300));
    let err = store.update_mcp_server(sample_server("s1", "c")).unwrap_err();
    assert_eq!(err.kind, ErrorKind::InvalidInput);
    let err = store.update_mcp_server(sample_server("s9", "z")).unwrap_err();
    assert_eq!(err.kind, ErrorKind::NotFound);
}

#[test]
fn corrupt_columns_are_named() {
    let read = |args: &str, env: &str, source: &str| {
        let columns = JsonColumns {
            args: args.to_string(),
            env: env.to_string(),
            source: source.to_string(),
        };
        match read_columns(&columns) {
            Ok(_) => panic!("must fail"),
            Err(e) => e,
        }
    };
    assert!(read("oops", "{}", "{}").starts_with("column mcp_servers.args: "));
    let reason = serde_json::from_str::<Vec<String>>("[1]").unwrap_err();
    assert_eq!(read("[1]", "{}", "{}"), format!("column mcp_servers.args: {reason}"));
    let reason = serde_json::from_str::<std::collections::BTreeMap<String, String>>("[]").unwrap_err();
    assert_eq!(read("[]", "[]", "{}"), format!("column mcp_servers.env: {reason}"));
    assert!(read("[]", "{}", "{").starts_with("column mcp_servers.source: "));
}

#[test]
fn columns_read_back_in_the_order_of_the_names() {
    let columns = JsonColumns {
        args: r#" ["a", "\u0062"] "#.to_string(),
        env: r#"{"b":"1","a":"2","b":"3"}"#.to_string(),
        source: r#"{"n":12.5}"#.to_string(),
    };
    let fields = read_columns(&columns).ok().unwrap();
    assert_eq!(fields.args, vec!["a".to_string(), "b".to_string()]);
    assert_eq!(fields.env.len(), 2);
    assert_eq!(fields.env.key_at(0), "a");
    assert_eq!(fields.env.value_at(1), "3");
    let mut record = sample_server("s1", "a");
    record.args = fields.args;
    record.env = fields.env;
    record.source = fields.source;
    let written = json_columns(&record);
    assert_eq!(written.args, r#"["a","b"]"#);
    assert_eq!(written.env, r#"{"a":"2","b":"3"}"#);
    assert_eq!(written.source, r#"{"n":12.5}"#);
}
