use skills_manager::env_map::EnvMap;
use skills_manager::mcp_writers::{entry_fingerprint, writer_for_agent, McpEntryDef};

fn sample_entry() -> McpEntryDef {
    McpEntryDef {
        name: "agentmemory".to_string(),
        transport: "stdio".to_string(),
        command: Some("npx".to_string()),
        args: vec!["-y".to_string(), "@agentmemory/mcp".to_string()],
        url: None,
        env: EnvMap::new(),
    }
}

#[test]
fn fingerprint_ignores_env_insertion_order_and_whitespace() {
    let mut a = sample_entry();
    a.env.insert("Z".to_string(), "1".to_string());
    a.env.insert("A".to_string(), "2".to_string());

    let mut b = sample_entry();
    b.env.insert("A".to_string(), "2".to_string());
    b.env.insert("Z".to_string(), "1".to_string());

    assert_eq!(entry_fingerprint(&a), entry_fingerprint(&b));
    // The digest is hex sha256.
    assert_eq!(entry_fingerprint(&a).len(), 64);
    assert!(entry_fingerprint(&a).chars().all(|c| c.is_ascii_hexdigit()));
}

#[test]
fn fingerprint_changes_for_every_field() {
    let base = entry_fingerprint(&sample_entry());

    let mut changed = sample_entry();
    changed.name = "other".to_string();
    assert_ne!(base, entry_fingerprint(&changed));

    let mut changed = sample_entry();
    changed.transport = "http".to_string();
    assert_ne!(base, entry_fingerprint(&changed));

    let mut changed = sample_entry();
    changed.command = Some("pnpx".to_string());
    assert_ne!(base, entry_fingerprint(&changed));

    let mut changed = sample_entry();
    changed.args.push("--flag".to_string());
    assert_ne!(base, entry_fingerprint(&changed));

    let mut changed = sample_entry();
    changed.url = Some("http://x/y".to_string());
    assert_ne!(base, entry_fingerprint(&changed));

    let mut changed = sample_entry();
    changed.env.insert("K".to_string(), "v".to_string());
    assert_ne!(base, entry_fingerprint(&changed));

    let mut changed = sample_entry();
    changed.env.insert("K".to_string(), "other".to_string());
    assert_ne!(base, entry_fingerprint(&changed));
}

#[test]
fn writer_registry_resolves_registered_and_rejects_unknown_agents() {
    assert!(writer_for_agent("opencode").is_some());
    assert!(writer_for_agent("deepseek_harness").is_some());
    // Unknown keys must stay None so callers refuse instead of guessing
    // at a format for an agent we have not audited.
    assert!(writer_for_agent("nonexistent-agent").is_none());
    assert!(writer_for_agent("").is_none());
}
