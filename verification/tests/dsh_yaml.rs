use skills_manager::env_map::EnvMap;
use skills_manager::mcp_inventory::parse_dsh_config;
use skills_manager::mcp_writers::dsh_yaml::DshYamlWriter;
use skills_manager::mcp_writers::{writer_for_agent, AgentWriteError, McpEntryDef, McpWriter};

/// DSH_FIXTURE from `mcp_inventory` (the real read-path fixture) extended
/// with a leading header comment and a trailing comment; both must
/// survive every operation verbatim, exactly like the interleaved
/// non-MCP `dsh-hooks-shell` block.
const FIXTURE: &str = r#"# skills-manager manages this file — keep header comment verbatim
# zvec-grep comments must not break parsing
- insert:
    - id: agentmemory
      name: '@deepseek-ai/dsh-mcp-client'
      config:
        transport: stdio
        serverName: agentmemory
        command: npx
        args: ['-y', '@agentmemory/mcp']
        env:
          AGENTMEMORY_URL: http://localhost:3111

- insert:
    - id: mcp-zvec-grep
      name: '@deepseek-ai/dsh-mcp-client'
      config:
        transport: streamable-http
        serverName: zvec_grep
        url: http://127.0.0.1:7999/mcp
        toolCallTimeoutMs: 60000

- insert:
    - id: agentmemory-hooks
      name: '@deepseek-ai/dsh-hooks-shell'
      config:
        configPath: "/Users/me/.dsh/agentmemory.hooks.json"
# trailing comment: keep me verbatim
"#;

// Foreign regions of FIXTURE, used as byte-exactness anchors.
const HEADER: &str = "# skills-manager manages this file — keep header comment verbatim\n# zvec-grep comments must not break parsing\n";
const AGENTMEMORY_ORIG: &str = r#"- insert:
    - id: agentmemory
      name: '@deepseek-ai/dsh-mcp-client'
      config:
        transport: stdio
        serverName: agentmemory
        command: npx
        args: ['-y', '@agentmemory/mcp']
        env:
          AGENTMEMORY_URL: http://localhost:3111
"#;
const ZVEC_ORIG: &str = r#"- insert:
    - id: mcp-zvec-grep
      name: '@deepseek-ai/dsh-mcp-client'
      config:
        transport: streamable-http
        serverName: zvec_grep
        url: http://127.0.0.1:7999/mcp
        toolCallTimeoutMs: 60000
"#;
const HOOKS_ORIG: &str = r#"- insert:
    - id: agentmemory-hooks
      name: '@deepseek-ai/dsh-hooks-shell'
      config:
        configPath: "/Users/me/.dsh/agentmemory.hooks.json"
"#;
const TRAILING: &str = "# trailing comment: keep me verbatim\n";

fn entry(
    name: &str,
    transport: &str,
    command: Option<&str>,
    args: &[&str],
    url: Option<&str>,
    env: &[(&str, &str)],
) -> McpEntryDef {
    let mut vars = EnvMap::new();
    for (k, v) in env {
        vars.insert(k.to_string(), v.to_string());
    }
    McpEntryDef {
        name: name.to_string(),
        transport: transport.to_string(),
        command: command.map(str::to_string),
        args: args.iter().map(|a| a.to_string()).collect(),
        url: url.map(str::to_string),
        env: vars,
    }
}

/// The serverName set `parse_dsh_config` sees — the inventory's exact view
/// (hooks/provider plugins filtered out, id fallback applied).
fn names(text: &str) -> Vec<String> {
    let mut v: Vec<String> = parse_dsh_config(text)
        .expect("writer output must re-parse as a plugin list")
        .into_iter()
        .map(|e| e.name)
        .collect();
    v.sort();
    v
}

#[test]
fn fixture_composition_guard() {
    // The byte-exactness consts below must really tile FIXTURE, or every
    // equality assertion in this module is meaningless.
    assert_eq!(
        FIXTURE,
        format!("{HEADER}{AGENTMEMORY_ORIG}\n{ZVEC_ORIG}\n{HOOKS_ORIG}{TRAILING}")
    );
    assert_eq!(names(FIXTURE), vec!["agentmemory", "zvec_grep"]);
}

#[test]
fn upsert_appends_new_block_at_eof_preserving_all_preceding_bytes() {
    let new = entry(
        "agentx",
        "stdio",
        Some("node"),
        &["/opt/servers/agentx/index.js"],
        None,
        &[("API_KEY", "s3cr3t'quoted")],
    );
    let out = DshYamlWriter.upsert(FIXTURE, &new).unwrap();

    const RENDERED_AGENTX: &str = "- insert:
    - id: 'agentx'
      name: '@deepseek-ai/dsh-mcp-client'
      config:
        transport: stdio
        serverName: 'agentx'
        command: 'node'
        args: ['/opt/servers/agentx/index.js']
        env:
          'API_KEY': 's3cr3t''quoted'
";
    // Append at EOF: the whole original file (comments, agentmemory,
    // zvec, hooks block) is a byte-identical prefix, separated from the
    // new block by one blank line.
    assert_eq!(out, format!("{FIXTURE}\n{RENDERED_AGENTX}"));
    assert_eq!(names(&out), vec!["agentmemory", "agentx", "zvec_grep"]);
}

#[test]
fn upsert_existing_replaces_only_that_block_and_keeps_blank_structure() {
    let updated = entry(
        "agentmemory",
        "stdio",
        Some("npx"),
        &["-y", "@agentmemory/mcp"],
        None,
        &[("AGENTMEMORY_URL", "http://localhost:9999")],
    );
    let out = DshYamlWriter.upsert(FIXTURE, &updated).unwrap();

    const RENDERED_UPDATED: &str = "- insert:
    - id: 'agentmemory'
      name: '@deepseek-ai/dsh-mcp-client'
      config:
        transport: stdio
        serverName: 'agentmemory'
        command: 'npx'
        args: ['-y', '@agentmemory/mcp']
        env:
          'AGENTMEMORY_URL': 'http://localhost:9999'
";
    // Only the agentmemory block changed; its trailing blank line and
    // every other region (header, zvec, hooks, trailing comment) are
    // byte-identical.
    assert_eq!(
        out,
        format!("{HEADER}{RENDERED_UPDATED}\n{ZVEC_ORIG}\n{HOOKS_ORIG}{TRAILING}")
    );
    assert!(!out.contains("http://localhost:3111"));
    assert_eq!(names(&out), vec!["agentmemory", "zvec_grep"]);
}

#[test]
fn remove_deletes_block_plus_one_trailing_blank_line() {
    let out = DshYamlWriter.remove(FIXTURE, "agentmemory").unwrap();
    assert_eq!(out, format!("{HEADER}{ZVEC_ORIG}\n{HOOKS_ORIG}{TRAILING}"));
    // Equivalent formulation: the block and one following blank line are
    // simply gone; nothing else moved.
    assert_eq!(
        out,
        FIXTURE.replacen(&format!("{AGENTMEMORY_ORIG}\n"), "", 1)
    );
    assert_eq!(names(&out), vec!["zvec_grep"]);
    // The non-MCP hooks block survives untouched, comment and all.
    assert!(out.contains(HOOKS_ORIG));
    assert!(out.ends_with(TRAILING));

    let out2 = DshYamlWriter.remove(FIXTURE, "zvec_grep").unwrap();
    assert_eq!(
        out2,
        format!("{HEADER}{AGENTMEMORY_ORIG}\n{HOOKS_ORIG}{TRAILING}")
    );
    assert_eq!(names(&out2), vec!["agentmemory"]);
}

#[test]
fn remove_absent_name_is_idempotent_ok() {
    assert_eq!(DshYamlWriter.remove(FIXTURE, "ghost").unwrap(), FIXTURE);
    // A non-MCP plugin name (present in the file but not a server from
    // the writer's point of view) counts as absent too.
    assert_eq!(
        DshYamlWriter.remove(FIXTURE, "agentmemory-hooks").unwrap(),
        FIXTURE
    );
}

/// CRLF-authored patch files: a bare-dash top-level item ("-\r\n") must
/// still terminate the preceding block, or the block swallows the next
/// patch and a co-resident rebuild drops it.
#[test]
fn crlf_bare_dash_items_still_end_blocks() {
    let crlf = "# header\r\n- insert:\r\n    - id: target\r\n      name: '@deepseek-ai/dsh-mcp-client'\r\n      config:\r\n        transport: stdio\r\n        serverName: target\r\n        command: old\r\n-\r\n- insert:\r\n    - id: keeper\r\n      name: '@deepseek-ai/dsh-hooks-shell'\r\n      config:\r\n        configPath: x\r\n";
    let out = DshYamlWriter
        .upsert(crlf, &entry("target", "stdio", Some("new"), &[], None, &[]))
        .unwrap();
    assert!(out.contains("keeper"), "next patch must survive: {out}");
    assert!(out.contains("configPath: x"), "keeper body intact: {out}");
    assert!(out.contains("command: 'new'"), "target replaced: {out}");
    assert!(!out.contains("command: old"), "old command gone: {out}");
}

#[test]
fn read_entry_keeps_command_args_separate_and_env_values_full() {
    let am = DshYamlWriter
        .read_entry(FIXTURE, "agentmemory")
        .unwrap()
        .expect("present");
    assert_eq!(am.name, "agentmemory");
    assert_eq!(am.transport, "stdio");
    assert_eq!(am.command.as_deref(), Some("npx"));
    // NOT merged into a display string like the inventory's `command`.
    assert_eq!(am.args, ["-y", "@agentmemory/mcp"]);
    assert_eq!(am.url, None);
    assert_eq!(am.env.len(), 1);
    assert_eq!(
        am.env.get("AGENTMEMORY_URL").map(String::as_str),
        Some("http://localhost:3111")
    );

    let zvec = DshYamlWriter
        .read_entry(FIXTURE, "zvec_grep")
        .unwrap()
        .expect("present");
    assert_eq!(zvec.transport, "streamable-http");
    assert_eq!(zvec.url.as_deref(), Some("http://127.0.0.1:7999/mcp"));
    assert_eq!(zvec.command, None);
    assert!(zvec.args.is_empty());
    assert!(zvec.env.is_empty());
}

#[test]
fn read_entry_name_falls_back_to_plugin_id_like_the_inventory() {
    // Mirrors parse_dsh_config precedence: serverName first, plugin id
    // second. This block carries no serverName at all.
    const ID_FALLBACK: &str = r#"- insert:
    - id: legacy-oauth
      name: '@deepseek-ai/dsh-mcp-client'
      config:
        transport: stdio
        command: 'node'
        args: ['legacy.js']
"#;
    let legacy = DshYamlWriter
        .read_entry(ID_FALLBACK, "legacy-oauth")
        .unwrap()
        .expect("id fallback");
    assert_eq!(legacy.name, "legacy-oauth");
    assert_eq!(legacy.transport, "stdio");
    assert_eq!(legacy.command.as_deref(), Some("node"));
    assert_eq!(legacy.args, ["legacy.js"]);
    assert!(legacy.env.is_empty());

    // The hooks plugin is not an MCP client: absent, not an error.
    assert_eq!(DshYamlWriter.read_entry(FIXTURE, "agentmemory-hooks").unwrap(), None);
    assert_eq!(DshYamlWriter.read_entry(FIXTURE, "ghost").unwrap(), None);
}

#[test]
fn render_then_read_roundtrips_stdio_env_and_streamable_http() {
    let quirky = entry(
        "My Server_1",
        "stdio",
        Some("docker"),
        &["run", "-e", "MSG=it's a 'test'"],
        None,
        &[("TOKEN", "a'b'c"), ("UNICODE", "多字节 ✓")],
    );
    let out = DshYamlWriter.upsert(FIXTURE, &quirky).unwrap();
    // id slug: lowercased, non-alnum runs collapse to a single dash.
    assert!(out.contains("    - id: 'my-server-1'"), "{out}");
    assert_eq!(
        DshYamlWriter.read_entry(&out, "My Server_1").unwrap(),
        Some(quirky)
    );

    let remote = entry(
        "Remote Srv",
        "streamable-http",
        None,
        &[],
        Some("https://example.com/mcp?k='v'"),
        &[],
    );
    let out2 = DshYamlWriter.upsert(FIXTURE, &remote).unwrap();
    // Transport is emitted verbatim (plain scalar), url is quoted.
    assert!(out2.contains("        transport: streamable-http\n"));
    assert!(out2.contains(r#"        url: 'https://example.com/mcp?k=''v'''"#));
    assert_eq!(
        DshYamlWriter.read_entry(&out2, "Remote Srv").unwrap(),
        Some(remote)
    );
}

#[test]
fn non_list_or_unparseable_top_level_refuses_every_op() {
    let probe = entry("ghost", "stdio", Some("x"), &[], None, &[]);
    for src in ["mcp:\n  x: 1\n", "just some prose", "[]\n- insert:\n", ""] {
        let up = DshYamlWriter.upsert(src, &probe).unwrap_err();
        assert!(matches!(up, AgentWriteError::Unsafe(_)), "upsert {src:?}");
        let rm = DshYamlWriter.remove(src, "ghost").unwrap_err();
        assert!(matches!(rm, AgentWriteError::Unsafe(_)), "remove {src:?}");
        let rd = DshYamlWriter.read_entry(src, "ghost").unwrap_err();
        assert!(matches!(rd, AgentWriteError::Unsafe(_)), "read {src:?}");
    }
    let err = DshYamlWriter
        .upsert("mcp:\n  x: 1\n", &probe)
        .unwrap_err()
        .message();
    assert!(err.contains("not a plugin list"), "unclear refusal: {err}");
}

#[test]
fn upsert_rebuilds_the_whole_block_when_plugins_are_co_resident() {
    // Accepted granularity is BLOCK-level surgery: a block holding two
    // dsh-mcp-client plugins is rewritten in full when either is the
    // target. To not lose the co-resident plugin, the writer re-renders
    // every MCP plugin of the block from its parsed McpEntryDef, with
    // the target replaced. (Config keys outside the McpEntryDef model —
    // e.g. toolCallTimeoutMs — normalize away for the touched block
    // only; blocks we do not touch stay byte-untouched.)
    const TWO_IN_ONE: &str = r#"- insert:
    - id: alpha
      name: '@deepseek-ai/dsh-mcp-client'
      config:
        transport: stdio
        serverName: alpha
        command: 'a-bin'
    - id: beta
      name: '@deepseek-ai/dsh-mcp-client'
      config:
        transport: stdio
        serverName: beta
        command: 'b-bin'
        env:
          BETA_KEY: 'b-val'
"#;
    const RENDERED_TWO: &str = "- insert:
    - id: 'alpha'
      name: '@deepseek-ai/dsh-mcp-client'
      config:
        transport: stdio
        serverName: 'alpha'
        command: 'a2-bin'
    - id: 'beta'
      name: '@deepseek-ai/dsh-mcp-client'
      config:
        transport: stdio
        serverName: 'beta'
        command: 'b-bin'
        env:
          'BETA_KEY': 'b-val'
";
    let out = DshYamlWriter
        .upsert(TWO_IN_ONE, &entry("alpha", "stdio", Some("a2-bin"), &[], None, &[]))
        .unwrap();
    assert_eq!(out, RENDERED_TWO);
    // The block was rebuilt in place, not appended after itself.
    assert_eq!(out.matches("- insert:").count(), 1);
    assert_eq!(names(&out), vec!["alpha", "beta"]);

    let beta = DshYamlWriter
        .read_entry(&out, "beta")
        .unwrap()
        .expect("co-resident plugin survives");
    assert_eq!(beta.command.as_deref(), Some("b-bin"));
    assert_eq!(beta.env.get("BETA_KEY").map(String::as_str), Some("b-val"));
    let alpha = DshYamlWriter.read_entry(&out, "alpha").unwrap().expect("updated");
    assert_eq!(alpha.command.as_deref(), Some("a2-bin"));
}

#[test]
fn remove_from_shared_block_keeps_other_plugin_until_block_empties() {
    const TWO_IN_ONE: &str = r#"- insert:
    - id: alpha
      name: '@deepseek-ai/dsh-mcp-client'
      config:
        transport: stdio
        serverName: alpha
        command: 'a-bin'
    - id: beta
      name: '@deepseek-ai/dsh-mcp-client'
      config:
        transport: stdio
        serverName: beta
        command: 'b-bin'
        env:
          BETA_KEY: 'b-val'
"#;
    const RENDERED_ALPHA_ONLY: &str = "- insert:
    - id: 'alpha'
      name: '@deepseek-ai/dsh-mcp-client'
      config:
        transport: stdio
        serverName: 'alpha'
        command: 'a-bin'
";
    const RENDERED_BETA_ONLY: &str = "- insert:
    - id: 'beta'
      name: '@deepseek-ai/dsh-mcp-client'
      config:
        transport: stdio
        serverName: 'beta'
        command: 'b-bin'
        env:
          'BETA_KEY': 'b-val'
";
    let only_alpha = DshYamlWriter.remove(TWO_IN_ONE, "beta").unwrap();
    assert_eq!(only_alpha, RENDERED_ALPHA_ONLY);
    assert_eq!(names(&only_alpha), vec!["alpha"]);

    let only_beta = DshYamlWriter.remove(TWO_IN_ONE, "alpha").unwrap();
    assert_eq!(only_beta, RENDERED_BETA_ONLY);
    assert_eq!(names(&only_beta), vec!["beta"]);

    // Removing the last server of the block deletes the whole block —
    // an empty patch file is a legal outcome of pure deletion.
    assert_eq!(DshYamlWriter.remove(&only_alpha, "alpha").unwrap(), "");
}

#[test]
fn mixed_blocks_with_foreign_plugins_are_refused() {
    // Block surgery can only rebuild plugins the writer understands.
    // A block mixing the target MCP plugin with a non-MCP plugin is
    // refused instead of silently dropping the foreign plugin.
    const MIXED: &str = r#"- insert:
    - id: solo
      name: '@deepseek-ai/dsh-mcp-client'
      config:
        transport: stdio
        serverName: solo
        command: 'c'
    - id: hooks-inline
      name: '@deepseek-ai/dsh-hooks-shell'
      config:
        configPath: "/x.json"
"#;
    let up = DshYamlWriter
        .upsert(MIXED, &entry("solo", "stdio", Some("c2"), &[], None, &[]))
        .unwrap_err();
    assert!(matches!(up, AgentWriteError::Unsafe(_)), "{up:?}");
    assert!(up.message().contains("mixed"), "unclear refusal: {up:?}");
    let rm = DshYamlWriter.remove(MIXED, "solo").unwrap_err();
    assert!(matches!(rm, AgentWriteError::Unsafe(_)), "{rm:?}");
    // Reading is unaffected — it is a pure inventory walk.
    assert!(DshYamlWriter.read_entry(MIXED, "solo").unwrap().is_some());
}

#[test]
fn target_declared_in_multiple_blocks_is_refused() {
    const DUP: &str = r#"- insert:
    - id: dup-a
      name: '@deepseek-ai/dsh-mcp-client'
      config:
        transport: stdio
        serverName: dup
        command: 'a'

- insert:
    - id: dup-b
      name: '@deepseek-ai/dsh-mcp-client'
      config:
        transport: stdio
        serverName: dup
        command: 'b'
"#;
    let up = DshYamlWriter
        .upsert(DUP, &entry("dup", "stdio", Some("x"), &[], None, &[]))
        .unwrap_err();
    assert!(matches!(up, AgentWriteError::Unsafe(_)), "{up:?}");
    assert!(up.message().contains("refusing"), "unclear refusal: {up:?}");
    let rm = DshYamlWriter.remove(DUP, "dup").unwrap_err();
    assert!(matches!(rm, AgentWriteError::Unsafe(_)), "{rm:?}");
}

#[test]
fn writer_is_registered_for_deepseek_harness() {
    let writer = writer_for_agent("deepseek_harness").expect("registered");
    let out = writer
        .upsert(
            FIXTURE,
            &entry("agentx", "stdio", Some("node"), &["x.js"], None, &[]),
        )
        .unwrap();
    assert!(out.starts_with(FIXTURE));
    assert_eq!(names(&out), vec!["agentmemory", "agentx", "zvec_grep"]);
}

#[test]
fn surgery_that_would_list_a_name_twice_is_refused() {
    // The declaration is in no block that the line scanner knows, so the write would append.
    let text = "-\n  insert:\n    - id: a\n      name: '@deepseek-ai/dsh-mcp-client'\n      config:\n        serverName: a\n        command: x\n";
    let err = DshYamlWriter
        .upsert(text, &entry("a", "stdio", Some("y"), &[], None, &[]))
        .unwrap_err();
    assert_eq!(
        err.message(),
        "internal error: cordis.patch.yml surgery touched the wrong entries (expected {\"a\": 1}, got {\"a\": 2})"
    );
}

#[test]
fn the_blank_document_gives_way_to_the_first_block() {
    let writer = DshYamlWriter;
    let e = entry("first", "stdio", Some("npx"), &["-y", "@o/first"], None, &[("K", "v")]);
    let text = writer.upsert(writer.empty_doc(), &e).unwrap();
    assert!(text.starts_with("- insert:\n"));
    assert_eq!(names(&text), vec!["first"]);
    assert_eq!(writer.read_entry(&text, "first").unwrap().unwrap(), e);
    // A second entry goes behind the first, which stays as it is.
    let more = writer
        .upsert(&text, &entry("second", "http", None, &[], Some("http://x/mcp"), &[]))
        .unwrap();
    assert!(more.starts_with(&text));
    assert_eq!(names(&more), vec!["first", "second"]);
    // Any other list in flow style is left alone.
    assert!(writer.upsert("[ ]", &e).is_err());
}
