use std::collections::BTreeMap;

use skills_manager::env_map::EnvMap;
use skills_manager::error::{AppError, ErrorKind};
use skills_manager::json::{json_text, parse_json, Json};
use skills_manager::mcp_inventory::ConfigRead;
use skills_manager::mcp_library::audit::audit_run;
use skills_manager::mcp_library::drift_token;
use skills_manager::mcp_library::funnel::{plan_write, WriteOp};
use skills_manager::mcp_library::jobs::{begin_job, finish_job, reread_failed, Job, Progress};
use skills_manager::mcp_library::report::{get_mcp_library, ledger_agents, AgentFile, McpLibraryReport};
use skills_manager::mcp_library::runs::{
    add_mcp_server, delete_mcp_server, edit_mcp_server, sync_mcp_to_agent, unsync_mcp_from_agent,
    EditOutcome, FleetRun,
};
use skills_manager::mcp_library::takeover::takeover_mcp_entry;
use skills_manager::mcp_library::upgrade::{
    get_mcp_upgrade_plan, upgrade_command_union, upgrade_sources, UpgradePlanDto,
};
use skills_manager::mcp_library::{
    validate_entry_scalars, validate_name, McpEntryDefDto, WriteOutcome,
};
use skills_manager::mcp_store::{McpBindingRecord, McpServerRecord, SkillStore};
use skills_manager::mcp_upstream::checks::npx_cache_dirs_in;
use skills_manager::mcp_upstream::McpSource;
use skills_manager::mcp_writers::{
    entry_fingerprint, writer_for_agent, AgentWriter, McpEntryDef, McpWriter,
};

fn json(text: &str) -> Json {
    parse_json(text).unwrap()
}

fn kind_none() -> Json {
    json(r#"{"kind":"none"}"#)
}

fn texts(args: &[&str]) -> Vec<String> {
    args.iter().map(|a| a.to_string()).collect()
}

fn record(name: &str, command: &str, args: &[&str]) -> McpServerRecord {
    McpServerRecord {
        id: format!("id-of-{name}"),
        name: name.to_string(),
        transport: "stdio".to_string(),
        command: Some(command.to_string()),
        args: texts(args),
        url: None,
        env: EnvMap::new(),
        source: kind_none(),
        update_status: "unknown".to_string(),
        remote_version: None,
        last_checked_at: None,
        last_check_error: None,
        probe_status: "pending".to_string(),
        probe_message: None,
        probe_checked_at: None,
        created_at: 1,
        updated_at: 1,
    }
}

fn dto(name: &str, command: &str, args: &[&str]) -> McpEntryDefDto {
    McpEntryDefDto {
        name: name.to_string(),
        transport: "stdio".to_string(),
        command: Some(command.to_string()),
        args: texts(args),
        url: None,
        env: EnvMap::new(),
    }
}

/// A complete opencode document holding one local entry.
fn entry_json(name: &str, command: &str, args: &[&str]) -> String {
    let mut cmd = vec![command.to_string()];
    cmd.extend(args.iter().map(|a| a.to_string()));
    let mut entry = serde_json::Map::new();
    entry.insert("type".into(), serde_json::Value::String("local".into()));
    entry.insert(
        "command".into(),
        serde_json::Value::Array(cmd.into_iter().map(serde_json::Value::String).collect()),
    );
    let mut mcp = serde_json::Map::new();
    mcp.insert(name.to_string(), serde_json::Value::Object(entry));
    let mut root = serde_json::Map::new();
    root.insert("mcp".into(), serde_json::Value::Object(mcp));
    serde_json::Value::Object(root).to_string()
}

/// A library, and agent files by agent key. Keys that start with `a` stand for further agents
/// with OpenCode's format.
struct Harness {
    store: SkillStore,
    files: BTreeMap<String, String>,
    ids: u32,
    now: i64,
}

fn harness() -> Harness {
    Harness { store: SkillStore::new(), files: BTreeMap::new(), ids: 0, now: 1000 }
}

fn why(value: &Json) -> String {
    format!("no source in {}", json_text(value))
}

fn no_clone(_: &String) -> Result<String, String> {
    Err("no clone expected".to_string())
}

impl Harness {
    fn resolve(&self, key: &str) -> Result<AgentWriter, AppError> {
        let format = if key.starts_with('a') { "opencode" } else { key };
        match writer_for_agent(format) {
            Some(writer) => Ok(writer),
            None => Err(AppError::invalid_input(&format!("unknown {key}"))),
        }
    }

    fn read(&self, key: &str) -> ConfigRead {
        match self.files.get(key) {
            Some(text) => ConfigRead::Text(text.clone()),
            None => ConfigRead::Missing,
        }
    }

    fn text(&self, key: &str) -> String {
        self.files[key].clone()
    }

    fn write(&mut self, key: &str, text: &str) {
        self.files.insert(key.to_string(), text.to_string());
    }

    fn fresh_id(&mut self) -> String {
        self.ids += 1;
        format!("fresh-{}", self.ids)
    }

    fn tick(&mut self) -> i64 {
        self.now += 1;
        self.now
    }

    fn perform(
        &mut self,
        job: Job,
        former: &McpServerRecord,
        record: &McpServerRecord,
        key: &str,
        approved: Option<&String>,
    ) -> Result<WriteOutcome, AppError> {
        let writer = self.resolve(key)?;
        let file = self.read(key);
        match begin_job(&mut self.store, job, former, record, key, &writer, approved, &file) {
            Progress::Done(outcome) => outcome,
            Progress::Write(text) => {
                self.write(key, &text);
                let (id, now) = (self.fresh_id(), self.tick());
                finish_job(&mut self.store, job, former, record, key, &writer, &text, id, now)
            }
            Progress::ReadBack => match self.read(key) {
                ConfigRead::Text(text) => {
                    let (id, now) = (self.fresh_id(), self.tick());
                    finish_job(&mut self.store, job, former, record, key, &writer, &text, id, now)
                }
                _ => Err(reread_failed(job, key, "gone")),
            },
        }
    }

    fn lead(&mut self, mut run: FleetRun) -> FleetRun {
        while let Some(job) = run.next_job() {
            let key = run.next_agent().clone();
            let former = run.former().clone();
            let record = run.record().clone();
            let approved = run.approved().cloned();
            let outcome = self.perform(job, &former, &record, &key, approved.as_ref());
            let now = self.tick();
            run = run.step(&mut self.store, outcome, now);
        }
        run
    }

    fn sync(&mut self, id: &str, key: &str, approved: Option<&str>) -> Result<WriteOutcome, AppError> {
        let record = sync_mcp_to_agent(&self.store, id)?;
        let approved = approved.map(str::to_string);
        self.perform(Job::Write(WriteOp::Upsert), &record, &record, key, approved.as_ref())
    }

    fn unsync(&mut self, id: &str, key: &str, approved: Option<&str>) -> Result<WriteOutcome, AppError> {
        let record = unsync_mcp_from_agent(&self.store, id, key)?;
        let approved = approved.map(str::to_string);
        self.perform(Job::Write(WriteOp::Remove), &record, &record, key, approved.as_ref())
    }

    fn add(&mut self, entry: McpEntryDefDto, source: &Json, agents: &[&str]) -> Result<FleetRun, AppError> {
        let (id, now) = (self.fresh_id(), self.tick());
        let run = add_mcp_server(&mut self.store, entry, source, no_clone, &why, texts(agents), id, now)?;
        Ok(self.lead(run))
    }

    fn edit(
        &mut self,
        id: &str,
        entry: McpEntryDefDto,
        approved: Option<&str>,
    ) -> Result<EditOutcome, AppError> {
        let now = self.tick();
        let approved = approved.map(str::to_string);
        let run =
            edit_mcp_server(&mut self.store, id, entry, &kind_none(), no_clone, &why, approved, now)?;
        self.lead(run).outcome()
    }

    fn delete(&mut self, id: &str, approved: Option<&str>) -> Result<EditOutcome, AppError> {
        let now = self.tick();
        let run = delete_mcp_server(&mut self.store, id, approved.map(str::to_string), now)?;
        self.lead(run).outcome()
    }

    fn takeover(&mut self, key: &str, name: &str) -> Result<String, AppError> {
        let writer = self.resolve(key)?;
        let text = self.text(key);
        let (id, binding, now) = (self.fresh_id(), self.fresh_id(), self.tick());
        takeover_mcp_entry(&mut self.store, key, &writer, name, &text, id, binding, now)
    }

    fn agent_files(&self) -> Vec<AgentFile> {
        ledger_agents(&self.store)
            .into_iter()
            .map(|key| AgentFile {
                writer: self.resolve(&key).map_err(|e| e.message),
                read: self.read(&key),
                agent_key: key,
            })
            .collect()
    }

    fn library(&self) -> McpLibraryReport {
        get_mcp_library(&self.store, &self.agent_files(), Vec::new())
    }

    fn server(&self, id: &str) -> Option<McpServerRecord> {
        self.store.get_mcp_server_by_id(id)
    }

    fn bindings(&self, id: &str) -> Vec<McpBindingRecord> {
        self.store.get_mcp_bindings_for_server(id)
    }

    /// The upgrade plan, with `dirs` as the npx cache directories of every package.
    fn upgrade_plan(&self, id: &str, dirs: &[String]) -> Result<UpgradePlanDto, AppError> {
        let record = sync_mcp_to_agent(&self.store, id)?;
        let sources = upgrade_sources(&self.store, &record, &self.agent_files(), &why)?;
        let npx: Vec<Vec<String>> = sources
            .iter()
            .map(|source| match source {
                McpSource::Npx { .. } => dirs.to_vec(),
                _ => Vec::new(),
            })
            .collect();
        let commands = upgrade_command_union(&sources, &npx)?;
        Ok(get_mcp_upgrade_plan(&record, commands))
    }
}

fn pending(outcome: WriteOutcome) -> skills_manager::mcp_library::PendingDriftDto {
    match outcome {
        WriteOutcome::PendingDrift(drift) => drift,
        other => panic!("must ask first, got {other:?}"),
    }
}

#[test]
fn drift_token_is_stable_and_bound_to_every_input() {
    let base = drift_token("opencode", "x", "fp1", 7);
    assert_eq!(base, drift_token("opencode", "x", "fp1", 7));
    assert_eq!(base.len(), 64);
    assert_ne!(base, drift_token("deepseek_harness", "x", "fp1", 7));
    assert_ne!(base, drift_token("opencode", "y", "fp1", 7));
    assert_ne!(base, drift_token("opencode", "x", "fp2", 7));
    assert_ne!(base, drift_token("opencode", "x", "fp1", 8));
    // NUL-separated hashing keeps field-boundary shifts distinct.
    assert_ne!(
        drift_token("a", "bc", "fp", 1),
        drift_token("ab", "c", "fp", 1)
    );
}

#[test]
fn upsert_seeds_missing_opencode_file_from_template_and_binds() {
    let mut h = harness();
    let rec = record("zeta", "npx", &["-y", "@o/zeta"]);
    h.store.insert_mcp_server(rec.clone()).unwrap();
    assert!(!h.files.contains_key("opencode"));

    let out = h.sync(&rec.id, "opencode", None).unwrap();
    assert!(matches!(out, WriteOutcome::Applied));

    let text = h.text("opencode");
    assert!(text.contains("\"zeta\""), "seeded file: {text}");
    let bindings = h.bindings(&rec.id);
    assert_eq!(bindings.len(), 1);
    // The ledger fingerprint must match what a future drift read recomputes from the file (not
    // the in-memory definition).
    let writer = writer_for_agent("opencode").unwrap();
    let entry = writer.read_entry(&text, "zeta").unwrap().unwrap();
    assert_eq!(bindings[0].fingerprint, entry_fingerprint(&entry));
}

#[test]
fn missing_dsh_patch_file_is_refused_not_created() {
    let mut h = harness();
    let rec = record("dshy", "npx", &["-y", "@o/x"]);
    h.store.insert_mcp_server(rec.clone()).unwrap();

    let err = h.sync(&rec.id, "deepseek_harness", None).unwrap_err();
    assert_eq!(err.kind, ErrorKind::InvalidInput);
    assert_eq!(err.message, "DSH patch file not found");
    assert!(!h.files.contains_key("deepseek_harness"), "refusal must not create the file");
}

#[test]
fn drift_gate_blocks_write_then_matching_token_unblocks_it() {
    let mut h = harness();
    let rec = record("mem", "npx", &["-y", "@o/mem"]);
    h.store.insert_mcp_server(rec.clone()).unwrap();
    h.sync(&rec.id, "opencode", None).unwrap();
    let written = h.text("opencode");

    // Human edits the file behind the ledger's back.
    let edited = writer_for_agent("opencode")
        .unwrap()
        .upsert(
            &written,
            &McpEntryDef {
                name: "mem".into(),
                transport: "stdio".into(),
                command: Some("pnpm".into()),
                args: vec!["dlx".into(), "@o/mem".into()],
                url: None,
                env: EnvMap::new(),
            },
        )
        .unwrap();
    h.write("opencode", &edited);

    let old_fp = h.bindings(&rec.id)[0].fingerprint.clone();

    let drift = pending(h.sync(&rec.id, "opencode", None).unwrap());
    assert_eq!(drift.agent_key, "opencode");
    assert_eq!(drift.kind, "drift");
    assert_eq!(
        drift.token,
        drift_token("opencode", "mem", &old_fp, rec.updated_at)
    );
    assert_eq!(drift.current_text, edited);
    assert!(
        drift.planned_text.contains("npx"),
        "plan restores the library definition"
    );
    assert_eq!(h.text("opencode"), edited, "blocked write must not touch the file");

    // A wrong token stays pending...
    assert!(matches!(
        h.sync(&rec.id, "opencode", Some("bogus")).unwrap(),
        WriteOutcome::PendingDrift(_)
    ));

    // ...the right one applies.
    let out = h.sync(&rec.id, "opencode", Some(&drift.token)).unwrap();
    assert!(matches!(out, WriteOutcome::Applied));
    assert!(h.text("opencode").contains("npx"));
}

#[test]
fn library_report_computes_live_drift_per_agent_once() {
    let mut h = harness();
    let a = record("aa", "npx", &["-y", "@o/aa"]);
    let b = record("bb", "npx", &["-y", "@o/bb"]);
    h.store.insert_mcp_server(a.clone()).unwrap();
    h.store.insert_mcp_server(b.clone()).unwrap();
    h.sync(&a.id, "opencode", None).unwrap();
    h.sync(&b.id, "opencode", None).unwrap();
    assert_eq!(ledger_agents(&h.store), vec!["opencode".to_string()]);

    let report = h.library();
    assert_eq!(report.servers.len(), 2);
    for server in &report.servers {
        assert_eq!(server.bindings.len(), 1);
        assert!(!server.bindings[0].drift, "{} clean", server.record.name);
    }

    // Wipe the whole file: every binding flips to drifted with a reason.
    h.files.remove("opencode");
    let report = h.library();
    let drifted: Vec<_> = report
        .servers
        .iter()
        .flat_map(|s| &s.bindings)
        .filter(|binding| binding.drift)
        .collect();
    assert_eq!(drifted.len(), 2);
    assert!(drifted.iter().all(|binding| {
        binding
            .drift_reason
            .as_deref()
            .is_some_and(|reason| reason.contains("config file not found"))
    }));
}

#[test]
fn takeover_adopts_fingerprint_without_touching_the_file() {
    let mut h = harness();
    // A foreign entry, written by the user: full env included.
    let foreign = r#"{
  "mcp": {
    "gem": {
      "type": "local",
      "command": ["npx", "-y", "@mcp/gem"],
      "environment": { "GEM_KEY": "s3cret" }
    }
  }
}"#;
    h.write("opencode", foreign);

    let id = h.takeover("opencode", "gem").unwrap();
    assert_eq!(h.text("opencode"), foreign, "takeover never rewrites the file");

    let rec = h.server(&id).unwrap();
    assert_eq!(rec.env.get("GEM_KEY").map(String::as_str), Some("s3cret"));
    assert_eq!(rec.source.get("kind").and_then(|v| v.as_str()).map(String::as_str), Some("npx"));
    assert_eq!(
        rec.source.get("package").and_then(|v| v.as_str()).map(String::as_str),
        Some("@mcp/gem")
    );

    let bindings = h.bindings(&id);
    let entry = writer_for_agent("opencode")
        .unwrap()
        .read_entry(foreign, "gem")
        .unwrap()
        .unwrap();
    assert_eq!(bindings[0].fingerprint, entry_fingerprint(&entry));

    // Second takeover of the same name hits the managed-name collision guard.
    let err = h.takeover("opencode", "gem").unwrap_err();
    assert_eq!(err.kind, ErrorKind::InvalidInput);
    assert_eq!(err.message, "\"gem\" is already managed in agent 'opencode'");
}

#[test]
fn sync_over_foreign_same_name_asks_then_overwrites_with_token() {
    let mut h = harness();
    h.write("opencode", &entry_json("x", "/foreign/x", &["--other"]));
    let rec = record("x", "npx", &["-y", "@o/x"]);
    h.store.insert_mcp_server(rec.clone()).unwrap();

    // The first call shows current-vs-planned instead of silently overwriting the user's
    // hand-written entry.
    let drift = pending(h.sync(&rec.id, "opencode", None).unwrap());
    assert_eq!(drift.kind, "foreign");
    assert_eq!(
        drift.token,
        drift_token("opencode", "x", "foreign", rec.updated_at)
    );
    assert!(drift.current_text.contains("/foreign/x"));
    assert!(drift.planned_text.contains("npx"));
    assert_eq!(
        h.text("opencode"),
        drift.current_text,
        "asking must not touch the file"
    );

    // The token answers exactly this question: this agent, this definition.
    h.sync(&rec.id, "opencode", Some(&drift.token)).unwrap();
    let written = h.text("opencode");
    assert!(written.contains("npx") && !written.contains("/foreign/x"));
    assert_eq!(h.bindings(&rec.id).len(), 1);
}

/// The card-level takeover loop takes over one agent, and claims the others in place — a second
/// agent whose copy reads back equivalent joins the same definition without any file rewrite.
#[test]
fn takeover_claims_an_equivalent_copy_in_a_second_agent_in_place() {
    let mut h = harness();
    let entry = entry_json("gem", "npx", &["-y", "@mcp/gem"]);
    h.write("a1", &entry);
    h.write("a2", &entry);
    h.write("a3", &entry_json("gem", "/other/gem", &["--x"]));

    let id = h.takeover("a1", "gem").unwrap();
    let id2 = h.takeover("a2", "gem").unwrap();
    assert_eq!(id, id2, "the equivalent copy joins the same definition");
    assert_eq!(h.store.get_all_mcp_servers().len(), 1);
    assert_eq!(h.bindings(&id).len(), 2);
    assert_eq!(h.text("a2"), entry, "claiming never rewrites");

    // A divergent copy is claimed too: takeover is consent to manage, not an install — the agent
    // keeps its own command and the card shows the divergence as a variant dot.
    let id3 = h.takeover("a3", "gem").unwrap();
    assert_eq!(id, id3);
    assert_eq!(h.bindings(&id).len(), 3);
    assert_eq!(
        h.text("a3"),
        entry_json("gem", "/other/gem", &["--x"]),
        "claiming a divergent copy still never rewrites"
    );
}

/// Upgrade acts on what is installed, per binding: an npx copy and a global-install copy of the
/// same package produce BOTH commands in one confirm dialog.
#[test]
fn upgrade_plan_unions_the_live_commands_of_divergent_bindings() {
    let mut h = harness();
    h.write("a1", &entry_json("mem", "npx", &["-y", "@agentmemory/mcp"]));
    h.write(
        "a2",
        &entry_json("mem", "node", &["/tmp/x/node_modules/@agentmemory/mcp/bin.mjs"]),
    );
    let dirs =
        npx_cache_dirs_in("/tmp/x/npxroot", "@agentmemory/mcp", &texts(&["deadbeef"]));

    let id = h.takeover("a1", "mem").unwrap();
    h.takeover("a2", "mem").unwrap();

    let plan = h.upgrade_plan(&id, &dirs).unwrap().commands;
    assert!(
        plan.iter().any(|c| c.starts_with("rm -rf")),
        "npx cache clear missing: {plan:?}"
    );
    assert!(
        plan.iter()
            .any(|c| c.starts_with("npm i -g") && c.contains("@agentmemory/mcp@latest")),
        "global install upgrade missing: {plan:?}"
    );
    assert_eq!(
        plan,
        texts(&[
            "rm -rf '/tmp/x/npxroot/deadbeef/node_modules/@agentmemory/mcp'",
            "npm i -g '@agentmemory/mcp@latest'",
        ])
    );
}

/// Gate-first rename writes NOTHING until every agent has answered.
#[test]
fn rename_with_one_drifted_agent_writes_nothing_then_renames_all() {
    let mut h = harness();
    let entry = entry_json("old", "npx", &["-y", "@o/old"]);
    h.write("a1", &entry);
    h.write("a2", &entry);

    let rec = record("old", "npx", &["-y", "@o/old"]);
    h.store.insert_mcp_server(rec.clone()).unwrap();
    h.sync(&rec.id, "a1", None).unwrap();
    h.sync(&rec.id, "a2", None).unwrap();
    // Hand-edit a2 behind the ledger's back.
    h.write("a2", &entry_json("old", "tampered", &["--x"]));

    let outcome = h.edit(&rec.id, dto("new", "npx", &["-y", "@o/old"]), None).unwrap();
    assert_eq!(outcome.pending_drift.len(), 1);
    assert_eq!(outcome.pending_drift[0].agent_key, "a2");
    assert!(outcome.applied.is_empty());
    // Gate-first: the clean agent kept its old-name entry AND its binding row — the retry still
    // sees the full fleet.
    assert!(h.text("a1").contains("\"old\""));
    assert_eq!(h.bindings(&rec.id).len(), 2);
    assert_eq!(
        h.server(&rec.id).unwrap().name,
        "old",
        "rename must not commit while any agent is unanswered"
    );

    let token = outcome.pending_drift[0].token.clone();
    let outcome = h
        .edit(&rec.id, dto("new", "npx", &["-y", "@o/old"]), Some(&token))
        .unwrap();
    assert!(outcome.pending_drift.is_empty());
    assert_eq!(outcome.applied.len(), 2);
    for key in ["a1", "a2"] {
        let text = h.text(key);
        assert!(text.contains("\"new\"") && !text.contains("\"old\""), "{text}");
    }
    assert_eq!(h.bindings(&rec.id).len(), 2);
    assert_eq!(h.server(&rec.id).unwrap().name, "new");
}

/// A binding whose live entry differs from the definition's own command reads as variant (adopted
/// as-is), not drift (nobody changed anything); aligning it via sync clears the flag.
#[test]
fn variant_dot_flags_an_adopted_divergent_copy_until_aligned() {
    let mut h = harness();
    h.write("opencode", &entry_json("gem", "/other/gem", &["--x"]));
    let rec = record("gem", "npx", &["-y", "@mcp/gem"]);
    h.store.insert_mcp_server(rec.clone()).unwrap();
    h.takeover("opencode", "gem").unwrap();

    let report = h.library();
    let binding = &report.servers[0].bindings[0];
    assert!(!binding.drift, "adopted-as-is is not drift");
    assert!(binding.variant, "live command differs from the definition");

    // Align: sync overwrites with the definition (no drift gate — the binding fingerprint matches
    // the file), and the variant clears.
    h.sync(&rec.id, "opencode", None).unwrap();
    let report = h.library();
    let binding = &report.servers[0].bindings[0];
    assert!(!binding.variant);
    assert!(!binding.drift);
}

/// A YAML single-quoted scalar passes raw newlines through, so a value like "ok\n- insert:" would
/// land a block opener at column 0 and fool the writer's block scanner mid-surgery. The only safe
/// gate is at the door: no control characters in any scalar that can be persisted.
#[test]
fn newline_in_a_scalar_is_refused_before_it_can_fake_a_block() {
    let mut h = harness();
    let mut entry = dto("nv", "npx", &["-y", "@o/nv"]);
    entry.env.insert("EVIL".to_string(), "ok\n- insert:\n  fake".to_string());
    let err = match h.add(entry, &kind_none(), &[]) {
        Err(err) => err,
        Ok(_) => panic!("must be refused"),
    };
    assert_eq!(err.kind, ErrorKind::InvalidInput);
    assert!(err.message.contains("env"), "got: {}", err.message);
    assert!(
        h.store.get_mcp_server_by_name("nv").is_none(),
        "rejected add must persist nothing"
    );
}

#[test]
fn edit_rename_removes_old_name_and_writes_new() {
    let mut h = harness();
    let rec = record("alpha", "npx", &["-y", "@o/alpha"]);
    h.store.insert_mcp_server(rec.clone()).unwrap();
    h.sync(&rec.id, "opencode", None).unwrap();

    let outcome = h
        .edit(&rec.id, dto(" beta ", "node", &["/opt/beta/index.js"]), None)
        .unwrap();
    assert_eq!(outcome.applied, vec!["opencode".to_string()]);
    assert!(outcome.pending_drift.is_empty());

    let text = h.text("opencode");
    assert!(!text.contains("\"alpha\""), "old name must be gone: {text}");
    assert!(text.contains("\"beta\""), "new name must be present: {text}");
    assert!(text.contains("index.js"));

    let updated = h.server(&rec.id).unwrap();
    assert_eq!(updated.name, "beta");
    let bindings = h.bindings(&rec.id);
    assert_eq!(bindings.len(), 1);
    let entry = writer_for_agent("opencode")
        .unwrap()
        .read_entry(&text, "beta")
        .unwrap()
        .unwrap();
    assert_eq!(bindings[0].fingerprint, entry_fingerprint(&entry));
}

#[test]
fn delete_defers_the_record_until_drift_is_approved() {
    let mut h = harness();
    let rec = record("del", "npx", &["-y", "@o/del"]);
    h.store.insert_mcp_server(rec.clone()).unwrap();
    h.sync(&rec.id, "opencode", None).unwrap();

    // Hand-edit → removal is gated.
    h.write("opencode", &entry_json("del", "tampered", &["--flag"]));
    let outcome = h.delete(&rec.id, None).unwrap();
    assert!(outcome.applied.is_empty());
    assert_eq!(outcome.pending_drift.len(), 1);
    // Nothing deleted: record and binding both survive, file untouched.
    assert!(h.server(&rec.id).is_some());
    assert_eq!(h.bindings(&rec.id).len(), 1);
    assert!(h.text("opencode").contains("tampered"));

    let token = outcome.pending_drift[0].token.clone();
    let outcome = h.delete(&rec.id, Some(&token)).unwrap();
    assert_eq!(outcome.applied, vec!["opencode".to_string()]);
    assert!(h.server(&rec.id).is_none());
    assert!(h.store.get_all_mcp_bindings().is_empty());
    assert!(!h.text("opencode").contains("\"del\""));
}

#[test]
fn add_reports_partial_agent_failures_but_keeps_record_and_bindings() {
    let mut h = harness();
    let run = h
        .add(
            dto(" new-one ", "npx", &["-y", "@o/new"]),
            &kind_none(),
            &["opencode", "cursor"],
        )
        .unwrap();
    let id = run.record().id.clone();
    assert_eq!(run.failures(), &texts(&["cursor: unknown cursor"]));
    let entry = audit_run(&run).unwrap();
    assert_eq!(entry.action, "mcp_add");
    assert_eq!(entry.detail, "agents: opencode, cursor; cursor: unknown cursor");
    assert_eq!(entry.failure.as_deref(), Some("cursor: unknown cursor"));

    // Record kept with the trimmed name; opencode bound; the cursor failure is only reported
    // (partial add is honest).
    let rec = h.server(&id).unwrap();
    assert_eq!(rec.name, "new-one");
    assert_eq!(rec.probe_status, "pending");
    assert_eq!(rec.update_status, "unknown");
    let bindings = h.bindings(&id);
    assert_eq!(bindings.len(), 1);
    assert_eq!(bindings[0].agent_key, "opencode");
    assert!(h.text("opencode").contains("\"new-one\""));

    // Duplicate names are rejected with a friendly message.
    let err = match h.add(dto("new-one", "true", &[]), &kind_none(), &[]) {
        Err(err) => err,
        Ok(_) => panic!("must be refused"),
    };
    assert!(err.message.contains("already exists"), "got: {}", err.message);
}

#[test]
fn edit_retry_reuses_the_same_drift_token() {
    let mut h = harness();
    let rec = record("rt", "npx", &["-y", "@o/rt"]);
    h.store.insert_mcp_server(rec.clone()).unwrap();
    h.sync(&rec.id, "opencode", None).unwrap();
    h.write("opencode", &entry_json("rt", "tampered", &["x"]));

    let first = h.edit(&rec.id, dto("rt", "node", &["/srv/rt/index.js"]), None).unwrap();
    assert_eq!(first.pending_drift.len(), 1);
    let token = first.pending_drift[0].token.clone();

    // Same payload + the returned token: the committed revision must not move, or this retry
    // could never authorize the first dialog.
    let second = h
        .edit(&rec.id, dto("rt", "node", &["/srv/rt/index.js"]), Some(&token))
        .unwrap();
    assert!(second.pending_drift.is_empty());
    assert_eq!(second.applied, vec!["opencode".to_string()]);
    assert!(h.text("opencode").contains("index.js"));
}

#[test]
fn unsync_requires_an_existing_binding() {
    let mut h = harness();
    let rec = record("un", "npx", &["-y", "@o/un"]);
    h.store.insert_mcp_server(rec.clone()).unwrap();
    let err = h.unsync(&rec.id, "opencode", None).unwrap_err();
    assert_eq!(err.kind, ErrorKind::NotFound);
    assert_eq!(err.message, "\"un\" is not synced to agent 'opencode' by this library");
}

#[test]
fn upgrade_plan_derives_commands_from_the_stored_record() {
    let mut h = harness();
    let mut rec = record("up", "node", &["/n/globals/3/node_modules/@o/up/index.js"]);
    rec.source = json(r#"{"kind": "npm_global", "package": "@o/up"}"#);
    h.store.insert_mcp_server(rec.clone()).unwrap();

    let plan = h.upgrade_plan(&rec.id, &[]).unwrap();
    assert_eq!(plan.commands, vec!["npm i -g '@o/up@latest'".to_string()]);
    assert_eq!(plan.latest_version, None);

    let mut none = record("plain", "true", &[]);
    none.source = kind_none();
    h.store.insert_mcp_server(none.clone()).unwrap();
    let err = h.upgrade_plan(&none.id, &[]).unwrap_err();
    assert_eq!(err.kind, ErrorKind::InvalidInput);
    assert_eq!(err.message, "no upstream source");
}

// ── further scenarios ──

#[test]
fn names_are_trimmed_and_refused_when_empty_or_with_separators() {
    assert_eq!(validate_name("  mem ").unwrap(), "mem");
    assert_eq!(
        validate_name("   ").unwrap_err().message,
        "MCP server name must not be empty"
    );
    assert_eq!(
        validate_name("a/b").unwrap_err().message,
        "MCP server name \"a/b\" must not contain path separators"
    );
    assert!(validate_name("a\\b").is_err());
}

#[test]
fn scalars_are_refused_by_field_and_tabs_are_legal() {
    let mut entry = dto("n", "c", &["x\ty"]).entry_def();
    assert!(validate_entry_scalars(&entry).is_ok());
    entry.args.push("line\nbreak".to_string());
    entry.url = Some("u\u{7f}".to_string());
    assert_eq!(
        validate_entry_scalars(&entry).unwrap_err().message,
        "MCP entry fields (args, url) must not contain newlines or control characters"
    );
    entry.transport = "sse".to_string();
    assert_eq!(
        validate_entry_scalars(&entry).unwrap_err().message,
        "unknown MCP transport \"sse\" (expected stdio, http or streamable-http)"
    );
}

#[test]
fn a_git_source_is_cloned_before_a_record_exists() {
    let mut store = SkillStore::new();
    let source = json(r#"{"kind":"git","repo_url":"https://github.com/o/r","clone_path":""}"#);
    let failed = add_mcp_server(
        &mut store,
        dto("g", "node", &[]),
        &source,
        |_: &String| Err("offline".to_string()),
        &why,
        Vec::new(),
        "g1".to_string(),
        1,
    );
    let err = match failed {
        Err(err) => err,
        Ok(_) => panic!("a failed clone must abort"),
    };
    assert_eq!(err.kind, ErrorKind::Git);
    assert_eq!(err.message, "offline");
    assert!(store.get_all_mcp_servers().is_empty());

    let run = add_mcp_server(
        &mut store,
        dto("g", "node", &[]),
        &source,
        |url: &String| Ok(format!("/cache/{}", url.len())),
        &why,
        Vec::new(),
        "g1".to_string(),
        1,
    );
    assert!(run.is_ok());
    let rec = store.get_mcp_server_by_id("g1").unwrap();
    assert_eq!(
        rec.source,
        json(r#"{"clone_path":"/cache/22","kind":"git","repo_url":"https://github.com/o/r"}"#)
    );
}

#[test]
fn blank_transports_and_unknown_ids_are_refused() {
    let mut h = harness();
    let mut entry = dto("b", "c", &[]);
    entry.transport = "  ".to_string();
    let err = match h.add(entry, &kind_none(), &[]) {
        Err(err) => err,
        Ok(_) => panic!("must be refused"),
    };
    assert_eq!(err.message, "MCP transport must not be empty");
    let err = h.edit("ghost", dto("b", "c", &[]), None).unwrap_err();
    assert_eq!(err.kind, ErrorKind::NotFound);
    assert_eq!(err.message, "MCP server ghost not found");
    assert_eq!(h.delete("ghost", None).unwrap_err().kind, ErrorKind::NotFound);
}

#[test]
fn a_rename_without_agents_is_recorded_at_once() {
    let mut h = harness();
    let rec = record("lone", "c", &[]);
    h.store.insert_mcp_server(rec.clone()).unwrap();
    let outcome = h.edit(&rec.id, dto("sole", "c", &[]), None).unwrap();
    assert!(outcome.applied.is_empty() && outcome.pending_drift.is_empty());
    let stored = h.server(&rec.id).unwrap();
    assert_eq!(stored.name, "sole");
    assert!(stored.updated_at > rec.updated_at);
    assert_eq!(stored.created_at, rec.created_at);
}

#[test]
fn writing_the_same_definition_again_asks_for_nothing() {
    let mut h = harness();
    let rec = record("again", "npx", &["-y", "@o/again"]);
    h.store.insert_mcp_server(rec.clone()).unwrap();
    h.sync(&rec.id, "opencode", None).unwrap();
    let text = h.text("opencode");
    assert!(matches!(h.sync(&rec.id, "opencode", None).unwrap(), WriteOutcome::Applied));
    assert_eq!(h.text("opencode"), text);
    assert_eq!(h.bindings(&rec.id).len(), 1);
}

#[test]
fn a_removal_from_a_vanished_file_only_fixes_the_ledger() {
    let mut h = harness();
    let rec = record("van", "npx", &["-y", "@o/van"]);
    h.store.insert_mcp_server(rec.clone()).unwrap();
    h.sync(&rec.id, "opencode", None).unwrap();
    h.files.remove("opencode");
    assert!(matches!(h.unsync(&rec.id, "opencode", None).unwrap(), WriteOutcome::Applied));
    assert!(h.bindings(&rec.id).is_empty());
    assert!(!h.files.contains_key("opencode"));
}

#[test]
fn an_unreadable_config_is_an_io_error() {
    let rec = record("io", "c", &[]);
    let writer = writer_for_agent("opencode").unwrap();
    let err = plan_write(
        &rec,
        "opencode",
        &writer,
        WriteOp::Upsert,
        None,
        None,
        &ConfigRead::Failed("permission denied".to_string()),
    )
    .unwrap_err();
    assert_eq!(err.kind, ErrorKind::Io);
    assert_eq!(err.message, "permission denied");
}

#[test]
fn takeover_of_an_absent_entry_is_not_found() {
    let mut h = harness();
    h.write("opencode", "{}");
    let err = h.takeover("opencode", "ghost").unwrap_err();
    assert_eq!(err.kind, ErrorKind::NotFound);
    assert_eq!(err.message, "no MCP entry \"ghost\" in agent 'opencode' config");
    h.write("opencode", "// not json");
    assert_eq!(h.takeover("opencode", "ghost").unwrap_err().kind, ErrorKind::InvalidInput);
}

#[test]
fn a_renamed_agent_reads_as_done_on_a_second_attempt() {
    let mut h = harness();
    let rec = record("one", "npx", &["-y", "@o/one"]);
    h.store.insert_mcp_server(rec.clone()).unwrap();
    h.sync(&rec.id, "a1", None).unwrap_err();
    h.write("a1", "{}");
    h.sync(&rec.id, "a1", None).unwrap();
    let mut renamed = rec.clone();
    renamed.name = "two".to_string();
    // The file is renamed, but the definition is not recorded yet.
    assert!(matches!(
        h.perform(Job::Rename, &rec, &renamed, "a1", None).unwrap(),
        WriteOutcome::Applied
    ));
    assert!(matches!(
        h.perform(Job::Gate, &rec, &renamed, "a1", None).unwrap(),
        WriteOutcome::Applied
    ));
    let text = h.text("a1");
    assert!(matches!(
        h.perform(Job::Rename, &rec, &renamed, "a1", None).unwrap(),
        WriteOutcome::Applied
    ));
    assert_eq!(h.text("a1"), text);
}

#[test]
fn operations_over_the_fleet_are_logged() {
    let mut h = harness();
    let rec = record("one", "npx", &["-y", "@o/one"]);
    h.store.insert_mcp_server(rec.clone()).unwrap();
    h.sync(&rec.id, "opencode", None).unwrap();
    let now = h.tick();
    let run = edit_mcp_server(
        &mut h.store,
        &rec.id,
        dto("two", "npx", &["-y", "@o/one"]),
        &kind_none(),
        no_clone,
        &why,
        None,
        now,
    );
    let run = match run {
        Ok(run) => run,
        Err(e) => panic!("{e:?}"),
    };
    assert!(audit_run(&run).is_none(), "nothing is logged before it is over");
    let run = h.lead(run);
    let entry = audit_run(&run).unwrap();
    assert_eq!(entry.action, "mcp_rename");
    assert_eq!(entry.server_name, "two");
    assert_eq!(entry.detail, "from \"one\"; agents: opencode");

    h.write("opencode", &entry_json("two", "tampered", &[]));
    let now = h.tick();
    let run = match delete_mcp_server(&mut h.store, &rec.id, None, now) {
        Ok(run) => run,
        Err(e) => panic!("{e:?}"),
    };
    let run = h.lead(run);
    let entry = audit_run(&run).unwrap();
    assert_eq!(entry.detail, "kept: drift confirmation pending");
    assert_eq!(entry.failure.as_deref(), Some("pending drift confirmation"));
}

/// The same in the harness's own format: what a definition would read back as is rendered through
/// its blank document.
#[test]
fn variant_dot_flags_a_divergent_harness_entry() {
    let key = "deepseek_harness";
    let mut h = harness();
    let writer = h.resolve(key).unwrap();
    let blank = writer.empty_doc().to_string();
    h.write(key, &blank);
    let other = record("gem", "/other/gem", &["--x"]);
    let text = writer
        .upsert(&blank, &skills_manager::mcp_library::entry_from_record(&other))
        .unwrap();
    h.write(key, &text);
    let rec = record("gem", "npx", &["-y", "@mcp/gem"]);
    h.store.insert_mcp_server(rec.clone()).unwrap();
    h.takeover(key, "gem").unwrap();

    let report = h.library();
    assert!(report.servers[0].bindings[0].variant);
    assert!(!report.servers[0].bindings[0].drift);

    h.sync(&rec.id, key, None).unwrap();
    let report = h.library();
    assert!(!report.servers[0].bindings[0].variant);
    assert!(!report.servers[0].bindings[0].drift);
}

/// The revision that a retry is confirmed for is the one that was asked about.
#[test]
fn a_confirmed_edit_writes_the_text_that_was_shown() {
    let mut h = harness();
    let rec = record("rt", "npx", &["-y", "@o/rt"]);
    h.store.insert_mcp_server(rec.clone()).unwrap();
    h.sync(&rec.id, "opencode", None).unwrap();
    h.write("opencode", &entry_json("rt", "tampered", &["x"]));
    let first = h.edit(&rec.id, dto("rt", "node", &["/srv/i.js"]), None).unwrap();
    let revision = h.server(&rec.id).unwrap().updated_at;
    let shown = first.pending_drift[0].planned_text.clone();
    let token = first.pending_drift[0].token.clone();
    let second = h.edit(&rec.id, dto("rt", "node", &["/srv/i.js"]), Some(&token)).unwrap();
    assert!(second.pending_drift.is_empty());
    assert_eq!(h.server(&rec.id).unwrap().updated_at, revision);
    assert_eq!(h.text("opencode"), shown);
    assert_eq!(h.bindings(&rec.id).len(), 1);
}

#[test]
fn a_confirmed_removal_takes_the_entry_out() {
    let mut h = harness();
    let rec = record("gone", "npx", &[]);
    h.store.insert_mcp_server(rec.clone()).unwrap();
    h.sync(&rec.id, "opencode", None).unwrap();
    h.write("opencode", &entry_json("gone", "tampered", &[]));
    let drift = pending(h.unsync(&rec.id, "opencode", None).unwrap());
    h.unsync(&rec.id, "opencode", Some(&drift.token)).unwrap();
    assert_eq!(h.text("opencode"), drift.planned_text);
    assert!(h.bindings(&rec.id).is_empty());
}

/// Agents that took the first attempt take the retry too, without asking.
#[test]
fn a_retried_edit_reaches_every_agent() {
    let mut h = harness();
    let rec = record("rt", "npx", &["-y", "@o/rt"]);
    h.store.insert_mcp_server(rec.clone()).unwrap();
    for key in ["a1", "a2", "opencode"] {
        h.write(key, "{}");
        h.sync(&rec.id, key, None).unwrap();
    }
    h.write("a2", &entry_json("rt", "tampered", &["x"]));
    let first = h.edit(&rec.id, dto("rt", "node", &["/srv/i.js"]), None).unwrap();
    assert_eq!(first.applied, vec!["a1".to_string(), "opencode".to_string()]);
    assert_eq!(first.pending_drift.len(), 1);
    let revision = h.server(&rec.id).unwrap().updated_at;
    let drift = &first.pending_drift[0];
    let second =
        h.edit(&rec.id, dto("rt", "node", &["/srv/i.js"]), Some(&drift.token)).unwrap();
    assert!(second.pending_drift.is_empty());
    assert_eq!(second.applied.len(), 3);
    assert_eq!(h.text("a2"), drift.planned_text);
    assert_eq!(h.server(&rec.id).unwrap().updated_at, revision);
    assert_eq!(h.bindings(&rec.id).len(), 3);
}

#[test]
fn a_malformed_source_is_refused_with_its_reason() {
    let mut h = harness();
    let err = match h.add(dto("m", "npx", &[]), &json(r#"{"kind":"npx"}"#), &[]) {
        Err(err) => err,
        Ok(_) => panic!("a source without its package must be refused"),
    };
    assert_eq!(err.kind, ErrorKind::InvalidInput);
    assert_eq!(err.message, r#"invalid upstream source: no source in {"kind":"npx"}"#);
    assert!(h.store.get_all_mcp_servers().is_empty());

    let mut rec = record("up", "node", &[]);
    rec.source = json(r#"{"kind":"npm_global","package":1}"#);
    h.store.insert_mcp_server(rec.clone()).unwrap();
    let err = match h.upgrade_plan(&rec.id, &[]) {
        Err(err) => err,
        Ok(_) => panic!("a source without its package must be refused"),
    };
    assert_eq!(err.kind, ErrorKind::InvalidInput);
    assert!(err.message.starts_with("invalid upstream source: no source in {"));
}

#[test]
fn only_a_git_source_is_cloned_and_only_once() {
    let cloned = std::cell::RefCell::new(Vec::new());
    let clone = |url: &String| -> Result<String, String> {
        cloned.borrow_mut().push(url.clone());
        Ok("/c".to_string())
    };
    let mut store = SkillStore::new();
    let npx = json(r#"{"kind":"npx","package":"p"}"#);
    let git = json(r#"{"kind":"git","repo_url":"https://h.x/o/r","clone_path":""}"#);
    let bad = json(r#"{"kind":"svn"}"#);
    let mut add = |name: &str, source: &Json| {
        let id = format!("id {name}");
        add_mcp_server(&mut store, dto(name, "c", &[]), source, &clone, &why, Vec::new(), id, 1).is_ok()
    };
    assert!(add("n", &npx));
    assert!(!add("b", &bad));
    assert!(!add("a/b", &git));
    assert!(cloned.borrow().is_empty());
    assert!(add("g", &git));
    assert_eq!(cloned.take(), vec!["https://h.x/o/r".to_string()]);
}
