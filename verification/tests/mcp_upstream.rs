use std::cell::RefCell;

use skills_manager::env_map::EnvMap;
use skills_manager::json::{json_text, parse_json, Json};
use skills_manager::mcp_store::{McpServerRecord, SkillStore};
use skills_manager::mcp_upstream::checks::{
    check_one, check_servers, find_package_dir, local_version, npx_cache_dirs_in, npx_candidate,
};
use skills_manager::mcp_upstream::clones::{
    clone_slug, clone_target, ensure_git_clone, remote_head, reset_revision, update_branch, CloneStep,
};
use skills_manager::mcp_upstream::{
    command_step, infer_source, npm_latest_version, parse_source, pypi_latest_version,
    run_commands, semver_less, source_to_json, upgrade_commands,
    upgrade_commands_for_source, CommandEvent, McpSource,
};

fn json(text: &str) -> Json {
    parse_json(text).unwrap()
}

fn s(args: &[&str]) -> Vec<String> {
    args.iter().map(|a| a.to_string()).collect()
}

fn record_with(source: Json) -> McpServerRecord {
    McpServerRecord {
        id: "srv-id".to_string(),
        name: "srv".to_string(),
        transport: "stdio".to_string(),
        command: None,
        args: Vec::new(),
        url: None,
        env: EnvMap::new(),
        source,
        update_status: "unknown".to_string(),
        remote_version: None,
        last_checked_at: None,
        last_check_error: None,
        probe_status: "pending".to_string(),
        probe_message: None,
        probe_checked_at: None,
        created_at: 0,
        updated_at: 0,
    }
}

/// What is wrong with a value that is no source.
fn why(value: &Json) -> String {
    format!("no source in {}", json_text(value))
}

#[test]
fn source_serializes_with_kind_tag() {
    assert_eq!(source_to_json(&McpSource::Unknown), json(r#"{ "kind": "none" }"#));
    assert_eq!(
        source_to_json(&McpSource::NpmGlobal {
            package: "@agentmemory/mcp".into()
        }),
        json(r#"{ "kind": "npm_global", "package": "@agentmemory/mcp" }"#)
    );
    assert_eq!(
        source_to_json(&McpSource::Git {
            repo_url: "https://github.com/o/r.git".into(),
            clone_path: "/tmp/mcp-sources/o-r".into(),
        }),
        json(
            r#"{
            "kind": "git",
            "repo_url": "https://github.com/o/r.git",
            "clone_path": "/tmp/mcp-sources/o-r"
        }"#
        )
    );
    // The DB default column value round-trips.
    assert_eq!(parse_source(&json(r#"{"kind":"none"}"#), &why).unwrap(), McpSource::Unknown);
    assert!(parse_source(&json(r#""garbage""#), &why).is_err());
    assert_eq!(
        parse_source(&json(r#""garbage""#), &why).unwrap_err(),
        "invalid upstream source: no source in \"garbage\""
    );
}

#[test]
fn infer_npx() {
    assert_eq!(
        infer_source(Some("npx"), &s(&["-y", "@scope/pkg"])),
        McpSource::Npx {
            package: "@scope/pkg".into()
        }
    );
    // Value-consuming flags skip both the flag and its value.
    assert_eq!(
        infer_source(Some("npx"), &s(&["--package", "@scope/tool", "run-tool"])),
        McpSource::Npx {
            package: "run-tool".into()
        }
    );
    // Version specifiers trim to the bare name…
    assert_eq!(
        infer_source(Some("npx"), &s(&["-y", "fig@latest"])),
        McpSource::Npx {
            package: "fig".into()
        }
    );
    // …absolute npx paths classify like the bare command…
    assert_eq!(
        infer_source(Some("/Users/x/.fnm/node-versions/v24/bin/npx"), &s(&["-y", "pkg"])),
        McpSource::Npx {
            package: "pkg".into()
        }
    );
    // …and no positional at all is not a source.
    assert_eq!(infer_source(Some("npx"), &s(&["-y"])), McpSource::Unknown);
}

#[test]
fn infer_npm_global_from_absolute_node_path() {
    assert_eq!(
        infer_source(
            Some("/Users/x/.local/share/fnm/node-versions/v24.15.0/installation/bin/node"),
            &s(&[
                "/Users/x/.local/share/fnm/node-versions/v24.15.0/installation/lib/node_modules/@agentmemory/mcp/bin.mjs"
            ]),
        ),
        McpSource::NpmGlobal {
            package: "@agentmemory/mcp".into()
        }
    );
    // Unscoped and bun spellings.
    assert_eq!(
        infer_source(Some("node"), &s(&["/opt/app/node_modules/tool/dist/index.js"])),
        McpSource::NpmGlobal {
            package: "tool".into()
        }
    );
    assert_eq!(
        infer_source(Some("bun"), &s(&["./x/node_modules/pkg/main.js"])),
        McpSource::NpmGlobal {
            package: "pkg".into()
        }
    );
    // A bare script launch has no upstream we can name.
    assert_eq!(
        infer_source(Some("node"), &s(&["server.js"])),
        McpSource::Unknown
    );
}

#[test]
fn infer_uvx_and_rejects() {
    assert_eq!(
        infer_source(Some("uvx"), &s(&["mcp-server-fetch"])),
        McpSource::PypiUvx {
            package: "mcp-server-fetch".into()
        }
    );
    assert_eq!(
        infer_source(Some("uvx"), &s(&["--from", "some-pkg", "server-entry"])),
        McpSource::PypiUvx {
            package: "some-pkg".into()
        }
    );
    assert_eq!(infer_source(Some("python3"), &s(&["-m", "x"])), McpSource::Unknown);
    assert_eq!(infer_source(None, &s(&[])), McpSource::Unknown);
}

#[test]
fn semver_less_table() {
    assert!(semver_less("1.9.20", "1.9.29"));
    assert!(!semver_less("1.9.29", "1.9.20"));
    assert!(!semver_less("1.9.29", "1.9.29"));
    assert!(semver_less("1.9.20", "1.10.0")); // numeric, not lexical
    assert!(!semver_less("v1.2.3", "1.2.3")); // v-prefix tolerated
    assert!(!semver_less("1.2", "1.2.0")); // zero padding
    assert!(semver_less("1.2", "1.2.1"));
    assert!(!semver_less("1.2.3-beta.1", "1.2.3")); // prerelease stripped
    assert!(semver_less("1.2.3+build", "1.2.4")); // build suffix stripped
    assert!(semver_less("", "1.0.0"));
    assert!(!semver_less("2.0.0", "1.9.9"));
}

#[test]
fn clone_slug_uses_last_two_key_segments() {
    assert_eq!(
        clone_slug("https://github.com/agentmemory/mcp-server.git"),
        "agentmemory-mcp-server"
    );
    assert_eq!(clone_slug("git@github.com:o/r.git"), "o-r");
    // Refusals fall back to the raw url, sanitized.
    let odd = clone_slug("https://gitlab.example.com/team group/My.Repo");
    assert!(
        odd.chars().all(|c| c.is_ascii_alphanumeric() || c == '-'),
        "slug is filesystem-safe: {odd}"
    );
    assert!(!odd.is_empty());
}

#[test]
fn registry_parsers_read_canned_payloads() {
    assert_eq!(
        npm_latest_version(&json(r#"{"name": "p", "version": "0.9.30"}"#)).as_deref(),
        Some("0.9.30")
    );
    assert_eq!(npm_latest_version(&json("{}")), None);
    assert_eq!(npm_latest_version(&json(r#"{"version": ""}"#)), None);
    assert_eq!(
        pypi_latest_version(&json(r#"{"info": {"version": "1.2.3", "name": "mcp"}}"#)).as_deref(),
        Some("1.2.3")
    );
    assert_eq!(pypi_latest_version(&json(r#"{"info": {}}"#)), None);
}

#[test]
fn npx_cache_dirs_finds_scoped_and_unscoped_installs() {
    let root = "/home/u/.npm/_npx";
    // What the cache holds: hash directories with a package each, and an empty one.
    let layout = [("ccc333", "@scope/pkg"), ("aaa111", "@scope/pkg"), ("bbb222", "other")];
    let installed: Vec<String> = layout.iter().map(|(h, p)| npx_candidate(root, h, p)).collect();
    let dirs = |package: &str| {
        let hashes: Vec<String> = ["ccc333", "ddd444", "aaa111", "bbb222"]
            .iter()
            .filter(|h| installed.contains(&npx_candidate(root, h, package)))
            .map(|h| h.to_string())
            .collect();
        npx_cache_dirs_in(root, package, &hashes)
    };
    assert_eq!(
        dirs("@scope/pkg"),
        s(&[
            "/home/u/.npm/_npx/aaa111/node_modules/@scope/pkg",
            "/home/u/.npm/_npx/ccc333/node_modules/@scope/pkg",
        ]),
        "sorted by hash dir, scoped package spans two segments"
    );
    assert_eq!(dirs("other"), s(&["/home/u/.npm/_npx/bbb222/node_modules/other"]));
    assert_eq!(dirs("missing"), Vec::<String>::new());
}

#[test]
fn upgrade_commands_per_source_kind() {
    let none: Vec<String> = Vec::new();
    let commands = |source: &str| upgrade_commands(&record_with(json(source)), &none, &why);
    assert_eq!(
        commands(r#"{"kind":"npm_global","package":"@scope/pkg"}"#).unwrap(),
        vec!["npm i -g '@scope/pkg@latest'".to_string()]
    );
    assert_eq!(
        commands(r#"{"kind":"pypi_uvx","package":"mcp-server-fetch"}"#).unwrap(),
        vec!["uv cache clean 'mcp-server-fetch'".to_string()]
    );
    assert_eq!(
        commands(
            r#"{
            "kind": "git",
            "repo_url": "https://github.com/o/r.git",
            "clone_path": "/tmp/mcp sources/o-r"
        }"#
        )
        .unwrap(),
        vec!["git -C '/tmp/mcp sources/o-r' pull --ff-only".to_string()]
    );
    // None source refuses, and so does a corrupt tag (not silently "none").
    assert_eq!(commands(r#"{"kind":"none"}"#).unwrap_err(), "no upstream source");
    assert!(commands(r#""garbage""#).unwrap_err().contains("invalid upstream source"));
}

#[test]
fn upgrade_commands_quote_escaping_is_posix_safe() {
    let cmds = upgrade_commands(
        &record_with(json(r#"{"kind": "npm_global", "package": "we'ird"}"#)),
        &Vec::new(),
        &why,
    )
    .unwrap();
    assert_eq!(cmds, vec!["npm i -g 'we'\\''ird@latest'".to_string()]);
}

#[test]
fn upgrade_commands_npx_without_cache_entries_refuses() {
    // A package nobody has ever npx'd must not produce an empty plan.
    let err = upgrade_commands(
        &record_with(json(
            r#"{"kind": "npx", "package": "skills-manager-test-package-does-not-exist"}"#,
        )),
        &Vec::new(),
        &why,
    )
    .unwrap_err();
    assert_eq!(err, "no npx cache entries to clear");
}

#[test]
fn npx_upgrades_clear_every_cache_directory() {
    assert_eq!(
        upgrade_commands_for_source(
            &McpSource::Npx { package: "p".into() },
            &s(&["/c/a/node_modules/p", "/c/it's/node_modules/p"]),
        )
        .unwrap(),
        s(&["rm -rf '/c/a/node_modules/p'", "rm -rf '/c/it'\\''s/node_modules/p'"])
    );
}

// ── check_one dispatch table (injected probes) ──

fn no_git(_: &String) -> Result<(String, String), String> {
    Err("git probe not expected".to_string())
}

fn no_http(_: &String) -> Result<Json, String> {
    Err("no http expected".to_string())
}

#[test]
fn check_one_npm_arms_hit_registry_url_and_compare_versions() {
    let seen: RefCell<Vec<String>> = RefCell::new(Vec::new());
    let http = |url: &String| -> Result<Json, String> {
        seen.borrow_mut().push(url.to_string());
        Ok(json(r#"{ "version": "0.9.30" }"#))
    };
    let local = "0.9.29".to_string();
    for source in [
        McpSource::NpmGlobal {
            package: "@agentmemory/mcp".into(),
        },
        McpSource::Npx {
            package: "@agentmemory/mcp".into(),
        },
    ] {
        let outcome = check_one(&source, Some(&local), &http, &no_git);
        assert_eq!(
            seen.borrow().last().map(String::as_str),
            Some("https://registry.npmjs.org/@agentmemory%2Fmcp/latest"),
            "scoped name uses %2F, keeps the literal @ ({source:?})"
        );
        assert_eq!(outcome.latest.as_deref(), Some("0.9.30"));
        assert!(outcome.behind, "0.9.29 < 0.9.30");
        assert!(outcome.error.is_none());
    }
    // Equal and unknown-local cases never claim "behind".
    let current = "0.9.30".to_string();
    let outcome = check_one(
        &McpSource::Npx { package: "p".into() },
        Some(&current),
        &http,
        &no_git,
    );
    assert!(!outcome.behind);
    let outcome = check_one(&McpSource::Npx { package: "p".into() }, None, &http, &no_git);
    assert!(!outcome.behind);
    assert_eq!(outcome.latest.as_deref(), Some("0.9.30"));
}

#[test]
fn check_one_pypi_arm_and_failures() {
    let seen: RefCell<Vec<String>> = RefCell::new(Vec::new());
    let http = |url: &String| -> Result<Json, String> {
        seen.borrow_mut().push(url.to_string());
        Ok(json(r#"{ "info": { "version": "2025.1.1" } }"#))
    };
    let outcome = check_one(
        &McpSource::PypiUvx { package: "mcp-server-fetch".into() },
        None,
        &http,
        &no_git,
    );
    assert_eq!(
        seen.borrow().last().map(String::as_str),
        Some("https://pypi.org/pypi/mcp-server-fetch/json")
    );
    assert_eq!(outcome.latest.as_deref(), Some("2025.1.1"));

    // Error object in payload: no version → check error, never panic.
    let bad = |_: &String| -> Result<Json, String> { Ok(json(r#"{ "message": "not found" }"#)) };
    let outcome = check_one(
        &McpSource::Npx { package: "p".into() },
        None,
        &bad,
        &no_git,
    );
    assert_eq!(
        outcome.error.as_deref(),
        Some("npm registry response for p has no version")
    );
    assert!(outcome.latest.is_none());
    let outcome = check_one(&McpSource::PypiUvx { package: "p".into() }, None, &bad, &no_git);
    assert_eq!(
        outcome.error.as_deref(),
        Some("PyPI response for p has no info.version")
    );

    // Transport failure surfaces verbatim-ish as an error outcome.
    let down = |_: &String| -> Result<Json, String> { Err("connection refused".to_string()) };
    let outcome = check_one(&McpSource::Unknown, None, &down, &no_git);
    assert_eq!(outcome.error.as_deref(), Some("no upstream source"));
    let outcome = check_one(&McpSource::Npx { package: "p".into() }, None, &down, &no_git);
    assert_eq!(outcome.error.as_deref(), Some("connection refused"));
}

#[test]
fn check_one_git_arm_behind_is_oid_difference() {
    let same = |_: &String| -> Result<(String, String), String> {
        Ok(("aaa".to_string(), "aaa".to_string()))
    };
    let moved = |_: &String| -> Result<(String, String), String> {
        Ok(("aaa".to_string(), "bbb".to_string()))
    };
    let source = McpSource::Git {
        repo_url: "https://github.com/o/r.git".into(),
        clone_path: "/tmp/x".into(),
    };
    let outcome = check_one(&source, None, &no_http, &same);
    assert!(!outcome.behind);
    assert_eq!(outcome.latest.as_deref(), Some("aaa"));
    let outcome = check_one(&source, None, &no_http, &moved);
    assert!(outcome.behind);
    assert_eq!(outcome.latest.as_deref(), Some("bbb"));
    let outcome = check_one(&source, None, &no_http, &no_git);
    assert_eq!(outcome.error.as_deref(), Some("git probe not expected"));
}

#[test]
fn local_version_reads_package_json_next_to_the_launch_path() {
    let pkg_dir = "/opt/lib/node_modules/@scope/pkg";
    let manifest = r#"{ "name": "@scope/pkg", "version": "1.4.7" }"#;
    let read = |dir: Option<String>| match dir {
        Some(dir) if dir == pkg_dir => Some(manifest.to_string()),
        _ => None,
    };
    let source = parse_source(&json(r#"{ "kind": "npm_global", "package": "@scope/pkg" }"#), &why).unwrap();
    let command = "/opt/fnm/bin/node".to_string();
    let none: Vec<String> = Vec::new();

    let args = vec![format!("{pkg_dir}/bin.mjs")];
    let dir = find_package_dir(Some(&command), &args, &source, &none);
    assert_eq!(local_version(read(dir)).as_deref(), Some("1.4.7"));

    // Unreadable layout degrades to None, never an error.
    let args = s(&["/somewhere/else/bin.mjs"]);
    let dir = find_package_dir(Some(&command), &args, &source, &none);
    assert_eq!(dir, None);
    assert_eq!(local_version(read(dir)), None);
    assert_eq!(local_version(Some("{ broken".to_string())), None);

    // npx packages are read from the first cache directory.
    let npx = McpSource::Npx { package: "p".into() };
    assert_eq!(
        find_package_dir(None, &none, &npx, &s(&["/c/1", "/c/2"])).as_deref(),
        Some("/c/1")
    );
}

#[test]
fn check_servers_persists_the_dispatch_results() {
    let mut store = SkillStore::new();
    let mut behind =
        record_with(json(r#"{ "kind": "npx", "package": "sm-check-fixture-absent" }"#));
    behind.id = "s-behind".into();
    behind.name = "behind-srv".into();
    let mut none = record_with(json(r#"{ "kind": "none" }"#));
    none.id = "s-none".into();
    none.name = "none-srv".into();
    let mut corrupt = record_with(json("[]"));
    corrupt.id = "s-corrupt".into();
    corrupt.name = "corrupt-srv".into();
    for r in [&behind, &none, &corrupt] {
        store.insert_mcp_server(r.clone()).unwrap();
    }

    let http = |_: &String| -> Result<Json, String> { Ok(json(r#"{ "version": "2.0.0" }"#)) };
    let unknown = |_: &McpServerRecord, _: &McpSource| -> Option<String> { None };
    let servers = vec![behind, none, corrupt];
    let results = check_servers(&mut store, &servers, &unknown, &http, &no_git, &why, 77);
    assert_eq!(results.len(), 3);

    // npx package with no cache entry anywhere: local unknown → latest only, "up_to_date" (no
    // false badge).
    let r = store.get_mcp_server_by_id("s-behind").unwrap();
    assert_eq!(r.update_status, "up_to_date");
    assert_eq!(r.remote_version.as_deref(), Some("2.0.0"));
    assert!(r.last_check_error.is_none());
    assert_eq!(r.last_checked_at, Some(77));

    // Kind-none records report an error state, mirroring skills checks.
    let r = store.get_mcp_server_by_id("s-none").unwrap();
    assert_eq!(r.update_status, "error");
    assert_eq!(r.last_check_error.as_deref(), Some("no upstream source"));
    let r = store.get_mcp_server_by_id("s-corrupt").unwrap();
    assert_eq!(r.update_status, "error");
    assert_eq!(
        r.last_check_error.as_deref(),
        Some("invalid upstream source: no source in []")
    );

    // An installed version that is older claims an update.
    let old = |_: &McpServerRecord, _: &McpSource| -> Option<String> { Some("1.9.9".to_string()) };
    check_servers(&mut store, &servers, &old, &http, &no_git, &why, 78);
    let r = store.get_mcp_server_by_id("s-behind").unwrap();
    assert_eq!(r.update_status, "update_available");
    assert_eq!(r.updated_at, 0);
}

// ── clones ──

#[test]
fn clones_live_below_the_cache_root() {
    assert_eq!(
        clone_target("/base/mcp-sources", "git@github.com:O/R.git"),
        "/base/mcp-sources/o-r"
    );
    assert_eq!(clone_slug("https://github.com/a.b/c_d"), "a-b-c-d");
    assert_eq!(clone_slug("   "), "mcp-source");
}

#[test]
fn a_directory_that_is_no_clone_is_left_alone() {
    assert_eq!(ensure_git_clone("/c/o-r", true, true).unwrap(), CloneStep::Update);
    assert_eq!(ensure_git_clone("/c/o-r", false, false).unwrap(), CloneStep::Fresh);
    assert_eq!(
        ensure_git_clone("/c/o-r", false, true).unwrap_err(),
        "/c/o-r exists but is not a git clone"
    );
}

#[test]
fn updates_follow_the_given_branch_or_the_one_checked_out() {
    let some = |b: &str| Some(b.to_string());
    assert_eq!(update_branch(some("dev"), some("main")).unwrap(), "dev");
    assert_eq!(update_branch(some(""), some("main")).unwrap(), "main");
    assert_eq!(
        update_branch(None, some("HEAD")).unwrap_err(),
        "clone HEAD is detached and no branch was given"
    );
}

#[test]
fn ensure_git_clone_refuses_dirty_trees_and_ignores_untracked() {
    // Untracked leftovers (an npm install in the clone) must not block.
    let untracked = git2::Status::WT_NEW.bits();
    assert_eq!(reset_revision("main", &vec![untracked]).unwrap(), "origin/main");
    assert_eq!(
        reset_revision("main", &vec![git2::Status::IGNORED.bits()]).unwrap(),
        "origin/main"
    );
    // Local edits, staged or not: refuse.
    for changed in [
        git2::Status::INDEX_NEW,
        git2::Status::INDEX_MODIFIED,
        git2::Status::INDEX_DELETED,
        git2::Status::INDEX_RENAMED,
        git2::Status::INDEX_TYPECHANGE,
        git2::Status::WT_MODIFIED,
        git2::Status::WT_DELETED,
        git2::Status::WT_RENAMED,
        git2::Status::WT_TYPECHANGE,
    ] {
        assert_eq!(
            reset_revision("main", &vec![untracked, changed.bits()]).unwrap_err(),
            "clone has local changes"
        );
    }
}

#[test]
fn the_remote_head_is_that_of_the_branch_or_of_the_remote() {
    let refs = vec![
        ("HEAD".to_string(), "h".to_string()),
        ("refs/heads/dev".to_string(), "d".to_string()),
    ];
    assert_eq!(remote_head(Some("dev".to_string()), &refs).unwrap(), "d");
    assert_eq!(remote_head(Some("main".to_string()), &refs).unwrap(), "h");
    assert_eq!(remote_head(None, &refs).unwrap(), "h");
    assert_eq!(
        remote_head(Some("main".to_string()), &Vec::new()).unwrap_err(),
        "remote has no refs/heads/main or HEAD"
    );
}

// ── running commands ──

/// A shell that knows `echo`, `exit` and `sleep`.
fn shell(limit: u64) -> impl Fn(&String) -> Result<String, String> {
    move |cmd: &String| {
        let mut output = String::new();
        let events = if let Some(text) = cmd.strip_prefix("echo ") {
            vec![
                CommandEvent::Stream(format!("{text}\n")),
                CommandEvent::Stream(String::new()),
                CommandEvent::Exited { success: true, code: Some(0) },
            ]
        } else if let Some(code) = cmd.strip_prefix("exit ") {
            vec![CommandEvent::Exited { success: false, code: code.parse().ok() }]
        } else {
            vec![CommandEvent::TimedOut(limit.to_string())]
        };
        for event in events {
            if let Some(outcome) = command_step(cmd, &mut output, event) {
                return outcome;
            }
        }
        unreachable!("every script ends")
    }
}

#[test]
fn run_commands_aggregates_output() {
    let out = run_commands(&s(&["echo first-part"]), shell(1)).unwrap();
    assert!(out.contains("first-part"), "stdout captured: {out}");

    let out = run_commands(&s(&["echo line-one", "echo line-two"]), shell(1)).unwrap();
    assert!(out.contains("line-one") && out.contains("line-two"));
    assert_eq!(out, "line-one\nline-two\n");
}

#[test]
fn run_commands_stops_at_first_failure_with_exit_code() {
    let err = run_commands(&s(&["echo before", "exit 7", "echo never"]), shell(1)).unwrap_err();
    assert!(err.contains("before"), "output up to the failure kept: {err}");
    assert!(err.contains("exit 7"), "nonzero code surfaced: {err}");
    assert!(!err.contains("never"), "later commands did not run");
    assert_eq!(err, "before\n\n`exit 7` failed (exit 7):\n");
}

#[test]
fn run_commands_kills_and_reports_timeout() {
    let err = run_commands(&s(&["sleep 30"]), shell(4)).unwrap_err();
    assert!(err.contains("timeout"), "message explains the kill: {err}");
    assert_eq!(err, "timeout: `sleep 30` exceeded 4s");
}

#[test]
fn failures_show_code_and_output() {
    let led = |printed: &str, event: CommandEvent| {
        let mut output = printed.to_string();
        command_step("x", &mut output, event).unwrap()
    };
    let exited = |success: bool, code: Option<i32>| CommandEvent::Exited { success, code };
    assert_eq!(
        led("boom \n", exited(false, None)).unwrap_err(),
        "`x` failed (exit -1):\nboom"
    );
    assert_eq!(led("ok \n", exited(true, Some(0))).unwrap(), "ok \n");
    assert_eq!(
        led("", CommandEvent::SpawnFailed("no sh".into())).unwrap_err(),
        "failed to spawn `x`: no sh"
    );
    assert_eq!(
        led("", CommandEvent::WaitFailed("gone".into())).unwrap_err(),
        "wait on `x` failed: gone"
    );
}

#[test]
fn a_missing_npx_cache_holds_nothing() {
    assert_eq!(
        npx_cache_dirs_in("/home/u/.npm/_npx/nope", "@scope/pkg", &Vec::new()),
        Vec::<String>::new()
    );
}

#[test]
fn no_command_runs_behind_a_failure() {
    let ran = std::cell::RefCell::new(Vec::new());
    let run = |c: &String| -> Result<String, String> {
        ran.borrow_mut().push(c.clone());
        if c == "bad" {
            Err("failed".to_string())
        } else {
            Ok(format!("{c}\n"))
        }
    };
    let err = run_commands(&s(&["one", "bad", "never"]), run).unwrap_err();
    assert_eq!(err, "one\n\nfailed");
    assert_eq!(*ran.borrow(), s(&["one", "bad"]));

    ran.borrow_mut().clear();
    assert_eq!(run_commands(&s(&["one", "two"]), run).unwrap(), "one\ntwo\n");
    assert_eq!(*ran.borrow(), s(&["one", "two"]));

    ran.borrow_mut().clear();
    assert_eq!(run_commands(&Vec::new(), run).unwrap(), "");
    assert!(ran.borrow().is_empty());
}

#[test]
fn a_check_asks_only_the_upstream_of_its_source() {
    let asked = std::cell::RefCell::new(Vec::new());
    let http = |url: &String| -> Result<Json, String> {
        asked.borrow_mut().push(url.clone());
        Ok(json(r#"{"version":"0.9.30","info":{"version":"2"}}"#))
    };
    let git = |path: &String| -> Result<(String, String), String> {
        asked.borrow_mut().push(path.clone());
        Ok(("a".to_string(), "b".to_string()))
    };
    let local = "0.9.29".to_string();
    let npx = McpSource::Npx { package: "@agentmemory/mcp".to_string() };
    let outcome = check_one(&npx, Some(&local), &http, &git);
    assert_eq!(outcome.latest.as_deref(), Some("0.9.30"));
    assert!(outcome.behind);
    assert_eq!(
        asked.take(),
        s(&["https://registry.npmjs.org/@agentmemory%2Fmcp/latest"])
    );
    let cloned = McpSource::Git { repo_url: "u".to_string(), clone_path: "/c/r".to_string() };
    assert_eq!(check_one(&cloned, None, &http, &git).latest.as_deref(), Some("b"));
    assert_eq!(asked.take(), s(&["/c/r"]));
    let outcome = check_one(&McpSource::Unknown, None, &http, &git);
    assert_eq!(outcome.error.as_deref(), Some("no upstream source"));
    assert!(asked.take().is_empty());
}
