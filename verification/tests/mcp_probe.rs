use skills_manager::env_map::EnvMap;
use skills_manager::mcp_library::upgrade::{
    apply_mcp_upgrade, check_note, probe_state, upgrade_report, ApplyUpgradeOutcome, ProbeStateDto,
    UpgradeRun,
};
use skills_manager::mcp_probe::environment::{
    extra_user_paths, newest_first, probe_env, probe_path, shell_path, user_bin_dirs,
};
use skills_manager::mcp_probe::{
    http_probe_outcome, initialize_request_line, initialized_notification_line,
    parse_probe_response_body, parse_response_line, probe_entry, probe_http, probe_stdio,
    stdio_step, HttpReply, ProbeInfo, ProbePlan, StdioEvent,
};
use skills_manager::mcp_store::McpServerRecord;
use skills_manager::mcp_upstream::checks::CheckOutcome;
use skills_manager::mcp_writers::McpEntryDef;
use skills_manager::paths::distinct_paths;

fn entry(command: Option<&str>, args: Vec<String>) -> McpEntryDef {
    McpEntryDef {
        name: "probe-target".to_string(),
        transport: "stdio".to_string(),
        command: command.map(str::to_string),
        args,
        url: None,
        env: EnvMap::new(),
    }
}

fn s(list: &[&str]) -> Vec<String> {
    list.iter().map(|a| a.to_string()).collect()
}

// ── pure framing ──

#[test]
fn initialize_request_line_is_newline_delimited_json_rpc() {
    let line = initialize_request_line();
    // Exactly one newline, at the end (single framed message).
    assert_eq!(line.matches('\n').count(), 1);
    assert!(line.ends_with('\n'));
    // Compact form: no embedded newline before the terminator.
    let body = line.trim_end();
    assert!(!body.contains('\n'));

    let value: serde_json::Value = serde_json::from_str(body).unwrap();
    assert_eq!(value["jsonrpc"], "2.0");
    assert_eq!(value["id"], 1);
    assert_eq!(value["method"], "initialize");
    assert_eq!(value["params"]["protocolVersion"], "2025-03-26");
    assert_eq!(
        value["params"]["capabilities"],
        serde_json::Value::Object(serde_json::Map::new())
    );
    assert_eq!(value["params"]["clientInfo"]["name"], "skills-manager");
    assert_eq!(
        line,
        "{\"id\":1,\"jsonrpc\":\"2.0\",\"method\":\"initialize\",\"params\":{\"capabilities\":{},\"clientInfo\":{\"name\":\"skills-manager\",\"version\":\"0\"},\"protocolVersion\":\"2025-03-26\"}}\n"
    );
    assert_eq!(
        initialized_notification_line(),
        "{\"jsonrpc\":\"2.0\",\"method\":\"notifications/initialized\"}\n"
    );
}

#[test]
fn parse_response_line_accepts_matching_result() {
    let line = r#"{"jsonrpc":"2.0","id":1,"result":{"protocolVersion":"2024-11-05","serverInfo":{"name":"fake","version":"0.9.29"}}}"#;
    assert_eq!(
        parse_response_line(line, 1),
        Some(Ok(ProbeInfo {
            server_name: Some("fake".to_string()),
            server_version: Some("0.9.29".to_string()),
        }))
    );
}

#[test]
fn parse_response_line_skips_noise_foreign_ids_and_notifications() {
    // Legal stdout chatter before the first JSON frame.
    assert_eq!(parse_response_line("starting server...", 1), None);
    assert_eq!(parse_response_line("", 1), None);
    assert_eq!(parse_response_line("[1,2]", 1), None);
    // A frame for some other request id is not our response.
    assert_eq!(
        parse_response_line(r#"{"jsonrpc":"2.0","id":7,"result":{}}"#, 1),
        None
    );
    // Notification: no id at all.
    assert_eq!(
        parse_response_line(r#"{"jsonrpc":"2.0","method":"notifications/message"}"#, 1),
        None
    );
    // Malformed JSON that still starts with '{'.
    assert_eq!(parse_response_line(r#"{"broken"#, 1), None);
}

#[test]
fn parse_response_line_reports_json_rpc_errors() {
    let line = r#"{"jsonrpc":"2.0","id":1,"error":{"code":-32601,"message":"boom"}}"#;
    match parse_response_line(line, 1) {
        Some(Err(message)) => {
            assert!(message.contains("boom"), "message kept: {message}");
            assert!(message.contains("-32601"), "code kept: {message}");
        }
        other => panic!("expected Some(Err), got {other:?}"),
    }
}

#[test]
fn parse_response_line_tolerates_missing_server_info() {
    let result = parse_response_line(r#"{"jsonrpc":"2.0","id":1,"result":{}}"#, 1)
        .expect("matching result id")
        .expect("no error object");
    assert_eq!(result, ProbeInfo::default());
}

#[test]
fn sse_response_bodies_are_decoded_from_the_first_data_line() {
    let sse = ": keep-alive\n\nevent: message\ndata: {\"jsonrpc\":\"2.0\",\"id\":1,\"result\":{\"serverInfo\":{\"name\":\"zvec\",\"version\":\"1\"}}}\n\nevent: noise\ndata: {\"jsonrpc\":\"2.0\",\"id\":2,\"result\":{}}\n";
    let parsed = parse_probe_response_body("text/event-stream; charset=utf-8", sse)
        .expect("decidable")
        .expect("initialize result");
    assert_eq!(parsed.server_name.as_deref(), Some("zvec"));
    assert_eq!(parsed.server_version.as_deref(), Some("1"));

    // A stream cut mid-payload is not decidable yet — the reader loop
    // must keep consuming chunks instead of answering from half a body.
    assert!(parse_probe_response_body(
        "text/event-stream",
        "event: message\ndata: {\"jsonrpc\":\"2.0\",\"id\":1,\"res"
    )
    .is_none());

    // Plain JSON bodies keep the old path.
    let json = "{\"jsonrpc\":\"2.0\",\"id\":1,\"result\":{}}";
    assert!(parse_probe_response_body("application/json", json)
        .expect("decidable")
        .is_ok());
    // [DONE] sentinels and empty data lines are skipped, not answered.
    assert!(parse_probe_response_body("text/event-stream", "data: [DONE]\n\n")
        .is_none());
}

#[test]
fn json_rpc_errors_without_code_or_message_are_still_errors() {
    let err = |line: &str| parse_response_line(line, 1).unwrap().unwrap_err();
    assert_eq!(
        err(r#"{"id":1,"error":{"code":-32601,"message":"boom"}}"#),
        "JSON-RPC error -32601: boom"
    );
    assert_eq!(err(r#"{"id":1,"error":{"message":"boom"}}"#), "JSON-RPC error: boom");
    assert_eq!(
        err(r#"{"id":1,"error":{"code":3},"result":{}}"#),
        "JSON-RPC error 3: unspecified JSON-RPC error"
    );
}

// ── probes ──

#[test]
fn probe_stdio_requires_a_command() {
    let mut e = entry(None, Vec::new());
    e.command = None;
    let err = probe_stdio(&e).unwrap_err();
    assert!(err.contains("command"), "message explains what is missing: {err}");
    e.command = Some(String::new());
    assert_eq!(probe_stdio(&e).unwrap_err(), "stdio entry has no command");
}

#[test]
fn probe_http_requires_a_url() {
    let mut e = entry(None, Vec::new());
    e.transport = "http".to_string();
    e.url = None;
    let err = probe_http(&e).unwrap_err();
    assert!(err.contains("url"), "message explains what is missing: {err}");
}

#[test]
fn probe_entry_dispatches_on_transport() {
    match probe_entry(&entry(Some("sh"), s(&["-c", "true"]))).unwrap() {
        ProbePlan::Stdio(p) => {
            assert_eq!(p.command, "sh");
            assert_eq!(p.args, s(&["-c", "true"]));
        }
        other => panic!("expected the stdio arm, got {other:?}"),
    }
    // http arm: a url-less non-stdio entry must be refused by the http probe.
    let mut e = entry(Some("unused"), Vec::new());
    e.transport = "streamable-http".to_string();
    let err = probe_entry(&e).unwrap_err();
    assert!(err.contains("url"), "went down the http arm: {err}");
    e.url = Some("http://h/mcp".to_string());
    assert!(matches!(probe_entry(&e).unwrap(), ProbePlan::Http(url) if url == "http://h/mcp"));
}

#[test]
fn probe_http_posts_initialize_and_reads_server_info() {
    let body = r#"{"jsonrpc":"2.0","id":1,"result":{"serverInfo":{"name":"fake-http","version":"9.9.9"}}}"#;
    let reply = HttpReply::Body {
        content_type: "application/json".to_string(),
        body: body.to_string(),
    };
    let info = http_probe_outcome("http://h/mcp", reply).expect("local responder answers");
    assert_eq!(info.server_name.as_deref(), Some("fake-http"));
    assert_eq!(info.server_version.as_deref(), Some("9.9.9"));
}

#[test]
fn probe_http_surfaces_json_rpc_errors_and_http_status() {
    let body = r#"{"jsonrpc":"2.0","id":1,"error":{"code":-32000,"message":"nope"}}"#;
    let reply = HttpReply::Body {
        content_type: "application/json".to_string(),
        body: body.to_string(),
    };
    let err = http_probe_outcome("http://h/mcp", reply).unwrap_err();
    assert!(err.contains("nope"), "server message kept: {err}");

    // 500 with no JSON: status must be quoted back.
    let refused = HttpReply::Refused("500 Internal Server Error".to_string());
    let err = http_probe_outcome("http://h/mcp", refused).unwrap_err();
    assert!(err.contains("500"), "status kept: {err}");
    assert_eq!(err, "HTTP 500 Internal Server Error from http://h/mcp");

    let outcome = |reply: HttpReply| http_probe_outcome("http://h/mcp", reply).unwrap_err();
    assert_eq!(outcome(HttpReply::TimedOut), "timeout");
    assert_eq!(outcome(HttpReply::NoConnection("refused".into())), "connect failed: refused");
    assert_eq!(outcome(HttpReply::Failed("tls".into())), "tls");
    assert_eq!(
        outcome(HttpReply::Body { content_type: String::new(), body: "hi".into() }),
        "no initialize result in response from http://h/mcp"
    );
}

#[test]
fn a_handshake_goes_on_until_it_is_decided() {
    let line = |text: &str| StdioEvent::Line(text.to_string());
    assert!(stdio_step("srv", &line("starting server...")).is_none());
    assert!(stdio_step("srv", &line(r#"{"id":9,"result":{}}"#)).is_none());
    let info = stdio_step("srv", &line(r#"{"id":1,"result":{"serverInfo":{"name":"n"}}}"#));
    assert_eq!(
        info.unwrap().unwrap(),
        ProbeInfo { server_name: Some("n".to_string()), server_version: None }
    );
    let err = |event: StdioEvent| stdio_step("srv", &event).unwrap().unwrap_err();
    assert_eq!(err(StdioEvent::SpawnFailed("e".into())), "spawn srv failed: e");
    assert_eq!(err(StdioEvent::WriteFailed("e".into())), "write to srv stdin failed: e");
    assert_eq!(err(StdioEvent::NoOutput), "stdio probe: child stdout was not piped");
    assert_eq!(
        err(StdioEvent::TimedOut("15".into())),
        "timeout: srv sent no initialize response within 15s"
    );
    assert_eq!(
        err(StdioEvent::Closed),
        "srv closed stdout without answering the initialize request"
    );
}

#[test]
fn probe_stdio_child_that_exits_immediately_is_an_error_not_a_hang() {
    // /bin/true answers nothing: either the request cannot be written, or its output ends. Both
    // decide the probe, as an error.
    let e = entry(Some("/bin/true"), Vec::new());
    let command = probe_stdio(&e).unwrap().command;
    for event in [StdioEvent::WriteFailed("Broken pipe".to_string()), StdioEvent::Closed] {
        let err = stdio_step(&command, &event).expect("decided").expect_err("no response expected");
        assert!(!err.is_empty());
    }
}

// ── environment ──

#[test]
fn newest_node_versions_come_first_by_number() {
    assert_eq!(
        newest_first(&s(&["v8.0.0", "v24.15.0", "v24.9.1", "v24.9", "junk"])),
        s(&["v24.15.0", "v24.9.1", "v24.9", "v8.0.0", "junk"])
    );
}

#[test]
fn search_paths_name_a_directory_once() {
    assert_eq!(
        distinct_paths(&s(&["/usr/bin", "", "/opt/bin", "/usr//bin/", "/usr/./bin", "bin", "./bin"])),
        s(&["/usr/bin", "/opt/bin", "bin", "./bin"])
    );
    assert_eq!(shell_path(true, " /a:/b \n").as_deref(), Some("/a:/b"));
    assert_eq!(shell_path(true, "  "), None);
    assert_eq!(shell_path(false, "/a"), None);
    assert_eq!(user_bin_dirs("/home/u")[0], "/home/u/.local/bin");
    assert_eq!(user_bin_dirs("/home/u").len(), 5);
    assert_eq!(
        extra_user_paths("/home/u", s(&["/home/u/.cargo/bin"]), &s(&["v8.0.0", "v24.1.0"])),
        s(&[
            "/home/u/.cargo/bin",
            "/home/u/.local/share/fnm/node-versions/v24.1.0/installation/bin",
            "/home/u/.local/share/fnm/node-versions/v8.0.0/installation/bin",
        ])
    );
    assert_eq!(
        probe_path(s(&["/a", "/b"]), &s(&["/b/", "/c"]), &s(&["/a", "/d"])),
        s(&["/a", "/b", "/c", "/d"])
    );
}

#[test]
fn an_entrys_own_variables_win() {
    let base = vec![
        ("PATH".to_string(), "/inherited".to_string()),
        ("HOME".to_string(), "/home/u".to_string()),
    ];
    let mut own = EnvMap::new();
    own.insert("HOME".to_string(), "/elsewhere".to_string());
    own.insert("TOKEN".to_string(), "t".to_string());
    let env = probe_env(&base, "/probed", &own);
    assert_eq!(env.get("PATH").map(String::as_str), Some("/probed"));
    assert_eq!(env.get("HOME").map(String::as_str), Some("/elsewhere"));
    assert_eq!(env.get("TOKEN").map(String::as_str), Some("t"));
    assert_eq!(env.len(), 3);
}

// ── after an upgrade ──

fn record() -> McpServerRecord {
    McpServerRecord {
        id: "i".to_string(),
        name: "n".to_string(),
        transport: "stdio".to_string(),
        command: None,
        args: Vec::new(),
        url: None,
        env: EnvMap::new(),
        source: skills_manager::json::Json::Null,
        update_status: "unknown".to_string(),
        remote_version: Some("2.0.0".to_string()),
        last_checked_at: None,
        last_check_error: None,
        probe_status: "pending".to_string(),
        probe_message: None,
        probe_checked_at: None,
        created_at: 0,
        updated_at: 0,
    }
}

#[test]
fn an_upgrade_runs_only_as_it_was_confirmed() {
    let commands = s(&["echo b", "echo a"]);
    let run = |c: &String| -> Result<String, String> { Ok(format!("ran {c}\n")) };
    match apply_mcp_upgrade(&record(), commands.clone(), &s(&["echo a", "echo b"]), run).unwrap() {
        UpgradeRun::Printed(output) => assert_eq!(output, "ran echo b\nran echo a\n"),
        other => panic!("must run, got {other:?}"),
    }
    match apply_mcp_upgrade(&record(), commands.clone(), &s(&["echo a"]), run).unwrap() {
        UpgradeRun::Changed(plan) => {
            assert_eq!(plan.commands, commands);
            assert_eq!(plan.latest_version.as_deref(), Some("2.0.0"));
        }
        other => panic!("must ask again, got {other:?}"),
    }
    let failing = |_: &String| -> Result<String, String> { Err("no".to_string()) };
    let err = apply_mcp_upgrade(&record(), commands.clone(), &commands, failing).unwrap_err();
    assert_eq!(err.message, "MCP upgrade failed: no");
}

#[test]
fn upgrade_reports_name_the_check_and_the_probe() {
    let outcome = |latest: Option<&str>, behind: bool, error: Option<&str>| CheckOutcome {
        latest: latest.map(str::to_string),
        behind,
        error: error.map(str::to_string),
    };
    assert_eq!(check_note(None), "check skipped");
    assert_eq!(check_note(Some(&outcome(None, false, Some("e")))), "check failed: e");
    assert_eq!(check_note(Some(&outcome(Some("2"), true, None))), "still behind latest 2");
    assert_eq!(check_note(Some(&outcome(Some("2"), false, None))), "latest is 2");
    assert_eq!(check_note(Some(&outcome(None, false, None))), "checked, no remote version");

    let info = |name: Option<&str>, version: Option<&str>| ProbeInfo {
        server_name: name.map(str::to_string),
        server_version: version.map(str::to_string),
    };
    let shown = |r: Result<ProbeInfo, String>| {
        let state = probe_state(r);
        (state.probe_status, state.probe_message.unwrap())
    };
    assert_eq!(shown(Ok(info(Some("n"), Some("1")))), ("ok".to_string(), "n 1".to_string()));
    assert_eq!(shown(Ok(info(None, Some("1")))).1, "1");
    assert_eq!(shown(Ok(info(Some("n"), None))).1, "n");
    assert_eq!(shown(Ok(ProbeInfo::default())).1, "handshake ok");
    assert_eq!(shown(Err("timeout".to_string())), ("fail".to_string(), "timeout".to_string()));

    let probe =
        ProbeStateDto { probe_status: "ok".to_string(), probe_message: Some("n 1".to_string()) };
    match upgrade_report("done".to_string(), None, &probe) {
        ApplyUpgradeOutcome::Ran { output } => {
            assert_eq!(output, "done\n\nversion check: check skipped\nprobe: probe ok: n 1")
        }
        other => panic!("expected a report, got {other:?}"),
    }
}

#[test]
fn a_plan_that_changed_runs_nothing() {
    let ran = std::cell::RefCell::new(Vec::new());
    let run = |c: &String| -> Result<String, String> {
        ran.borrow_mut().push(c.clone());
        Ok(String::new())
    };
    let commands = s(&["echo b", "echo a"]);
    let outcome = apply_mcp_upgrade(&record(), commands.clone(), &s(&["echo a"]), run).unwrap();
    assert!(matches!(outcome, UpgradeRun::Changed(_)));
    assert!(ran.borrow().is_empty());
    let outcome =
        apply_mcp_upgrade(&record(), commands.clone(), &s(&["echo a", "echo b"]), run).unwrap();
    assert!(matches!(outcome, UpgradeRun::Printed(_)));
    assert_eq!(*ran.borrow(), commands);
}
