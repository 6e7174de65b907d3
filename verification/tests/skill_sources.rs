use skills_manager::json::parse_json;
use skills_manager::skill_sources::refresh::{
    FoundSkill, Phase, RefreshEvent, RefreshRun, SkillRecord, UpdateOutcome,
};
use skills_manager::skill_sources::{
    get_skill_sources, wants_description, with_fetched_description, with_user_description,
    SkillSourceRecord,
};
use skills_manager::source_description::{
    description_in, description_url, fetch_github_description,
};

fn source(id: &str, kind: &str) -> SkillSourceRecord {
    SkillSourceRecord {
        id: id.to_string(),
        repo_key: "github.com/o/r".to_string(),
        display_url: "https://github.com/o/r".to_string(),
        branch: None,
        description: Some("before".to_string()),
        description_source: kind.to_string(),
    }
}

fn skill(name: &str, kind: &str, branch: Option<&str>, url: Option<&str>) -> SkillRecord {
    SkillRecord {
        id: format!("id-{name}"),
        name: name.to_string(),
        source_type: kind.to_string(),
        source_branch: branch.map(str::to_string),
        source_subpath: Some(format!("skills/{name}")),
        content_hash: Some(format!("hash-{name}")),
        remote_revision: Some("r0".to_string()),
        clone_url: url.map(str::to_string),
    }
}

#[test]
fn non_github_host_short_circuits_without_network() {
    let get = |_: &String| -> Option<skills_manager::json::Json> { panic!("no request expected") };
    assert_eq!(fetch_github_description("gitlab.com/o/r", get), None);
}

#[test]
fn malformed_keys_return_none_without_network() {
    let get = |_: &String| -> Option<skills_manager::json::Json> { panic!("no request expected") };
    assert_eq!(fetch_github_description("github.com/o", get), None);
    assert_eq!(fetch_github_description("github.com", get), None);
    assert_eq!(description_url("github.com//r"), None);
    assert_eq!(description_url("github.com/o/"), None);
}

#[test]
fn descriptions_are_asked_for_by_owner_and_repo() {
    assert_eq!(
        description_url("github.com/o/r").as_deref(),
        Some("https://api.github.com/repos/o/r")
    );
    let body = parse_json(r#"{"description":"  Useful skills "}"#).unwrap();
    assert_eq!(description_in(&body).as_deref(), Some("Useful skills"));
    for blank in [r#"{"description":"  "}"#, r#"{"description":null}"#, "{}"] {
        assert_eq!(description_in(&parse_json(blank).unwrap()), None);
    }
    let found = fetch_github_description("github.com/o/r", |url: &String| {
        assert_eq!(url, "https://api.github.com/repos/o/r");
        parse_json(r#"{"description":"d"}"#).ok()
    });
    assert_eq!(found.as_deref(), Some("d"));
    assert_eq!(fetch_github_description("github.com/o/r", |_: &String| None), None);
}

#[test]
fn sources_count_their_skills() {
    let links = vec![
        Some("s1".to_string()),
        None,
        Some("s2".to_string()),
        Some("s1".to_string()),
    ];
    let shown = get_skill_sources(
        vec![source("s1", "none"), source("s2", "none"), source("s3", "none")],
        &links,
    );
    let counts: Vec<i64> = shown.iter().map(|s| s.skill_count).collect();
    assert_eq!(counts, vec![2, 1, 0]);
    assert_eq!(shown[0].repo_key, "github.com/o/r");
}

#[test]
fn the_users_description_wins_over_a_fetched_one() {
    let written = with_user_description(source("s", "github"), Some("  mine ".to_string()));
    assert_eq!(written.description.as_deref(), Some("mine"));
    assert_eq!(written.description_source, "user");
    assert!(!wants_description(&written));
    let kept = with_fetched_description(written, Some("theirs".to_string()));
    assert_eq!(kept.description.as_deref(), Some("mine"));

    let fetched = with_fetched_description(source("s", "none"), Some("theirs".to_string()));
    assert_eq!(fetched.description.as_deref(), Some("theirs"));
    assert_eq!(fetched.description_source, "github");
    let gone = with_fetched_description(fetched, None);
    assert_eq!((gone.description.as_deref(), gone.description_source.as_str()), (None, "none"));
    let cleared = with_user_description(gone, Some("   ".to_string()));
    assert_eq!(cleared.description_source, "none");
}

fn found(rel: Option<&str>, installed: bool, name: Option<&str>) -> FoundSkill {
    FoundSkill {
        rel_path: rel.map(str::to_string),
        installed,
        name: name.map(str::to_string),
        dir_name: "dir".to_string(),
        description: None,
    }
}

#[test]
fn a_refresh_goes_once_over_each_branch() {
    let run = RefreshRun::begin(vec![
        skill("a", "git", None, Some("https://github.com/o/r")),
        skill("local", "local", None, None),
        skill("b", "skillssh", Some("dev"), None),
        skill("c", "git", None, None),
    ]);
    // The group of branch `dev` has no clone URL; it is reached after the first one.
    assert_eq!(run.phase(), Phase::Revision);
    assert_eq!(run.clone_url().as_deref(), Some("https://github.com/o/r"));
    assert!(run.branch().is_none());
    let run = run.step(RefreshEvent::Revision(Ok("r1".to_string())));
    assert_eq!(run.phase(), Phase::Checkout);
    assert_eq!(run.revision(), "r1");
    let run = run.step(RefreshEvent::Checkout(Ok(())));
    assert_eq!(run.phase(), Phase::Look);
    assert_eq!(run.skill().name, "a");
    let run = run.step(RefreshEvent::Looked { valid: true, hash: Ok("other".to_string()) });
    assert_eq!(run.phase(), Phase::Update);
    let run = run.step(RefreshEvent::Updated(UpdateOutcome::Applied { content_changed: true }));
    assert_eq!(run.phase(), Phase::Look);
    assert_eq!(run.skill().name, "c");
    let run = run.step(RefreshEvent::Looked { valid: true, hash: Ok("hash-c".to_string()) });
    assert_eq!(run.phase(), Phase::MarkPresent);
    let run = run.step(RefreshEvent::Marked(Err("ignored".to_string())));
    assert_eq!(run.phase(), Phase::Scan);
    let run = run.step(RefreshEvent::Scanned(vec![
        found(Some("skills/a"), true, Some("a")),
        found(Some("skills/n"), false, Some("  ")),
        found(Some("skills/n"), false, Some("twice")),
        found(None, false, Some("root")),
    ]));
    assert_eq!(run.phase(), Phase::Done);
    assert!(run.check_errors().is_empty());
    let result = run.result();
    assert_eq!(result.refreshed, vec!["a"]);
    assert_eq!(result.unchanged, vec!["c"]);
    assert_eq!(
        result.failed,
        vec!["local: not a git-sourced skill", "b: cannot resolve clone URL"]
    );
    let new: Vec<(&str, &str)> =
        result.new_skills.iter().map(|s| (s.rel_path.as_str(), s.name.as_str())).collect();
    assert_eq!(new, vec![("skills/n", "dir"), ("", "root")]);
}

#[test]
fn a_group_that_cannot_be_cloned_fails_for_each_of_its_skills() {
    let skills = || {
        vec![
            skill("a", "git", None, Some("https://github.com/o/r")),
            skill("b", "git", None, None),
        ]
    };
    let run = RefreshRun::begin(skills());
    let run = run.step(RefreshEvent::Revision(Err("offline".to_string())));
    assert_eq!(run.phase(), Phase::Done);
    assert_eq!(run.check_errors().len(), 2);
    assert_eq!(run.check_errors()[0].skill_id, "id-a");
    assert_eq!(run.check_errors()[0].remote_revision.as_deref(), Some("r0"));
    assert_eq!(run.result().failed, vec!["a: offline", "b: offline"]);

    let run = RefreshRun::begin(skills());
    let run = run.step(RefreshEvent::Revision(Ok("r1".to_string())));
    let run = run.step(RefreshEvent::Checkout(Err("denied".to_string())));
    assert_eq!(run.result().failed, vec!["a: denied", "b: denied"]);
}

#[test]
fn vanished_held_and_failing_skills_are_told_apart() {
    let begin = || {
        RefreshRun::begin(vec![
            skill("gone", "git", None, Some("u")),
            skill("held", "git", None, None),
            skill("bad", "git", None, None),
            skill("stop", "git", None, None),
            skill("never", "git", None, None),
        ])
        .step(RefreshEvent::Revision(Ok("r1".to_string())))
        .step(RefreshEvent::Checkout(Ok(())))
    };
    let run = begin().step(RefreshEvent::Looked { valid: false, hash: Err("x".to_string()) });
    assert_eq!(run.phase(), Phase::MarkDeleted);
    let run = run
        .step(RefreshEvent::Marked(Ok(())))
        .step(RefreshEvent::Looked { valid: true, hash: Ok("h".to_string()) })
        .step(RefreshEvent::Updated(UpdateOutcome::Held))
        .step(RefreshEvent::Looked { valid: true, hash: Ok("h".to_string()) })
        .step(RefreshEvent::Updated(UpdateOutcome::Failed("disk full".to_string())))
        .step(RefreshEvent::Looked { valid: true, hash: Err("unreadable".to_string()) });
    assert_eq!(run.phase(), Phase::Scan);
    assert_eq!(run.check_errors().len(), 1);
    assert_eq!(run.check_errors()[0].message, "disk full");
    // What it is not waiting for changes nothing.
    let run = run.step(RefreshEvent::Marked(Ok(())));
    assert_eq!(run.phase(), Phase::Scan);
    let run = run.step(RefreshEvent::Scanned(Vec::new()));
    let result = run.result();
    assert_eq!(result.upstream_deleted, vec!["gone"]);
    assert_eq!(result.held_back, vec!["held"]);
    assert_eq!(result.failed, vec!["bad: disk full", "unreadable"]);
    assert!(result.unchanged.is_empty() && result.refreshed.is_empty());

    let run = begin()
        .step(RefreshEvent::Looked { valid: false, hash: Err("x".to_string()) })
        .step(RefreshEvent::Marked(Err("database is locked".to_string())));
    assert_eq!(run.phase(), Phase::Scan);
    assert_eq!(run.result().failed, vec!["database is locked"]);
}
