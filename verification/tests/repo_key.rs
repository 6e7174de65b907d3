use skills_manager::repo_key::{canonical_repo_key, skillssh_repo_key};

fn key(s: &str) -> String {
    canonical_repo_key(s).unwrap()
}

#[test]
fn https_url() {
    assert_eq!(key("https://github.com/mattpocock/skills"), "github.com/mattpocock/skills");
}

#[test]
fn https_url_with_git_suffix() {
    assert_eq!(key("https://github.com/o/r.git"), "github.com/o/r");
}

#[test]
fn case_is_normalized() {
    assert_eq!(
        key("https://github.com/MattPocock/Skills.GIT"),
        "github.com/mattpocock/skills"
    );
}

#[test]
fn scp_style() {
    assert_eq!(key("git@github.com:o/r.git"), "github.com/o/r");
    assert_eq!(key("git@github.com:o/r"), "github.com/o/r");
    // SCP URLs carry the whole repo path after the colon — GitLab nested
    // groups (`group/sub/repo`) are real repos, so nothing after the
    // colon is treated as a subpath (only `/tree/` URLs are stripped).
    assert_eq!(key("git@gitlab.com:g/s/r.git"), "gitlab.com/g/s/r");
}

#[test]
fn ssh_url() {
    assert_eq!(key("ssh://git@github.com/o/r.git"), "github.com/o/r");
    assert_eq!(key("ssh://git@github.com/o/r"), "github.com/o/r");
}

#[test]
fn market_shorthand_maps_to_github() {
    assert_eq!(
        skillssh_repo_key("mattpocock/skills"),
        Some("github.com/mattpocock/skills".into())
    );
}

#[test]
fn market_source_ref_truncates_skill_id() {
    // install_from_skillssh stores `owner/repo/<skill-id>` as source_ref;
    // the skill id is a path inside the repo, not a repo segment.
    assert_eq!(
        skillssh_repo_key("mattpocock/skills/handdraw-style-prompter"),
        Some("github.com/mattpocock/skills".into())
    );
    // Converges with every git spelling of the same repo.
    assert_eq!(
        skillssh_repo_key("MattPocock/Skills/Foo"),
        Some(canonical_repo_key("https://github.com/MattPocock/Skills.git").unwrap())
    );
}

#[test]
fn tree_url_strips_to_repo() {
    assert_eq!(key("https://github.com/o/r/tree/main/skills/foo"), "github.com/o/r");
}

#[test]
fn trailing_slash_is_trimmed() {
    assert_eq!(key("https://github.com/o/r/"), "github.com/o/r");
}

#[test]
fn non_github_hosts_are_kept() {
    assert_eq!(key("https://gitlab.com/o/r"), "gitlab.com/o/r");
    assert_eq!(key("git@git.sr.ht:~user/repo.git"), "git.sr.ht/~user/repo");
}

#[test]
fn port_is_stripped_from_host() {
    assert_eq!(key("http://localhost:8080/o/r"), "localhost/o/r");
    assert_eq!(key("https://192.168.1.5:7990/o/r"), "192.168.1.5/o/r");
}

#[test]
fn same_repo_all_spellings_collide() {
    let expected = "github.com/o/r";
    assert_eq!(key("https://github.com/o/r.git"), expected);
    assert_eq!(key("git@github.com:o/r"), expected);
    assert_eq!(key("ssh://git@github.com/o/r"), expected);
    assert_eq!(key("O/R"), expected);
    assert_eq!(key("https://github.com/o/r/tree/dev"), expected);
}

#[test]
fn rejects_non_repo_inputs() {
    assert_eq!(canonical_repo_key(""), None);
    assert_eq!(canonical_repo_key("   "), None);
    assert_eq!(canonical_repo_key("just-a-word"), None);
    assert_eq!(canonical_repo_key("https://github.com/o"), None);
    assert_eq!(canonical_repo_key("https://github.com"), None);
}

#[test]
fn local_paths_name_no_repository() {
    // Behind a scheme or a user the first segment is a host, whatever its name.
    assert_eq!(canonical_repo_key("https://./a/b").as_deref(), Some("./a/b"));
    assert_eq!(canonical_repo_key("https://..:80/o/r").as_deref(), Some("../o/r"));
    assert_eq!(canonical_repo_key("git@~:o/r").as_deref(), Some("github.com/~/o/r"));
    for path in [
        "/home/me/repo",
        "  /srv/git/o/r.git ",
        "./vendor/o/r",
        "../o/r/x",
        "~/code/o/r",
        "C:/Users/me/repo",
        "d:\\work/o/r",
        "file:///home/me/repo",
    ] {
        assert_eq!(canonical_repo_key(path), None, "{path}");
        assert_eq!(skillssh_repo_key(path), None, "{path}");
    }
}

#[test]
fn nested_groups_have_one_key_in_every_spelling() {
    let key = "gitlab.example.com/group/sub/proj-1.x";
    let key_of = canonical_repo_key;
    for spelling in [
        "gitlab.example.com/group/sub/proj-1.x",
        "gitlab.example.com/group/sub/proj-1.x/",
        "gitlab.example.com/group/sub/proj-1.x.git",
        "GITLAB.example.com/Group/SUB/Proj-1.X",
        "https://gitlab.example.com/group/sub/proj-1.x.git",
        "http://gitlab.example.com/group/sub/proj-1.x",
        "ssh://git@gitlab.example.com/group/sub/proj-1.x",
        "git@gitlab.example.com:group/sub/proj-1.x.git",
        "https://gitlab.example.com/group/sub/proj-1.x/tree/main/sub/dir",
    ] {
        assert_eq!(key_of(spelling).as_deref(), Some(key), "{spelling}");
    }
    // A path that ends with `tree` has its key, but is cut there by what stands behind it.
    assert_eq!(key_of("https://h.x/a/tree").as_deref(), Some("h.x/a/tree"));
    assert_eq!(key_of("https://h.x/a/tree.git").as_deref(), Some("h.x/a/tree"));
    assert_eq!(key_of("https://h.x/a/tree/"), None);
    // So is one in which an inner segment is `tree`.
    assert_eq!(key_of("h.x/a/tree/b"), None);
}

#[test]
fn market_keys_have_exactly_three_segments() {
    assert_eq!(
        skillssh_repo_key("o/r/a/deep/skill").as_deref(),
        Some("github.com/o/r")
    );
    assert_eq!(skillssh_repo_key("\u{c4}b/R/x").as_deref(), Some("github.com/\u{e4}b/r"));
    assert_eq!(skillssh_repo_key("word"), None);
}
