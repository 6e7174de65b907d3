//! What a stored source says, what its check reports, what an upgrade runs, and how a clone is
//! kept.

use vstd::prelude::*;
use crate::json::{json_document, lookup, member, text_member, Json, JsonTree};
use crate::mcp_store::McpServerRecord;
use crate::mcp_upstream::{
    command_led, command_run, law_run_outcome, law_shell_quote_reads_back, node_modules_at,
    package_in_path, ran, run_outcome, shell_quoted, shell_word, source_of_json, source_tree,
    stored_plan, upgrade_plan, CommandEvent, McpSource, Source,
};
use crate::mcp_upstream::checks::{
    checked_with, git_check, install_dir, launch_line, manifest_version, npx_dirs, package_dir,
    record_checked, registry_address, registry_check, status_word, Checked,
};
use crate::mcp_upstream::clones::{
    ascii_alphanumeric, clone_outcome, followed_branch, last_two, oid_of, remote_oid, reset_outcome,
    slug_of_key, CloneStep,
};
use crate::mcp_upstream::version_laws::{
    dotted, law_numbers_are_read, law_versions_compare_by_number, numbers_before,
};
use crate::order::{ascending, law_sorted_is_ascending_permutation, sorted};
use crate::paths::child_of;
use crate::pieces::lemma_all_stay;
use crate::text::{decimal, ends_with, join, starts_with, trim_end};
use crate::text_laws::{law_split_joined, without};

verus! {

// ── what is stored ──

/// A source is stored as an object of its kind and its own fields.
pub proof fn law_source_is_stored(source: Source)
    ensures
        match source {
            Source::Unknown => text_member(source_tree(source), "kind"@) == Some("none"@),
            Source::NpmGlobal(p) => text_member(source_tree(source), "kind"@) == Some("npm_global"@)
                && text_member(source_tree(source), "package"@) == Some(p),
            Source::Npx(p) => text_member(source_tree(source), "kind"@) == Some("npx"@)
                && text_member(source_tree(source), "package"@) == Some(p),
            Source::PypiUvx(p) => text_member(source_tree(source), "kind"@) == Some("pypi_uvx"@)
                && text_member(source_tree(source), "package"@) == Some(p),
            Source::Git(url, path) => text_member(source_tree(source), "kind"@) == Some("git"@)
                && text_member(source_tree(source), "repo_url"@) == Some(url) && text_member(
                source_tree(source),
                "clone_path"@,
            ) == Some(path),
        },
{
    reveal_strlit("kind");
    reveal_strlit("package");
    reveal_strlit("repo_url");
    reveal_strlit("clone_path");
    assert("kind"@.len() == 4 && "package"@.len() == 7 && "repo_url"@.len() == 8
        && "clone_path"@.len() == 10);
    reveal_with_fuel(lookup, 4);
}

/// An object is read by its kind and the fields of that kind, whatever else it holds; without one
/// of them it is no source.
pub proof fn law_source_is_read(v: JsonTree)
    requires
        v is Object,
    ensures
        ({
            let kind = text_member(v, "kind"@);
            let package = text_member(v, "package"@);
            let url = text_member(v, "repo_url"@);
            let path = text_member(v, "clone_path"@);
            &&& kind == Some("none"@) ==> source_of_json(v) == Some(Source::Unknown)
            &&& kind == Some("npm_global"@) && package is Some ==> source_of_json(v) == Some(
                Source::NpmGlobal(package->Some_0),
            )
            &&& kind == Some("npx"@) && package is Some ==> source_of_json(v) == Some(
                Source::Npx(package->Some_0),
            )
            &&& kind == Some("pypi_uvx"@) && package is Some ==> source_of_json(v) == Some(
                Source::PypiUvx(package->Some_0),
            )
            &&& kind == Some("git"@) && url is Some && path is Some ==> source_of_json(v) == Some(
                Source::Git(url->Some_0, path->Some_0),
            )
            &&& source_of_json(v) matches Some(source) ==> kind is Some && match source {
                Source::Unknown => kind == Some("none"@),
                Source::NpmGlobal(p) => kind == Some("npm_global"@) && package == Some(p),
                Source::Npx(p) => kind == Some("npx"@) && package == Some(p),
                Source::PypiUvx(p) => kind == Some("pypi_uvx"@) && package == Some(p),
                Source::Git(u, p) => kind == Some("git"@) && url == Some(u) && path == Some(p),
            }
        }),
{
    reveal_strlit("none");
    reveal_strlit("npm_global");
    reveal_strlit("npx");
    reveal_strlit("pypi_uvx");
    reveal_strlit("git");
    assert("none"@.len() == 4 && "npm_global"@.len() == 10 && "npx"@.len() == 3 && "pypi_uvx"@.len()
        == 8 && "git"@.len() == 3 && "npx"@[0] == 'n' && "git"@[0] == 'g');
}

/// A list is read as a source by its kind and the fields behind it, all of them and no more.
pub proof fn law_source_list_is_read(kind: Seq<char>, a: Seq<char>, b: Seq<char>, more: Seq<JsonTree>)
    ensures
        source_of_json(JsonTree::List(seq![JsonTree::Text("none"@)])) == Some(Source::Unknown),
        source_of_json(JsonTree::List(seq![JsonTree::Text("npm_global"@), JsonTree::Text(a)])) == Some(
            Source::NpmGlobal(a),
        ),
        source_of_json(JsonTree::List(seq![JsonTree::Text("npx"@), JsonTree::Text(a)])) == Some(
            Source::Npx(a),
        ),
        source_of_json(JsonTree::List(seq![JsonTree::Text("pypi_uvx"@), JsonTree::Text(a)])) == Some(
            Source::PypiUvx(a),
        ),
        source_of_json(
            JsonTree::List(seq![JsonTree::Text("git"@), JsonTree::Text(a), JsonTree::Text(b)]),
        ) == Some(Source::Git(a, b)),
        kind != "git"@ && more.len() != 1 && kind != "none"@ ==> source_of_json(
            JsonTree::List(seq![JsonTree::Text(kind)] + more),
        ) is None,
        more.len() != 2 ==> source_of_json(JsonTree::List(seq![JsonTree::Text("git"@)] + more)) is None,
        more.len() != 0 ==> source_of_json(JsonTree::List(seq![JsonTree::Text("none"@)] + more)) is None,
        source_of_json(JsonTree::Null) is None,
        source_of_json(JsonTree::Text(kind)) is None,
{
    reveal_strlit("none");
    reveal_strlit("npm_global");
    reveal_strlit("npx");
    reveal_strlit("pypi_uvx");
    reveal_strlit("git");
    assert("none"@.len() == 4 && "npm_global"@.len() == 10 && "npx"@.len() == 3 && "pypi_uvx"@.len()
        == 8 && "git"@.len() == 3 && "npx"@[0] == 'n' && "git"@[0] == 'g');
    assert((seq![JsonTree::Text(kind)] + more)[0] == JsonTree::Text(kind));
    assert((seq![JsonTree::Text("git"@)] + more)[0] == JsonTree::Text("git"@));
    assert((seq![JsonTree::Text("none"@)] + more)[0] == JsonTree::Text("none"@));
}

// ── what an upgrade runs ──

/// An upgrade names the package, the directory or the clone by one word of the shell, whatever
/// characters it has; an npm package is taken at its latest version.
pub proof fn law_upgrade_names_its_subject(source: Source, dirs: Seq<Seq<char>>) -> (word: Seq<char>)
    requires
        !(source is Unknown),
        !(source is Npx),
    ensures
        upgrade_plan(source, dirs) matches Ok(commands) && commands.len() == 1 && match source {
            Source::NpmGlobal(p) => commands[0] == "npm i -g "@ + word && shell_word(word, false)
                == Some(p + "@latest"@),
            Source::PypiUvx(p) => commands[0] == "uv cache clean "@ + word && shell_word(word, false)
                == Some(p),
            Source::Git(_, path) => commands[0] == "git -C "@ + word + " pull --ff-only"@
                && shell_word(word, false) == Some(path),
            _ => false,
        },
{
    match source {
        Source::NpmGlobal(p) => {
            law_shell_quote_reads_back(p + "@latest"@);
            shell_quoted(p + "@latest"@)
        },
        Source::PypiUvx(p) => {
            law_shell_quote_reads_back(p);
            shell_quoted(p)
        },
        Source::Git(_, path) => {
            law_shell_quote_reads_back(path);
            shell_quoted(path)
        },
        _ => Seq::empty(),
    }
}

/// A package that npx cached is upgraded by removing each of its directories, one command for each;
/// with none there is no plan.
pub proof fn law_every_cached_copy_is_removed(package: Seq<char>, dirs: Seq<Seq<char>>, i: int) -> (word:
    Seq<char>)
    ensures
        dirs.len() == 0 ==> upgrade_plan(Source::Npx(package), dirs) is Err,
        dirs.len() > 0 ==> (upgrade_plan(Source::Npx(package), dirs) matches Ok(commands)
            && commands.len() == dirs.len() && (0 <= i < dirs.len() ==> commands[i] == "rm -rf "@
            + word && shell_word(word, false) == Some(dirs[i]))),
        upgrade_plan(Source::Unknown, dirs) is Err,
{
    if 0 <= i < dirs.len() {
        law_shell_quote_reads_back(dirs[i]);
        shell_quoted(dirs[i])
    } else {
        Seq::empty()
    }
}

/// Commands that all succeed print what each printed, one after the other; the first that fails
/// ends the run, and what was printed before it is kept.
pub proof fn law_outputs_are_joined(outputs: Seq<Seq<char>>, error: Seq<char>)
    ensures
        ({
            let done = Seq::new(
                outputs.len(),
                |i: int| Ok::<Seq<char>, Seq<char>>(outputs[i]),
            );
            let printed = join(outputs, Seq::empty());
            &&& run_outcome(done) == Ok::<Seq<char>, Seq<char>>(printed)
            &&& run_outcome(done.push(Err(error))) == Err::<Seq<char>, Seq<char>>(
                if printed.len() == 0 {
                    error
                } else {
                    printed + "\n"@ + error
                },
            )
        }),
    decreases outputs.len(),
{
    let done = Seq::new(outputs.len(), |i: int| Ok::<Seq<char>, Seq<char>>(outputs[i]));
    let failed = done.push(Err(error));
    assert(failed.drop_last() =~= done);
    if outputs.len() > 0 {
        let front = outputs.drop_last();
        law_outputs_are_joined(front, error);
        let before = Seq::new(front.len(), |i: int| Ok::<Seq<char>, Seq<char>>(front[i]));
        assert(done.drop_last() =~= before);
        lemma_join_last(outputs);
    }
}

pub proof fn lemma_join_last(parts: Seq<Seq<char>>)
    requires
        parts.len() > 0,
    ensures
        join(parts, Seq::empty()) == join(parts.drop_last(), Seq::empty()) + parts.last(),
    decreases parts.len(),
{
    let none = Seq::<char>::empty();
    if parts.len() == 1 {
        assert(parts =~= seq![parts[0]]);
        assert(join(parts, none) =~= parts[0]);
        assert(join(parts.drop_last(), none) =~= none);
    } else {
        let rest = parts.skip(1);
        lemma_join_last(rest);
        assert(parts =~= seq![parts[0]] + rest);
        crate::text_laws::lemma_join_first(parts[0], rest, none);
        let front = parts.drop_last();
        assert(front =~= seq![parts[0]] + rest.drop_last());
        if rest.len() > 1 {
            crate::text_laws::lemma_join_first(parts[0], rest.drop_last(), none);
        } else {
            assert(front =~= seq![parts[0]]);
            assert(join(front, none) =~= parts[0]);
            assert(join(rest.drop_last(), none) =~= none);
        }
        assert(join(parts, none) =~= join(front, none) + parts.last());
    }
}

/// A command prints its streams in the order in which they end; any end but a success is an error
/// that names the command, and a failure tells its exit code and what was printed.
pub proof fn law_command_is_led(cmd: Seq<char>, streams: Seq<String>, last: CommandEvent)
    requires
        !(last is Stream),
    ensures
        ({
            let printed = join(Seq::new(streams.len(), |i: int| streams[i]@), Seq::empty());
            let events = Seq::new(streams.len(), |i: int| CommandEvent::Stream(streams[i])).push(
                last,
            );
            match last {
                CommandEvent::Exited { success: true, code } => command_run(
                    cmd,
                    Seq::empty(),
                    events,
                ) == Some(Ok::<Seq<char>, Seq<char>>(printed)),
                CommandEvent::Exited { success: false, code } => command_run(
                    cmd,
                    Seq::empty(),
                    events,
                ) == Some(
                    Err::<Seq<char>, Seq<char>>(
                        "`"@ + cmd + "` failed (exit "@ + decimal(
                            if code is Some {
                                code->Some_0 as int
                            } else {
                                -1
                            },
                        ) + "):\n"@ + trim_end(printed),
                    ),
                ),
                CommandEvent::SpawnFailed(e) => command_run(cmd, Seq::empty(), events) == Some(
                    Err::<Seq<char>, Seq<char>>("failed to spawn `"@ + cmd + "`: "@ + e@),
                ),
                CommandEvent::TimedOut(s) => command_run(cmd, Seq::empty(), events) == Some(
                    Err::<Seq<char>, Seq<char>>("timeout: `"@ + cmd + "` exceeded "@ + s@ + "s"@),
                ),
                CommandEvent::WaitFailed(e) => command_run(cmd, Seq::empty(), events) == Some(
                    Err::<Seq<char>, Seq<char>>("wait on `"@ + cmd + "` failed: "@ + e@),
                ),
                CommandEvent::Stream(_) => true,
            }
        }),
{
    lemma_streams(cmd, Seq::empty(), streams, last);
    let printed = join(Seq::new(streams.len(), |i: int| streams[i]@), Seq::empty());
    assert(Seq::<char>::empty() + printed =~= printed);
}

proof fn lemma_streams(cmd: Seq<char>, output: Seq<char>, streams: Seq<String>, last: CommandEvent)
    requires
        !(last is Stream),
    ensures
        command_run(
            cmd,
            output,
            Seq::new(streams.len(), |i: int| CommandEvent::Stream(streams[i])).push(last),
        ) == command_led(
            cmd,
            output + join(Seq::new(streams.len(), |i: int| streams[i]@), Seq::empty()),
            last,
        ).1,
    decreases streams.len(),
{
    let events = Seq::new(streams.len(), |i: int| CommandEvent::Stream(streams[i])).push(last);
    let prints = Seq::new(streams.len(), |i: int| streams[i]@);
    let none = Seq::<char>::empty();
    if streams.len() == 0 {
        assert(events =~= seq![last]);
        assert(join(prints, none) =~= none);
        assert(output + none =~= output);
    } else {
        let rest = streams.skip(1);
        assert(events[0] == CommandEvent::Stream(streams[0]));
        assert(events.skip(1) =~= Seq::new(rest.len(), |i: int| CommandEvent::Stream(rest[i])).push(
            last,
        ));
        lemma_streams(cmd, output + streams[0]@, rest, last);
        let others = Seq::new(rest.len(), |i: int| rest[i]@);
        assert(prints =~= seq![streams[0]@] + others);
        if rest.len() > 0 {
            crate::text_laws::lemma_join_first(streams[0]@, others, none);
        } else {
            assert(prints =~= seq![streams[0]@]);
            assert(join(others, none) =~= none);
        }
        assert(join(prints, none) =~= streams[0]@ + join(others, none));
        assert(output + streams[0]@ + join(others, none) =~= output + join(prints, none));
    }
}

// ── what a check reports ──

/// A registry's answer is reported by the version it names, as behind exactly where the installed
/// one comes before it number by number; without a version it is an error.
pub proof fn law_registry_answer_is_reported(
    source: Source,
    local: Seq<u64>,
    latest: Seq<u64>,
    body: JsonTree,
)
    requires
        source is NpmGlobal || source is Npx || source is PypiUvx,
        local.len() > 0,
        latest.len() > 0,
    ensures
        ({
            let said = if source is PypiUvx {
                match member(body, "info"@) {
                    Some(info) => text_member(info, "version"@),
                    None => None,
                }
            } else {
                text_member(body, "version"@)
            };
            let r = registry_check(source, Some(dotted(local)), Ok(body));
            let unknown = registry_check(source, None, Ok(body));
            &&& said == Some(dotted(latest)) ==> r.latest == Some(dotted(latest)) && r.error is None
                && (r.behind <==> numbers_before(local, latest)) && !unknown.behind && unknown.latest
                == Some(dotted(latest))
            &&& said is None || said->Some_0.len() == 0 ==> r.latest is None && r.error is Some
                && !r.behind
        }),
{
    let none = Seq::<char>::empty();
    law_numbers_are_read(none, none, local, none);
    law_numbers_are_read(none, none, latest, none);
    assert(none + (none + dotted(local)) + none =~= dotted(local));
    assert(none + (none + dotted(latest)) + none =~= dotted(latest));
    law_versions_compare_by_number(local, latest);
    crate::mcp_upstream::version_laws::lemma_dotted(latest);
}

/// A package is asked for at its registry by its own name; in npm's the slash of a scope is
/// escaped.
pub proof fn law_registry_is_asked(scope: Seq<char>, package: Seq<char>)
    requires
        without(scope, '/'),
        without(package, '/'),
    ensures
        registry_address(Source::Npx(package)) == Some(
            "https://registry.npmjs.org/"@ + package + "/latest"@,
        ),
        registry_address(Source::NpmGlobal(package)) == registry_address(Source::Npx(package)),
        registry_address(Source::Npx(scope + "/"@ + package)) == Some(
            "https://registry.npmjs.org/"@ + (scope + "%2F"@ + package) + "/latest"@,
        ),
        registry_address(Source::NpmGlobal(scope + "/"@ + package)) == registry_address(
            Source::Npx(scope + "/"@ + package),
        ),
        registry_address(Source::PypiUvx(package)) == Some(
            "https://pypi.org/pypi/"@ + package + "/json"@,
        ),
{
    reveal_strlit("/");
    crate::text_laws::law_replace_char(scope, '/', package, "%2F"@);
    crate::text_laws::lemma_replace_none(package, '/', "%2F"@);
    assert(scope + "/"@ + package =~= scope + seq!['/'] + package);
}

/// A clone is behind exactly where its commit is not the remote's, which is the one reported; what
/// could not be asked is an error.
pub proof fn law_clone_is_compared_by_commit(local: Seq<char>, remote: Seq<char>, error: Seq<char>)
    ensures
        git_check(Ok((local, remote))).latest == Some(remote),
        git_check(Ok((local, remote))).error is None,
        git_check(Ok((local, remote))).behind <==> local != remote,
        git_check(Err(error)).error == Some(error),
        git_check(Err(error)).latest is None,
        !git_check(Err(error)).behind,
        forall|source: Source, version: Option<Seq<char>>|
            ({
                let r = #[trigger] registry_check(source, version, Err(error));
                r.error == Some(error) && r.latest is None && !r.behind
            }),
{
}

/// A check is told by one of three words.
pub proof fn law_status_words(r: Checked)
    ensures
        status_word(r) == "error"@ <==> r.error is Some,
        status_word(r) == "update_available"@ <==> r.error is None && r.behind,
        status_word(r) == "up_to_date"@ <==> r.error is None && !r.behind,
{
    reveal_strlit("error");
    reveal_strlit("update_available");
    reveal_strlit("up_to_date");
    assert("error"@.len() == 5 && "update_available"@.len() == 16 && "up_to_date"@.len() == 10);
}

/// Every cached copy of a package lies below its own directory of the cache, in the order of their
/// names.
pub proof fn law_cached_copies(
    root: Seq<char>,
    package: Seq<char>,
    hashes: Seq<Seq<char>>,
    i: int,
)
    requires
        root.len() > 0,
        root.last() != '/',
        package.len() > 0,
        package[0] != '/',
        forall|k: int|
            0 <= k < hashes.len() ==> (#[trigger] hashes[k]).len() > 0 && hashes[k][0] != '/'
                && hashes[k].last() != '/',
        0 <= i < hashes.len(),
    ensures
        npx_dirs(root, package, hashes).len() == hashes.len(),
        npx_dirs(root, package, hashes).contains(
            root + "/"@ + hashes[i] + "/node_modules/"@ + package,
        ),
        ascending(hashes) ==> npx_dirs(root, package, hashes)[i] == root
            + "/"@ + hashes[i] + "/node_modules/"@ + package,
        package_dir(None, Seq::empty(), Source::Npx(package), npx_dirs(root, package, hashes)) == Some(
            npx_dirs(root, package, hashes)[0],
        ),
{
    broadcast use vstd::seq_lib::group_to_multiset_ensures;

    law_sorted_is_ascending_permutation(hashes);
    let order = sorted(hashes);
    assert(hashes.contains(hashes[i]));
    assert(order.to_multiset().count(hashes[i]) > 0);
    assert(order.contains(hashes[i]));
    let p = choose|p: int| 0 <= p < order.len() && order[p] == hashes[i];
    lemma_cached_copy(root, hashes[i], package);
    assert(npx_dirs(root, package, hashes)[p] == root + "/"@ + hashes[i] + "/node_modules/"@ + package);
    if ascending(hashes) {
        lemma_sorted_stays(hashes);
    }
}

/// In which order the cache was read does not matter.
pub proof fn law_order_of_the_cache_does_not_matter(
    root: Seq<char>,
    package: Seq<char>,
    a: Seq<Seq<char>>,
    b: Seq<Seq<char>>,
)
    requires
        a.to_multiset() == b.to_multiset(),
    ensures
        npx_dirs(root, package, a) == npx_dirs(root, package, b),
{
    crate::mcp_library::upgrade::law_same_plan_is_same_commands(a, b);
    law_sorted_is_ascending_permutation(a);
    law_sorted_is_ascending_permutation(b);
    assert(npx_dirs(root, package, a) =~= npx_dirs(root, package, b));
}

proof fn lemma_sorted_stays(s: Seq<Seq<char>>)
    requires
        ascending(s),
    ensures
        sorted(s) == s,
    decreases s.len(),
{
    if s.len() > 0 {
        let t = s.drop_last();
        assert(ascending(t));
        lemma_sorted_stays(t);
        assert(s =~= t.push(s.last()));
    } else {
        assert(sorted(s) =~= s);
    }
}

proof fn lemma_cached_copy(root: Seq<char>, hash: Seq<char>, package: Seq<char>)
    requires
        root.len() > 0,
        root.last() != '/',
        hash.len() > 0,
        hash[0] != '/',
        hash.last() != '/',
        package.len() > 0,
        package[0] != '/',
    ensures
        child_of(child_of(child_of(root, hash), "node_modules"@), package) == root + "/"@ + hash
            + "/node_modules/"@ + package,
{
    reveal_strlit("node_modules");
    reveal_strlit("/node_modules/");
    reveal_strlit("/");
    law_child(root, hash);
    let a = root + "/"@ + hash;
    law_child(a, "node_modules"@);
    let b = a + "/"@ + "node_modules"@;
    law_child(b, package);
    assert("/"@ + "node_modules"@ + "/"@ =~= "/node_modules/"@);
    assert(b + "/"@ + package =~= root + "/"@ + hash + "/node_modules/"@ + package);
}

/// A name below a directory is joined to it by one slash; a name that starts at the root stands for
/// itself.
pub proof fn law_child(dir: Seq<char>, name: Seq<char>)
    requires
        dir.len() > 0,
    ensures
        name.len() > 0 && name[0] == '/' ==> child_of(dir, name) == name,
        (name.len() == 0 || name[0] != '/') && dir.last() != '/' ==> child_of(dir, name) == dir
            + seq!['/'] + name,
        (name.len() == 0 || name[0] != '/') && dir.last() == '/' ==> child_of(dir, name) == dir + name,
        child_of(Seq::empty(), name) == name,
{
    reveal_strlit("/");
    assert("/"@ =~= seq!['/']);
    if starts_with(name, "/"@) {
        assert(name.take(1)[0] == '/');
    }
    if name.len() > 0 && name[0] == '/' {
        assert(name.take(1) =~= seq!['/']);
    }
    if ends_with(dir, "/"@) {
        assert(dir.skip(dir.len() - 1)[0] == '/');
    }
    if dir.last() == '/' {
        assert(dir.skip(dir.len() - 1) =~= seq!['/']);
    }
}

/// An installed package's directory is found from the first word of the command line whose path
/// leads through it, its command or an argument.
pub proof fn law_install_dir(words: Seq<Seq<char>>, package: Seq<char>, i: int)
    requires
        0 <= i < words.len(),
        package_in_path(words[i]) == Some(package),
        forall|j: int| 0 <= j < i ==> package_in_path(#[trigger] words[j]) != Some(package),
    ensures
        package_dir(Some(words[0]), words.skip(1), Source::NpmGlobal(package), Seq::empty())
            == install_dir(words, package),
        node_modules_at(words[i]) matches Some(at) && install_dir(words, package) == Some(
            words[i].take(at + 12) + "/"@ + package,
        ),
    decreases i,
{
    assert(launch_line(Some(words[0]), words.skip(1)) =~= words);
    if i > 0 {
        let rest = words.skip(1);
        assert(package_in_path(words[0]) != Some(package));
        assert forall|j: int| 0 <= j < i - 1 implies package_in_path(#[trigger] rest[j]) != Some(
            package,
        ) by {
            assert(rest[j] == words[j + 1]);
        }
        law_install_dir(rest, package, i - 1);
    }
}

/// The installed version is what the package's manifest says of it, where there is one that says so.
pub proof fn law_manifest_tells_the_version(text: Seq<char>, doc: JsonTree, version: Seq<char>)
    ensures
        json_document(text) == Ok::<JsonTree, Seq<char>>(doc) && member(doc, "version"@) == Some(
            JsonTree::Text(version),
        ) ==> manifest_version(Some(text)) == Some(version),
        json_document(text) == Ok::<JsonTree, Seq<char>>(doc) && member(doc, "version"@) is None
            ==> manifest_version(Some(text)) is None,
        json_document(text) is Err ==> manifest_version(Some(text)) is None,
        manifest_version(None) is None,
{
}

// ── clones ──

/// A clone is updated, an empty place is cloned to, and anything else in the way is an error that
/// names it.
pub proof fn law_only_clones_are_updated(target: Seq<char>, exists: bool)
    ensures
        clone_outcome(target, true, exists) == Ok::<CloneStep, Seq<char>>(CloneStep::Update),
        clone_outcome(target, false, false) == Ok::<CloneStep, Seq<char>>(CloneStep::Fresh),
        clone_outcome(target, false, true) == Err::<CloneStep, Seq<char>>(
            target + " exists but is not a git clone"@,
        ),
{
}

/// The branch that is asked for is followed, else the one that is checked out; an empty name asks
/// for none, and a detached head is on none.
pub proof fn law_branch_is_followed(branch: Seq<char>, head: Option<Seq<char>>)
    ensures
        branch.len() > 0 ==> followed_branch(Some(branch), head) == Ok::<Seq<char>, Seq<char>>(branch),
        followed_branch(None, head) == followed_branch(Some(Seq::empty()), head),
        head is Some && head->Some_0 != "HEAD"@ ==> followed_branch(None, head) == Ok::<
            Seq<char>,
            Seq<char>,
        >(head->Some_0),
        head is None || head->Some_0 == "HEAD"@ ==> followed_branch(None, head) is Err,
{
}

/// A change to any tracked file stops a reset, staged or not: a new, changed, deleted, renamed or
/// retyped file in the index, or a changed, deleted, retyped or renamed one beside it.
pub proof fn law_tracked_changes_stop_a_reset(branch: Seq<char>, statuses: Seq<u32>, i: int)
    ensures
        0 <= i < statuses.len() && (statuses[i] & 1u32 != 0 || statuses[i] & 2u32 != 0 || statuses[i]
            & 4u32 != 0 || statuses[i] & 8u32 != 0 || statuses[i] & 16u32 != 0 || statuses[i]
            & 256u32 != 0 || statuses[i] & 512u32 != 0 || statuses[i] & 1024u32 != 0 || statuses[i]
            & 2048u32 != 0) ==> reset_outcome(branch, statuses) is Err,
        (forall|k: int|
            0 <= k < statuses.len() ==> #[trigger] statuses[k] == 0 || statuses[k] == 128
                || statuses[k] == 16384) ==> reset_outcome(branch, statuses) == Ok::<
            Seq<char>,
            Seq<char>,
        >("origin/"@ + branch),
{
    if 0 <= i < statuses.len() {
        let s: u32 = statuses[i];
        assert(s & 1u32 != 0 || s & 2u32 != 0 || s & 4u32 != 0 || s & 8u32 != 0 || s & 16u32 != 0 || s
            & 256u32 != 0 || s & 512u32 != 0 || s & 1024u32 != 0 || s & 2048u32 != 0 ==> s & 0xf1fu32
            != 0) by (bit_vector);
    }
    assert(0u32 & 0xf1fu32 == 0 && 128u32 & 0xf1fu32 == 0 && 16384u32 & 0xf1fu32 == 0)
        by (bit_vector);
}

proof fn lemma_oid(refs: Seq<(Seq<char>, Seq<char>)>, name: Seq<char>, i: int)
    requires
        0 <= i < refs.len(),
        refs[i].0 == name,
        forall|j: int| 0 <= j < i ==> (#[trigger] refs[j]).0 != name,
    ensures
        oid_of(refs, name) == Some(refs[i].1),
    decreases i,
{
    if i > 0 {
        let rest = refs.skip(1);
        assert(refs[0].0 != name);
        assert forall|j: int| 0 <= j < i - 1 implies (#[trigger] rest[j]).0 != name by {
            assert(rest[j] == refs[j + 1]);
        }
        lemma_oid(rest, name, i - 1);
    }
}

proof fn lemma_no_oid(refs: Seq<(Seq<char>, Seq<char>)>, name: Seq<char>)
    requires
        forall|j: int| 0 <= j < refs.len() ==> (#[trigger] refs[j]).0 != name,
    ensures
        oid_of(refs, name) is None,
    decreases refs.len(),
{
    if refs.len() > 0 {
        let rest = refs.skip(1);
        assert(refs[0].0 != name);
        assert forall|j: int| 0 <= j < rest.len() implies (#[trigger] rest[j]).0 != name by {
            assert(rest[j] == refs[j + 1]);
        }
        lemma_no_oid(rest, name);
    }
}

/// A remote's commit is that of the branch where the remote has it, wherever it is listed, else that
/// of its head; a remote with neither is an error.
pub proof fn law_remote_commit(
    branch: Option<Seq<char>>,
    refs: Seq<(Seq<char>, Seq<char>)>,
    i: int,
)
    ensures
        ({
            let name = if branch is Some {
                "refs/heads/"@ + branch->Some_0
            } else {
                "HEAD"@
            };
            &&& 0 <= i < refs.len() && refs[i].0 == name && (forall|j: int|
                0 <= j < i ==> (#[trigger] refs[j]).0 != name) ==> remote_oid(branch, refs) == Ok::<
                Seq<char>,
                Seq<char>,
            >(refs[i].1)
            &&& 0 <= i < refs.len() && refs[i].0 == "HEAD"@ && (forall|j: int|
                0 <= j < i ==> (#[trigger] refs[j]).0 != "HEAD"@) && (forall|j: int|
                0 <= j < refs.len() ==> (#[trigger] refs[j]).0 != name) ==> remote_oid(branch, refs)
                == Ok::<Seq<char>, Seq<char>>(refs[i].1)
            &&& (forall|j: int|
                0 <= j < refs.len() ==> (#[trigger] refs[j]).0 != name && refs[j].0 != "HEAD"@)
                ==> remote_oid(branch, refs) is Err
        }),
{
    let name = if branch is Some {
        "refs/heads/"@ + branch->Some_0
    } else {
        "HEAD"@
    };
    if 0 <= i < refs.len() && refs[i].0 == name && (forall|j: int|
        0 <= j < i ==> (#[trigger] refs[j]).0 != name) {
        lemma_oid(refs, name, i);
    }
    if 0 <= i < refs.len() && refs[i].0 == "HEAD"@ && (forall|j: int|
        0 <= j < i ==> (#[trigger] refs[j]).0 != "HEAD"@) {
        lemma_oid(refs, "HEAD"@, i);
    }
    if forall|j: int| 0 <= j < refs.len() ==> (#[trigger] refs[j]).0 != name {
        lemma_no_oid(refs, name);
    }
    if forall|j: int| 0 <= j < refs.len() ==> (#[trigger] refs[j]).0 != name && refs[j].0 != "HEAD"@ {
        lemma_no_oid(refs, "HEAD"@);
    }
}

/// A clone's directory is named by the owner and the name of its repository, with a dash for every
/// other character than a letter or a digit of ASCII.
pub proof fn law_slug_names_owner_and_repository(host: Seq<char>, owner: Seq<char>, name: Seq<char>)
    requires
        without(host, '/'),
        without(owner, '/'),
        without(name, '/'),
        host.len() > 0,
        owner.len() > 0,
        name.len() > 0,
    ensures
        ({
            let slug = slug_of_key(host + "/"@ + owner + "/"@ + name);
            let plain = owner + seq!['-'] + name;
            &&& slug.len() == plain.len()
            &&& forall|i: int|
                0 <= i < plain.len() ==> #[trigger] slug[i] == if ascii_alphanumeric(plain[i]) {
                    plain[i]
                } else {
                    '-'
                }
        }),
{
    reveal_strlit("/");
    reveal_strlit("-");
    let parts = seq![host, owner, name];
    law_split_joined(parts, '/');
    let none = seq![owner, name];
    let one = seq![name];
    assert(parts =~= seq![host] + none);
    assert(none =~= seq![owner] + one);
    crate::text_laws::lemma_join_first(host, none, seq!['/']);
    crate::text_laws::lemma_join_first(owner, one, seq!['/']);
    assert(join(one, seq!['/']) =~= name);
    assert(host + "/"@ + owner + "/"@ + name =~= join(parts, seq!['/']));
    lemma_all_stay(parts);
    assert(last_two(parts) =~= none);
    crate::text_laws::lemma_join_first(owner, one, "-"@);
    assert(join(one, "-"@) =~= name);
    assert(join(none, "-"@) =~= owner + seq!['-'] + name);
}

// ── who is asked ──

/// A clone is asked by its own path and compared by what it answers; a package's registry is asked
/// at the package's own address and compared with what is installed; without a source nobody is
/// asked.
pub proof fn law_source_is_asked<
    H: FnOnce(&String) -> Result<Json, String>,
    G: FnOnce(&String) -> Result<(String, String), String>,
>(source: Source, local: Option<Seq<char>>, http_json: H, git_oids: G, r: Checked)
    requires
        checked_with(source, local, http_json, git_oids, r),
    ensures
        source is Unknown ==> r.error is Some && r.latest is None && !r.behind,
        source matches Source::Git(_, clone_path) ==> exists|
            path: String,
            reply: Result<(String, String), String>,
        |
            path@ == clone_path && #[trigger] call_ensures(git_oids, (&path,), reply) && match reply {
                Ok((here, there)) => r.latest == Some(there@) && (r.behind <==> here@ != there@)
                    && r.error is None,
                Err(error) => r.error == Some(error@) && r.latest is None && !r.behind,
            },
        source is NpmGlobal || source is Npx || source is PypiUvx ==> exists|
            url: String,
            reply: Result<Json, String>,
        |
            registry_address(source) == Some(url@) && #[trigger] call_ensures(
                http_json,
                (&url,),
                reply,
            ) && match reply {
                Ok(body) => r == registry_check(source, local, Ok(body@)),
                Err(error) => r.error == Some(error@) && r.latest is None && !r.behind,
            },
{
    match source {
        Source::Git(_, clone_path) => {
            let (path, reply) = choose|path: String, reply: Result<(String, String), String>|
                path@ == clone_path && #[trigger] call_ensures(git_oids, (&path,), reply) && r
                    == git_check(crate::mcp_upstream::checks::heads_view(reply));
            assert(call_ensures(git_oids, (&path,), reply));
        },
        Source::Unknown => {},
        _ => {
            let (url, reply) = choose|url: String, reply: Result<Json, String>|
                Some(url@) == registry_address(source) && #[trigger] call_ensures(
                    http_json,
                    (&url,),
                    reply,
                ) && r == registry_check(
                    source,
                    local,
                    crate::mcp_upstream::checks::body_view(reply),
                );
            assert(call_ensures(http_json, (&url,), reply));
        },
    }
}

/// A record is checked by its own source, against what is installed of it; one whose source cannot
/// be read is an error that claims nothing.
pub proof fn law_record_is_checked<
    L: Fn(&McpServerRecord, &McpSource) -> Option<String>,
    H: Fn(&String) -> Result<Json, String>,
    G: Fn(&String) -> Result<(String, String), String>,
    W: Fn(&Json) -> String,
>(record: McpServerRecord, installed: L, http_json: H, git_oids: G, why: W, r: Checked)
    requires
        record_checked(record, installed, http_json, git_oids, why, r),
    ensures
        source_of_json(record@.source) is None ==> r.error is Some && r.latest is None && !r.behind,
        source_of_json(record@.source) matches Some(source) ==> exists|
            parsed: McpSource,
            local: Option<String>,
        |
            parsed@ == source && #[trigger] call_ensures(installed, (&record, &parsed), local)
                && checked_with(
                source,
                if local is Some {
                    Some(local->Some_0@)
                } else {
                    None
                },
                http_json,
                git_oids,
                r,
            ),
{
    if let Some(source) = source_of_json(record@.source) {
        let (parsed, local) = choose|parsed: McpSource, local: Option<String>|
            parsed@ == source && #[trigger] call_ensures(installed, (&record, &parsed), local)
                && checked_with(source, local.deep_view(), http_json, git_oids, r);
        assert(call_ensures(installed, (&record, &parsed), local));
    }
}

/// Where a run of commands succeeds, every one of them has run, in order, and its output is what they
/// printed; where one fails, none behind it has run.
pub proof fn law_success_means_all_ran<F: Fn(&String) -> Result<String, String>>(
    run: F,
    cmds: Seq<String>,
    outputs: Seq<Result<Seq<char>, Seq<char>>>,
    i: int,
)
    requires
        ran(run, cmds, outputs),
    ensures
        run_outcome(outputs) is Ok ==> outputs.len() == cmds.len(),
        run_outcome(outputs) is Ok && 0 <= i < cmds.len() ==> outputs[i] is Ok && exists|
            printed: String,
        | #[trigger]
            call_ensures(run, (&cmds[i],), Ok::<String, String>(printed)) && outputs[i] == Ok::<
                Seq<char>,
                Seq<char>,
            >(printed@),
        0 <= i < outputs.len() && outputs[i] is Err ==> i == outputs.len() - 1 && run_outcome(
            outputs,
        ) is Err,
{
    if outputs.len() > 0 {
        let n = outputs.len() - 1;
        assert(outputs.drop_last().push(outputs.last()) =~= outputs);
        law_run_outcome(outputs.drop_last(), outputs.last());
        assert(outputs.last() == outputs[n]);
        if run_outcome(outputs) is Ok && 0 <= i < outputs.len() {
            assert(outputs[i] is Ok);
            let r = choose|r: Result<String, String>|
                call_ensures(run, (&cmds[i],), r) && outputs[i] == crate::mcp_upstream::output_view(r);
            assert(call_ensures(run, (&cmds[i],), r));
            let printed = r->Ok_0;
            assert(call_ensures(run, (&cmds[i],), Ok::<String, String>(printed)));
        }
    }
}

/// A stored source is upgraded by its own plan.
pub proof fn law_stored_source_is_planned<W: Fn(&Json) -> String>(
    stored: JsonTree,
    dirs: Seq<Seq<char>>,
    why: W,
    plan: Result<Seq<Seq<char>>, Seq<char>>,
)
    requires
        stored_plan(stored, dirs, why, plan),
    ensures
        source_of_json(stored) matches Some(source) ==> plan == upgrade_plan(source, dirs),
        source_of_json(stored) is None ==> plan is Err,
{
}

} // verus!
