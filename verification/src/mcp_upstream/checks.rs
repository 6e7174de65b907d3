//! Version checks: what the upstream of a definition says is the latest, and whether what is
//! installed is behind it.

use vstd::prelude::*;
use crate::json::{json_document, parse_json, text_member, Json, JsonTree};
use crate::mcp_store::{check_recorded, Library, McpServerRecord, SkillStore};
use crate::mcp_upstream::{
    find_node_modules, may_say_why, node_modules_at, npm_latest_version, npm_version,
    package_from_node_modules_path, package_in_path, parse_source, pypi_latest_version,
    pypi_version, semver_less, source_of_json, source_refused, version_less, version_numbers,
    McpSource, Source,
};
use crate::order::{sort_texts, sorted};
use crate::paths::{child_of, child_path};
use crate::text::{char_count, replace, replace_char, same, take_chars, texts};
use crate::text_lists::{copy_text, text_ref};

verus! {

/// Result of checking one definition against its upstream. `latest` carries the remote version
/// string (or the remote git oid); `behind` says whether an upgrade would change anything.
#[derive(Debug, PartialEq)]
pub struct CheckOutcome {
    pub latest: Option<String>,
    pub behind: bool,
    pub error: Option<String>,
}

/// What a [`CheckOutcome`] holds.
pub ghost struct Checked {
    pub latest: Option<Seq<char>>,
    pub behind: bool,
    pub error: Option<Seq<char>>,
}

impl View for CheckOutcome {
    type V = Checked;

    open spec fn view(&self) -> Checked {
        Checked {
            latest: self.latest.deep_view(),
            behind: self.behind,
            error: self.error.deep_view(),
        }
    }
}

pub open spec fn check_failed(error: Seq<char>) -> Checked {
    Checked { latest: None, behind: false, error: Some(error) }
}

/// A registry named its latest version. Where nothing is known of the installed one, nothing
/// is claimed to be behind.
pub open spec fn check_against(local: Option<Seq<char>>, latest: Seq<char>) -> Checked {
    Checked {
        latest: Some(latest),
        behind: match local {
            Some(version) => version_less(version_numbers(version), version_numbers(latest)),
            None => false,
        },
        error: None,
    }
}

/// The registry address that names the latest version of a source.
pub open spec fn registry_address(source: Source) -> Option<Seq<char>> {
    match source {
        Source::NpmGlobal(package) | Source::Npx(package) => Some(
            "https://registry.npmjs.org/"@ + replace_char(package, '/', "%2F"@) + "/latest"@,
        ),
        Source::PypiUvx(package) => Some("https://pypi.org/pypi/"@ + package + "/json"@),
        _ => None,
    }
}

/// What a registry's reply says of a source.
pub open spec fn registry_check(
    source: Source,
    local: Option<Seq<char>>,
    reply: Result<JsonTree, Seq<char>>,
) -> Checked {
    match reply {
        Err(error) => check_failed(error),
        Ok(body) => match source {
            Source::NpmGlobal(package) | Source::Npx(package) => match npm_version(body) {
                Some(latest) => check_against(local, latest),
                None => check_failed("npm registry response for "@ + package + " has no version"@),
            },
            Source::PypiUvx(package) => match pypi_version(body) {
                Some(latest) => check_against(local, latest),
                None => check_failed("PyPI response for "@ + package + " has no info.version"@),
            },
            _ => check_failed("no upstream source"@),
        },
    }
}

/// What the local and the remote head of a clone say: any difference is worth a pull.
pub open spec fn git_check(reply: Result<(Seq<char>, Seq<char>), Seq<char>>) -> Checked {
    match reply {
        Ok((local, remote)) => Checked {
            latest: Some(remote),
            behind: local != remote,
            error: None,
        },
        Err(error) => check_failed(error),
    }
}

pub open spec fn body_view(r: Result<Json, String>) -> Result<JsonTree, Seq<char>> {
    match r {
        Ok(body) => Ok(body@),
        Err(error) => Err(error@),
    }
}

pub open spec fn heads_view(r: Result<(String, String), String>) -> Result<
    (Seq<char>, Seq<char>),
    Seq<char>,
> {
    match r {
        Ok((local, remote)) => Ok((local@, remote@)),
        Err(error) => Err(error@),
    }
}

fn failed(error: String) -> (r: CheckOutcome)
    ensures
        r@ == check_failed(error@),
{
    CheckOutcome { latest: None, behind: false, error: Some(error) }
}

fn from_registry(local_version: Option<&String>, latest: String) -> (r: CheckOutcome)
    ensures
        r@ == check_against(
            text_ref(local_version),
            latest@,
        ),
{
    let behind = match local_version {
        Some(local) => semver_less(local.as_str(), latest.as_str()),
        None => false,
    };
    CheckOutcome { latest: Some(latest), behind, error: None }
}

/// The registry address that names the latest version of a source. npm names scoped packages
/// with an encoded `/`; the leading `@` stays literal.
pub fn registry_url(source: &McpSource) -> (r: Option<String>)
    ensures
        r.deep_view() == registry_address(source@),
{
    match source {
        McpSource::NpmGlobal { package } | McpSource::Npx { package } => {
            let mut url = "https://registry.npmjs.org/".to_owned();
            url.append(replace(package.as_str(), '/', "%2F").as_str());
            url.append("/latest");
            Some(url)
        },
        McpSource::PypiUvx { package } => {
            let mut url = "https://pypi.org/pypi/".to_owned();
            url.append(package.as_str());
            url.append("/json");
            Some(url)
        },
        _ => None,
    }
}

/// The outcome of a check by the registry's reply.
pub fn registry_outcome(
    source: &McpSource,
    local_version: Option<&String>,
    reply: Result<Json, String>,
) -> (r: CheckOutcome)
    ensures
        r@ == registry_check(
            source@,
            text_ref(local_version),
            body_view(reply),
        ),
{
    let body = match reply {
        Ok(body) => body,
        Err(error) => {
            return failed(error);
        },
    };
    match source {
        McpSource::NpmGlobal { package } | McpSource::Npx { package } => match npm_latest_version(
            &body,
        ) {
            Some(latest) => from_registry(local_version, latest),
            None => {
                let mut m = "npm registry response for ".to_owned();
                m.append(package.as_str());
                m.append(" has no version");
                failed(m)
            },
        },
        McpSource::PypiUvx { package } => match pypi_latest_version(&body) {
            Some(latest) => from_registry(local_version, latest),
            None => {
                let mut m = "PyPI response for ".to_owned();
                m.append(package.as_str());
                m.append(" has no info.version");
                failed(m)
            },
        },
        _ => failed("no upstream source".to_owned()),
    }
}

/// The outcome of a check by the heads of a clone and of its remote.
pub fn git_outcome(reply: Result<(String, String), String>) -> (r: CheckOutcome)
    ensures
        r@ == git_check(heads_view(reply)),
{
    match reply {
        Ok((local, remote)) => {
            let behind = !same(local.as_str(), remote.as_str());
            CheckOutcome { latest: Some(remote), behind, error: None }
        },
        Err(error) => failed(error),
    }
}

/// What a check may ask: a registry for its one address, and nothing of a source that is in none.
pub open spec fn may_ask_registry<H: FnOnce(&String) -> Result<Json, String>>(
    http_json: H,
    source: Source,
) -> bool {
    forall|url: &String|
        registry_address(source) == Some(url@) ==> #[trigger] call_requires(http_json, (url,))
}

/// What a check may ask: a clone for its heads, and nothing of a source that is not cloned.
pub open spec fn may_ask_clone<G: FnOnce(&String) -> Result<(String, String), String>>(
    git_oids: G,
    source: Source,
) -> bool {
    forall|path: &String|
        (source matches Source::Git(_, clone_path) && clone_path == path@)
            ==> #[trigger] call_requires(git_oids, (path,))
}

/// One check, with the network and git probes given as functions: a registry is asked for its
/// one address, a clone for its heads, and a definition without an upstream nothing.
pub open spec fn checked_with<
    H: FnOnce(&String) -> Result<Json, String>,
    G: FnOnce(&String) -> Result<(String, String), String>,
>(source: Source, local: Option<Seq<char>>, http_json: H, git_oids: G, r: Checked) -> bool {
    match source {
        Source::Unknown => r == check_failed("no upstream source"@),
        Source::Git(_, clone_path) => exists|path: String, reply: Result<(String, String), String>|
            path@ == clone_path && #[trigger] call_ensures(git_oids, (&path,), reply) && r
                == git_check(heads_view(reply)),
        _ => exists|url: String, reply: Result<Json, String>|
            Some(url@) == registry_address(source) && #[trigger] call_ensures(
                http_json,
                (&url,),
                reply,
            ) && r == registry_check(source, local, body_view(reply)),
    }
}

/// One check of a source against its upstream, which asks at most once.
pub fn check_one<
    H: FnOnce(&String) -> Result<Json, String>,
    G: FnOnce(&String) -> Result<(String, String), String>,
>(source: &McpSource, local_version: Option<&String>, http_json: H, git_oids: G) -> (r: CheckOutcome)
    requires
        may_ask_registry(http_json, source@),
        may_ask_clone(git_oids, source@),
    ensures
        checked_with(source@, text_ref(local_version), http_json, git_oids, r@),
{
    match source {
        McpSource::Unknown => failed("no upstream source".to_owned()),
        McpSource::Git { repo_url, clone_path } => git_outcome(git_oids(clone_path)),
        _ => match registry_url(source) {
            Some(url) => registry_outcome(source, local_version, http_json(&url)),
            None => failed("no upstream source".to_owned()),
        },
    }
}

/// The status word that is stored with a check.
pub open spec fn status_word(outcome: Checked) -> Seq<char> {
    if outcome.error is Some {
        "error"@
    } else if outcome.behind {
        "update_available"@
    } else {
        "up_to_date"@
    }
}

pub fn check_status(outcome: &CheckOutcome) -> (r: String)
    ensures
        r@ == status_word(outcome@),
{
    if outcome.error.is_some() {
        "error".to_owned()
    } else if outcome.behind {
        "update_available".to_owned()
    } else {
        "up_to_date".to_owned()
    }
}

// ── what is installed ──

/// Where the npx cache holds a package under a hash directory.
pub open spec fn npx_dir(root: Seq<char>, hash: Seq<char>, package: Seq<char>) -> Seq<char> {
    child_of(child_of(child_of(root, hash), "node_modules"@), package)
}

pub fn npx_candidate(root: &str, hash: &str, package: &str) -> (r: String)
    ensures
        r@ == npx_dir(root@, hash@, package@),
{
    let entry = child_path(root, hash);
    let modules = child_path(entry.as_str(), "node_modules");
    child_path(modules.as_str(), package)
}

pub open spec fn npx_dirs(root: Seq<char>, package: Seq<char>, hashes: Seq<Seq<char>>) -> Seq<
    Seq<char>,
> {
    Seq::new(hashes.len(), |i: int| npx_dir(root, sorted(hashes)[i], package))
}

/// Every directory of the npx cache that holds the package, in the order of the hash
/// directories. `hashes` names those in which it is installed.
pub fn npx_cache_dirs_in(root: &str, package: &str, hashes: &Vec<String>) -> (r: Vec<String>)
    ensures
        texts(r@) == npx_dirs(root@, package@, texts(hashes@)),
{
    let names = sort_texts(hashes);
    proof {
        crate::order::law_sorted_is_ascending_permutation(texts(hashes@));
        assert(texts(names@).to_multiset().len() == texts(hashes@).to_multiset().len());
        texts(names@).to_multiset_ensures();
        texts(hashes@).to_multiset_ensures();
    }
    let mut dirs: Vec<String> = Vec::new();
    let mut i: usize = 0;
    while i < names.len()
        invariant
            i <= names.len(),
            names.len() == hashes.len(),
            texts(names@) == sorted(texts(hashes@)),
            dirs.len() == i,
            forall|k: int|
                0 <= k < i ==> (#[trigger] dirs@[k])@ == npx_dir(
                    root@,
                    sorted(texts(hashes@))[k],
                    package@,
                ),
        decreases names.len() - i,
    {
        assert(texts(names@)[i as int] == names@[i as int]@);
        dirs.push(npx_candidate(root, names[i].as_str(), package));
        i = i + 1;
    }
    assert(texts(dirs@) =~= npx_dirs(root@, package@, texts(hashes@)));
    dirs
}

pub open spec fn launch_line(command: Option<Seq<char>>, args: Seq<Seq<char>>) -> Seq<Seq<char>> {
    match command {
        Some(c) => seq![c] + args,
        None => args,
    }
}

/// The install directory that the first word naming the package points into.
pub open spec fn install_dir(words: Seq<Seq<char>>, package: Seq<char>) -> Option<Seq<char>>
    decreases words.len(),
{
    if words.len() == 0 {
        None
    } else if package_in_path(words[0]) == Some(package) {
        match node_modules_at(words[0]) {
            Some(i) => Some(words[0].take(i + 12) + "/"@ + package),
            None => None,
        }
    } else {
        install_dir(words.skip(1), package)
    }
}

fn install_dir_in(word: &str, package: &str) -> (r: Option<String>)
    ensures
        r.deep_view() == install_dir(seq![word@], package@),
{
    proof {
        assert(seq![word@].skip(1) =~= Seq::<Seq<char>>::empty());
        assert(install_dir(Seq::<Seq<char>>::empty(), package@) is None);
        reveal_with_fuel(install_dir, 2);
    }
    match package_from_node_modules_path(word) {
        Some(found) => if same(found.as_str(), package) {
            match find_node_modules(word) {
                Some(i) => {
                    let n: usize = char_count(word);
                    assert(i + 12 < n);
                    let mut dir = take_chars(word, i + 12);
                    dir.append("/");
                    dir.append(package);
                    Some(dir)
                },
                None => None,
            }
        } else {
            None
        },
        None => None,
    }
}

/// Recover the `…/node_modules/<package>` install directory from the launch line.
fn npm_global_dir(command: Option<&String>, args: &Vec<String>, package: &str) -> (r: Option<
    String,
>)
    ensures
        r.deep_view() == install_dir(
            launch_line(
                text_ref(command),
                texts(args@),
            ),
            package@,
        ),
{
    let ghost words = texts(args@);
    let ghost line = launch_line(text_ref(command), words);
    if let Some(c) = command {
        let found = install_dir_in(c.as_str(), package);
        proof {
            assert((seq![c@] + words).skip(1) =~= words);
            assert(seq![c@].skip(1) =~= Seq::<Seq<char>>::empty());
            reveal_with_fuel(install_dir, 2);
        }
        if found.is_some() {
            return found;
        }
    }
    let mut i: usize = 0;
    assert(words.skip(0) =~= words);
    while i < args.len()
        invariant
            i <= args.len(),
            words == texts(args@),
            line == launch_line(text_ref(command), words),
            install_dir(line, package@) == install_dir(words, package@),
            install_dir(words, package@) == install_dir(words.skip(i as int), package@),
        decreases args.len() - i,
    {
        let found = install_dir_in(args[i].as_str(), package);
        proof {
            assert(words.skip(i as int)[0] == args@[i as int]@);
            assert(words.skip(i as int).skip(1) =~= words.skip(i + 1));
            assert(seq![args@[i as int]@].skip(1) =~= Seq::<Seq<char>>::empty());
            reveal_with_fuel(install_dir, 2);
        }
        if found.is_some() {
            return found;
        }
        i = i + 1;
    }
    None
}

/// The directory of the installed package, where the layout makes it discoverable: the global
/// `node_modules/<package>` of the launch line, or the first npx cache directory.
pub open spec fn package_dir(
    command: Option<Seq<char>>,
    args: Seq<Seq<char>>,
    source: Source,
    npx_dirs: Seq<Seq<char>>,
) -> Option<Seq<char>> {
    match source {
        Source::NpmGlobal(package) => install_dir(launch_line(command, args), package),
        Source::Npx(_) => if npx_dirs.len() > 0 {
            Some(npx_dirs[0])
        } else {
            None
        },
        _ => None,
    }
}

pub fn find_package_dir(
    command: Option<&String>,
    args: &Vec<String>,
    source: &McpSource,
    npx_dirs: &Vec<String>,
) -> (r: Option<String>)
    ensures
        r.deep_view() == package_dir(
            text_ref(command),
            texts(args@),
            source@,
            texts(npx_dirs@),
        ),
{
    match source {
        McpSource::NpmGlobal { package } => npm_global_dir(command, args, package.as_str()),
        McpSource::Npx { package } => if npx_dirs.len() > 0 {
            assert(texts(npx_dirs@)[0] == npx_dirs@[0]@);
            Some(npx_dirs[0].clone())
        } else {
            None
        },
        _ => None,
    }
}

/// The `version` text of a `package.json`, where there is one that can be read.
pub open spec fn manifest_version(manifest: Option<Seq<char>>) -> Option<Seq<char>> {
    match manifest {
        Some(text) => match json_document(text) {
            Ok(v) => text_member(v, "version"@),
            Err(_) => None,
        },
        None => None,
    }
}

/// The `version` text of a parsed `package.json`.
pub fn version_of_manifest(manifest: &Json) -> (r: Option<String>)
    ensures
        r.deep_view() == text_member(manifest@, "version"@),
{
    match manifest.get("version") {
        Some(v) => match v.as_str() {
            Some(s) => Some(s.clone()),
            None => None,
        },
        None => None,
    }
}

/// Local installed version: the `version` of the `package.json` in [`find_package_dir`]. An
/// unreadable one degrades to none, never an error.
pub fn local_version(manifest: Option<String>) -> (r: Option<String>)
    ensures
        r.deep_view() == manifest_version(manifest.deep_view()),
{
    match manifest {
        Some(text) => match parse_json(text.as_str()) {
            Ok(json) => version_of_manifest(&json),
            Err(_) => None,
        },
        None => None,
    }
}

// ── the whole library ──

/// What the check of one record may ask: what is installed of its source, what that source may be
/// asked, and where it names none, why not.
pub open spec fn may_check<
    L: Fn(&McpServerRecord, &McpSource) -> Option<String>,
    H: Fn(&String) -> Result<Json, String>,
    G: Fn(&String) -> Result<(String, String), String>,
    W: Fn(&Json) -> String,
>(record: McpServerRecord, installed: L, http_json: H, git_oids: G, why: W) -> bool {
    &&& may_say_why(why, record@.source)
    &&& source_of_json(record@.source) matches Some(source) ==> {
        &&& may_ask_registry(http_json, source)
        &&& may_ask_clone(git_oids, source)
        &&& forall|parsed: &McpSource|
            parsed@ == source ==> #[trigger] call_requires(installed, (&record, parsed))
    }
}

/// What one record's check may have come to, with the probes given as functions.
pub open spec fn record_checked<
    L: Fn(&McpServerRecord, &McpSource) -> Option<String>,
    H: Fn(&String) -> Result<Json, String>,
    G: Fn(&String) -> Result<(String, String), String>,
    W: Fn(&Json) -> String,
>(record: McpServerRecord, installed: L, http_json: H, git_oids: G, why: W, r: Checked) -> bool {
    match source_of_json(record@.source) {
        None => r.error matches Some(message) && r == check_failed(message) && source_refused(
            record@.source,
            why,
            message,
        ),
        Some(source) => exists|parsed: McpSource, local: Option<String>|
            parsed@ == source && #[trigger] call_ensures(installed, (&record, &parsed), local)
                && checked_with(source, local.deep_view(), http_json, git_oids, r),
    }
}

pub open spec fn outcome_pairs(v: Seq<(String, CheckOutcome)>) -> Seq<(Seq<char>, Checked)> {
    Seq::new(v.len(), |i: int| (v[i].0@, v[i].1@))
}

/// Results recorded one after another; one for a definition that is gone changes nothing.
pub open spec fn all_recorded(l: Library, results: Seq<(Seq<char>, Checked)>, now: i64) -> Library
    decreases results.len(),
{
    if results.len() == 0 {
        l
    } else {
        let (id, outcome) = results.last();
        check_recorded(
            all_recorded(l, results.drop_last(), now),
            id,
            status_word(outcome),
            outcome.latest,
            outcome.error,
            now,
        ).1
    }
}

/// Check every given definition against its upstream and record the results. Failures land as
/// `error` status; this never fails as a whole.
pub fn check_servers<
    L: Fn(&McpServerRecord, &McpSource) -> Option<String>,
    H: Fn(&String) -> Result<Json, String>,
    G: Fn(&String) -> Result<(String, String), String>,
    W: Fn(&Json) -> String,
>(
    store: &mut SkillStore,
    servers: &Vec<McpServerRecord>,
    installed: &L,
    http_json: &H,
    git_oids: &G,
    why: &W,
    now: i64,
) -> (r: Vec<(String, CheckOutcome)>)
    requires
        forall|i: int|
            0 <= i < servers@.len() ==> may_check(
                #[trigger] servers@[i],
                *installed,
                *http_json,
                *git_oids,
                *why,
            ),
    ensures
        r@.len() == servers@.len(),
        forall|i: int|
            0 <= i < r@.len() ==> (#[trigger] r@[i]).0@ == servers@[i]@.id && record_checked(
                servers@[i],
                *installed,
                *http_json,
                *git_oids,
                *why,
                r@[i].1@,
            ),
        final(store)@ == all_recorded(old(store)@, outcome_pairs(r@), now),
{
    let mut results: Vec<(String, CheckOutcome)> = Vec::new();
    let ghost before = store@;
    let mut i: usize = 0;
    assert(outcome_pairs(results@) =~= Seq::<(Seq<char>, Checked)>::empty());
    while i < servers.len()
        invariant
            i <= servers.len(),
            results@.len() == i,
            forall|k: int|
                0 <= k < servers@.len() ==> may_check(
                    #[trigger] servers@[k],
                    *installed,
                    *http_json,
                    *git_oids,
                    *why,
                ),
            forall|k: int|
                0 <= k < i ==> (#[trigger] results@[k]).0@ == servers@[k]@.id && record_checked(
                    servers@[k],
                    *installed,
                    *http_json,
                    *git_oids,
                    *why,
                    results@[k].1@,
                ),
            store@ == all_recorded(before, outcome_pairs(results@), now),
        decreases servers.len() - i,
    {
        let record = &servers[i];
        assert(may_check(servers@[i as int], *installed, *http_json, *git_oids, *why));
        let outcome = match parse_source(&record.source, why) {
            Err(error) => failed(error),
            Ok(source) => {
                let local = installed(record, &source);
                let local_ref = match &local {
                    Some(version) => Some(version),
                    None => None,
                };
                assert(text_ref(local_ref) == local.deep_view());
                let ask = |url: &String| -> (r: Result<Json, String>)
                    requires
                        call_requires(*http_json, (url,)),
                    ensures
                        call_ensures(*http_json, (url,), r),
                    { http_json(url) };
                let heads = |path: &String| -> (r: Result<(String, String), String>)
                    requires
                        call_requires(*git_oids, (path,)),
                    ensures
                        call_ensures(*git_oids, (path,), r),
                    { git_oids(path) };
                check_one(&source, local_ref, ask, heads)
            },
        };
        let status = check_status(&outcome);
        let latest = copy_text(&outcome.latest);
        let error = copy_text(&outcome.error);
        // A definition that has gone meanwhile has no state to record.
        let recorded = store.set_mcp_check_state(
            record.id.as_str(),
            status.as_str(),
            latest,
            error,
            now,
        );
        let ghost pairs = outcome_pairs(results@);
        results.push((record.id.clone(), outcome));
        proof {
            assert(outcome_pairs(results@).drop_last() =~= pairs);
        }
        i = i + 1;
    }
    results
}

/// Where nothing is known of the installed version, no update is claimed.
pub proof fn law_unknown_version_is_never_behind(source: Source, reply: Result<JsonTree, Seq<char>>)
    ensures
        !registry_check(source, None, reply).behind,
{
}

/// A check that failed claims neither a version nor an update, and is recorded as an error.
pub proof fn law_failed_check_claims_nothing(
    source: Source,
    local: Option<Seq<char>>,
    reply: Result<JsonTree, Seq<char>>,
)
    ensures
        registry_check(source, local, reply).error is Some ==> registry_check(
            source,
            local,
            reply,
        ).latest is None && !registry_check(source, local, reply).behind && status_word(
            registry_check(source, local, reply),
        ) == "error"@,
{
}

} // verus!
