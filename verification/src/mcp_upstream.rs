//! Upstream sources for the managed MCP library.
//!
//! A definition may have an upstream it was built from: an npm package installed globally, a
//! package npx cached, a PyPI package uvx runs, or a git repository cloned into the central
//! cache. The module answers three questions per definition:
//!
//! * **Where does it come from?** [`infer_source`] guesses from the command line (best-effort;
//!   the user can always override), and [`McpSource`] is the explicit tag stored with it.
//! * **Is it behind?** [`check_one`] asks a registry or compares git oids.
//! * **How would we upgrade it?** [`upgrade_commands`] renders the exact shell commands, and
//!   [`run_commands`] executes them — only ever after they have been shown verbatim.

pub mod check_laws;
pub mod checks;
pub mod clones;
pub mod inference_laws;
pub mod version_laws;

use vstd::prelude::*;
use vstd::utf8::is_ascii_chars;
use crate::json::{
    member, member_keys_ascend, ordered, plain, text_member, text_of, tree, Json, JsonTree,
};
use crate::mcp_store::McpServerRecord;
use crate::order::lex_less;
use crate::repo_key::{keep_non_empty, non_empty_pieces};
use crate::text::{
    ascii_lowered, char_count, chars_of, decimal, decimal_of_signed, ends_with, has_suffix,
    is_space, last_position_of, last_position_of_text, lowercase, parse_u64, parsed_u64, replace,
    replace_char, rfind, rfind_char, same, skip_chars, split, split_on, string_of, take_chars,
    texts, to_lower, trim, trim_end, trimmed, without_end_space, without_suffix,
};
use crate::trimming::{lemma_solid_part, lemma_trimmed_between, lemma_trimmed_blank};

verus! {

/// The upstream source a definition was built from.
#[derive(Debug, PartialEq)]
pub enum McpSource {
    /// Foreign, hand-written, or simply unknown: no check, no plan.
    Unknown,
    /// npm package installed with `npm i -g` and launched via its absolute node path.
    NpmGlobal { package: String },
    /// Package resolved by `npx` at launch time (and cached under `~/.npm/_npx`).
    Npx { package: String },
    /// PyPI package launched through `uvx`.
    PypiUvx { package: String },
    /// Repository cloned into the central cache; `clone_path` points at it.
    Git { repo_url: String, clone_path: String },
}

/// What an [`McpSource`] holds.
pub ghost enum Source {
    Unknown,
    NpmGlobal(Seq<char>),
    Npx(Seq<char>),
    PypiUvx(Seq<char>),
    Git(Seq<char>, Seq<char>),
}

impl View for McpSource {
    type V = Source;

    open spec fn view(&self) -> Source {
        match self {
            McpSource::Unknown => Source::Unknown,
            McpSource::NpmGlobal { package } => Source::NpmGlobal(package@),
            McpSource::Npx { package } => Source::Npx(package@),
            McpSource::PypiUvx { package } => Source::PypiUvx(package@),
            McpSource::Git { repo_url, clone_path } => Source::Git(repo_url@, clone_path@),
        }
    }
}

/// The `kind` tag: the member of that name, or the first item of a list.
pub open spec fn source_kind(v: JsonTree) -> Option<Seq<char>> {
    match v {
        JsonTree::Object(_) => text_member(v, "kind"@),
        JsonTree::List(items) => if items.len() > 0 {
            text_of(items[0])
        } else {
            None
        },
        _ => None,
    }
}

/// A field of a source: the member of that name, or the item at its place.
pub open spec fn source_field(v: JsonTree, place: int, key: Seq<char>) -> Option<Seq<char>> {
    match v {
        JsonTree::Object(_) => text_member(v, key),
        JsonTree::List(items) => if 0 < place < items.len() {
            text_of(items[place])
        } else {
            None
        },
        _ => None,
    }
}

/// A list holds the tag and the fields, and nothing else.
pub open spec fn source_complete(v: JsonTree, fields: int) -> bool {
    v matches JsonTree::List(items) ==> items.len() == fields + 1
}

/// The source that a JSON value stands for.
pub open spec fn source_of_json(v: JsonTree) -> Option<Source> {
    match source_kind(v) {
        None => None,
        Some(kind) => {
            let package = source_field(v, 1, "package"@);
            if kind == "none"@ {
                if source_complete(v, 0) {
                    Some(Source::Unknown)
                } else {
                    None
                }
            } else if kind == "git"@ {
                match (source_field(v, 1, "repo_url"@), source_field(v, 2, "clone_path"@)) {
                    (Some(url), Some(path)) if source_complete(v, 2) => Some(Source::Git(url, path)),
                    _ => None,
                }
            } else if !source_complete(v, 1) || package is None {
                None
            } else if kind == "npm_global"@ {
                Some(Source::NpmGlobal(package.unwrap()))
            } else if kind == "npx"@ {
                Some(Source::Npx(package.unwrap()))
            } else if kind == "pypi_uvx"@ {
                Some(Source::PypiUvx(package.unwrap()))
            } else {
                None
            }
        },
    }
}

/// The JSON object that a source is stored as, its members in the order of their keys.
pub open spec fn source_tree(source: Source) -> JsonTree {
    match source {
        Source::Unknown => JsonTree::Object(seq![("kind"@, JsonTree::Text("none"@))]),
        Source::NpmGlobal(package) => JsonTree::Object(
            seq![("kind"@, JsonTree::Text("npm_global"@)), ("package"@, JsonTree::Text(package))],
        ),
        Source::Npx(package) => JsonTree::Object(
            seq![("kind"@, JsonTree::Text("npx"@)), ("package"@, JsonTree::Text(package))],
        ),
        Source::PypiUvx(package) => JsonTree::Object(
            seq![("kind"@, JsonTree::Text("pypi_uvx"@)), ("package"@, JsonTree::Text(package))],
        ),
        Source::Git(url, path) => JsonTree::Object(
            seq![
                ("clone_path"@, JsonTree::Text(path)),
                ("kind"@, JsonTree::Text("git"@)),
                ("repo_url"@, JsonTree::Text(url)),
            ],
        ),
    }
}

// A stored source has its keys in order and no number in it.
proof fn lemma_source_tree(source: Source)
    ensures
        ordered(source_tree(source)),
        plain(source_tree(source), 100),
{
    reveal_with_fuel(ordered, 2);
    reveal_with_fuel(plain, 2);
    reveal_strlit("clone_path");
    reveal_strlit("kind");
    reveal_strlit("repo_url");
    reveal_strlit("package");
    assert("clone_path"@[0] == 'c' && "kind"@[0] == 'k' && "repo_url"@[0] == 'r' && "package"@[0]
        == 'p');
    let ms = source_tree(source)->Object_0;
    assert forall|i: int, j: int| 0 <= i < j < ms.len() implies lex_less(
        (#[trigger] ms[i]).0,
        (#[trigger] ms[j]).0,
    ) by {}
    assert(member_keys_ascend(ms));
}

/// A stored source parses back to itself.
pub proof fn law_source_round_trip(source: Source)
    ensures
        source_of_json(source_tree(source)) == Some(source),
{
    reveal_strlit("kind");
    reveal_strlit("package");
    reveal_strlit("clone_path");
    reveal_strlit("repo_url");
    reveal_strlit("none");
    reveal_strlit("git");
    reveal_strlit("npm_global");
    reveal_strlit("npx");
    reveal_strlit("pypi_uvx");
    assert("kind"@[0] == 'k' && "package"@[0] == 'p' && "clone_path"@[0] == 'c' && "repo_url"@[0] == 'r');
    assert("none"@.len() == 4 && "git"@.len() == 3 && "npm_global"@.len() == 10 && "npx"@.len() == 3
        && "pypi_uvx"@.len() == 8);
    assert("git"@[0] == 'g' && "npx"@[0] == 'n');
    reveal_with_fuel(crate::json::lookup, 4);
    let v = source_tree(source);
    let ms = v->Object_0;
    match source {
        Source::Git(url, path) => {
            assert(text_member(v, "kind"@) == Some("git"@));
            assert(text_member(v, "repo_url"@) == Some(url));
            assert(text_member(v, "clone_path"@) == Some(path));
        },
        Source::Unknown => {
            assert(text_member(v, "kind"@) == Some("none"@));
        },
        Source::NpmGlobal(package) => {
            assert(text_member(v, "kind"@) == Some("npm_global"@));
            assert(text_member(v, "package"@) == Some(package));
        },
        Source::Npx(package) => {
            assert(text_member(v, "kind"@) == Some("npx"@));
            assert(text_member(v, "package"@) == Some(package));
        },
        Source::PypiUvx(package) => {
            assert(text_member(v, "kind"@) == Some("pypi_uvx"@));
            assert(text_member(v, "package"@) == Some(package));
        },
    }
}

fn json_field(value: &Json, place: usize, key: &str) -> (r: Option<String>)
    requires
        place > 0,
    ensures
        r.deep_view() == source_field(value@, place as int, key@),
{
    match value {
        Json::Object(_) => match value.get(key) {
            Some(v) => match v.as_str() {
                Some(s) => Some(s.clone()),
                None => None,
            },
            None => None,
        },
        Json::List(items) => {
            proof {
                reveal_with_fuel(tree, 2);
            }
            if place < items.len() {
                assert(value@->List_0[place as int] == items@[place as int]@);
                match items[place].as_str() {
                    Some(s) => Some(s.clone()),
                    None => None,
                }
            } else {
                None
            }
        },
        _ => None,
    }
}

fn json_kind(value: &Json) -> (r: Option<String>)
    ensures
        r.deep_view() == source_kind(value@),
{
    match value {
        Json::Object(_) => match value.get("kind") {
            Some(v) => match v.as_str() {
                Some(s) => Some(s.clone()),
                None => None,
            },
            None => None,
        },
        Json::List(items) => {
            proof {
                reveal_with_fuel(tree, 2);
            }
            if items.len() > 0 {
                assert(value@->List_0[0] == items@[0]@);
                match items[0].as_str() {
                    Some(s) => Some(s.clone()),
                    None => None,
                }
            } else {
                None
            }
        },
        _ => None,
    }
}

fn json_complete(value: &Json, fields: usize) -> (r: bool)
    requires
        fields < 10,
    ensures
        r == source_complete(value@, fields as int),
{
    match value {
        Json::List(items) => items.len() == fields + 1,
        _ => true,
    }
}

fn read_source(value: &Json) -> (r: Option<McpSource>)
    ensures
        match r {
            Some(source) => source_of_json(value@) == Some(source@),
            None => source_of_json(value@) is None,
        },
{
    let kind = match json_kind(value) {
        Some(kind) => kind,
        None => {
            return None;
        },
    };
    let k = kind.as_str();
    if same(k, "none") {
        return if json_complete(value, 0) {
            Some(McpSource::Unknown)
        } else {
            None
        };
    }
    if same(k, "git") {
        return match (json_field(value, 1, "repo_url"), json_field(value, 2, "clone_path")) {
            (Some(repo_url), Some(clone_path)) => if json_complete(value, 2) {
                Some(McpSource::Git { repo_url, clone_path })
            } else {
                None
            },
            _ => None,
        };
    }
    let package = match json_field(value, 1, "package") {
        Some(package) => package,
        None => {
            return None;
        },
    };
    if !json_complete(value, 1) {
        None
    } else if same(k, "npm_global") {
        Some(McpSource::NpmGlobal { package })
    } else if same(k, "npx") {
        Some(McpSource::Npx { package })
    } else if same(k, "pypi_uvx") {
        Some(McpSource::PypiUvx { package })
    } else {
        None
    }
}

/// What is said of a value that is no source, with the reason for it.
pub open spec fn invalid_source(reason: Seq<char>) -> Seq<char> {
    "invalid upstream source: "@ + reason
}

/// What `why` may be asked: of a value that is no source, what is wrong with it.
pub open spec fn may_say_why<W: Fn(&Json) -> String>(why: W, value: JsonTree) -> bool {
    forall|json: &Json|
        json@ == value && source_of_json(value) is None ==> #[trigger] call_requires(why, (json,))
}

/// Whether a value that is no source is refused with this message, for the reason that `why`
/// gives.
pub open spec fn source_refused<W: Fn(&Json) -> String>(
    value: JsonTree,
    why: W,
    message: Seq<char>,
) -> bool {
    exists|json: Json, reason: String|
        json@ == value && #[trigger] call_ensures(why, (&json,), reason) && message
            == invalid_source(reason@)
}

/// Parse a stored source. A malformed value is an error, not a silent downgrade to "unknown" — a
/// corrupted tag must not look like "no upstream source" forever. `why` says what is wrong with a
/// value that is no source.
pub fn parse_source<W: Fn(&Json) -> String>(value: &Json, why: &W) -> (r: Result<McpSource, String>)
    requires
        may_say_why(*why, value@),
    ensures
        match r {
            Ok(source) => source_of_json(value@) == Some(source@),
            Err(message) => source_of_json(value@) is None && source_refused(
                value@,
                *why,
                message@,
            ),
        },
{
    match read_source(value) {
        Some(source) => Ok(source),
        None => {
            let mut message = "invalid upstream source: ".to_owned();
            message.append(why(value).as_str());
            Err(message)
        },
    }
}

/// The JSON object that a source is stored as.
pub fn source_to_json(source: &McpSource) -> (r: Json)
    ensures
        r@ == source_tree(source@),
        ordered(r@),
        plain(r@, 100),
{
    let mut members: Vec<(String, Json)> = Vec::new();
    proof {
        reveal_with_fuel(tree, 2);
    }
    let kind = match source {
        McpSource::Unknown => "none",
        McpSource::NpmGlobal { package } => "npm_global",
        McpSource::Npx { package } => "npx",
        McpSource::PypiUvx { package } => "pypi_uvx",
        McpSource::Git { repo_url, clone_path } => {
            members.push(("clone_path".to_owned(), Json::Text(clone_path.clone())));
            "git"
        },
    };
    members.push(("kind".to_owned(), Json::Text(kind.to_owned())));
    match source {
        McpSource::Unknown => {},
        McpSource::NpmGlobal { package } => {
            members.push(("package".to_owned(), Json::Text(package.clone())));
        },
        McpSource::Npx { package } => {
            members.push(("package".to_owned(), Json::Text(package.clone())));
        },
        McpSource::PypiUvx { package } => {
            members.push(("package".to_owned(), Json::Text(package.clone())));
        },
        McpSource::Git { repo_url, clone_path } => {
            members.push(("repo_url".to_owned(), Json::Text(repo_url.clone())));
        },
    }
    let r = Json::Object(members);
    assert(r@->Object_0 =~= source_tree(source@)->Object_0);
    proof {
        lemma_source_tree(source@);
    }
    r
}

/// What stands behind the last slash or backslash.
pub open spec fn base_name(s: Seq<char>) -> Seq<char> {
    let t = replace_char(s, '\\', "/"@);
    match rfind_char(t, '/') {
        Some(i) => t.skip(i + 1),
        None => t,
    }
}

pub open spec fn without_exe(s: Seq<char>) -> Seq<char> {
    if ends_with(s, ".exe"@) {
        s.take(s.len() - ".exe"@.len())
    } else {
        s
    }
}

/// Lowercase command basename with any `.exe` suffix removed.
pub open spec fn tool_of(command: Seq<char>) -> Seq<char> {
    lowercase(without_exe(base_name(trimmed(command))))
}

/// Flags that consume the following argument as their value.
pub open spec fn takes_value(arg: Seq<char>) -> bool {
    arg == "-p"@ || arg == "--package"@ || arg == "--from"@ || arg == "--with"@
}

/// A package name without the version behind its last `@`; a leading `@` stays.
pub open spec fn without_version(arg: Seq<char>) -> Seq<char> {
    match rfind_char(arg, '@') {
        Some(i) if i > 0 => arg.take(i),
        _ => arg,
    }
}

/// First positional argument: boolean flags and the values of [`takes_value`] flags are
/// skipped.
pub open spec fn positional(args: Seq<Seq<char>>) -> Option<Seq<char>>
    decreases args.len(),
{
    if args.len() == 0 {
        None
    } else if takes_value(args[0]) {
        if args.len() < 2 {
            None
        } else {
            positional(args.skip(2))
        }
    } else if args[0].len() > 0 && args[0][0] == '-' {
        positional(args.skip(1))
    } else {
        Some(without_version(args[0]))
    }
}

/// Value of the first occurrence of `flag`.
pub open spec fn value_of_flag(args: Seq<Seq<char>>, flag: Seq<char>) -> Option<Seq<char>>
    decreases args.len(),
{
    if args.len() == 0 {
        None
    } else if args[0] == flag {
        if args.len() > 1 {
            Some(without_version(args[1]))
        } else {
            None
        }
    } else {
        value_of_flag(args.skip(1), flag)
    }
}

/// Where the last `node_modules` directory name of a path starts.
pub open spec fn node_modules_at(path: Seq<char>) -> Option<int> {
    match rfind(path, "node_modules/"@) {
        Some(i) => Some(i),
        None => rfind(path, "node_modules\\"@),
    }
}

/// The segments of a path, by slashes and backslashes.
pub open spec fn path_segments(path: Seq<char>) -> Seq<Seq<char>> {
    non_empty_pieces(split(replace_char(path, '\\', "/"@), '/'))
}

/// Package id from a path like `…/node_modules/@scope/name/bin.mjs`: the one (or two, for
/// scopes) segments right after the *last* `node_modules`.
pub open spec fn package_in_path(path: Seq<char>) -> Option<Seq<char>> {
    match node_modules_at(path) {
        None => None,
        Some(i) => {
            let segments = path_segments(path.skip(i + 13));
            if segments.len() == 0 {
                None
            } else if segments[0].len() > 0 && segments[0][0] == '@' {
                if segments.len() > 1 {
                    Some(segments[0] + "/"@ + segments[1])
                } else {
                    None
                }
            } else {
                Some(segments[0])
            }
        },
    }
}

/// The npm package whose script is launched, if the first argument lies in `node_modules`.
pub open spec fn launched_package(args: Seq<Seq<char>>) -> Source {
    let first = if args.len() > 0 {
        args[0]
    } else {
        Seq::empty()
    };
    match package_in_path(first) {
        Some(package) => Source::NpmGlobal(package),
        None => Source::Unknown,
    }
}

/// The source inferred for a tool, by its name and the command it was taken from in lower
/// case.
pub open spec fn source_for_tool(tool: Seq<char>, lowered: Seq<char>, args: Seq<Seq<char>>) -> Source {
    if tool == "npx"@ {
        match positional(args) {
            Some(package) => Source::Npx(package),
            None => Source::Unknown,
        }
    } else if tool == "uvx"@ {
        match value_of_flag(args, "--from"@) {
            Some(package) => Source::PypiUvx(package),
            None => match positional(args) {
                Some(package) => Source::PypiUvx(package),
                None => Source::Unknown,
            },
        }
    } else if tool == "node"@ || tool == "nodejs"@ || tool == "bun"@ {
        launched_package(args)
    } else if ends_with(without_exe(lowered), "node"@) {
        launched_package(args)
    } else {
        Source::Unknown
    }
}

/// Upstream inference from the launch command line.
pub open spec fn inferred_source(command: Option<Seq<char>>, args: Seq<Seq<char>>) -> Source {
    match command {
        None => Source::Unknown,
        Some(c) => source_for_tool(tool_of(c), lowercase(trimmed(c)), args),
    }
}

/// The same for a command of ASCII characters, letter by letter.
pub open spec fn ascii_inferred_source(command: Seq<char>, args: Seq<Seq<char>>) -> Source {
    source_for_tool(
        ascii_lowered(without_exe(base_name(trimmed(command)))),
        ascii_lowered(trimmed(command)),
        args,
    )
}

/// The programs that launch a package.
pub open spec fn is_launcher(tool: Seq<char>) -> bool {
    tool == "npx"@ || tool == "uvx"@ || tool == "node"@ || tool == "nodejs"@ || tool == "bun"@
}

/// The name of a command's program as written, without directories and `.exe`.
pub open spec fn program_of(command: Seq<char>) -> Seq<char> {
    without_exe(base_name(trimmed(command)))
}

/// Whether a command starts one of the launchers, in any case of the letters.
pub open spec fn starts_launcher(command: Seq<char>) -> bool {
    is_ascii_chars(program_of(command)) && is_launcher(ascii_lowered(program_of(command)))
}

/// The source inferred for a command that starts a launcher: only the program counts, not where
/// it lies.
pub open spec fn launcher_source(command: Seq<char>, args: Seq<Seq<char>>) -> Source {
    source_for_tool(ascii_lowered(program_of(command)), Seq::empty(), args)
}

pub open spec fn ascii_command(command: Seq<char>) -> bool {
    is_ascii_chars(trimmed(command)) && is_ascii_chars(without_exe(base_name(trimmed(command))))
}

fn strip_exe(s: String) -> (r: String)
    ensures
        r@ == without_exe(s@),
{
    match without_suffix(s.as_str(), ".exe") {
        Some(head) => head,
        None => s,
    }
}

fn file_name(s: &str) -> (r: String)
    ensures
        r@ == base_name(s@),
{
    let t = replace(s, '\\', "/");
    match last_position_of(t.as_str(), '/') {
        Some(i) => {
            let n: usize = char_count(t.as_str());
            assert(i < n);
            skip_chars(t.as_str(), i + 1)
        },
        None => t,
    }
}

/// Lowercase command basename with any `.exe` suffix removed, so bare `npx`, absolute
/// `/…/fnm/…/bin/npx` and Windows `node.exe` all classify the same way.
fn command_tool(command: &str) -> (r: String)
    ensures
        r@ == tool_of(command@),
        is_ascii_chars(without_exe(base_name(trimmed(command@)))) ==> r@ == ascii_lowered(
            without_exe(base_name(trimmed(command@))),
        ),
{
    to_lower(strip_exe(file_name(trim(command).as_str())).as_str())
}

fn value_consuming_flag(arg: &str) -> (r: bool)
    ensures
        r == takes_value(arg@),
{
    same(arg, "-p") || same(arg, "--package") || same(arg, "--from") || same(arg, "--with")
}

fn strip_version_spec(arg: &str) -> (r: String)
    ensures
        r@ == without_version(arg@),
{
    match last_position_of(arg, '@') {
        Some(i) => if i > 0 {
            take_chars(arg, i)
        } else {
            arg.to_owned()
        },
        None => arg.to_owned(),
    }
}

fn first_positional(args: &Vec<String>) -> (r: Option<String>)
    ensures
        r.deep_view() == positional(texts(args@)),
{
    let ghost all = texts(args@);
    let mut i: usize = 0;
    assert(all.skip(0) =~= all);
    while i < args.len()
        invariant
            i <= args.len(),
            all == texts(args@),
            positional(all) == positional(all.skip(i as int)),
        decreases args.len() - i,
    {
        let arg = args[i].as_str();
        assert(all.skip(i as int)[0] == arg@);
        let first = chars_of(arg);
        if value_consuming_flag(arg) {
            if args.len() - i < 2 {
                return None;
            }
            assert(all.skip(i as int).skip(2) =~= all.skip(i + 2));
            i = i + 2;
        } else if first.len() > 0 && first[0] == '-' {
            assert(all.skip(i as int).skip(1) =~= all.skip(i + 1));
            i = i + 1;
        } else {
            return Some(strip_version_spec(arg));
        }
    }
    None
}

fn flag_value(args: &Vec<String>, flag: &str) -> (r: Option<String>)
    ensures
        r.deep_view() == value_of_flag(texts(args@), flag@),
{
    let ghost all = texts(args@);
    let mut i: usize = 0;
    assert(all.skip(0) =~= all);
    while i < args.len()
        invariant
            i <= args.len(),
            all == texts(args@),
            value_of_flag(all, flag@) == value_of_flag(all.skip(i as int), flag@),
        decreases args.len() - i,
    {
        assert(all.skip(i as int)[0] == args@[i as int]@);
        assert(all.skip(i as int).skip(1) =~= all.skip(i + 1));
        if same(args[i].as_str(), flag) {
            if i + 1 < args.len() {
                assert(all.skip(i as int)[1] == args@[i + 1]@);
                return Some(strip_version_spec(args[i + 1].as_str()));
            }
            return None;
        }
        i = i + 1;
    }
    None
}

pub fn find_node_modules(path: &str) -> (r: Option<usize>)
    ensures
        match r {
            Some(i) => node_modules_at(path@) == Some(i as int) && i + 13 <= path@.len(),
            None => node_modules_at(path@) is None,
        },
{
    proof {
        reveal_strlit("node_modules/");
        reveal_strlit("node_modules\\");
    }
    match last_position_of_text(path, "node_modules/") {
        Some(i) => Some(i),
        None => last_position_of_text(path, "node_modules\\"),
    }
}

fn segments_of(path: &str) -> (r: Vec<String>)
    ensures
        texts(r@) == path_segments(path@),
{
    keep_non_empty(&split_on(replace(path, '\\', "/").as_str(), '/'))
}

pub fn package_from_node_modules_path(path: &str) -> (r: Option<String>)
    ensures
        r.deep_view() == package_in_path(path@),
{
    let i: usize = match find_node_modules(path) {
        Some(i) => i,
        None => {
            return None;
        },
    };
    let n: usize = char_count(path);
    assert(i + 13 <= n);
    let segments = segments_of(skip_chars(path, i + 13).as_str());
    assert(texts(segments@).len() == segments@.len());
    if segments.len() == 0 {
        return None;
    }
    let first = chars_of(segments[0].as_str());
    assert(texts(segments@)[0] == first@);
    if first.len() > 0 && first[0] == '@' {
        if segments.len() > 1 {
            let mut r = segments[0].clone();
            r.append("/");
            r.append(segments[1].as_str());
            Some(r)
        } else {
            None
        }
    } else {
        Some(segments[0].clone())
    }
}

fn infer_launched(args: &Vec<String>) -> (r: McpSource)
    ensures
        r@ == launched_package(texts(args@)),
{
    let first = if args.len() > 0 {
        args[0].clone()
    } else {
        String::new()
    };
    match package_from_node_modules_path(first.as_str()) {
        Some(package) => McpSource::NpmGlobal { package },
        None => McpSource::Unknown,
    }
}

/// The source for a tool name, with the lowered command for tools that only end in `node`.
pub fn source_of_tool(tool: &str, lowered: &str, args: &Vec<String>) -> (r: McpSource)
    ensures
        r@ == source_for_tool(tool@, lowered@, texts(args@)),
{
    if same(tool, "npx") {
        match first_positional(args) {
            Some(package) => McpSource::Npx { package },
            None => McpSource::Unknown,
        }
    } else if same(tool, "uvx") {
        // `uvx --from <pkg> <entrypoint>`: the package is the --from value, not the
        // entrypoint. Plain `uvx <pkg>` takes the first positional.
        match flag_value(args, "--from") {
            Some(package) => McpSource::PypiUvx { package },
            None => match first_positional(args) {
                Some(package) => McpSource::PypiUvx { package },
                None => McpSource::Unknown,
            },
        }
    } else if same(tool, "node") || same(tool, "nodejs") || same(tool, "bun") {
        // Only the absolute-install shape is recognized: the entry script lives inside
        // node_modules/<package>; a bare `node server.js` stays unknown.
        infer_launched(args)
    } else if has_suffix(strip_exe(lowered.to_owned()).as_str(), "node") {
        infer_launched(args)
    } else {
        McpSource::Unknown
    }
}

/// Best-effort upstream inference from the launch command line (creation dialogs prefill from
/// it and the user can override).
pub fn infer_source(command: Option<&str>, args: &Vec<String>) -> (r: McpSource)
    ensures
        r@ == inferred_source(
            match command {
                Some(c) => Some(c@),
                None => None,
            },
            texts(args@),
        ),
        command matches Some(c) ==> ascii_command(c@) ==> r@ == ascii_inferred_source(
            c@,
            texts(args@),
        ),
        command matches Some(c) ==> starts_launcher(c@) ==> r@ == launcher_source(c@, texts(args@)),
        command is None ==> r@ is Unknown,
        !(r@ is Git),
{
    match command {
        None => McpSource::Unknown,
        Some(command) => {
            let tool = command_tool(command);
            let lowered = to_lower(trim(command).as_str());
            source_of_tool(tool.as_str(), lowered.as_str(), args)
        },
    }
}

// ── versions ──

pub open spec fn without_v(s: Seq<char>) -> Seq<char>
    decreases s.len(),
{
    if s.len() > 0 && s[0] == 'v' {
        without_v(s.skip(1))
    } else {
        s
    }
}

/// The text before the first `-` or `+`.
pub open spec fn version_core(s: Seq<char>) -> Seq<char>
    decreases s.len(),
{
    if s.len() == 0 || s[0] == '-' || s[0] == '+' {
        Seq::empty()
    } else {
        seq![s[0]] + version_core(s.skip(1))
    }
}

pub open spec fn version_number(segment: Seq<char>) -> u64 {
    match parsed_u64(segment) {
        Some(n) => n,
        None => 0,
    }
}

/// Numeric segments of a version: `v` prefix stripped, any prerelease/build suffix after
/// `-`/`+` dropped, unparseable segments as 0.
pub open spec fn version_numbers(version: Seq<char>) -> Seq<u64> {
    let segments = split(version_core(without_v(trimmed(version))), '.');
    Seq::new(segments.len(), |i: int| version_number(segments[i]))
}

/// The number at place `i`, zero behind the last.
pub open spec fn number_at(v: Seq<u64>, i: int) -> u64 {
    if 0 <= i < v.len() {
        v[i]
    } else {
        0
    }
}

/// `a` has the smaller number at the first place where they differ.
pub open spec fn version_less(a: Seq<u64>, b: Seq<u64>) -> bool {
    exists|i: int|
        0 <= i && #[trigger] number_at(a, i) < number_at(b, i) && forall|j: int|
            0 <= j < i ==> #[trigger] number_at(a, j) == number_at(b, j)
}

proof fn lemma_version_core(s: Seq<char>, i: int)
    requires
        0 <= i <= s.len(),
        forall|k: int| 0 <= k < i ==> #[trigger] s[k] != '-' && s[k] != '+',
        i < s.len() ==> s[i] == '-' || s[i] == '+',
    ensures
        version_core(s) == s.take(i),
    decreases i,
{
    if i == 0 {
        assert(s.take(0) =~= Seq::<char>::empty());
    } else {
        lemma_version_core(s.skip(1), i - 1);
        assert(seq![s[0]] + s.skip(1).take(i - 1) =~= s.take(i));
    }
}

proof fn lemma_without_v(s: Seq<char>, i: int)
    requires
        0 <= i <= s.len(),
        forall|k: int| 0 <= k < i ==> #[trigger] s[k] == 'v',
        i < s.len() ==> s[i] != 'v',
    ensures
        without_v(s) == s.skip(i),
    decreases i,
{
    if i == 0 {
        assert(s.skip(0) =~= s);
    } else {
        lemma_without_v(s.skip(1), i - 1);
        assert(s.skip(1).skip(i - 1) =~= s.skip(i));
    }
}

fn semver_tuple(version: &str) -> (r: Vec<u64>)
    ensures
        r@ == version_numbers(version@),
{
    let t = trim(version);
    let v = chars_of(t.as_str());
    let mut i: usize = 0;
    while i < v.len() && v[i] == 'v'
        invariant
            i <= v.len(),
            forall|k: int| 0 <= k < i ==> #[trigger] v@[k] == 'v',
        decreases v.len() - i,
    {
        i = i + 1;
    }
    let mut j: usize = i;
    while j < v.len() && v[j] != '-' && v[j] != '+'
        invariant
            i <= j <= v.len(),
            forall|k: int| i <= k < j ==> #[trigger] v@[k] != '-' && v@[k] != '+',
        decreases v.len() - j,
    {
        j = j + 1;
    }
    proof {
        lemma_without_v(t@, i as int);
        let u = t@.skip(i as int);
        assert forall|k: int| 0 <= k < j - i implies #[trigger] u[k] != '-' && u[k] != '+' by {
            assert(u[k] == v@[k + i]);
        }
        lemma_version_core(u, j - i);
        assert(u.take(j - i) =~= t@.subrange(i as int, j as int));
    }
    let core = string_of(&v, i, j);
    let segments = split_on(core.as_str(), '.');
    let ghost pieces = split(core@, '.');
    let mut r: Vec<u64> = Vec::new();
    let mut k: usize = 0;
    while k < segments.len()
        invariant
            k <= segments.len(),
            texts(segments@) == pieces,
            r@.len() == k,
            forall|l: int| 0 <= l < k ==> #[trigger] r@[l] == version_number(pieces[l]),
        decreases segments.len() - k,
    {
        assert(pieces[k as int] == segments@[k as int]@);
        let n: u64 = match parse_u64(segments[k].as_str()) {
            Some(n) => n,
            None => 0,
        };
        r.push(n);
        k = k + 1;
    }
    assert(pieces.len() == segments@.len());
    assert(r@ =~= version_numbers(version@));
    r
}

fn number_or_zero(v: &Vec<u64>, i: usize) -> (r: u64)
    ensures
        r == number_at(v@, i as int),
{
    if i < v.len() {
        v[i]
    } else {
        0
    }
}

/// `a < b` over numeric semver cores; unequal lengths compare against zero padding,
/// prerelease/build suffixes are tolerated (stripped, not ranked).
pub fn semver_less(a: &str, b: &str) -> (r: bool)
    ensures
        r == version_less(version_numbers(a@), version_numbers(b@)),
{
    let ta = semver_tuple(a);
    let tb = semver_tuple(b);
    let width: usize = if ta.len() > tb.len() {
        ta.len()
    } else {
        tb.len()
    };
    let mut i: usize = 0;
    while i < width
        invariant
            i <= width,
            width >= ta.len(),
            width >= tb.len(),
            ta@ == version_numbers(a@),
            tb@ == version_numbers(b@),
            forall|j: int| 0 <= j < i ==> #[trigger] number_at(ta@, j) == number_at(tb@, j),
        decreases width - i,
    {
        let x: u64 = number_or_zero(&ta, i);
        let y: u64 = number_or_zero(&tb, i);
        if x != y {
            proof {
                if x < y {
                    assert(number_at(ta@, i as int) < number_at(tb@, i as int));
                } else if version_less(ta@, tb@) {
                    let k = choose|k: int|
                        0 <= k && #[trigger] number_at(ta@, k) < number_at(tb@, k) && forall|j: int|
                            0 <= j < k ==> #[trigger] number_at(ta@, j) == number_at(tb@, j);
                    if k > i {
                        assert(number_at(ta@, i as int) == number_at(tb@, i as int));
                    }
                }
            }
            return x < y;
        }
        i = i + 1;
    }
    proof {
        if version_less(ta@, tb@) {
            let k = choose|k: int|
                0 <= k && #[trigger] number_at(ta@, k) < number_at(tb@, k) && forall|j: int|
                    0 <= j < k ==> #[trigger] number_at(ta@, j) == number_at(tb@, j);
            if k < width {
                assert(number_at(ta@, k) == number_at(tb@, k));
            }
        }
    }
    false
}

/// No version is behind itself, and of two versions at most one is behind the other.
pub proof fn law_version_less_asymmetric(a: Seq<u64>, b: Seq<u64>)
    ensures
        !version_less(a, a),
        version_less(a, b) ==> !version_less(b, a),
{
    if version_less(a, b) && version_less(b, a) {
        let i = choose|i: int|
            0 <= i && #[trigger] number_at(a, i) < number_at(b, i) && forall|j: int|
                0 <= j < i ==> #[trigger] number_at(a, j) == number_at(b, j);
        let k = choose|i: int|
            0 <= i && #[trigger] number_at(b, i) < number_at(a, i) && forall|j: int|
                0 <= j < i ==> #[trigger] number_at(b, j) == number_at(a, j);
        if i < k {
            assert(number_at(b, i) == number_at(a, i));
        } else if k < i {
            assert(number_at(a, k) == number_at(b, k));
        }
    }
}

/// A version behind one that is behind a third is behind the third.
pub proof fn law_version_less_transitive(a: Seq<u64>, b: Seq<u64>, c: Seq<u64>)
    requires
        version_less(a, b),
        version_less(b, c),
    ensures
        version_less(a, c),
{
    let i = choose|i: int|
        0 <= i && #[trigger] number_at(a, i) < number_at(b, i) && forall|j: int|
            0 <= j < i ==> #[trigger] number_at(a, j) == number_at(b, j);
    let k = choose|i: int|
        0 <= i && #[trigger] number_at(b, i) < number_at(c, i) && forall|j: int|
            0 <= j < i ==> #[trigger] number_at(b, j) == number_at(c, j);
    let m = if i < k {
        i
    } else {
        k
    };
    if i < k {
        assert(number_at(b, i) == number_at(c, i));
    } else if k < i {
        assert(number_at(a, k) == number_at(b, k));
    }
    assert(number_at(a, m) < number_at(c, m));
    assert forall|j: int| 0 <= j < m implies #[trigger] number_at(a, j) == number_at(c, j) by {
        assert(number_at(a, j) == number_at(b, j));
        assert(number_at(b, j) == number_at(c, j));
    }
}

// Versions of which neither is behind the other have the same numbers.
proof fn lemma_same_numbers(a: Seq<u64>, b: Seq<u64>, n: int)
    requires
        !version_less(a, b),
        !version_less(b, a),
    ensures
        forall|j: int| 0 <= j < n ==> #[trigger] number_at(a, j) == number_at(b, j),
    decreases n,
{
    if n > 0 {
        lemma_same_numbers(a, b, n - 1);
        if number_at(a, n - 1) < number_at(b, n - 1) {
            assert(version_less(a, b));
        }
        if number_at(b, n - 1) < number_at(a, n - 1) {
            assert(version_less(b, a));
        }
    }
}

/// Versions of which neither is behind the other stand at one place in the order: what neither
/// is behind nor before one of them is neither to the other.
pub proof fn law_version_ties_transitive(a: Seq<u64>, b: Seq<u64>, c: Seq<u64>)
    requires
        !version_less(a, b),
        !version_less(b, a),
        !version_less(b, c),
        !version_less(c, b),
    ensures
        !version_less(a, c),
        !version_less(c, a),
{
    let n = if a.len() > c.len() {
        a.len() as int
    } else {
        c.len() as int
    };
    lemma_same_numbers(a, b, n);
    lemma_same_numbers(b, c, n);
    assert forall|j: int| 0 <= j implies #[trigger] number_at(a, j) == number_at(c, j) by {
        if j < n {
            assert(number_at(a, j) == number_at(b, j));
            assert(number_at(b, j) == number_at(c, j));
        }
    }
}

/// A prerelease or build suffix changes nothing.
pub proof fn law_version_suffix(version: Seq<char>, suffix: Seq<char>)
    requires
        suffix.len() > 0,
        suffix[0] == '-' || suffix[0] == '+',
        version.len() == 0 || !is_space(version.last()),
    ensures
        version_numbers(version + suffix) == version_numbers(version),
{
    let s = version + suffix;
    assert(!is_space(suffix[0]));
    assert(s[version.len() as int] == suffix[0]);
    let (i, j) = lemma_solid_part(s);
    lemma_trimmed_between(s, i, j);
    assert(j > version.len());
    let whole = trimmed(s);
    let tail = whole.skip(version.len() - i);
    if version.len() == 0 {
        lemma_trimmed_blank(version);
        assert(trimmed(version) =~= Seq::<char>::empty());
        assert(i == 0);
    } else {
        let n = version.len() as int;
        assert(s[n - 1] == version[n - 1]);
        assert(i <= n - 1);
        assert(version[i] == s[i]);
        assert forall|k: int| 0 <= k < i || n <= k < version.len() implies is_space(
            #[trigger] version[k],
        ) by {
            assert(s[k] == version[k]);
        }
        lemma_trimmed_between(version, i, n);
    }
    assert(whole =~= trimmed(version) + tail);
    assert(tail[0] == suffix[0]);
    lemma_suffix_dropped(trimmed(version), tail);
}

proof fn lemma_suffix_dropped(s: Seq<char>, tail: Seq<char>)
    requires
        tail.len() > 0,
        tail[0] == '-' || tail[0] == '+',
    ensures
        version_core(without_v(s + tail)) == version_core(without_v(s)),
    decreases s.len(),
{
    if s.len() == 0 {
        assert(s + tail =~= tail);
    } else {
        assert((s + tail).skip(1) =~= s.skip(1) + tail);
        if s[0] == 'v' {
            lemma_suffix_dropped(s.skip(1), tail);
        } else {
            lemma_core_of(s, tail);
        }
    }
}

proof fn lemma_core_of(s: Seq<char>, tail: Seq<char>)
    requires
        tail.len() > 0,
        tail[0] == '-' || tail[0] == '+',
    ensures
        version_core(s + tail) == version_core(s),
    decreases s.len(),
{
    if s.len() == 0 {
        assert(s + tail =~= tail);
    } else {
        assert((s + tail).skip(1) =~= s.skip(1) + tail);
        lemma_core_of(s.skip(1), tail);
    }
}

/// Trailing zeros make no difference.
pub proof fn law_version_padding(a: Seq<u64>, b: Seq<u64>)
    ensures
        version_less(a.push(0), b) == version_less(a, b),
        version_less(a, b.push(0)) == version_less(a, b),
{
    assert forall|i: int| number_at(a.push(0), i) == number_at(a, i) by {}
    assert forall|i: int| number_at(b.push(0), i) == number_at(b, i) by {}
    if version_less(a, b) {
        let i = choose|i: int|
            0 <= i && #[trigger] number_at(a, i) < number_at(b, i) && forall|j: int|
                0 <= j < i ==> #[trigger] number_at(a, j) == number_at(b, j);
        assert(number_at(a.push(0), i) < number_at(b, i));
        assert(number_at(a, i) < number_at(b.push(0), i));
        assert forall|j: int| 0 <= j < i implies #[trigger] number_at(a.push(0), j) == number_at(
            b,
            j,
        ) by {
            assert(number_at(a, j) == number_at(b, j));
        }
        assert forall|j: int| 0 <= j < i implies #[trigger] number_at(a, j) == number_at(
            b.push(0),
            j,
        ) by {
            assert(number_at(a, j) == number_at(b, j));
        }
    }
    if version_less(a.push(0), b) {
        let i = choose|i: int|
            0 <= i && #[trigger] number_at(a.push(0), i) < number_at(b, i) && forall|j: int|
                0 <= j < i ==> #[trigger] number_at(a.push(0), j) == number_at(b, j);
        assert(number_at(a, i) < number_at(b, i));
        assert forall|j: int| 0 <= j < i implies #[trigger] number_at(a, j) == number_at(b, j) by {
            assert(number_at(a.push(0), j) == number_at(b, j));
        }
    }
    if version_less(a, b.push(0)) {
        let i = choose|i: int|
            0 <= i && #[trigger] number_at(a, i) < number_at(b.push(0), i) && forall|j: int|
                0 <= j < i ==> #[trigger] number_at(a, j) == number_at(b.push(0), j);
        assert(number_at(a, i) < number_at(b, i));
        assert forall|j: int| 0 <= j < i implies #[trigger] number_at(a, j) == number_at(b, j) by {
            assert(number_at(a, j) == number_at(b.push(0), j));
        }
    }
}

pub open spec fn non_empty_text(s: Option<Seq<char>>) -> Option<Seq<char>> {
    match s {
        Some(t) if t.len() > 0 => Some(t),
        _ => None,
    }
}

/// `.version` of an npm registry `/latest` payload.
pub open spec fn npm_version(body: JsonTree) -> Option<Seq<char>> {
    non_empty_text(text_member(body, "version"@))
}

/// `.info.version` of a PyPI JSON payload.
pub open spec fn pypi_version(body: JsonTree) -> Option<Seq<char>> {
    match member(body, "info"@) {
        Some(info) => non_empty_text(text_member(info, "version"@)),
        None => None,
    }
}

/// `.version` of an npm registry `/latest` payload.
pub fn npm_latest_version(body: &Json) -> (r: Option<String>)
    ensures
        r.deep_view() == npm_version(body@),
{
    match body.get("version") {
        Some(v) => match v.as_str() {
            Some(s) => if s.as_str().is_empty() {
                None
            } else {
                Some(s.clone())
            },
            None => None,
        },
        None => None,
    }
}

/// `.info.version` of a PyPI JSON payload.
pub fn pypi_latest_version(body: &Json) -> (r: Option<String>)
    ensures
        r.deep_view() == pypi_version(body@),
{
    match body.get("info") {
        Some(info) => npm_latest_version(info),
        None => None,
    }
}

// ── upgrade plans ──

/// POSIX single-quote escaping: wrap in `'`, every inner `'` becomes `'\''`.
pub open spec fn shell_quoted(s: Seq<char>) -> Seq<char> {
    "'"@ + replace_char(s, '\'', "'\\''"@) + "'"@
}

/// What a POSIX shell reads as one word from single quotes and backslashes: in quotes every
/// character stands for itself, outside of them only an escaped one does.
pub open spec fn shell_word(s: Seq<char>, in_quotes: bool) -> Option<Seq<char>>
    decreases s.len(),
{
    if s.len() == 0 {
        if in_quotes {
            None
        } else {
            Some(Seq::empty())
        }
    } else if s[0] == '\'' {
        shell_word(s.skip(1), !in_quotes)
    } else if in_quotes {
        match shell_word(s.skip(1), true) {
            Some(w) => Some(seq![s[0]] + w),
            None => None,
        }
    } else if s[0] == '\\' && s.len() > 1 {
        match shell_word(s.skip(2), false) {
            Some(w) => Some(seq![s[1]] + w),
            None => None,
        }
    } else {
        None
    }
}

proof fn lemma_replace_concat(a: Seq<char>, b: Seq<char>, c: char, with: Seq<char>)
    ensures
        replace_char(a + b, c, with) == replace_char(a, c, with) + replace_char(b, c, with),
    decreases b.len(),
{
    if b.len() == 0 {
        assert(a + b =~= a);
        assert(replace_char(a, c, with) + replace_char(b, c, with) =~= replace_char(a, c, with));
    } else {
        assert((a + b).drop_last() =~= a + b.drop_last());
        lemma_replace_concat(a, b.drop_last(), c, with);
        let tail = if b.last() == c {
            with
        } else {
            seq![b.last()]
        };
        assert(replace_char(a + b, c, with) =~= replace_char(a, c, with) + (replace_char(
            b.drop_last(),
            c,
            with,
        ) + tail));
    }
}

proof fn lemma_shell_word_inside(s: Seq<char>)
    ensures
        shell_word(replace_char(s, '\'', "'\\''"@) + seq!['\''], true) == Some(s),
    decreases s.len(),
{
    let esc = "'\\''"@;
    reveal_strlit("'\\''");
    assert(esc =~= seq!['\'', '\\', '\'', '\'']);
    let end = seq!['\''];
    if s.len() == 0 {
        let t = replace_char(s, '\'', esc) + end;
        assert(t =~= end);
        assert(t.skip(1) =~= Seq::<char>::empty());
        assert(shell_word(t.skip(1), false) == Some(Seq::<char>::empty()));
        assert(s =~= Seq::<char>::empty());
    } else {
        let rest = s.drop_first();
        let u = replace_char(rest, '\'', esc) + end;
        assert(s =~= seq![s[0]] + rest);
        lemma_replace_concat(seq![s[0]], rest, '\'', esc);
        let one = seq![s[0]];
        assert(one.drop_last() =~= Seq::<char>::empty());
        assert(replace_char(one.drop_last(), '\'', esc) =~= Seq::<char>::empty());
        assert(one.last() == s[0]);
        assert(replace_char(one, '\'', esc) =~= if s[0] == '\'' {
            esc
        } else {
            one
        });
        lemma_shell_word_inside(rest);
        let t = replace_char(s, '\'', esc) + end;
        if s[0] == '\'' {
            assert(t =~= esc + u);
            assert(t.skip(1) =~= seq!['\\', '\'', '\''] + u);
            let v = t.skip(1);
            assert(v.skip(2) =~= seq!['\''] + u);
            let w = v.skip(2);
            assert(w.skip(1) =~= u);
            assert(shell_word(w, false) == Some(rest));
            assert(shell_word(v, false) == Some(seq!['\''] + rest));
        } else {
            assert(t =~= one + u);
            assert(t.skip(1) =~= u);
        }
        assert(seq![s[0]] + rest =~= s);
    }
}

/// A shell reads a quoted value as one word, and that word is the value.
pub proof fn law_shell_quote_reads_back(s: Seq<char>)
    ensures
        shell_word(shell_quoted(s), false) == Some(s),
{
    reveal_strlit("'");
    let body = replace_char(s, '\'', "'\\''"@) + seq!['\''];
    assert("'"@ =~= seq!['\'']);
    assert(shell_quoted(s) =~= seq!['\''] + body);
    assert(shell_quoted(s).skip(1) =~= body);
    lemma_shell_word_inside(s);
}

fn shell_quote(value: &str) -> (r: String)
    ensures
        r@ == shell_quoted(value@),
{
    let mut r = "'".to_owned();
    r.append(replace(value, '\'', "'\\''").as_str());
    r.append("'");
    r
}

pub open spec fn remove_commands(dirs: Seq<Seq<char>>) -> Seq<Seq<char>> {
    Seq::new(dirs.len(), |i: int| "rm -rf "@ + shell_quoted(dirs[i]))
}

/// The shell commands that upgrade a source to its latest, given the npx cache directories of
/// its package.
pub open spec fn upgrade_plan(source: Source, npx_dirs: Seq<Seq<char>>) -> Result<
    Seq<Seq<char>>,
    Seq<char>,
> {
    match source {
        Source::Unknown => Err("no upstream source"@),
        Source::NpmGlobal(package) => Ok(
            seq!["npm i -g "@ + shell_quoted(package + "@latest"@)],
        ),
        Source::Npx(package) => if npx_dirs.len() == 0 {
            Err("no npx cache entries to clear"@)
        } else {
            Ok(remove_commands(npx_dirs))
        },
        Source::PypiUvx(package) => Ok(seq!["uv cache clean "@ + shell_quoted(package)]),
        Source::Git(_, path) => Ok(
            seq!["git -C "@ + shell_quoted(path) + " pull --ff-only"@],
        ),
    }
}

pub open spec fn plan_outcome(r: Result<Vec<String>, String>) -> Result<Seq<Seq<char>>, Seq<char>> {
    match r {
        Ok(cmds) => Ok(texts(cmds@)),
        Err(message) => Err(message@),
    }
}

fn single(cmd: String) -> (r: Vec<String>)
    ensures
        texts(r@) == seq![cmd@],
{
    let ghost c = cmd@;
    let mut r: Vec<String> = Vec::new();
    r.push(cmd);
    assert(texts(r@) =~= seq![c]);
    r
}

/// The shell commands that upgrade one source to its latest. `npx_dirs` are the cache
/// directories of an npx package.
pub fn upgrade_commands_for_source(source: &McpSource, npx_dirs: &Vec<String>) -> (r: Result<
    Vec<String>,
    String,
>)
    ensures
        plan_outcome(r) == upgrade_plan(source@, texts(npx_dirs@)),
{
    match source {
        McpSource::Unknown => Err("no upstream source".to_owned()),
        McpSource::NpmGlobal { package } => {
            let mut latest = package.clone();
            latest.append("@latest");
            let mut cmd = "npm i -g ".to_owned();
            cmd.append(shell_quote(latest.as_str()).as_str());
            Ok(single(cmd))
        },
        McpSource::Npx { package } => {
            if npx_dirs.len() == 0 {
                // No cache entry means nothing stale to clear; refusing beats showing an empty
                // confirm dialog with a fake success path.
                return Err("no npx cache entries to clear".to_owned());
            }
            let mut cmds: Vec<String> = Vec::new();
            let mut i: usize = 0;
            while i < npx_dirs.len()
                invariant
                    i <= npx_dirs.len(),
                    cmds@.len() == i,
                    forall|k: int|
                        0 <= k < i ==> (#[trigger] cmds@[k])@ == "rm -rf "@ + shell_quoted(
                            npx_dirs@[k]@,
                        ),
                decreases npx_dirs.len() - i,
            {
                let mut cmd = "rm -rf ".to_owned();
                cmd.append(shell_quote(npx_dirs[i].as_str()).as_str());
                cmds.push(cmd);
                i = i + 1;
            }
            assert(texts(cmds@) =~= remove_commands(texts(npx_dirs@)));
            Ok(cmds)
        },
        McpSource::PypiUvx { package } => {
            let mut cmd = "uv cache clean ".to_owned();
            cmd.append(shell_quote(package.as_str()).as_str());
            Ok(single(cmd))
        },
        McpSource::Git { repo_url, clone_path } => {
            let mut cmd = "git -C ".to_owned();
            cmd.append(shell_quote(clone_path.as_str()).as_str());
            cmd.append(" pull --ff-only");
            Ok(single(cmd))
        },
    }
}

/// Whether this is the plan of a stored source.
pub open spec fn stored_plan<W: Fn(&Json) -> String>(
    source: JsonTree,
    npx_dirs: Seq<Seq<char>>,
    why: W,
    plan: Result<Seq<Seq<char>>, Seq<char>>,
) -> bool {
    match source_of_json(source) {
        Some(s) => plan == upgrade_plan(s, npx_dirs),
        None => plan matches Err(message) && source_refused(source, why, message),
    }
}

/// The exact commands the upgrade confirm dialog shows, verbatim, before [`run_commands`] ever
/// executes them.
pub fn upgrade_commands<W: Fn(&Json) -> String>(
    record: &McpServerRecord,
    npx_dirs: &Vec<String>,
    why: &W,
) -> (r: Result<Vec<String>, String>)
    requires
        may_say_why(*why, record@.source),
    ensures
        stored_plan(record@.source, texts(npx_dirs@), *why, plan_outcome(r)),
{
    match parse_source(&record.source, why) {
        Ok(source) => upgrade_commands_for_source(&source, npx_dirs),
        Err(message) => Err(message),
    }
}

// ── running commands ──

/// What running commands one after another came to, by the outcome of each that was run: the
/// outputs up to the first failure, and behind them the failure on a line of its own.
pub open spec fn run_outcome(outputs: Seq<Result<Seq<char>, Seq<char>>>) -> Result<
    Seq<char>,
    Seq<char>,
>
    decreases outputs.len(),
{
    if outputs.len() == 0 {
        Ok(Seq::empty())
    } else {
        match run_outcome(outputs.drop_last()) {
            Err(e) => Err(e),
            Ok(before) => match outputs.last() {
                Ok(output) => Ok(before + output),
                Err(error) => if before.len() > 0 {
                    Err(before + "\n"@ + error)
                } else {
                    Err(error)
                },
            },
        }
    }
}

pub open spec fn output_view(r: Result<String, String>) -> Result<Seq<char>, Seq<char>> {
    match r {
        Ok(output) => Ok(output@),
        Err(error) => Err(error@),
    }
}

/// Which outcomes running commands may have had: one for each command in order, the last one a
/// failure if commands were left.
pub open spec fn ran<F: Fn(&String) -> Result<String, String>>(
    run: F,
    cmds: Seq<String>,
    outputs: Seq<Result<Seq<char>, Seq<char>>>,
) -> bool {
    &&& outputs.len() <= cmds.len()
    &&& forall|i: int|
        0 <= i < outputs.len() ==> exists|r: Result<String, String>|
            call_ensures(run, (&cmds[i],), r) && #[trigger] outputs[i] == output_view(r)
    &&& forall|i: int| 0 <= i < outputs.len() - 1 ==> #[trigger] outputs[i] is Ok
    &&& outputs.len() < cmds.len() ==> outputs.len() > 0 && outputs.last() is Err
}

/// What may be run: the first command, and each other one only after the one before it has run
/// without failure.
pub open spec fn may_run<F: Fn(&String) -> Result<String, String>>(run: F, cmds: Seq<String>) -> bool {
    &&& cmds.len() > 0 ==> call_requires(run, (&cmds[0],))
    &&& forall|i: int, output: String|
        0 <= i < cmds.len() - 1 && #[trigger] call_ensures(
            run,
            (&cmds[i],),
            Ok::<String, String>(output),
        ) ==> call_requires(run, (&cmds[i + 1],))
}

/// Execute an approved plan with `run`: outputs aggregated in order, stopping at the first
/// failure, behind which nothing runs.
pub fn run_commands<F: Fn(&String) -> Result<String, String>>(cmds: &Vec<String>, run: F) -> (r: Result<
    String,
    String,
>)
    requires
        may_run(run, cmds@),
    ensures
        exists|outputs: Seq<Result<Seq<char>, Seq<char>>>| #[trigger]
            ran(run, cmds@, outputs) && output_view(r) == run_outcome(outputs),
{
    let mut aggregated = String::new();
    let ghost mut outputs: Seq<Result<Seq<char>, Seq<char>>> = Seq::empty();
    let mut i: usize = 0;
    while i < cmds.len()
        invariant
            i <= cmds.len(),
            may_run(run, cmds@),
            i < cmds.len() ==> call_requires(run, (&cmds@[i as int],)),
            outputs.len() == i,
            forall|k: int| 0 <= k < i ==> #[trigger] outputs[k] is Ok,
            forall|k: int|
                0 <= k < i ==> exists|r: Result<String, String>|
                    call_ensures(run, (&cmds@[k],), r) && #[trigger] outputs[k] == output_view(r),
            run_outcome(outputs) == Ok::<Seq<char>, Seq<char>>(aggregated@),
        decreases cmds.len() - i,
    {
        let outcome = run(&cmds[i]);
        let ghost before = outputs;
        proof {
            outputs = outputs.push(output_view(outcome));
            assert(outputs.drop_last() =~= before);
            assert forall|k: int| 0 <= k < i + 1 implies exists|r: Result<String, String>|
                call_ensures(run, (&cmds@[k],), r) && #[trigger] outputs[k] == output_view(r) by {
                if k == i {
                    assert(call_ensures(run, (&cmds@[k],), outcome));
                } else {
                    assert(outputs[k] == before[k]);
                }
            }
        }
        match outcome {
            Ok(output) => {
                assert(call_ensures(run, (&cmds@[i as int],), Ok::<String, String>(output)));
                aggregated.append(output.as_str());
            },
            Err(error) => {
                proof {
                    assert(ran(run, cmds@, outputs));
                }
                if aggregated.as_str().is_empty() {
                    return Err(error);
                }
                aggregated.append("\n");
                aggregated.append(error.as_str());
                return Err(aggregated);
            },
        }
        i = i + 1;
    }
    proof {
        assert(ran(run, cmds@, outputs));
    }
    Ok(aggregated)
}

/// After all commands ran without failure the outputs are joined; a failure ends the run and
/// comes last.
pub proof fn law_run_outcome(
    before: Seq<Result<Seq<char>, Seq<char>>>,
    last: Result<Seq<char>, Seq<char>>,
)
    ensures
        run_outcome(before) matches Err(e) ==> run_outcome(before.push(last)) == Err::<
            Seq<char>,
            Seq<char>,
        >(e),
        run_outcome(before.push(last)) is Ok <==> run_outcome(before) is Ok && last is Ok,
{
    assert(before.push(last).drop_last() =~= before);
}

/// What happens to a command that is being run.
#[derive(Debug)]
pub enum CommandEvent {
    /// It could not be started.
    SpawnFailed(String),
    /// One of its output streams has ended, and this is all it held.
    Stream(String),
    /// The time was up, in seconds; it is to be killed.
    TimedOut(String),
    /// It could not be waited for.
    WaitFailed(String),
    /// It ended, with its exit code where no signal ended it.
    Exited { success: bool, code: Option<i32> },
}

/// What is reported of a command that failed.
pub open spec fn exit_failure(cmd: Seq<char>, code: Option<i32>, output: Seq<char>) -> Seq<char> {
    "`"@ + cmd + "` failed (exit "@ + decimal(
        match code {
            Some(c) => c as int,
            None => -1,
        },
    ) + "):\n"@ + trim_end(output)
}

/// A command led on by what happened: what it has printed, and its outcome once it is decided.
pub open spec fn command_led(cmd: Seq<char>, output: Seq<char>, event: CommandEvent) -> (
    Seq<char>,
    Option<Result<Seq<char>, Seq<char>>>,
) {
    match event {
        CommandEvent::SpawnFailed(e) => (
            output,
            Some(Err("failed to spawn `"@ + cmd + "`: "@ + e@)),
        ),
        CommandEvent::Stream(text) => (output + text@, None),
        CommandEvent::TimedOut(seconds) => (
            output,
            Some(Err("timeout: `"@ + cmd + "` exceeded "@ + seconds@ + "s"@)),
        ),
        CommandEvent::WaitFailed(e) => (
            output,
            Some(Err("wait on `"@ + cmd + "` failed: "@ + e@)),
        ),
        CommandEvent::Exited { success, code } => (
            output,
            Some(
                if success {
                    Ok(output)
                } else {
                    Err(exit_failure(cmd, code, output))
                },
            ),
        ),
    }
}

pub open spec fn decided_view(r: Option<Result<String, String>>) -> Option<
    Result<Seq<char>, Seq<char>>,
> {
    match r {
        Some(outcome) => Some(output_view(outcome)),
        None => None,
    }
}

/// Lead one command on by what happened. `None` = go on: each stream arrives whole, in either
/// order, and the exit comes last.
pub fn command_step(cmd: &str, output: &mut String, event: CommandEvent) -> (r: Option<
    Result<String, String>,
>)
    ensures
        (final(output)@, decided_view(r)) == command_led(cmd@, old(output)@, event),
{
    match event {
        CommandEvent::SpawnFailed(e) => {
            let mut m = "failed to spawn `".to_owned();
            m.append(cmd);
            m.append("`: ");
            m.append(e.as_str());
            Some(Err(m))
        },
        CommandEvent::Stream(text) => {
            output.append(text.as_str());
            None
        },
        CommandEvent::TimedOut(seconds) => {
            let mut m = "timeout: `".to_owned();
            m.append(cmd);
            m.append("` exceeded ");
            m.append(seconds.as_str());
            m.append("s");
            Some(Err(m))
        },
        CommandEvent::WaitFailed(e) => {
            let mut m = "wait on `".to_owned();
            m.append(cmd);
            m.append("` failed: ");
            m.append(e.as_str());
            Some(Err(m))
        },
        CommandEvent::Exited { success, code } => {
            if success {
                return Some(Ok(output.clone()));
            }
            let shown: i64 = match code {
                Some(c) => c as i64,
                None => -1,
            };
            let mut m = "`".to_owned();
            m.append(cmd);
            m.append("` failed (exit ");
            m.append(decimal_of_signed(shown).as_str());
            m.append("):\n");
            m.append(without_end_space(output.as_str()).as_str());
            Some(Err(m))
        },
    }
}

/// What a command came to, by everything that happened to it.
pub open spec fn command_run(cmd: Seq<char>, output: Seq<char>, events: Seq<CommandEvent>) -> Option<
    Result<Seq<char>, Seq<char>>,
>
    decreases events.len(),
{
    if events.len() == 0 {
        None
    } else {
        let (next, decided) = command_led(cmd, output, events[0]);
        match decided {
            Some(outcome) => Some(outcome),
            None => command_run(cmd, next, events.skip(1)),
        }
    }
}

/// A command that ends well has printed what its two streams held, in the order of their ends.
pub proof fn law_command_prints_its_streams(
    cmd: Seq<char>,
    first: String,
    second: String,
    code: Option<i32>,
)
    ensures
        command_run(
            cmd,
            Seq::empty(),
            seq![
                CommandEvent::Stream(first),
                CommandEvent::Stream(second),
                CommandEvent::Exited { success: true, code },
            ],
        ) == Some(Ok::<Seq<char>, Seq<char>>(first@ + second@)),
{
    reveal_with_fuel(command_run, 4);
    let events = seq![
        CommandEvent::Stream(first),
        CommandEvent::Stream(second),
        CommandEvent::Exited { success: true, code },
    ];
    let a = events.skip(1);
    let b = a.skip(1);
    assert(a[0] == CommandEvent::Stream(second));
    assert(b[0] == (CommandEvent::Exited { success: true, code }));
    assert(Seq::<char>::empty() + first@ =~= first@);
}

} // verus!
