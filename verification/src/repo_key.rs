//! Canonical repo keys.
//!
//! One git repository can be spelled many ways — `https://github.com/o/r.git`,
//! `git@github.com:o/r`, `ssh://git@github.com/o/r`, the skills.sh market shorthand `o/r`, or
//! a GitHub tree URL like `https://github.com/o/r/tree/main/sub/dir`. All of these collapse to
//! one canonical key (`github.com/o/r`) that decides which Skill Source a skill belongs to and
//! whether an install is a duplicate.

use vstd::prelude::*;
use vstd::utf8::*;
use crate::pieces::{lemma_pieces_plain, lemma_segments, lemma_split_join, no_slash};
use crate::text::{
    ascii_lower, ascii_lowered, char_count, chars_of, find, find_char, has_char, has_prefix, join,
    join_with, lowercase, position_of, position_of_text, same, skip_chars, split, split_on,
    starts_with, take_chars, texts, to_lower, trim, trimmed, without_prefix,
};

verus! {

/// A path on this machine, which names no repository: from the root, from here, from home or from
/// a drive, or as a `file://` URL.
pub open spec fn local_path(s: Seq<char>) -> bool {
    ||| starts_with(s, "/"@)
    ||| find_char(s, '/') matches Some(i) && local_start(s.take(i))
    ||| starts_with(s, "file://"@)
    ||| s.len() >= 3 && 'a' <= ascii_lower(s[0]) <= 'z' && s[1] == ':' && (s[2] == '/' || s[2] == '\\')
}

/// A first segment that starts a path on this machine: `.`, `..` and `~`.
pub open spec fn local_start(first: Seq<char>) -> bool {
    first == "."@ || first == ".."@ || first == "~"@
}

/// Without the scheme in front.
pub open spec fn without_scheme(s: Seq<char>) -> Seq<char> {
    if starts_with(s, "https://"@) {
        s.skip("https://"@.len() as int)
    } else if starts_with(s, "http://"@) {
        s.skip("http://"@.len() as int)
    } else if starts_with(s, "ssh://"@) {
        s.skip("ssh://"@.len() as int)
    } else {
        s
    }
}

/// Without a `/tree/<branch>/<path…>` suffix, which names a subfolder inside the repo.
pub open spec fn without_tree(s: Seq<char>) -> Seq<char> {
    match find(s, "/tree/"@) {
        Some(i) => s.take(i),
        None => s,
    }
}

/// The colon of scp syntax: one in the host segment.
pub open spec fn host_colon(s: Seq<char>) -> Option<int> {
    match find_char(s, '/') {
        Some(slash) => find_char(s.take(slash), ':'),
        None => find_char(s, ':'),
    }
}

/// `git@host:path` and `user@host/path` reduced to `host/path`.
pub open spec fn without_user(s: Seq<char>) -> Option<Seq<char>> {
    match find_char(s, '@') {
        None => Some(s),
        Some(at) => {
            let after = s.skip(at + 1);
            match host_colon(after) {
                None => Some(after),
                Some(c) => if c == 0 || c + 1 == after.len() {
                    None
                } else {
                    Some(after.take(c) + "/"@ + after.skip(c + 1))
                },
            }
        },
    }
}

/// Whether the text ends with `.git` in any case.
pub open spec fn ends_git(s: Seq<char>) -> bool {
    let n = s.len() as int;
    n >= 4 && s[n - 4] == '.' && ascii_lower(s[n - 3]) == 'g' && ascii_lower(s[n - 2]) == 'i'
        && ascii_lower(s[n - 1]) == 't'
}

/// Without `.git` suffixes and trailing slashes (either order).
pub open spec fn without_tail(s: Seq<char>) -> Seq<char>
    decreases s.len(),
{
    if ends_git(s) {
        without_tail(s.take(s.len() - 4))
    } else if s.len() > 0 && s.last() == '/' {
        without_tail(s.drop_last())
    } else {
        s
    }
}

/// Whether a first segment names a host: an IP address always does, by its dots or colons.
pub open spec fn host_like(first: Seq<char>) -> bool {
    first.contains('.') || first.contains(':') || first == "localhost"@
}

/// A host without its port.
pub open spec fn without_port(first: Seq<char>) -> Seq<char> {
    match find_char(first, ':') {
        Some(c) if c > 0 => first.take(c),
        _ => first,
    }
}

/// The text with a host in front: its own, or GitHub's for the shorthand without one.
pub open spec fn with_host(s: Seq<char>) -> Option<Seq<char>> {
    match find_char(s, '/') {
        Some(i) => if host_like(s.take(i)) {
            Some(without_port(s.take(i)) + "/"@ + s.skip(i + 1))
        } else {
            Some("github.com/"@ + s)
        },
        None => if host_like(s) {
            None
        } else {
            Some("github.com/"@ + s)
        },
    }
}

/// The pieces that are not empty.
pub open spec fn non_empty_pieces(pieces: Seq<Seq<char>>) -> Seq<Seq<char>>
    decreases pieces.len(),
{
    if pieces.len() == 0 {
        pieces
    } else if pieces.last().len() == 0 {
        non_empty_pieces(pieces.drop_last())
    } else {
        non_empty_pieces(pieces.drop_last()).push(pieces.last())
    }
}

/// The segments of `host/owner/repo…`, at least three, without empty ones.
pub open spec fn key_of_path(s: Seq<char>) -> Option<Seq<char>> {
    let segments = non_empty_pieces(split(s, '/'));
    if segments.len() < 3 {
        None
    } else {
        Some(join(segments, "/"@))
    }
}

/// The path of a reference without user, scheme and tree suffix.
pub open spec fn key_of_rest(s: Seq<char>) -> Option<Seq<char>> {
    let t = without_tail(s);
    if t.len() == 0 {
        None
    } else {
        match with_host(t) {
            None => None,
            Some(path) => key_of_path(path),
        }
    }
}

/// The `host/owner/repo…` that a source reference names.
pub open spec fn named_path(source_ref: Seq<char>) -> Option<Seq<char>> {
    if trimmed(source_ref).len() == 0 || local_path(trimmed(source_ref)) {
        None
    } else {
        match without_user(without_tree(without_scheme(trimmed(source_ref)))) {
            None => None,
            Some(s) => key_of_rest(s),
        }
    }
}

/// The canonical key of a source reference: the path it names, in lower case.
pub open spec fn repo_key(source_ref: Seq<char>) -> Option<Seq<char>> {
    match named_path(source_ref) {
        Some(path) => Some(lowercase(path)),
        None => None,
    }
}

/// The same for a path of ASCII characters, letter by letter.
pub open spec fn ascii_repo_key(source_ref: Seq<char>) -> Option<Seq<char>> {
    match named_path(source_ref) {
        Some(path) => Some(ascii_lowered(path)),
        None => None,
    }
}

pub open spec fn names_ascii_path(source_ref: Seq<char>) -> bool {
    named_path(source_ref) matches Some(path) ==> is_ascii_chars(path)
}

/// Whether a key has at least three segments, none of them empty.
pub open spec fn key_segments(key: Seq<char>) -> bool {
    split(key, '/').len() >= 3 && forall|i: int|
        0 <= i < split(key, '/').len() ==> (#[trigger] split(key, '/')[i]).len() > 0
}

fn is_local_path(s: &str) -> (r: bool)
    ensures
        r == local_path(s@),
{
    if has_prefix(s, "/") || has_prefix(s, "file://") {
        return true;
    }
    if let Some(i) = position_of(s, '/') {
        let first = take_chars(s, i);
        if same(first.as_str(), ".") || same(first.as_str(), "..") || same(first.as_str(), "~") {
            return true;
        }
    }
    let v = chars_of(s);
    if v.len() < 3 || v[1] != ':' || (v[2] != '/' && v[2] != '\\') {
        return false;
    }
    let c = v[0];
    ('a' <= c && c <= 'z') || ('A' <= c && c <= 'Z')
}

fn strip_scheme(s: String) -> (r: String)
    ensures
        r@ == without_scheme(s@),
{
    if let Some(rest) = without_prefix(s.as_str(), "https://") {
        rest
    } else if let Some(rest) = without_prefix(s.as_str(), "http://") {
        rest
    } else if let Some(rest) = without_prefix(s.as_str(), "ssh://") {
        rest
    } else {
        s
    }
}

fn strip_user(s: String) -> (r: Option<String>)
    ensures
        r.deep_view() == without_user(s@),
{
    let at: usize = match position_of(s.as_str(), '@') {
        Some(at) => at,
        None => {
            return Some(s);
        },
    };
    let n: usize = char_count(s.as_str());
    assert(at < n);
    let after = skip_chars(s.as_str(), at + 1);
    let colon = match position_of(after.as_str(), '/') {
        Some(slash) => {
            let host = take_chars(after.as_str(), slash);
            position_of(host.as_str(), ':')
        },
        None => position_of(after.as_str(), ':'),
    };
    match colon {
        None => Some(after),
        Some(c) => {
            let m: usize = char_count(after.as_str());
            assert(c < m);
            if c == 0 || c + 1 == m {
                return None;
            }
            let mut r = take_chars(after.as_str(), c);
            r.append("/");
            r.append(skip_chars(after.as_str(), c + 1).as_str());
            Some(r)
        },
    }
}

fn strip_tail(s: String) -> (r: String)
    ensures
        r@ == without_tail(s@),
{
    let v = chars_of(s.as_str());
    let mut n: usize = v.len();
    assert(s@.take(n as int) =~= s@);
    loop
        invariant
            n <= v.len(),
            v@ == s@,
            without_tail(s@) == without_tail(s@.take(n as int)),
        decreases n,
    {
        let ghost t = s@.take(n as int);
        if n >= 4 && v[n - 4] == '.' && (v[n - 3] == 'g' || v[n - 3] == 'G') && (v[n - 2] == 'i' || v[n
            - 2] == 'I') && (v[n - 1] == 't' || v[n - 1] == 'T') {
            proof {
                assert(ends_git(t));
                assert(t.take(t.len() - 4) =~= s@.take(n - 4));
            }
            n = n - 4;
        } else if n > 0 && v[n - 1] == '/' {
            proof {
                assert(!ends_git(t));
                assert(t.drop_last() =~= s@.take(n - 1));
            }
            n = n - 1;
        } else {
            proof {
                assert(!ends_git(t)) by {
                    if n >= 4 {
                        lemma_letter(v@[n - 3], 'g');
                        lemma_letter(v@[n - 2], 'i');
                        lemma_letter(v@[n - 1], 't');
                    }
                }
            }
            return take_chars(s.as_str(), n);
        }
    }
}

proof fn lemma_letter(c: char, low: char)
    requires
        'a' <= low <= 'z',
    ensures
        ascii_lower(c) == low <==> (c == low || c as u32 == low as u32 - 32),
{
}

fn is_host_like(first: &str) -> (r: bool)
    ensures
        r == host_like(first@),
{
    has_char(first, '.') || has_char(first, ':') || same(first, "localhost")
}

fn strip_port(first: &str) -> (r: String)
    ensures
        r@ == without_port(first@),
{
    match position_of(first, ':') {
        Some(c) => if c > 0 {
            take_chars(first, c)
        } else {
            first.to_owned()
        },
        None => first.to_owned(),
    }
}

fn add_host(s: &str) -> (r: Option<String>)
    ensures
        r.deep_view() == with_host(s@),
{
    let mut shorthand = "github.com/".to_owned();
    shorthand.append(s);
    match position_of(s, '/') {
        Some(i) => {
            let n: usize = char_count(s);
            assert(i < n);
            let first = take_chars(s, i);
            if is_host_like(first.as_str()) {
                let mut r = strip_port(first.as_str());
                r.append("/");
                r.append(skip_chars(s, i + 1).as_str());
                Some(r)
            } else {
                // No host, has a slash: market shorthand `owner/repo`, which is always GitHub.
                Some(shorthand)
            }
        },
        // A bare host names no repository.
        None => if is_host_like(s) {
            None
        } else {
            Some(shorthand)
        },
    }
}

pub fn keep_non_empty(pieces: &Vec<String>) -> (r: Vec<String>)
    ensures
        texts(r@) == non_empty_pieces(texts(pieces@)),
{
    let ghost all = texts(pieces@);
    let mut r: Vec<String> = Vec::new();
    let mut i: usize = 0;
    assert(texts(r@) =~= non_empty_pieces(all.take(0)));
    while i < pieces.len()
        invariant
            i <= pieces.len(),
            all == texts(pieces@),
            texts(r@) == non_empty_pieces(all.take(i as int)),
        decreases pieces.len() - i,
    {
        let ghost before = texts(r@);
        proof {
            assert(all.take(i + 1).drop_last() =~= all.take(i as int));
            assert(all.take(i + 1).last() == pieces@[i as int]@);
        }
        if !pieces[i].as_str().is_empty() {
            r.push(pieces[i].clone());
            assert(texts(r@) =~= before.push(pieces@[i as int]@));
        }
        i = i + 1;
    }
    assert(all.take(i as int) =~= all);
    r
}

/// Collapse any accepted spelling of a git repository into its canonical key.
///
/// Returns `None` when the input does not identify a `host/owner/repo` triple (bare words, a
/// bare host, local paths, empty strings…). The key is lowercased: repository hosts route
/// case-insensitively, and grouping must not split one repo into two because of casing.
pub fn canonical_repo_key(source_ref: &str) -> (r: Option<String>)
    ensures
        r.deep_view() == repo_key(source_ref@),
        names_ascii_path(source_ref@) ==> r.deep_view() == ascii_repo_key(source_ref@),
        r matches Some(key) ==> key_segments(key@),
{
    let s = trim(source_ref);
    if s.as_str().is_empty() || is_local_path(s.as_str()) {
        return None;
    }
    let s = strip_scheme(s);
    let s = match position_of_text(s.as_str(), "/tree/") {
        Some(i) => take_chars(s.as_str(), i),
        None => s,
    };
    let s = match strip_user(s) {
        Some(s) => s,
        None => {
            return None;
        },
    };
    let s = strip_tail(s);
    if s.as_str().is_empty() {
        return None;
    }
    let s = match add_host(s.as_str()) {
        Some(s) => s,
        None => {
            return None;
        },
    };
    let segments = keep_non_empty(&split_on(s.as_str(), '/'));
    assert(texts(segments@).len() == segments@.len());
    if segments.len() < 3 {
        return None;
    }
    proof {
        lemma_segments(s@);
    }
    Some(to_lower(join_with(&segments, "/").as_str()))
}

/// The first three segments of a key.
pub open spec fn first_three(key: Seq<char>) -> Seq<char> {
    let pieces = split(key, '/');
    pieces[0] + "/"@ + pieces[1] + "/"@ + pieces[2]
}

// Three segments make a key of three segments.
proof fn lemma_three(key: Seq<char>)
    requires
        key_segments(key),
    ensures
        split(first_three(key), '/').len() == 3,
{
    let pieces = split(key, '/');
    let three = seq![pieces[0], pieces[1], pieces[2]];
    lemma_pieces_plain(key);
    assert(no_slash(three[0]) && no_slash(three[1]) && no_slash(three[2]));
    lemma_split_join(three);
    reveal_with_fuel(join, 4);
    assert(three.drop_last() =~= seq![pieces[0], pieces[1]]);
    assert(seq![pieces[0], pieces[1]].drop_last() =~= seq![pieces[0]]);
    assert(join(three, "/"@) =~= first_three(key));
}

/// The repo key for a skills.sh market source reference.
///
/// A market `source_ref` is `owner/repo/<skill-id>` — the skill id is a path *inside* the
/// repo, never a repo segment. GitHub has no nested groups, so the repo is always exactly
/// `github.com/owner/repo`.
pub fn skillssh_repo_key(source_ref: &str) -> (r: Option<String>)
    ensures
        r.deep_view() == match repo_key(source_ref@) {
            Some(key) => Some(first_three(key)),
            None => None,
        },
        names_ascii_path(source_ref@) ==> r.deep_view() == match ascii_repo_key(source_ref@) {
            Some(key) => Some(first_three(key)),
            None => None,
        },
        r matches Some(key) ==> split(key@, '/').len() == 3,
{
    let key = match canonical_repo_key(source_ref) {
        Some(key) => key,
        None => {
            return None;
        },
    };
    let pieces = split_on(key.as_str(), '/');
    assert(texts(pieces@).len() == pieces@.len());
    proof {
        lemma_three(key@);
    }
    let mut r = pieces[0].clone();
    r.append("/");
    r.append(pieces[1].as_str());
    r.append("/");
    r.append(pieces[2].as_str());
    Some(r)
}

} // verus!
