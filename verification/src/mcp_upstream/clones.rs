//! The central cache of git clones: where a repository is cloned to, when a clone may be
//! updated, and which commit of the remote a clone is held against.

use vstd::prelude::*;
use crate::paths::{child_of, child_path};
use crate::pieces::lemma_all_stay;
use crate::repo_key::{
    ascii_repo_key, canonical_repo_key, keep_non_empty, key_segments, names_ascii_path,
    non_empty_pieces, repo_key,
};
use crate::text::{chars_of, join, join_with, same, split, split_on, texts, trim, trimmed};

verus! {

pub open spec fn ascii_alphanumeric(c: char) -> bool {
    ('0' <= c && c <= '9') || ('A' <= c && c <= 'Z') || ('a' <= c && c <= 'z')
}

/// A character as it stands in a directory name of the cache.
pub open spec fn slug_char(c: char) -> char {
    if ascii_alphanumeric(c) {
        c
    } else {
        '-'
    }
}

pub open spec fn slug_chars(s: Seq<char>) -> Seq<char> {
    Seq::new(s.len(), |i: int| slug_char(s[i]))
}

pub open spec fn last_two(pieces: Seq<Seq<char>>) -> Seq<Seq<char>> {
    if pieces.len() <= 2 {
        pieces
    } else {
        pieces.skip(pieces.len() - 2)
    }
}

/// The directory name for a repository key: its last two segments joined by `-`.
pub open spec fn slug_of_key(key: Seq<char>) -> Seq<char> {
    let slug = slug_chars(join(last_two(non_empty_pieces(split(key, '/'))), "-"@));
    if slug.len() == 0 {
        "mcp-source"@
    } else {
        slug
    }
}

/// The key that the slug is made of: that of the repository, or the reference itself where it
/// names none.
pub open spec fn key_or_reference(key: Option<Seq<char>>, repo_url: Seq<char>) -> Seq<char> {
    match key {
        Some(k) => k,
        None => trimmed(repo_url),
    }
}

/// A slug is not empty and is made of letters, digits and `-` alone.
pub proof fn law_slug_is_a_plain_name(key: Seq<char>)
    ensures
        slug_of_key(key).len() > 0,
        forall|i: int|
            0 <= i < slug_of_key(key).len() ==> ascii_alphanumeric(#[trigger] slug_of_key(key)[i])
                || slug_of_key(key)[i] == '-',
{
    reveal_strlit("mcp-source");
}

// Of a key without empty segments the slug is made of the last two.
proof fn lemma_slug_of_segments(key: Seq<char>)
    requires
        key_segments(key),
    ensures
        ({
            let pieces = split(key, '/');
            let n = pieces.len();
            slug_of_key(key) == slug_chars(pieces[n - 2] + "-"@ + pieces[n - 1])
        }),
{
    let pieces = split(key, '/');
    let n = pieces.len();
    lemma_all_stay(pieces);
    let two = pieces.skip(n - 2);
    reveal_with_fuel(join, 3);
    assert(two.drop_last() =~= seq![pieces[n - 2]]);
    reveal_strlit("-");
    assert(join(two, "-"@) =~= pieces[n - 2] + "-"@ + pieces[n - 1]);
}

fn to_slug_chars(s: &str) -> (r: String)
    ensures
        r@ == slug_chars(s@),
{
    let chars = chars_of(s);
    let mut r = String::new();
    let mut i: usize = 0;
    while i < chars.len()
        invariant
            i <= chars.len(),
            chars@ == s@,
            r@ == slug_chars(s@).take(i as int),
        decreases chars.len() - i,
    {
        let c = chars[i];
        let kept = if ('0' <= c && c <= '9') || ('A' <= c && c <= 'Z') || ('a' <= c && c <= 'z') {
            c
        } else {
            '-'
        };
        r.push(kept);
        assert(slug_chars(s@).take(i + 1) =~= slug_chars(s@).take(i as int).push(kept));
        i = i + 1;
    }
    assert(slug_chars(s@).take(i as int) =~= slug_chars(s@));
    r
}

fn keep_last_two(mut pieces: Vec<String>) -> (r: Vec<String>)
    ensures
        texts(r@) == last_two(texts(pieces@)),
{
    let n: usize = pieces.len();
    if n <= 2 {
        return pieces;
    }
    let ghost all = pieces@;
    let tail = pieces.split_off(n - 2);
    assert(texts(tail@) =~= texts(all).skip(n - 2));
    tail
}

/// The directory name for one repository inside the cache, by its key.
pub fn slug_for_key(key: &str) -> (r: String)
    ensures
        r@ == slug_of_key(key@),
{
    let tail = keep_last_two(keep_non_empty(&split_on(key, '/')));
    let slug = to_slug_chars(join_with(&tail, "-").as_str());
    if slug.as_str().is_empty() {
        "mcp-source".to_owned()
    } else {
        slug
    }
}

/// Directory name for one repository inside the cache: last two segments of the canonical
/// repository key joined by `-` (what is not alphanumeric becomes `-`), falling back to the raw
/// reference where it names no repository.
pub fn clone_slug(repo_url: &str) -> (r: String)
    ensures
        r@ == slug_of_key(key_or_reference(repo_key(repo_url@), repo_url@)),
        names_ascii_path(repo_url@) ==> r@ == slug_of_key(
            key_or_reference(ascii_repo_key(repo_url@), repo_url@),
        ),
        repo_key(repo_url@) matches Some(key) ==> {
            let pieces = split(key, '/');
            let n = pieces.len();
            n >= 3 && r@ == slug_chars(pieces[n - 2] + "-"@ + pieces[n - 1])
        },
{
    let key = match canonical_repo_key(repo_url) {
        Some(key) => {
            proof {
                lemma_slug_of_segments(key@);
            }
            key
        },
        None => trim(repo_url),
    };
    slug_for_key(key.as_str())
}

/// Where a repository is cloned to.
pub fn clone_target(root: &str, repo_url: &str) -> (r: String)
    ensures
        r@ == child_of(root@, slug_of_key(key_or_reference(repo_key(repo_url@), repo_url@))),
{
    child_path(root, clone_slug(repo_url).as_str())
}

/// What is to be done so that a directory holds a current clone.
#[derive(Debug, PartialEq, Eq, Structural, Clone, Copy)]
pub enum CloneStep {
    /// It is a clone: fetch, and reset it to the branch of its remote.
    Update,
    /// Nothing is there: clone.
    Fresh,
}

pub open spec fn clone_outcome(target: Seq<char>, is_clone: bool, exists: bool) -> Result<
    CloneStep,
    Seq<char>,
> {
    if is_clone {
        Ok(CloneStep::Update)
    } else if exists {
        Err(target + " exists but is not a git clone"@)
    } else {
        Ok(CloneStep::Fresh)
    }
}

pub open spec fn step_view(r: Result<CloneStep, String>) -> Result<CloneStep, Seq<char>> {
    match r {
        Ok(step) => Ok(step),
        Err(message) => Err(message@),
    }
}

/// Ensure that `target` holds a current clone: what to do next, by whether it holds a `.git`
/// entry and whether it exists at all. A directory that is no clone is left alone.
pub fn ensure_git_clone(target: &str, is_clone: bool, exists: bool) -> (r: Result<
    CloneStep,
    String,
>)
    ensures
        step_view(r) == clone_outcome(target@, is_clone, exists),
{
    if is_clone {
        return Ok(CloneStep::Update);
    }
    if exists {
        let mut m = target.to_owned();
        m.append(" exists but is not a git clone");
        return Err(m);
    }
    Ok(CloneStep::Fresh)
}

pub open spec fn given(value: Option<Seq<char>>) -> Option<Seq<char>> {
    match value {
        Some(v) if v.len() > 0 => Some(v),
        _ => None,
    }
}

/// A setting (branch, proxy) that is set to something.
pub fn non_empty(value: Option<String>) -> (r: Option<String>)
    ensures
        r.deep_view() == given(value.deep_view()),
{
    match value {
        Some(v) => if v.as_str().is_empty() {
            None
        } else {
            Some(v)
        },
        None => None,
    }
}

/// The branch that a HEAD stands on, by its short name.
pub open spec fn branch_of_head(shorthand: Option<Seq<char>>) -> Option<Seq<char>> {
    match shorthand {
        Some(name) if name != "HEAD"@ => Some(name),
        _ => None,
    }
}

/// The branch that a clone stands on; none where its HEAD is detached.
pub fn current_branch(shorthand: Option<String>) -> (r: Option<String>)
    ensures
        r.deep_view() == branch_of_head(shorthand.deep_view()),
{
    match shorthand {
        Some(name) => if same(name.as_str(), "HEAD") {
            None
        } else {
            Some(name)
        },
        None => None,
    }
}

pub open spec fn text_result(r: Result<String, String>) -> Result<Seq<char>, Seq<char>> {
    match r {
        Ok(v) => Ok(v@),
        Err(e) => Err(e@),
    }
}

/// The branch that an update follows: the one asked for, or else the one the clone stands on.
pub open spec fn followed_branch(
    branch: Option<Seq<char>>,
    shorthand: Option<Seq<char>>,
) -> Result<Seq<char>, Seq<char>> {
    match given(branch) {
        Some(b) => Ok(b),
        None => match branch_of_head(shorthand) {
            Some(b) => Ok(b),
            None => Err("clone HEAD is detached and no branch was given"@),
        },
    }
}

pub fn update_branch(branch: Option<String>, shorthand: Option<String>) -> (r: Result<
    String,
    String,
>)
    ensures
        text_result(r) == followed_branch(branch.deep_view(), shorthand.deep_view()),
{
    match non_empty(branch) {
        Some(b) => Ok(b),
        None => match current_branch(shorthand) {
            Some(b) => Ok(b),
            None => Err("clone HEAD is detached and no branch was given".to_owned()),
        },
    }
}

/// The status bits of a tracked file that differs: new, modified, deleted, renamed or of
/// another type in the index; modified, deleted, of another type or renamed in the working
/// tree. New in the working tree is not among them.
pub const TRACKED_CHANGES: u32 = 0xf1f;

/// The status bit of a file that is not tracked.
pub const UNTRACKED: u32 = 0x80;

/// Whether some entry's status has a bit of a tracked change.
pub open spec fn dirty(statuses: Seq<u32>) -> bool {
    exists|i: int| 0 <= i < statuses.len() && #[trigger] statuses[i] & TRACKED_CHANGES != 0
}

/// Tracked modifications or staged-but-uncommitted changes only: untracked leftovers (an npm
/// install inside the clone) do not block the pull.
pub fn working_tree_is_dirty(statuses: &Vec<u32>) -> (r: bool)
    ensures
        r == dirty(statuses@),
{
    let mut i: usize = 0;
    while i < statuses.len()
        invariant
            i <= statuses.len(),
            forall|k: int| 0 <= k < i ==> #[trigger] statuses@[k] & TRACKED_CHANGES == 0,
        decreases statuses.len() - i,
    {
        if statuses[i] & TRACKED_CHANGES != 0 {
            return true;
        }
        i = i + 1;
    }
    false
}

/// What a clean clone is reset to after a fetch; a clone with local changes is not.
pub open spec fn reset_outcome(branch: Seq<char>, statuses: Seq<u32>) -> Result<
    Seq<char>,
    Seq<char>,
> {
    if dirty(statuses) {
        Err("clone has local changes"@)
    } else {
        Ok("origin/"@ + branch)
    }
}

/// The revision that a fetched clone is reset to — but only when the tracked working tree is
/// clean. Whoever has been editing the clone gets an error instead of silently losing work.
pub fn reset_revision(branch: &str, statuses: &Vec<u32>) -> (r: Result<String, String>)
    ensures
        text_result(r) == reset_outcome(branch@, statuses@),
{
    if working_tree_is_dirty(statuses) {
        return Err("clone has local changes".to_owned());
    }
    let mut revision = "origin/".to_owned();
    revision.append(branch);
    Ok(revision)
}

pub open spec fn ref_pairs(refs: Seq<(String, String)>) -> Seq<(Seq<char>, Seq<char>)> {
    Seq::new(refs.len(), |i: int| (refs[i].0@, refs[i].1@))
}

/// The oid of the first reference of that name.
pub open spec fn oid_of(refs: Seq<(Seq<char>, Seq<char>)>, name: Seq<char>) -> Option<Seq<char>>
    decreases refs.len(),
{
    if refs.len() == 0 {
        None
    } else if refs[0].0 == name {
        Some(refs[0].1)
    } else {
        oid_of(refs.skip(1), name)
    }
}

pub open spec fn wanted_ref(branch: Option<Seq<char>>) -> Seq<char> {
    match branch {
        Some(b) => "refs/heads/"@ + b,
        None => "HEAD"@,
    }
}

/// The remote's commit for a branch: that of the branch, or else that of the remote's HEAD.
pub open spec fn remote_oid(
    branch: Option<Seq<char>>,
    refs: Seq<(Seq<char>, Seq<char>)>,
) -> Result<Seq<char>, Seq<char>> {
    match oid_of(refs, wanted_ref(branch)) {
        Some(oid) => Ok(oid),
        None => match oid_of(refs, "HEAD"@) {
            Some(oid) => Ok(oid),
            None => Err("remote has no "@ + wanted_ref(branch) + " or HEAD"@),
        },
    }
}

fn find_oid(refs: &Vec<(String, String)>, name: &str) -> (r: Option<String>)
    ensures
        r.deep_view() == oid_of(ref_pairs(refs@), name@),
{
    let ghost all = ref_pairs(refs@);
    let mut i: usize = 0;
    assert(all.skip(0) =~= all);
    while i < refs.len()
        invariant
            i <= refs.len(),
            all == ref_pairs(refs@),
            oid_of(all, name@) == oid_of(all.skip(i as int), name@),
        decreases refs.len() - i,
    {
        let pair = &refs[i];
        assert(all.skip(i as int)[0] == (pair.0@, pair.1@));
        if same(pair.0.as_str(), name) {
            return Some(pair.1.clone());
        }
        assert(all.skip(i as int).skip(1) =~= all.skip(i + 1));
        i = i + 1;
    }
    None
}

/// The remote is asked for the clone's current branch, falling back to the remote's
/// default-branch HEAD entry. `refs` are the remote's references with their oids.
pub fn remote_head(branch: Option<String>, refs: &Vec<(String, String)>) -> (r: Result<
    String,
    String,
>)
    ensures
        text_result(r) == remote_oid(branch.deep_view(), ref_pairs(refs@)),
{
    let wanted = match branch {
        Some(b) => {
            let mut w = "refs/heads/".to_owned();
            w.append(b.as_str());
            w
        },
        None => "HEAD".to_owned(),
    };
    if let Some(oid) = find_oid(refs, wanted.as_str()) {
        return Ok(oid);
    }
    if let Some(oid) = find_oid(refs, "HEAD") {
        return Ok(oid);
    }
    let mut m = "remote has no ".to_owned();
    m.append(wanted.as_str());
    m.append(" or HEAD");
    Err(m)
}

/// A clone with local changes is never reset, and untracked files alone never stop a reset.
pub proof fn law_local_changes_are_kept(branch: Seq<char>, statuses: Seq<u32>)
    ensures
        dirty(statuses) <==> reset_outcome(branch, statuses) is Err,
        (forall|i: int| 0 <= i < statuses.len() ==> #[trigger] statuses[i] == UNTRACKED)
            ==> reset_outcome(branch, statuses) == Ok::<Seq<char>, Seq<char>>("origin/"@ + branch),
{
    assert(0x80u32 & 0xf1fu32 == 0) by (bit_vector);
}

/// References to the same repository share their clone.
pub proof fn law_spellings_share_a_clone(root: Seq<char>, a: Seq<char>, b: Seq<char>)
    requires
        repo_key(a) is Some,
        repo_key(a) == repo_key(b),
    ensures
        child_of(root, slug_of_key(key_or_reference(repo_key(a), a))) == child_of(
            root,
            slug_of_key(key_or_reference(repo_key(b), b)),
        ),
{
}

} // verus!
