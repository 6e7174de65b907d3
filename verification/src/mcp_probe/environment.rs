//! The environment that a probed stdio server is started with: a search path close to the one
//! of the user's shell, and the entry's own variables on top.

use vstd::prelude::*;
use crate::env_map::{bind_all, EnvMap};
use crate::mcp_upstream::without_v;
use crate::paths::{child_of, child_path, distinct_paths, distinct_paths_of};
use crate::text::{
    chars_of, parse_u64, parsed_u64, split, split_on, string_of, texts, trim, trimmed,
};
use crate::text_lists::{append_all, copy_texts};

verus! {

/// The search path that a login shell printed.
pub open spec fn printed_path(success: bool, stdout: Seq<char>) -> Option<Seq<char>> {
    if success && trimmed(stdout).len() > 0 {
        Some(trimmed(stdout))
    } else {
        None
    }
}

pub fn shell_path(success: bool, stdout: &str) -> (r: Option<String>)
    ensures
        r.deep_view() == printed_path(success, stdout@),
{
    let path = trim(stdout);
    if success && !path.as_str().is_empty() {
        Some(path)
    } else {
        None
    }
}

/// Well-known directories of user-installed programs.
pub open spec fn user_bins(home: Seq<char>) -> Seq<Seq<char>> {
    seq![
        child_of(home, ".local/bin"@),
        child_of(home, ".cargo/bin"@),
        "/opt/homebrew/bin"@,
        "/opt/homebrew/sbin"@,
        child_of(home, ".local/share/fnm/aliases/default/bin"@),
    ]
}

pub fn user_bin_dirs(home: &str) -> (r: Vec<String>)
    ensures
        texts(r@) == user_bins(home@),
{
    let mut dirs: Vec<String> = Vec::new();
    dirs.push(child_path(home, ".local/bin"));
    dirs.push(child_path(home, ".cargo/bin"));
    dirs.push("/opt/homebrew/bin".to_owned());
    dirs.push("/opt/homebrew/sbin".to_owned());
    dirs.push(child_path(home, ".local/share/fnm/aliases/default/bin"));
    assert(texts(dirs@) =~= user_bins(home@));
    dirs
}

/// Where fnm keeps its node versions.
pub open spec fn versions_dir(home: Seq<char>) -> Seq<char> {
    child_of(home, ".local/share/fnm/node-versions"@)
}

/// Where a node version has its programs.
pub open spec fn version_bin(home: Seq<char>, version: Seq<char>) -> Seq<char> {
    child_of(child_of(versions_dir(home), version), "installation/bin"@)
}

pub fn node_versions_dir(home: &str) -> (r: String)
    ensures
        r@ == versions_dir(home@),
{
    child_path(home, ".local/share/fnm/node-versions")
}

pub fn node_version_bin(home: &str, version: &str) -> (r: String)
    ensures
        r@ == version_bin(home@, version@),
{
    let dir = child_path(node_versions_dir(home).as_str(), version);
    child_path(dir.as_str(), "installation/bin")
}

// ── node versions, newest first ──

/// The numbers among the pieces.
pub open spec fn numbers_in(pieces: Seq<Seq<char>>) -> Seq<u64>
    decreases pieces.len(),
{
    if pieces.len() == 0 {
        Seq::empty()
    } else {
        match parsed_u64(pieces.last()) {
            Some(n) => numbers_in(pieces.drop_last()).push(n),
            None => numbers_in(pieces.drop_last()),
        }
    }
}

/// What a version directory is ordered by: the numbers of its name.
pub open spec fn version_key(name: Seq<char>) -> Seq<u64> {
    numbers_in(split(without_v(name), '.'))
}

/// One list of numbers comes before another: by the first place where they differ, the shorter
/// one first where there is none.
pub open spec fn numbers_less(a: Seq<u64>, b: Seq<u64>) -> bool
    decreases a.len(),
{
    if b.len() == 0 {
        false
    } else if a.len() == 0 {
        true
    } else if a[0] != b[0] {
        a[0] < b[0]
    } else {
        numbers_less(a.skip(1), b.skip(1))
    }
}

/// A list of versions with `x` put behind every one that is not older.
pub open spec fn insert_version(s: Seq<Seq<char>>, x: Seq<char>) -> Seq<Seq<char>>
    decreases s.len(),
{
    if s.len() > 0 && numbers_less(version_key(s.last()), version_key(x)) {
        insert_version(s.drop_last(), x).push(s.last())
    } else {
        s.push(x)
    }
}

/// The versions with the newest first; those of the same key stay in their order.
pub open spec fn newest_first_of(s: Seq<Seq<char>>) -> Seq<Seq<char>>
    decreases s.len(),
{
    if s.len() == 0 {
        s
    } else {
        insert_version(newest_first_of(s.drop_last()), s.last())
    }
}

fn strip_v(s: &str) -> (r: String)
    ensures
        r@ == without_v(s@),
{
    let chars = chars_of(s);
    let mut i: usize = 0;
    assert(s@.skip(0) =~= s@);
    while i < chars.len() && chars[i] == 'v'
        invariant
            i <= chars.len(),
            chars@ == s@,
            without_v(s@) == without_v(s@.skip(i as int)),
        decreases chars.len() - i,
    {
        assert(s@.skip(i as int).skip(1) =~= s@.skip(i + 1));
        i = i + 1;
    }
    let n: usize = chars.len();
    assert(s@.subrange(i as int, n as int) =~= s@.skip(i as int));
    string_of(&chars, i, n)
}

fn key_of(name: &str) -> (r: Vec<u64>)
    ensures
        r@ == version_key(name@),
{
    let pieces = split_on(strip_v(name).as_str(), '.');
    let ghost all = texts(pieces@);
    let mut key: Vec<u64> = Vec::new();
    let mut i: usize = 0;
    assert(all.take(0) =~= Seq::<Seq<char>>::empty());
    while i < pieces.len()
        invariant
            i <= pieces.len(),
            all == texts(pieces@),
            key@ == numbers_in(all.take(i as int)),
        decreases pieces.len() - i,
    {
        proof {
            assert(all.take(i + 1).drop_last() =~= all.take(i as int));
            assert(all.take(i + 1).last() == pieces@[i as int]@);
        }
        if let Some(n) = parse_u64(pieces[i].as_str()) {
            key.push(n);
        }
        i = i + 1;
    }
    assert(all.take(i as int) =~= all);
    key
}

fn numbers_before(a: &Vec<u64>, b: &Vec<u64>) -> (r: bool)
    ensures
        r == numbers_less(a@, b@),
{
    let mut i: usize = 0;
    proof {
        assert(a@.skip(0) =~= a@);
        assert(b@.skip(0) =~= b@);
    }
    while i < a.len() && i < b.len()
        invariant
            i <= a.len(),
            i <= b.len(),
            numbers_less(a@, b@) == numbers_less(a@.skip(i as int), b@.skip(i as int)),
        decreases a.len() - i,
    {
        if a[i] != b[i] {
            return a[i] < b[i];
        }
        proof {
            assert(a@.skip(i as int).skip(1) =~= a@.skip(i + 1));
            assert(b@.skip(i as int).skip(1) =~= b@.skip(i + 1));
        }
        i = i + 1;
    }
    i < b.len()
}

proof fn lemma_insert_version_at(s: Seq<Seq<char>>, x: Seq<char>, p: int)
    requires
        0 <= p <= s.len(),
        forall|k: int|
            p <= k < s.len() ==> numbers_less(version_key(#[trigger] s[k]), version_key(x)),
        p > 0 ==> !numbers_less(version_key(s[p - 1]), version_key(x)),
    ensures
        insert_version(s, x) == s.insert(p, x),
    decreases s.len() - p,
{
    if p == s.len() {
        assert(s.insert(p, x) =~= s.push(x));
    } else {
        lemma_insert_version_at(s.drop_last(), x, p);
        assert(s.insert(p, x) =~= s.drop_last().insert(p, x).push(s.last()));
    }
}

fn put_version(list: &mut Vec<String>, x: String)
    ensures
        texts(final(list)@) == insert_version(texts(old(list)@), x@),
{
    let ghost before = texts(list@);
    let key = key_of(x.as_str());
    let mut p: usize = list.len();
    while p > 0 && numbers_before(&key_of(list[p - 1].as_str()), &key)
        invariant
            p <= list.len(),
            before == texts(list@),
            key@ == version_key(x@),
            forall|k: int|
                p <= k < before.len() ==> numbers_less(
                    version_key(#[trigger] before[k]),
                    version_key(x@),
                ),
        decreases p,
    {
        assert(before[p - 1] == list@[p - 1]@);
        p = p - 1;
    }
    proof {
        if p > 0 {
            assert(before[p - 1] == list@[p - 1]@);
        }
        lemma_insert_version_at(before, x@, p as int);
    }
    let ghost text = x@;
    list.insert(p, x);
    assert(texts(list@) =~= before.insert(p as int, text));
}

/// Installed node versions, newest first by numeric segments: a lexicographic order would rank
/// v8.0.0 above v24.15.0 and put a stale node first.
pub fn newest_first(versions: &Vec<String>) -> (r: Vec<String>)
    ensures
        texts(r@) == newest_first_of(texts(versions@)),
{
    let ghost all = texts(versions@);
    let mut r: Vec<String> = Vec::new();
    let mut i: usize = 0;
    assert(texts(r@) =~= all.take(0));
    while i < versions.len()
        invariant
            i <= versions.len(),
            all == texts(versions@),
            texts(r@) == newest_first_of(all.take(i as int)),
        decreases versions.len() - i,
    {
        proof {
            assert(all.take(i + 1).drop_last() =~= all.take(i as int));
            assert(all.take(i + 1).last() == versions@[i as int]@);
        }
        put_version(&mut r, versions[i].clone());
        i = i + 1;
    }
    assert(all.take(i as int) =~= all);
    r
}

proof fn lemma_numbers_order(a: Seq<u64>, b: Seq<u64>, c: Seq<u64>)
    ensures
        !numbers_less(a, b) && !numbers_less(b, c) ==> !numbers_less(a, c),
        numbers_less(a, b) ==> !numbers_less(b, a),
    decreases a.len() + b.len() + c.len(),
{
    if a.len() > 0 && b.len() > 0 {
        let c1 = if c.len() > 0 {
            c.skip(1)
        } else {
            c
        };
        lemma_numbers_order(a.skip(1), b.skip(1), c1);
    }
}

/// No version is newer than an earlier one of the list.
pub open spec fn newest_come_first(s: Seq<Seq<char>>) -> bool {
    forall|i: int, j: int|
        0 <= i < j < s.len() ==> !numbers_less(
            version_key(#[trigger] s[i]),
            version_key(#[trigger] s[j]),
        )
}

proof fn lemma_insert_version(s: Seq<Seq<char>>, x: Seq<char>)
    requires
        newest_come_first(s),
    ensures
        newest_come_first(insert_version(s, x)),
        insert_version(s, x).to_multiset() == s.to_multiset().insert(x),
        insert_version(s, x).len() == s.len() + 1,
        forall|k: int|
            0 <= k < insert_version(s, x).len() ==> #[trigger] insert_version(s, x)[k] == x
                || s.contains(insert_version(s, x)[k]),
    decreases s.len(),
{
    broadcast use vstd::seq_lib::group_to_multiset_ensures;

    let r = insert_version(s, x);
    if s.len() > 0 && numbers_less(version_key(s.last()), version_key(x)) {
        let t = s.drop_last();
        lemma_insert_version(t, x);
        let u = insert_version(t, x);
        assert(s =~= t.push(s.last()));
        assert forall|k: int| 0 <= k < r.len() implies #[trigger] r[k] == x || s.contains(r[k]) by {
            if k < u.len() {
                assert(r[k] == u[k]);
                if u[k] != x {
                    assert(t.contains(u[k]));
                    let j = choose|j: int| 0 <= j < t.len() && t[j] == u[k];
                    assert(s[j] == u[k]);
                }
            } else {
                assert(s[s.len() - 1] == r[k]);
            }
        }
        assert forall|i: int, j: int| 0 <= i < j < r.len() implies !numbers_less(
            version_key(#[trigger] r[i]),
            version_key(#[trigger] r[j]),
        ) by {
            if j < u.len() {
                assert(r[i] == u[i] && r[j] == u[j]);
            } else {
                assert(r[j] == s.last());
                assert(r[i] == u[i]);
                if u[i] == x {
                    lemma_numbers_order(
                        version_key(s.last()),
                        version_key(x),
                        version_key(x),
                    );
                } else {
                    assert(t.contains(u[i]));
                    let k = choose|k: int| 0 <= k < t.len() && t[k] == u[i];
                    assert(s[k] == u[i]);
                    assert(!numbers_less(version_key(s[k]), version_key(s[s.len() - 1])));
                }
            }
        }
        assert(r.to_multiset() =~= s.to_multiset().insert(x));
    } else {
        assert forall|i: int, j: int| 0 <= i < j < r.len() implies !numbers_less(
            version_key(#[trigger] r[i]),
            version_key(#[trigger] r[j]),
        ) by {
            if j == s.len() {
                lemma_numbers_order(
                    version_key(s[i]),
                    version_key(s.last()),
                    version_key(x),
                );
                if i < s.len() - 1 {
                    assert(!numbers_less(version_key(s[i]), version_key(s[s.len() - 1])));
                }
            }
        }
        assert forall|k: int| 0 <= k < r.len() implies #[trigger] r[k] == x || s.contains(r[k]) by {
            if k < s.len() {
                assert(s[k] == r[k]);
            }
        }
    }
}

/// Ordering versions loses none, and no newer one comes behind an older one.
pub proof fn law_newest_first(s: Seq<Seq<char>>)
    ensures
        newest_come_first(newest_first_of(s)),
        newest_first_of(s).to_multiset() == s.to_multiset(),
    decreases s.len(),
{
    broadcast use vstd::seq_lib::group_to_multiset_ensures;

    if s.len() > 0 {
        law_newest_first(s.drop_last());
        lemma_insert_version(newest_first_of(s.drop_last()), s.last());
        assert(s =~= s.drop_last().push(s.last()));
    }
}

/// Directories a login shell still misses on typical setups: those well-known ones that are
/// there, and those of the node versions, newest first.
pub open spec fn extra_paths(
    home: Seq<char>,
    known: Seq<Seq<char>>,
    versions: Seq<Seq<char>>,
) -> Seq<Seq<char>> {
    known + Seq::new(
        newest_first_of(versions).len(),
        |i: int| version_bin(home, newest_first_of(versions)[i]),
    )
}

/// `known` are the well-known directories that exist, `versions` the node versions that have
/// programs.
pub fn extra_user_paths(home: &str, known: Vec<String>, versions: &Vec<String>) -> (r: Vec<String>)
    ensures
        texts(r@) == extra_paths(home@, texts(known@), texts(versions@)),
{
    let ghost first = texts(known@);
    let sorted = newest_first(versions);
    let ghost names = texts(sorted@);
    let ghost bins = Seq::new(names.len(), |i: int| version_bin(home@, names[i]));
    let mut out = known;
    let mut i: usize = 0;
    assert(first + bins.take(0) =~= first);
    while i < sorted.len()
        invariant
            i <= sorted.len(),
            names == texts(sorted@),
            bins == Seq::new(names.len(), |i: int| version_bin(home@, names[i])),
            texts(out@) == first + bins.take(i as int),
        decreases sorted.len() - i,
    {
        let ghost before = texts(out@);
        let bin = node_version_bin(home, sorted[i].as_str());
        let ghost b = bin@;
        out.push(bin);
        proof {
            assert(names[i as int] == sorted@[i as int]@);
            assert(bins[i as int] == b);
            assert(texts(out@) =~= before.push(b));
            assert(bins.take(i + 1) =~= bins.take(i as int).push(b));
            assert(first + bins.take(i as int).push(b) =~= (first + bins.take(i as int)).push(b));
        }
        i = i + 1;
    }
    assert(bins.take(i as int) =~= bins);
    out
}

// ── the search path ──

/// PATH handed to probed stdio servers: login shell first, then the well-known user directories,
/// then whatever this process inherited.
pub fn probe_path(shell: Vec<String>, extra: &Vec<String>, inherited: &Vec<String>) -> (r: Vec<
    String,
>)
    ensures
        texts(r@) == distinct_paths_of(texts(shell@) + texts(extra@) + texts(inherited@)),
{
    let mut parts = shell;
    append_all(&mut parts, copy_texts(extra));
    append_all(&mut parts, copy_texts(inherited));
    distinct_paths(&parts)
}

// ── variables ──

pub open spec fn env_pairs(v: Seq<(String, String)>) -> Seq<(Seq<char>, Seq<char>)> {
    Seq::new(v.len(), |i: int| (v[i].0@, v[i].1@))
}

/// The variables of a probed server: the base ones, the search path, and on top the entry's own.
pub open spec fn probe_env_of(
    base: Seq<(Seq<char>, Seq<char>)>,
    path: Seq<char>,
    own: Seq<(Seq<char>, Seq<char>)>,
) -> Seq<(Seq<char>, Seq<char>)> {
    bind_all(base.push(("PATH"@, path)) + own)
}

pub fn probe_env(base: &Vec<(String, String)>, path: &str, own: &EnvMap) -> (r: EnvMap)
    ensures
        r@ == probe_env_of(env_pairs(base@), path@, own@),
{
    let ghost first = env_pairs(base@);
    let mut env = EnvMap::new();
    let mut i: usize = 0;
    assert(first.take(0) =~= Seq::<(Seq<char>, Seq<char>)>::empty());
    while i < base.len()
        invariant
            i <= base.len(),
            first == env_pairs(base@),
            env@ == bind_all(first.take(i as int)),
        decreases base.len() - i,
    {
        proof {
            assert(first.take(i + 1).drop_last() =~= first.take(i as int));
            assert(first.take(i + 1).last() == first[i as int]);
        }
        env.insert(base[i].0.clone(), base[i].1.clone());
        i = i + 1;
    }
    assert(first.take(i as int) =~= first);
    let ghost second = first.push(("PATH"@, path@));
    assert(second.drop_last() =~= first);
    env.insert("PATH".to_owned(), path.to_owned());
    let n: usize = own.len();
    let ghost all = second + own@;
    let mut k: usize = 0;
    assert(all.take(second.len() as int) =~= second);
    while k < n
        invariant
            k <= n,
            n == own@.len(),
            all == second + own@,
            env@ == bind_all(all.take(second.len() + k)),
        decreases n - k,
    {
        proof {
            let t = all.take(second.len() + k + 1);
            assert(t.drop_last() =~= all.take(second.len() + k));
            assert(t.last() == own@[k as int]);
        }
        env.insert(own.key_at(k).clone(), own.value_at(k).clone());
        k = k + 1;
    }
    assert(all.take(second.len() + k) =~= all);
    env
}

} // verus!
