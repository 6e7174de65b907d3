//! Every spelling of one repository has one key.

use vstd::prelude::*;
use vstd::utf8::*;
use crate::pieces::{
    lemma_all_stay, lemma_first_stays, lemma_join_split, lemma_last_piece, lemma_lowered_pieces,
    lemma_segments, lemma_split_append, lemma_split_ended, lemma_split_first, lemma_split_prepend,
    lemma_split_step, lemma_split_whole, no_slash,
};
use crate::repo_key::{
    ascii_repo_key, ends_git, first_three, host_like, key_of_rest, key_segments, local_path,
    local_start, named_path, names_ascii_path, non_empty_pieces, repo_key, with_host, without_port,
    without_scheme, without_tail, without_tree, without_user,
};
use crate::text::{
    ascii_lower, ascii_lowered, find, find_char, is_space, join, lemma_find_char,
    lemma_find_char_meaning, lowercase, split, starts_with, trimmed,
};

verus! {

/// A text without user marks, ports and white space.
pub open spec fn plain_text(s: Seq<char>) -> bool {
    forall|i: int| 0 <= i < s.len() ==> #[trigger] s[i] != '@' && s[i] != ':' && !is_space(s[i])
}

/// Whether none of the pieces between the first and the last is `tree`.
pub open spec fn no_tree(s: Seq<char>) -> bool {
    forall|k: int| 0 < k < split(s, '/').len() - 1 ==> #[trigger] split(s, '/')[k] != "tree"@
}

/// Whether the last piece is `tree`.
pub open spec fn ends_tree(s: Seq<char>) -> bool {
    split(s, '/').last() == "tree"@
}

/// `host/owner/repo`, or a longer path, with a host that is one by its looks.
pub open spec fn names_repo(path: Seq<char>) -> bool {
    &&& plain_text(path)
    &&& no_tree(path)
    &&& split(path, '/').len() >= 3
    &&& forall|i: int| 0 <= i < split(path, '/').len() ==> (#[trigger] split(path, '/')[i]).len() > 0
    &&& host_like(split(path, '/')[0])
    &&& !ends_git(path)
}

/// What may stand behind a path in a spelling of it.
pub open spec fn repo_suffix(x: Seq<char>) -> bool {
    x == Seq::<char>::empty() || x == seq!['/'] || x == seq!['.', 'g', 'i', 't']
}

/// A path that ends with `tree` is cut there by a slash behind it.
pub open spec fn suffix_of(path: Seq<char>, x: Seq<char>) -> bool {
    repo_suffix(x) && (x == seq!['/'] ==> !ends_tree(path))
}

pub proof fn lemma_trimmed(s: Seq<char>)
    requires
        s.len() > 0,
        !is_space(s[0]),
        !is_space(s.last()),
    ensures
        trimmed(s) == s,
{
}

proof fn lemma_tail(p: Seq<char>)
    requires
        !ends_git(p),
        p.len() > 0,
        p.last() != '/',
    ensures
        without_tail(p) == p,
        without_tail(p + seq!['/']) == p,
        without_tail(p + seq!['.', 'g', 'i', 't']) == p,
{
    let s = p + seq!['/'];
    let g = p + seq!['.', 'g', 'i', 't'];
    assert(s.drop_last() =~= p);
    assert(g.take(g.len() - 4) =~= p);
    assert(!ends_git(s)) by {
        assert(s[s.len() - 1] == '/');
    }
    assert(ends_git(g));
    assert(without_tail(p) == p);
    assert(without_tail(g) == without_tail(p));
    assert(s.last() == '/');
    assert(without_tail(s) == without_tail(p));
}

// `/tree/` in a text is a piece between two others.
proof fn lemma_tree_is_piece(s: Seq<char>, i: int) -> (k: int)
    requires
        0 <= i <= s.len(),
        starts_with(s.skip(i), "/tree/"@),
    ensures
        0 < k < split(s, '/').len() - 1,
        split(s, '/')[k] == "tree"@,
    decreases s.len(),
{
    reveal_strlit("/tree/");
    reveal_strlit("tree");
    let pat = "/tree/"@;
    let u = s.skip(i);
    assert(u.take(6)[0] == pat[0] && u.take(6)[1] == pat[1] && u.take(6)[2] == pat[2] && u.take(6)[3]
        == pat[3] && u.take(6)[4] == pat[4] && u.take(6)[5] == pat[5]);
    assert(s[i] == '/');
    lemma_find_char_meaning(s, '/');
    assert(s.contains('/'));
    let j = find_char(s, '/').unwrap();
    let rest = s.skip(j + 1);
    let pieces = split(s, '/');
    assert(pieces == seq![s.take(j)] + split(rest, '/'));
    if i == j {
        assert(rest[0] == u[1] && rest[1] == u[2] && rest[2] == u[3] && rest[3] == u[4] && rest[4]
            == u[5]);
        lemma_find_char(rest, '/', 4);
        assert(rest.take(4) =~= "tree"@);
        lemma_split_step(rest.skip(5));
        assert(pieces[1] == "tree"@);
        1
    } else {
        assert(rest.skip(i - j - 1) =~= u);
        let k = lemma_tree_is_piece(rest, i - j - 1);
        assert(pieces[k + 1] == split(rest, '/')[k]);
        k + 1
    }
}

proof fn lemma_find_meaning(s: Seq<char>, pat: Seq<char>)
    ensures
        match find(s, pat) {
            Some(i) => 0 <= i <= s.len() && starts_with(s.skip(i), pat),
            None => true,
        },
    decreases s.len(),
{
    assert(s.skip(0) =~= s);
    if !starts_with(s, pat) && s.len() > 0 {
        let t = s.drop_first();
        lemma_find_meaning(t, pat);
        match find(t, pat) {
            Some(i) => {
                assert(s.skip(i + 1) =~= t.skip(i));
            },
            None => {},
        }
    }
}

/// A text none of whose inner pieces is `tree` keeps all of itself.
pub proof fn lemma_no_tree(s: Seq<char>)
    requires
        forall|k: int| 0 < k < split(s, '/').len() - 1 ==> #[trigger] split(s, '/')[k] != "tree"@,
    ensures
        without_tree(s) == s,
{
    lemma_find_meaning(s, "/tree/"@);
    match find(s, "/tree/"@) {
        Some(i) => {
            let k = lemma_tree_is_piece(s, i);
        },
        None => {},
    }
}

// Before the end of a text without such a piece, no `/tree/` starts.
proof fn lemma_no_tree_before(s: Seq<char>, branch: Seq<char>, i: int)
    requires
        forall|k: int| 0 < k < split(s, '/').len() ==> #[trigger] split(s, '/')[k] != "tree"@,
        0 <= i < s.len(),
    ensures
        !starts_with((s + "/tree/"@ + branch).skip(i), "/tree/"@),
{
    reveal_strlit("/tree/");
    let t = s + "/tree/"@ + branch;
    let n = s.len() as int;
    let u = t.skip(i);
    let pat = "/tree/"@;
    if starts_with(u, pat) {
        assert(u.take(6)[1] == pat[1] && u.take(6)[2] == pat[2] && u.take(6)[3] == pat[3] && u.take(
            6,
        )[4] == pat[4]);
        assert(t[n] == '/');
        if i + 5 > n {
            // the slash right behind the path would be one of the letters
            assert(u[n - i] == t[n]);
        } else {
            let e = s + seq!['/'];
            assert(e.skip(i).take(6) =~= u.take(6));
            let k = lemma_tree_is_piece(e, i);
            lemma_split_ended(s);
            assert(split(s, '/')[k] == "tree"@);
        }
    }
}

// The first `/tree/` stands right behind the path.
proof fn lemma_tree_behind(s: Seq<char>, branch: Seq<char>)
    requires
        forall|k: int| 0 < k < split(s, '/').len() ==> #[trigger] split(s, '/')[k] != "tree"@,
    ensures
        without_tree(s + "/tree/"@ + branch) == s,
{
    let t = s + "/tree/"@ + branch;
    let n = s.len() as int;
    assert(t.skip(n) =~= "/tree/"@ + branch);
    assert(("/tree/"@ + branch).take("/tree/"@.len() as int) =~= "/tree/"@);
    assert forall|i: int| 0 <= i < n implies !starts_with(#[trigger] t.skip(i), "/tree/"@) by {
        lemma_no_tree_before(s, branch, i);
    }
    crate::text::lemma_find(t, "/tree/"@, n);
    assert(t.take(n) =~= s);
}

// Texts without a colon, or that start with another letter, have no scheme.
proof fn lemma_no_scheme(s: Seq<char>)
    requires
        forall|i: int| 0 <= i < s.len() ==> #[trigger] s[i] != ':',
    ensures
        without_scheme(s) == s,
{
    reveal_strlit("https://");
    reveal_strlit("http://");
    reveal_strlit("ssh://");
    if starts_with(s, "https://"@) {
        assert(s.take(8)[5] == "https://"@[5]);
    }
    if starts_with(s, "http://"@) {
        assert(s.take(7)[4] == "http://"@[4]);
    }
    if starts_with(s, "ssh://"@) {
        assert(s.take(6)[3] == "ssh://"@[3]);
    }
}

pub proof fn lemma_scheme(x: Seq<char>)
    ensures
        without_scheme("https://"@ + x) == x,
        without_scheme("http://"@ + x) == x,
        without_scheme("ssh://"@ + x) == x,
        without_scheme("git@"@ + x) == "git@"@ + x,
{
    reveal_strlit("https://");
    reveal_strlit("http://");
    reveal_strlit("ssh://");
    reveal_strlit("git@");
    let a = "https://"@ + x;
    let b = "http://"@ + x;
    let c = "ssh://"@ + x;
    let g = "git@"@ + x;
    assert(a.take(8) =~= "https://"@);
    assert(a.skip(8) =~= x);
    if starts_with(b, "https://"@) {
        assert(b.take(8)[4] == "https://"@[4]);
        assert(b[4] == ':');
    }
    assert(b.take(7) =~= "http://"@);
    assert(b.skip(7) =~= x);
    if starts_with(c, "https://"@) {
        assert(c.take(8)[0] == "https://"@[0]);
        assert(c[0] == 's');
    }
    if starts_with(c, "http://"@) {
        assert(c.take(7)[0] == "http://"@[0]);
        assert(c[0] == 's');
    }
    assert(c.take(6) =~= "ssh://"@);
    assert(c.skip(6) =~= x);
    assert(g[0] == 'g');
    if starts_with(g, "https://"@) {
        assert(g.take(8)[0] == "https://"@[0]);
    }
    if starts_with(g, "http://"@) {
        assert(g.take(7)[0] == "http://"@[0]);
    }
    if starts_with(g, "ssh://"@) {
        assert(g.take(6)[0] == "ssh://"@[0]);
    }
}

pub proof fn lemma_no_user(s: Seq<char>)
    requires
        forall|i: int| 0 <= i < s.len() ==> #[trigger] s[i] != '@',
    ensures
        without_user(s) == Some(s),
{
    lemma_find_char(s, '@', s.len() as int);
}

proof fn lemma_git_user(x: Seq<char>)
    ensures
        find_char("git@"@ + x, '@') == Some(3int),
        ("git@"@ + x).skip(4) == x,
{
    reveal_strlit("git@");
    let g = "git@"@ + x;
    assert(g[3] == '@');
    lemma_find_char(g, '@', 3);
    assert(g.skip(4) =~= x);
}


// The host of a path, the slash behind it, and the ends of the path.
pub proof fn lemma_path(p: Seq<char>)
    requires
        split(p, '/').len() >= 2,
        forall|i: int| 0 <= i < split(p, '/').len() ==> (#[trigger] split(p, '/')[i]).len() > 0,
    ensures
        find_char(p, '/') == Some(split(p, '/')[0].len() as int),
        p.take(split(p, '/')[0].len() as int) == split(p, '/')[0],
        split(p, '/') == seq![split(p, '/')[0]] + split(p.skip(1 + split(p, '/')[0].len() as int), '/'),
        split(p, '/')[0].len() + 1 < p.len(),
        p[0] != '/',
        p.last() != '/',
{
    lemma_split_step(p);
    let h = split(p, '/')[0];
    let i = find_char(p, '/').unwrap();
    assert(h =~= p.take(i));
    assert(h[0] == p[0]);
    if p.last() == '/' {
        assert(p.drop_last() + seq!['/'] =~= p);
        lemma_split_ended(p.drop_last());
        assert(split(p, '/')[split(p, '/').len() - 1].len() == 0);
    }
    assert(p[i] == '/');
}

/// The key of a path, with nothing, a slash or `.git` behind it.
proof fn lemma_key_of_rest(p: Seq<char>, x: Seq<char>)
    requires
        names_repo(p),
        repo_suffix(x),
    ensures
        key_of_rest(p + x) == Some(p),
{
    let h = split(p, '/')[0];
    lemma_path(p);
    lemma_tail(p);
    assert(p + Seq::<char>::empty() =~= p);
    assert forall|k: int| 0 <= k < h.len() implies #[trigger] h[k] != ':' by {
        assert(h[k] == p[k]);
    }
    lemma_find_char(h, ':', h.len() as int);
    reveal_strlit("/");
    assert("/"@ =~= seq!['/']);
    assert(h + "/"@ + p.skip(1 + h.len() as int) =~= p) by {
        lemma_split_step(p);
    }
    assert(with_host(p) == Some(p));
    lemma_all_stay(split(p, '/'));
    lemma_join_split(p);
}

// The pieces in the middle stay what they are behind a suffix.
proof fn lemma_suffix_pieces(p: Seq<char>, x: Seq<char>)
    requires
        no_tree(p),
        suffix_of(p, x),
    ensures
        forall|k: int|
            0 < k < split(p + x, '/').len() - 1 ==> #[trigger] split(p + x, '/')[k] != "tree"@,
        split(p + x, '/').len() >= split(p, '/').len(),
{
    lemma_split_step(p);
    if x == seq!['/'] {
        lemma_split_ended(p);
        assert forall|k: int| 0 < k < split(p + x, '/').len() - 1 implies #[trigger] split(p + x, '/')[k]
            != "tree"@ by {
            assert(split(p + x, '/')[k] == split(p, '/')[k]);
        }
    } else {
        lemma_split_append(p, x);
        assert forall|k: int| 0 < k < split(p + x, '/').len() - 1 implies #[trigger] split(p + x, '/')[k]
            != "tree"@ by {
            assert(split(p + x, '/')[k] == split(p, '/')[k]);
        }
    }
}

// The way from a path with a suffix to its key, whatever stands in front of it that goes away.
proof fn lemma_plain_rest(p: Seq<char>, x: Seq<char>)
    requires
        names_repo(p),
        suffix_of(p, x),
    ensures
        without_tree(p + x) == p + x,
        without_user(p + x) == Some(p + x),
        without_scheme(p + x) == p + x,
        key_of_rest(p + x) == Some(p),
{
    let s = p + x;
    lemma_key_of_rest(p, x);
    assert forall|i: int| 0 <= i < s.len() implies #[trigger] s[i] != '@' && s[i] != ':' by {
        if i < p.len() {
            assert(s[i] == p[i]);
        }
    }
    lemma_no_user(s);
    lemma_no_scheme(s);
    lemma_suffix_pieces(p, x);
    lemma_no_tree(s);
}

proof fn lemma_ends_unspaced(front: Seq<char>, p: Seq<char>, x: Seq<char>)
    requires
        names_repo(p),
        repo_suffix(x),
        front.len() > 0 ==> !is_space(front[0]),
    ensures
        trimmed(front + (p + x)) == front + (p + x),
        (front + (p + x)).len() > 0,
{
    let s = front + (p + x);
    lemma_path(p);
    assert(!is_space(p[0]) && !is_space(p[p.len() - 1]));
    assert(s[0] == if front.len() > 0 {
        front[0]
    } else {
        p[0]
    });
    assert(s.last() == if x.len() > 0 {
        x.last()
    } else {
        p.last()
    });
    lemma_trimmed(s);
}

// Texts that are no local paths, by what they start with.
pub proof fn lemma_not_local(s: Seq<char>)
    requires
        s.len() > 3,
        'a' <= s[0] <= 'z',
        s[0] != 'f',
        s[1] != ':',
    ensures
        !local_path(s),
{
    reveal_strlit("/");
    reveal_strlit("file://");
    reveal_strlit(".");
    reveal_strlit("..");
    reveal_strlit("~");
    if let Some(i) = find_char(s, '/') {
        lemma_find_char_meaning(s, '/');
        let first = s.take(i);
        assert(i > 0);
        assert(first[0] == s[0]);
    }
    if starts_with(s, "/"@) {
        assert(s.take(1)[0] == "/"@[0]);
    }
    if starts_with(s, "file://"@) {
        assert(s.take(7)[0] == "file://"@[0]);
    }
}

/// A repository spelled by URL or by its path, with or without a trailing slash or `.git`, has
/// the path in lower case as its key; so the key in lower case is its own key. Only the bare path
/// of a host named `.` or `..` reads as a path on this machine.
pub proof fn law_url_spellings(path: Seq<char>, x: Seq<char>)
    requires
        names_repo(path),
        suffix_of(path, x),
    ensures
        named_path("https://"@ + (path + x)) == Some(path),
        named_path("http://"@ + (path + x)) == Some(path),
        repo_key("https://"@ + (path + x)) == Some(lowercase(path)),
        repo_key("http://"@ + (path + x)) == Some(lowercase(path)),
        !local_start(split(path, '/')[0]) ==> named_path(path + x) == Some(path) && repo_key(path + x)
            == Some(lowercase(path)),
{
    lemma_plain_rest(path, x);
    if !local_start(split(path, '/')[0]) {
        lemma_plain_start(path, x);
    }
    lemma_url_start(path, x);
}

// A path stands at the start of its bare spelling.
proof fn lemma_plain_start(path: Seq<char>, x: Seq<char>)
    requires
        names_repo(path),
        repo_suffix(x),
        !local_start(split(path, '/')[0]),
    ensures
        trimmed(path + x) == path + x,
        (path + x).len() > 0,
        !local_path(path + x),
{
    let s = path + x;
    lemma_ends_unspaced(Seq::empty(), path, x);
    assert(Seq::<char>::empty() + s =~= s);
    lemma_path(path);
    assert forall|i: int| 0 <= i < s.len() implies #[trigger] s[i] != '@' && s[i] != ':' && !is_space(
        s[i],
    ) by {
        if i < path.len() {
            assert(s[i] == path[i]);
        }
    }
    assert(s[0] == path[0]);
    let n = split(path, '/')[0].len() as int;
    lemma_find_char_meaning(path, '/');
    assert forall|k: int| 0 <= k < n implies #[trigger] s[k] != '/' by {
        assert(s[k] == path[k]);
    }
    assert(s[n] == path[n]);
    lemma_find_char(s, '/', n);
    assert(s.take(n) =~= path.take(n));
    lemma_short_not_local(s);
}

proof fn lemma_url_start(path: Seq<char>, x: Seq<char>)
    requires
        names_repo(path),
        repo_suffix(x),
    ensures
        trimmed("https://"@ + (path + x)) == "https://"@ + (path + x),
        ("https://"@ + (path + x)).len() > 0,
        !local_path("https://"@ + (path + x)),
        without_scheme("https://"@ + (path + x)) == path + x,
        trimmed("http://"@ + (path + x)) == "http://"@ + (path + x),
        ("http://"@ + (path + x)).len() > 0,
        !local_path("http://"@ + (path + x)),
        without_scheme("http://"@ + (path + x)) == path + x,
{
    let s = path + x;
    reveal_strlit("https://");
    reveal_strlit("http://");
    lemma_scheme(s);
    lemma_ends_unspaced("https://"@, path, x);
    lemma_ends_unspaced("http://"@, path, x);
    lemma_not_local("https://"@ + s);
    lemma_not_local("http://"@ + s);
}

/// A tree URL has the key of its repository, whatever branch and folder it names.
pub proof fn law_tree_spelling(path: Seq<char>, branch: Seq<char>)
    requires
        names_repo(path),
        !ends_tree(path),
        branch.len() > 0,
        !is_space(branch.last()),
    ensures
        named_path("https://"@ + (path + "/tree/"@ + branch)) == Some(path),
        repo_key("https://"@ + (path + "/tree/"@ + branch)) == Some(lowercase(path)),
{
    let s = path + "/tree/"@ + branch;
    let whole = "https://"@ + s;
    assert(without_tree(s) == path) by {
        lemma_tree_behind(path, branch);
    }
    assert(without_user(path) == Some(path) && key_of_rest(path) == Some(path)) by {
        lemma_plain_rest(path, Seq::empty());
        assert(path + Seq::<char>::empty() =~= path);
    }
    assert(without_scheme(whole) == s) by {
        lemma_scheme(s);
    }
    assert(trimmed(whole) == whole && !local_path(whole) && whole.len() > 0) by {
        reveal_strlit("https://");
        assert(whole[0] == 'h' && whole[1] == 't');
        assert(whole.last() == branch.last());
        lemma_trimmed(whole);
        lemma_not_local(whole);
    }
}

/// A repository spelled for ssh, as a URL or in scp style, has the key of its path.
pub proof fn law_ssh_spellings(host: Seq<char>, rest: Seq<char>, x: Seq<char>)
    requires
        no_slash(host),
        names_repo(host + seq!['/'] + rest),
        suffix_of(host + seq!['/'] + rest, x),
    ensures
        ({
            let path = host + seq!['/'] + rest;
            let by_url = "ssh://"@ + ("git@"@ + (path + x));
            let by_scp = "git@"@ + (host + seq![':'] + (rest + x));
            &&& named_path(by_url) == Some(path)
            &&& named_path(by_scp) == Some(path)
            &&& repo_key(by_url) == Some(lowercase(path))
            &&& repo_key(by_scp) == Some(lowercase(path))
        }),
{
    lemma_ssh_url(host, rest, x);
    lemma_scp(host, rest, x);
}

// The user part of a URL.
proof fn lemma_url_user(host: Seq<char>, rest: Seq<char>, x: Seq<char>)
    requires
        no_slash(host),
        names_repo(host + seq!['/'] + rest),
    ensures
        without_user("git@"@ + (host + seq!['/'] + rest + x)) == Some(host + seq!['/'] + rest + x),
{
    let s = host + seq!['/'] + rest + x;
    lemma_git_user(s);
    lemma_split_first(host, rest + x);
    assert(s =~= host + seq!['/'] + (rest + x));
    lemma_host_chars(host, rest);
    lemma_find_char(host, ':', host.len() as int);
    assert(s.take(host.len() as int) =~= host);
}

proof fn lemma_url_tree(p: Seq<char>, x: Seq<char>)
    requires
        no_tree(p),
        suffix_of(p, x),
    ensures
        without_tree("git@"@ + (p + x)) == "git@"@ + (p + x),
{
    reveal_strlit("git@");
    lemma_suffix_pieces(p, x);
    lemma_split_step(p + x);
    lemma_split_prepend("git@"@, p + x);
    lemma_no_tree("git@"@ + (p + x));
}

proof fn lemma_ssh_url(host: Seq<char>, rest: Seq<char>, x: Seq<char>)
    requires
        no_slash(host),
        names_repo(host + seq!['/'] + rest),
        suffix_of(host + seq!['/'] + rest, x),
    ensures
        named_path("ssh://"@ + ("git@"@ + (host + seq!['/'] + rest + x))) == Some(
            host + seq!['/'] + rest,
        ),
{
    let p = host + seq!['/'] + rest;
    let s = p + x;
    let u = "git@"@ + s;
    let whole = "ssh://"@ + u;
    assert(key_of_rest(s) == Some(p)) by {
        lemma_plain_rest(p, x);
    }
    assert(trimmed(whole) == whole && whole.len() > 0) by {
        reveal_strlit("ssh://");
        lemma_ends_unspaced("ssh://"@ + "git@"@, p, x);
        assert("ssh://"@ + "git@"@ + s =~= whole);
        assert(("ssh://"@ + "git@"@)[0] == 's');
    }
    assert(!local_path(whole)) by {
        reveal_strlit("ssh://");
        lemma_not_local(whole);
    }
    assert(without_scheme(whole) == u) by {
        lemma_scheme(u);
    }
    lemma_url_tree(p, x);
    lemma_url_user(host, rest, x);
}

proof fn lemma_host_chars(host: Seq<char>, rest: Seq<char>)
    requires
        no_slash(host),
        names_repo(host + seq!['/'] + rest),
    ensures
        host.len() > 0,
        forall|k: int| 0 <= k < host.len() ==> #[trigger] host[k] != ':',
        split(rest, '/').len() >= 2,
        rest.len() > 0,
{
    let p = host + seq!['/'] + rest;
    lemma_split_first(host, rest);
    assert(split(p, '/')[0] == host);
    assert forall|k: int| 0 <= k < host.len() implies #[trigger] host[k] != ':' by {
        assert(p[k] == host[k]);
    }
    lemma_split_step(rest);
}

proof fn lemma_scp_user(host: Seq<char>, rest: Seq<char>, x: Seq<char>)
    requires
        no_slash(host),
        names_repo(host + seq!['/'] + rest),
    ensures
        without_user("git@"@ + (host + seq![':'] + (rest + x))) == Some(host + seq!['/'] + rest + x),
{
    let t = rest + x;
    let c = host + seq![':'] + t;
    lemma_git_user(c);
    lemma_host_chars(host, rest);
    lemma_split_step(rest);
    let j = find_char(rest, '/').unwrap();
    let at = host.len() + 1 + j;
    lemma_find_char_meaning(rest, '/');
    assert forall|k: int| 0 <= k < at implies #[trigger] c[k] != '/' by {
        if k < host.len() {
            assert(c[k] == host[k]);
        } else if k > host.len() {
            assert(c[k] == rest[k - host.len() - 1]);
        }
    }
    assert(c[at] == rest[j]);
    lemma_find_char(c, '/', at);
    let head = c.take(at);
    assert forall|k: int| 0 <= k < host.len() implies #[trigger] head[k] != ':' by {
        assert(head[k] == host[k]);
    }
    assert(head[host.len() as int] == ':');
    lemma_find_char(head, ':', host.len() as int);
    reveal_strlit("/");
    assert("/"@ =~= seq!['/']);
    assert(c.take(host.len() as int) + "/"@ + c.skip(1 + host.len() as int) =~= host + seq!['/'] + rest
        + x);
}

proof fn lemma_scp_tree(host: Seq<char>, rest: Seq<char>, x: Seq<char>)
    requires
        no_slash(host),
        names_repo(host + seq!['/'] + rest),
        suffix_of(host + seq!['/'] + rest, x),
    ensures
        without_tree("git@"@ + (host + seq![':'] + (rest + x))) == "git@"@ + (host + seq![':'] + (rest
            + x)),
{
    reveal_strlit("git@");
    let g = "git@"@ + (host + seq![':'] + (rest + x));
    let a = "git@"@ + host + seq![':'];
    let p = host + seq!['/'] + rest;
    assert(g =~= a + (rest + x));
    assert forall|i: int| 0 <= i < a.len() implies #[trigger] a[i] != '/' by {
        if 4 <= i < 4 + host.len() {
            assert(a[i] == host[i - 4]);
        }
    }
    lemma_split_first(host, rest);
    assert forall|k: int| 0 < k < split(rest, '/').len() - 1 implies #[trigger] split(rest, '/')[k]
        != "tree"@ by {
        assert(split(p, '/')[k + 1] == split(rest, '/')[k]);
    }
    lemma_split_step(rest);
    assert(split(p, '/').last() == split(rest, '/').last());
    lemma_suffix_pieces(rest, x);
    lemma_split_step(rest + x);
    lemma_split_prepend(a, rest + x);
    lemma_no_tree(g);
}

proof fn lemma_scp(host: Seq<char>, rest: Seq<char>, x: Seq<char>)
    requires
        no_slash(host),
        names_repo(host + seq!['/'] + rest),
        suffix_of(host + seq!['/'] + rest, x),
    ensures
        named_path("git@"@ + (host + seq![':'] + (rest + x))) == Some(host + seq!['/'] + rest),
{
    let c = host + seq![':'] + (rest + x);
    let g = "git@"@ + c;
    let p = host + seq!['/'] + rest;
    reveal_strlit("git@");
    assert(without_scheme(g) == g) by {
        lemma_scheme(c);
    }
    lemma_scp_user(host, rest, x);
    lemma_scp_tree(host, rest, x);
    lemma_plain_rest(p, x);
    lemma_host_chars(host, rest);
    assert(g[0] == 'g' && g[1] == 'i');
    assert(!is_space(p[p.len() - 1]));
    assert(g.last() == if x.len() > 0 {
        x.last()
    } else {
        p.last()
    });
    lemma_trimmed(g);
    lemma_not_local(g);
}

// The way of the shorthand: GitHub stands in front of it.
proof fn lemma_shorthand(s: Seq<char>)
    requires
        plain_text(s),
        no_tree(s),
        split(s, '/').len() >= 2,
        forall|i: int| 0 <= i < split(s, '/').len() ==> (#[trigger] split(s, '/')[i]).len() > 0,
        !host_like(split(s, '/')[0]),
        !local_start(split(s, '/')[0]),
        !ends_git(s),
    ensures
        named_path(s) == Some("github.com/"@ + s),
        split("github.com/"@ + s, '/') == seq!["github.com"@] + split(s, '/'),
{
    let h = "github.com"@;
    let whole = "github.com/"@ + s;
    let o = split(s, '/')[0];
    reveal_strlit("github.com");
    reveal_strlit("github.com/");
    assert("github.com/"@ =~= h + seq!['/']);
    lemma_path(s);
    assert(s.len() > 2 && !is_space(s[0]) && !is_space(s[s.len() - 1]));
    lemma_trimmed(s);
    lemma_short_not_local(s);
    lemma_no_scheme(s);
    lemma_no_user(s);
    lemma_no_tree(s);
    lemma_tail(s);
    assert forall|k: int| 0 <= k < o.len() implies #[trigger] o[k] != ':' by {
        assert(o[k] == s[k]);
    }
    lemma_find_char(o, ':', o.len() as int);
    assert(without_port(o) == o);
    assert(with_host(s) == Some(whole));
    lemma_split_first(h, s);
    assert(whole =~= h + seq!['/'] + s);
    let all = split(whole, '/');
    assert forall|i: int| 0 <= i < all.len() implies (#[trigger] all[i]).len() > 0 by {
        if i > 0 {
            assert(all[i] == split(s, '/')[i - 1]);
        }
    }
    lemma_all_stay(all);
    lemma_join_split(whole);
}

proof fn lemma_short_not_local(s: Seq<char>)
    requires
        plain_text(s),
        s.len() > 0,
        s[0] != '/',
        find_char(s, '/') matches Some(i) && !local_start(s.take(i)),
    ensures
        !local_path(s),
{
    reveal_strlit("/");
    reveal_strlit("file://");
    if starts_with(s, "/"@) {
        assert(s.take(1)[0] == "/"@[0]);
    }
    if starts_with(s, "file://"@) {
        assert(s.take(7)[4] == "file://"@[4]);
        assert(s[4] == ':');
    }
}

/// A name that may be the owner or the repository of the shorthand.
pub open spec fn plain_name(s: Seq<char>) -> bool {
    plain_text(s) && no_slash(s) && s.len() > 0
}

/// The market shorthand `owner/repo` has the key of the repository on GitHub.
pub proof fn law_shorthand(owner: Seq<char>, repo: Seq<char>)
    requires
        plain_name(owner),
        plain_name(repo),
        !host_like(owner),
        !local_start(owner),
        !ends_git(repo),
    ensures
        named_path(owner + seq!['/'] + repo) == Some("github.com/"@ + (owner + seq!['/'] + repo)),
        repo_key(owner + seq!['/'] + repo) == Some(
            lowercase("github.com/"@ + (owner + seq!['/'] + repo)),
        ),
{
    let s = owner + seq!['/'] + repo;
    lemma_split_first(owner, repo);
    lemma_split_whole(repo);
    assert(split(s, '/') =~= seq![owner, repo]);
    lemma_plain_join(owner, repo);
    lemma_end_of_join(owner, repo);
    lemma_shorthand(s);
}

proof fn lemma_plain_join(a: Seq<char>, b: Seq<char>)
    requires
        plain_text(a),
        plain_text(b),
    ensures
        plain_text(a + seq!['/'] + b),
{
    let s = a + seq!['/'] + b;
    assert forall|i: int| 0 <= i < s.len() implies #[trigger] s[i] != '@' && s[i] != ':' && !is_space(
        s[i],
    ) by {
        if i < a.len() {
            assert(s[i] == a[i]);
        } else if i > a.len() {
            assert(s[i] == b[i - a.len() - 1]);
        }
    }
}

// A text ends with `.git` only where its last piece does.
proof fn lemma_end_of_join(a: Seq<char>, b: Seq<char>)
    requires
        b.len() > 0,
    ensures
        ends_git(a + seq!['/'] + b) == ends_git(b),
{
    let s = a + seq!['/'] + b;
    let n = s.len() as int;
    assert(s[a.len() as int] == '/');
    if b.len() >= 4 {
        assert(b[b.len() - 4] == s[n - 4] && b[b.len() - 3] == s[n - 3] && b[b.len() - 2] == s[n - 2]
            && b[b.len() - 1] == s[n - 1]);
    }
}

/// A market reference `owner/repo/<skill-id>` has, by its first three segments, the key of the
/// repository on GitHub.
pub proof fn law_market_reference(owner: Seq<char>, repo: Seq<char>, id: Seq<char>)
    requires
        plain_name(owner),
        plain_name(repo),
        plain_name(id),
        repo != "tree"@,
        !host_like(owner),
        !local_start(owner),
        !ends_git(id),
    ensures
        ({
            let path = "github.com/"@ + (owner + seq!['/'] + repo);
            let reference = owner + seq!['/'] + repo + seq!['/'] + id;
            &&& named_path(reference) == Some(path + seq!['/'] + id)
            &&& first_three(ascii_lowered(path + seq!['/'] + id)) == ascii_lowered(path)
        }),
{
    let both = owner + seq!['/'] + repo;
    let s = both + seq!['/'] + id;
    let path = "github.com/"@ + both;
    let whole = "github.com/"@ + s;
    reveal_strlit("github.com");
    reveal_strlit("github.com/");
    reveal_strlit("/");
    assert("/"@ =~= seq!['/']);
    assert(s =~= owner + seq!['/'] + (repo + seq!['/'] + id));
    lemma_split_first(owner, repo + seq!['/'] + id);
    lemma_split_first(repo, id);
    lemma_split_whole(id);
    assert(split(s, '/') =~= seq![owner, repo, id]);
    lemma_plain_join(owner, repo);
    lemma_plain_join(both, id);
    lemma_end_of_join(both, id);
    lemma_shorthand(s);
    assert(whole =~= path + seq!['/'] + id);
    assert(split(whole, '/') =~= seq!["github.com"@, owner, repo, id]);
    lemma_lowered_pieces(whole);
    assert(first_three(ascii_lowered(whole)) =~= ascii_lowered(path));
}

// What is left of a reference at its end, and what of it the path keeps.
proof fn lemma_tail_end(s: Seq<char>)
    ensures
        !ends_git(without_tail(s)),
        without_tail(s).len() > 0 ==> without_tail(s).last() != '/',
    decreases s.len(),
{
    if ends_git(s) {
        lemma_tail_end(s.take(s.len() - 4));
    } else if s.len() > 0 && s.last() == '/' {
        lemma_tail_end(s.drop_last());
    }
}

proof fn lemma_with_host(t: Seq<char>)
    requires
        t.len() > 0,
        t.last() != '/',
        with_host(t) is Some,
    ensures
        ({
            let path = with_host(t)->Some_0;
            &&& split(path, '/').last() == split(t, '/').last()
            &&& split(path, '/')[0].len() > 0
            &&& path.len() > 0
            &&& path.last() == t.last()
        }),
{
    let path = with_host(t)->Some_0;
    lemma_split_step(t);
    reveal_strlit("/");
    assert("/"@ =~= seq!['/']);
    reveal_strlit("github.com/");
    reveal_strlit("github.com");
    let h = "github.com"@;
    assert("github.com/"@ =~= h + seq!['/']);
    if path == "github.com/"@ + t {
        lemma_split_first(h, t);
        assert(path =~= h + seq!['/'] + t);
        assert(split(path, '/')[0] == h);
    } else {
        let i = find_char(t, '/').unwrap();
        let first = t.take(i);
        let rest = t.skip(i + 1);
        assert(t[i] == '/');
        assert(i + 1 < t.len());
        lemma_split_step(rest);
        let host = without_port(first);
        lemma_find_char_meaning(first, ':');
        assert forall|k: int| 0 <= k < host.len() implies #[trigger] host[k] != '/' by {
            assert(host[k] == t[k]);
        }
        lemma_split_first(host, rest);
        assert(path == host + seq!['/'] + rest);
        assert(split(path, '/')[0] == host);
        assert(first.len() > 0) by {
            reveal_strlit("localhost");
        }
    }
}

// The shape of a path that a reference names.
proof fn lemma_named_path(reference: Seq<char>)
    requires
        named_path(reference) is Some,
    ensures
        key_segments(named_path(reference)->Some_0),
        !ends_git(named_path(reference)->Some_0),
{
    let p = named_path(reference)->Some_0;
    let r = without_user(without_tree(without_scheme(trimmed(reference))))->Some_0;
    let t = without_tail(r);
    lemma_tail_end(r);
    lemma_with_host(t);
    let path = with_host(t)->Some_0;
    let all = split(path, '/');
    let segments = non_empty_pieces(all);
    lemma_segments(path);
    assert(p == join(segments, "/"@));
    lemma_first_stays(all);
    // the end of the path is that of the reference
    let last = all.last();
    let f = lemma_last_piece(path);
    assert(last.len() > 0) by {
        if last.len() == 0 {
            assert(f =~= path);
        }
    }
    assert(segments.last() == last);
    let g = lemma_last_piece(p);
    assert(g.len() > 0);
    assert(p =~= g.drop_last() + seq!['/'] + last);
    lemma_end_of_join(g.drop_last(), last);
    let k = lemma_last_piece(t);
    if ends_git(last) {
        let n = t.len() as int;
        let m = last.len() as int;
        assert(t[n - 4] == last[m - 4] && t[n - 3] == last[m - 3] && t[n - 2] == last[m - 2] && t[n
            - 1] == last[m - 1]);
        assert(ends_git(t));
    }
}

// Letters in lower case stay what they are otherwise.
proof fn lemma_lowered_char(c: char)
    ensures
        ascii_lower(c) == '@' <==> c == '@',
        ascii_lower(c) == ':' <==> c == ':',
        ascii_lower(c) == '/' <==> c == '/',
        ascii_lower(c) == '.' <==> c == '.',
        ascii_lower(c) == '~' <==> c == '~',
        is_space(ascii_lower(c)) == is_space(c),
        ascii_lower(ascii_lower(c)) == ascii_lower(c),
        '\0' <= c <= '\u{7f}' <==> '\0' <= ascii_lower(c) <= '\u{7f}',
{
}

proof fn lemma_lowered_text(s: Seq<char>)
    ensures
        plain_text(s) == plain_text(ascii_lowered(s)),
        ends_git(s) == ends_git(ascii_lowered(s)),
        s.contains('.') == ascii_lowered(s).contains('.'),
        local_start(s) == local_start(ascii_lowered(s)),
        is_ascii_chars(s) == is_ascii_chars(ascii_lowered(s)),
        s == "tree"@ ==> ascii_lowered(s) == "tree"@,
{
    let t = ascii_lowered(s);
    assert forall|i: int| 0 <= i < s.len() implies {
        &&& (#[trigger] t[i] == '@' <==> s[i] == '@')
        &&& (t[i] == ':' <==> s[i] == ':')
        &&& (t[i] == '.' <==> s[i] == '.')
        &&& (t[i] == '~' <==> s[i] == '~')
        &&& is_space(t[i]) == is_space(s[i])
        &&& ascii_lower(t[i]) == ascii_lower(s[i])
        &&& ('\0' <= s[i] <= '\u{7f}' <==> '\0' <= t[i] <= '\u{7f}')
    } by {
        lemma_lowered_char(s[i]);
    }
    reveal_strlit(".");
    reveal_strlit("..");
    reveal_strlit("~");
    reveal_strlit("tree");
    assert(plain_text(s) == plain_text(t)) by {
        if plain_text(t) {
            assert forall|i: int| 0 <= i < s.len() implies #[trigger] s[i] != '@' && s[i] != ':'
                && !is_space(s[i]) by {
                assert(t[i] != '@');
            }
        }
    }
    assert(s.contains('.') == t.contains('.')) by {
        if s.contains('.') {
            let i = choose|i: int| 0 <= i < s.len() && s[i] == '.';
            assert(t[i] == '.');
        }
        if t.contains('.') {
            let i = choose|i: int| 0 <= i < t.len() && t[i] == '.';
            assert(s[i] == '.');
        }
    }
    assert(ends_git(s) == ends_git(t)) by {
        if s.len() >= 4 {
            let n = s.len() as int;
            assert(t[n - 4] == '.' <==> s[n - 4] == '.');
            assert(ascii_lower(t[n - 3]) == ascii_lower(s[n - 3]));
            assert(ascii_lower(t[n - 2]) == ascii_lower(s[n - 2]));
            assert(ascii_lower(t[n - 1]) == ascii_lower(s[n - 1]));
        }
    }
    assert(local_start(s) == local_start(t)) by {
        if s.len() == 1 {
            assert(t[0] == '.' <==> s[0] == '.');
            assert(t[0] == '~' <==> s[0] == '~');
            assert(s =~= seq![s[0]]);
            assert(t =~= seq![t[0]]);
            assert("."@ =~= seq!['.']);
            assert("~"@ =~= seq!['~']);
            assert(s == "."@ <==> s[0] == '.');
            assert(t == "."@ <==> t[0] == '.');
            assert(s == "~"@ <==> s[0] == '~');
            assert(t == "~"@ <==> t[0] == '~');
        }
        if s.len() == 2 {
            assert(t[0] == '.' <==> s[0] == '.');
            assert(t[1] == '.' <==> s[1] == '.');
            assert(s =~= seq![s[0], s[1]]);
            assert(t =~= seq![t[0], t[1]]);
            assert(".."@ =~= seq!['.', '.']);
            assert(s == ".."@ <==> (s[0] == '.' && s[1] == '.'));
            assert(t == ".."@ <==> (t[0] == '.' && t[1] == '.'));
        }
    }
    assert(is_ascii_chars(s) == is_ascii_chars(t)) by {
        if is_ascii_chars(t) {
            assert forall|i: int| 0 <= i < s.len() implies '\0' <= #[trigger] s[i]
                <= '\u{7f}' by {
                assert('\0' <= t[i] <= '\u{7f}');
            }
        }
        if is_ascii_chars(s) {
            assert forall|i: int| 0 <= i < t.len() implies '\0' <= #[trigger] t[i]
                <= '\u{7f}' by {
                assert('\0' <= s[i] <= '\u{7f}');
            }
        }
    }
    if s == "tree"@ {
        assert(t =~= "tree"@);
    }
}

// A path names a repository in any case of its letters.
proof fn lemma_any_case(path: Seq<char>)
    requires
        split(ascii_lowered(path), '/')[0].contains('.'),
        no_tree(ascii_lowered(path)),
    ensures
        names_repo(path) == names_repo(ascii_lowered(path)),
        no_tree(path),
        plain_text(path) == plain_text(ascii_lowered(path)),
        split(path, '/')[0].contains('.'),
        local_start(split(path, '/')[0]) == local_start(split(ascii_lowered(path), '/')[0]),
        ends_tree(path) ==> ends_tree(ascii_lowered(path)),
{
    let k = ascii_lowered(path);
    let a = split(path, '/');
    let b = split(k, '/');
    lemma_lowered_pieces(path);
    lemma_lowered_text(path);
    lemma_split_step(path);
    lemma_lowered_text(a[0]);
    assert(b[0] == ascii_lowered(a[0]));
    assert forall|i: int| 0 < i < a.len() - 1 implies #[trigger] a[i] != "tree"@ by {
        lemma_lowered_text(a[i]);
        assert(b[i] == ascii_lowered(a[i]));
    }
    lemma_lowered_text(a.last());
    assert(b.last() == ascii_lowered(a.last()));
    if names_repo(k) {
        assert forall|i: int| 0 <= i < a.len() implies (#[trigger] a[i]).len() > 0 by {
            assert(b[i] == ascii_lowered(a[i]));
        }
    }
    if names_repo(path) {
        assert forall|i: int| 0 <= i < b.len() implies (#[trigger] b[i]).len() > 0 by {
            assert(b[i] == ascii_lowered(a[i]));
        }
    }
}

/// A key has at least three segments, none of them empty, and does not end with `.git`.
pub proof fn law_key_shape(reference: Seq<char>)
    requires
        named_path(reference) is Some,
    ensures
        ascii_repo_key(reference) matches Some(key) && key_segments(key) && !ends_git(key),
{
    let path = named_path(reference)->Some_0;
    lemma_named_path(reference);
    lemma_lowered_text(path);
    lemma_lowered_pieces(path);
    let a = split(path, '/');
    let b = split(ascii_lowered(path), '/');
    assert forall|i: int| 0 <= i < b.len() implies (#[trigger] b[i]).len() > 0 by {
        assert(b[i] == ascii_lowered(a[i]));
        assert(a[i].len() > 0);
    }
}

/// Every key of ASCII characters that has a dot in its host, and no mark and no inner `tree` in it,
/// is the key of all spellings of its path, in any case of its letters: bare, by URL, for ssh, in
/// scp style and as a tree URL, with a slash or `.git` behind it or not; bare unless its host is
/// `.` or `..`, and with a slash or a tree behind it unless it ends with `tree`.
pub proof fn law_key_has_every_spelling(
    key: Seq<char>,
    host: Seq<char>,
    rest: Seq<char>,
    x: Seq<char>,
    branch: Seq<char>,
)
    requires
        key_segments(key),
        !ends_git(key),
        is_ascii_chars(key),
        plain_text(key),
        no_tree(key),
        split(key, '/')[0].contains('.'),
        ascii_lowered(host + seq!['/'] + rest) == key,
        no_slash(host),
        suffix_of(key, x),
        branch.len() > 0,
        !is_space(branch.last()),
    ensures
        ({
            let path = host + seq!['/'] + rest;
            &&& !local_start(split(key, '/')[0]) ==> has_ascii_key(path + x, key)
            &&& has_ascii_key("https://"@ + (path + x), key)
            &&& has_ascii_key("http://"@ + (path + x), key)
            &&& has_ascii_key("ssh://"@ + ("git@"@ + (path + x)), key)
            &&& has_ascii_key("git@"@ + (host + seq![':'] + (rest + x)), key)
            &&& !ends_tree(key) ==> has_ascii_key("https://"@ + (path + "/tree/"@ + branch), key)
        }),
{
    let path = host + seq!['/'] + rest;
    assert(names_repo(key));
    lemma_any_case(path);
    lemma_lowered_text(path);
    law_url_spellings(path, x);
    if !ends_tree(key) {
        law_tree_spelling(path, branch);
    }
    law_ssh_spellings(host, rest, x);
}

/// Whether a reference names an ASCII path that has this key.
pub open spec fn has_ascii_key(reference: Seq<char>, key: Seq<char>) -> bool {
    names_ascii_path(reference) && ascii_repo_key(reference) == Some(key)
}

} // verus!
