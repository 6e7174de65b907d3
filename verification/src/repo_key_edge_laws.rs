//! References that name no repository, and the parts of one that do not count.

use vstd::prelude::*;
use crate::paths::{counted_pieces, path_key};
use crate::pieces::{lemma_all_stay, lemma_join_split, lemma_split_first, no_slash};
use crate::repo_key::{ends_git, key_of_rest, repo_key, with_host, without_tail, without_user};
use crate::repo_key_laws::{
    lemma_no_tree, lemma_no_user, lemma_not_local, lemma_scheme, lemma_trimmed, names_repo,
};
use crate::text::{ascii_lower, find_char, lemma_find_char, lowercase, split, starts_with, trimmed};
use crate::text_laws::without;

verus! {

/// Paths on this machine name no repository: what starts at the root, in this directory or the one
/// above it, at home, on a drive, or as a file URL.
pub proof fn law_local_paths_have_no_key(reference: Seq<char>)
    ensures
        ({
            let s = trimmed(reference);
            ||| s.len() == 0
            ||| s[0] == '/'
            ||| s.len() > 1 && (s[0] == '.' || s[0] == '~') && s[1] == '/'
            ||| s.len() > 2 && s[0] == '.' && s[1] == '.' && s[2] == '/'
            ||| s.len() > 2 && ('a' <= s[0] <= 'z' || 'A' <= s[0] <= 'Z') && s[1] == ':' && (s[2] == '/'
                || s[2] == '\\')
            ||| s.len() >= 7 && s.take(7) == "file://"@
        }) ==> repo_key(reference) is None,
{
    reveal_strlit("/");
    reveal_strlit(".");
    reveal_strlit("..");
    reveal_strlit("~");
    reveal_strlit("file://");
    let s = trimmed(reference);
    if s.len() > 0 && s[0] == '/' {
        assert(s.take(1) =~= "/"@);
    }
    if s.len() > 1 && (s[0] == '.' || s[0] == '~') && s[1] == '/' {
        lemma_find_char(s, '/', 1);
        assert(s.take(1) =~= seq![s[0]]);
        assert("."@ =~= seq!['.']);
        assert("~"@ =~= seq!['~']);
    }
    if s.len() > 2 && s[0] == '.' && s[1] == '.' && s[2] == '/' {
        lemma_find_char(s, '/', 2);
        assert(s.take(2) =~= ".."@);
    }
    if s.len() > 2 && ('a' <= s[0] <= 'z' || 'A' <= s[0] <= 'Z') {
        lemma_letter(s[0]);
    }
}

proof fn lemma_letter(c: char)
    requires
        'a' <= c <= 'z' || 'A' <= c <= 'Z',
    ensures
        'a' <= ascii_lower(c) <= 'z',
{
    crate::text_laws::law_ascii_lower(c);
}

/// The first part of a path is a host where it has a dot or a port in it or is `localhost`; any
/// other is an owner on GitHub.
pub proof fn law_host_by_its_looks(first: Seq<char>, rest: Seq<char>)
    requires
        no_slash(first),
    ensures
        (first.contains('.') || first == "localhost"@) && !first.contains(':') ==> with_host(
            first + seq!['/'] + rest,
        ) == Some(first + seq!['/'] + rest),
        !first.contains('.') && !first.contains(':') && first != "localhost"@ ==> with_host(
            first + seq!['/'] + rest,
        ) == Some("github.com/"@ + (first + seq!['/'] + rest)),
        !first.contains('.') && !first.contains(':') && first != "localhost"@ ==> with_host(first)
            == Some("github.com/"@ + first),
        first.contains('.') || first.contains(':') || first == "localhost"@ ==> with_host(first) is None,
{
    let s = first + seq!['/'] + rest;
    let n = first.len() as int;
    assert forall|i: int| 0 <= i < n implies #[trigger] s[i] != '/' by {
        assert(s[i] == first[i]);
    }
    assert(s[n] == '/');
    lemma_find_char(s, '/', n);
    lemma_find_char(first, '/', n);
    assert(s.take(n) =~= first);
    assert(s.skip(n + 1) =~= rest);
    reveal_strlit("/");
    assert("/"@ =~= seq!['/']);
    if !first.contains(':') {
        assert forall|i: int| 0 <= i < n implies #[trigger] first[i] != ':' by {
            if first[i] == ':' {
                assert(first.contains(':'));
            }
        }
        lemma_find_char(first, ':', n);
    }
}

/// The port of a host does not count.
pub proof fn law_port_is_dropped(host: Seq<char>, port: Seq<char>, rest: Seq<char>)
    requires
        host.len() > 0,
        no_slash(host),
        without(host, ':'),
        no_slash(port),
    ensures
        with_host(host + seq![':'] + port + seq!['/'] + rest) == Some(host + seq!['/'] + rest),
{
    let first = host + seq![':'] + port;
    let s = first + seq!['/'] + rest;
    let n = first.len() as int;
    let h = host.len() as int;
    assert forall|i: int| 0 <= i < n implies #[trigger] s[i] != '/' by {
        if i < h {
            assert(s[i] == host[i]);
        } else if i > h {
            assert(s[i] == port[i - h - 1]);
        }
    }
    assert(s[n] == '/');
    lemma_find_char(s, '/', n);
    assert(s.take(n) =~= first);
    assert(s.skip(n + 1) =~= rest);
    assert(first[h] == ':');
    assert(first.contains(':'));
    assert forall|i: int| 0 <= i < h implies #[trigger] first[i] != ':' by {
        assert(first[i] == host[i]);
    }
    lemma_find_char(first, ':', h);
    assert(first.take(h) =~= host);
    reveal_strlit("/");
    assert("/"@ =~= seq!['/']);
}

/// A URL with a port has the key of the same URL without it.
pub proof fn law_port_spelling(host: Seq<char>, port: Seq<char>, rest: Seq<char>)
    requires
        names_repo(host + seq!['/'] + rest),
        no_slash(host),
        host.len() > 0,
        no_slash(port),
        without(port, '@'),
        rest.len() > 2,
    ensures
        repo_key("https://"@ + (host + seq![':'] + port + seq!['/'] + rest)) == Some(
            lowercase(host + seq!['/'] + rest),
        ),
{
    let p = host + seq!['/'] + rest;
    let first = host + seq![':'] + port;
    let s = first + seq!['/'] + rest;
    let x = "https://"@ + s;
    let n = first.len() as int;
    let h = host.len() as int;
    reveal_strlit("https://");
    assert forall|i: int| 0 <= i < h implies #[trigger] host[i] != ':' && host[i] != '@' by {
        assert(p[i] == host[i]);
    }
    assert(p.last() == rest.last() && x.last() == rest.last() && s.last() == rest.last());
    assert(p[p.len() - 1] == p.last());
    lemma_trimmed(x);
    lemma_not_local(x);
    lemma_scheme(s);
    assert forall|i: int| 0 <= i < s.len() implies #[trigger] s[i] != '@' by {
        if i < h {
            assert(s[i] == host[i]);
        } else if h < i < n {
            assert(s[i] == port[i - h - 1]);
        } else if i > n {
            assert(s[i] == rest[i - n - 1]);
            assert(p[h + 1 + (i - n - 1)] == rest[i - n - 1]);
        }
    }
    lemma_no_user(s);
    assert(no_slash(first)) by {
        assert forall|i: int| 0 <= i < first.len() implies #[trigger] first[i] != '/' by {
            if i < h {
                assert(first[i] == host[i]);
            } else if i > h {
                assert(first[i] == port[i - h - 1]);
            }
        }
    }
    lemma_split_first(host, rest);
    lemma_split_first(first, rest);
    assert forall|k: int| 0 < k < split(s, '/').len() - 1 implies #[trigger] split(s, '/')[k]
        != "tree"@ by {
        assert(split(s, '/')[k] == split(p, '/')[k]);
    }
    lemma_no_tree(s);
    let tail = seq!['/'] + rest;
    assert(s =~= first + tail && p =~= host + tail);
    assert(s[s.len() - 4] == tail[tail.len() - 4] && p[p.len() - 4] == tail[tail.len() - 4]);
    assert(!ends_git(s));
    crate::repo_key_laws::lemma_path(p);
    assert(without_tail(s) == s);
    law_port_is_dropped(host, port, rest);
    lemma_all_stay(split(p, '/'));
    lemma_join_split(p);
    assert(key_of_rest(s) == Some(p));
}

/// What ends a reference does not count, in whatever case and however often: slashes and `.git`.
pub proof fn law_tail_does_not_count(s: Seq<char>, g: char, i: char, t: char)
    requires
        g == 'g' || g == 'G',
        i == 'i' || i == 'I',
        t == 't' || t == 'T',
    ensures
        without_tail(s + seq!['.', g, i, t]) == without_tail(s),
        without_tail(s + seq!['/']) == without_tail(s),
        without_tail(s).len() > 0 ==> without_tail(s).last() != '/',
{
    let a = s + seq!['.', g, i, t];
    assert(a.take(a.len() - 4) =~= s);
    assert(ascii_lower('G') == 'g' && ascii_lower('I') == 'i' && ascii_lower('T') == 't' && ascii_lower(
        'g',
    ) == 'g' && ascii_lower('i') == 'i' && ascii_lower('t') == 't');
    let n = a.len() as int;
    assert(a[n - 4] == '.' && a[n - 3] == g && a[n - 2] == i && a[n - 1] == t);
    let b = s + seq!['/'];
    assert(b.drop_last() =~= s);
    assert(b[b.len() - 1] == '/');
    lemma_slash_lower();
    lemma_tail_ends(s);
}

proof fn lemma_slash_lower()
    ensures
        ascii_lower('/') == '/',
{
}

proof fn lemma_tail_ends(s: Seq<char>)
    ensures
        without_tail(s).len() > 0 ==> without_tail(s).last() != '/',
    decreases s.len(),
{
    if ends_git(s) {
        lemma_tail_ends(s.take(s.len() - 4));
    } else if s.len() > 0 && s.last() == '/' {
        lemma_tail_ends(s.drop_last());
    }
}

/// Who asks does not count: a user before the host is dropped, and the colon of the short form
/// stands for a slash.
pub proof fn law_user_does_not_count(user: Seq<char>, host: Seq<char>, rest: Seq<char>)
    requires
        without(user, '@'),
        no_slash(host),
        without(host, ':'),
        host.len() > 0,
        rest.len() > 0,
    ensures
        without_user(user + seq!['@'] + host + seq![':'] + rest) == Some(host + seq!['/'] + rest),
        without_user(user + seq!['@'] + host + seq!['/'] + rest) == Some(host + seq!['/'] + rest),
{
    let u = user.len() as int;
    let h = host.len() as int;
    let a = user + seq!['@'] + host + seq![':'] + rest;
    let b = user + seq!['@'] + host + seq!['/'] + rest;
    assert forall|i: int| 0 <= i < u implies #[trigger] a[i] != '@' && b[i] != '@' by {
        assert(a[i] == user[i] && b[i] == user[i]);
    }
    assert forall|i: int| 0 <= i < u implies #[trigger] b[i] != '@' by {
        assert(b[i] == user[i]);
    }
    assert(a[u] == '@' && b[u] == '@');
    lemma_find_char(a, '@', u);
    lemma_find_char(b, '@', u);
    let x = host + seq![':'] + rest;
    let y = host + seq!['/'] + rest;
    assert(a.skip(u + 1) =~= x);
    assert(b.skip(u + 1) =~= y);
    crate::text::lemma_find_char_meaning(x, '/');
    assert forall|i: int| 0 <= i < h implies #[trigger] x[i] != ':' && x[i] != '/' by {
        assert(x[i] == host[i]);
    }
    assert(x[h] == ':');
    match find_char(x, '/') {
        Some(slash) => {
            assert(slash > h);
            let front = x.take(slash);
            assert forall|i: int| 0 <= i < h implies #[trigger] front[i] != ':' by {
                assert(front[i] == x[i]);
            }
            lemma_find_char(front, ':', h);
        },
        None => {
            lemma_find_char(x, ':', h);
        },
    }
    assert(x.take(h) =~= host);
    assert(x.skip(h + 1) =~= rest);
    reveal_strlit("/");
    assert("/"@ =~= seq!['/']);
    assert forall|i: int| 0 <= i < h implies #[trigger] y[i] != '/' by {
        assert(y[i] == host[i]);
    }
    assert(y[h] == '/');
    lemma_find_char(y, '/', h);
    assert(y.take(h) =~= host);
    lemma_find_char(host, ':', h);
}

// ── paths ──

/// Empty parts of a path and dots behind the first do not count; all the others do, in order.
pub proof fn law_parts_of_a_path(pieces: Seq<Seq<char>>, i: int)
    ensures
        (forall|k: int|
            0 <= k < pieces.len() ==> (#[trigger] pieces[k]).len() > 0 && pieces[k] != "."@)
            ==> counted_pieces(pieces) == pieces,
        0 < i < pieces.len() && (pieces[i].len() == 0 || pieces[i] == "."@) ==> counted_pieces(pieces)
            == counted_pieces(pieces.remove(i)),
    decreases pieces.len(),
{
    if pieces.len() > 0 {
        let front = pieces.drop_last();
        law_parts_of_a_path(front, i);
        assert(pieces.last() == pieces[pieces.len() - 1]);
        assert(front.push(pieces.last()) =~= pieces);
        if forall|k: int|
            0 <= k < pieces.len() ==> (#[trigger] pieces[k]).len() > 0 && pieces[k] != "."@ {
            assert forall|k: int| 0 <= k < front.len() implies (#[trigger] front[k]).len() > 0
                && front[k] != "."@ by {
                assert(front[k] == pieces[k]);
            }
        }
        if 0 < i < pieces.len() && (pieces[i].len() == 0 || pieces[i] == "."@) {
            let r = pieces.remove(i);
            if i == pieces.len() - 1 {
                assert(r =~= front);
            } else {
                assert(front[i] == pieces[i]);
                assert(r.drop_last() =~= front.remove(i));
                assert(r.last() == pieces.last());
                assert(r.len() > 1);
            }
        }
    } else {
        assert(counted_pieces(pieces) =~= pieces);
    }
}

/// A path from the root and one from here are two paths.
pub proof fn law_root_counts(a: Seq<char>, b: Seq<char>)
    requires
        a.len() > 0 && a[0] == '/',
        b.len() == 0 || b[0] != '/',
    ensures
        path_key(a) != path_key(b),
        path_key(a).0,
        path_key(a).1 == counted_pieces(split(a, '/')),
{
    reveal_strlit("/");
    assert(a.take(1) =~= "/"@);
    if starts_with(b, "/"@) {
        assert(b.take(1)[0] == '/');
    }
}

} // verus!
