//! Paths as texts: joining them, and telling spellings of the same path.

use vstd::prelude::*;
use crate::text::{ends_with, has_prefix, has_suffix, same, split, split_on, starts_with, texts};

verus! {

/// The path that a name has below a directory. An absolute name stands for itself.
pub open spec fn child_of(dir: Seq<char>, name: Seq<char>) -> Seq<char> {
    if dir.len() == 0 || starts_with(name, "/"@) {
        name
    } else if ends_with(dir, "/"@) {
        dir + name
    } else {
        dir + "/"@ + name
    }
}

pub fn child_path(dir: &str, name: &str) -> (r: String)
    ensures
        r@ == child_of(dir@, name@),
{
    if dir.is_empty() || has_prefix(name, "/") {
        return name.to_owned();
    }
    let mut r = dir.to_owned();
    if !has_suffix(dir, "/") {
        r.append("/");
    }
    r.append(name);
    r
}

/// The pieces of a path that count: not the empty ones, and `.` only at its start.
pub open spec fn counted_pieces(pieces: Seq<Seq<char>>) -> Seq<Seq<char>>
    decreases pieces.len(),
{
    if pieces.len() == 0 {
        pieces
    } else if pieces.last().len() == 0 || (pieces.last() == "."@ && pieces.len() > 1) {
        counted_pieces(pieces.drop_last())
    } else {
        counted_pieces(pieces.drop_last()).push(pieces.last())
    }
}

/// What two spellings of the same path share: whether it is absolute, and the pieces that count.
pub open spec fn path_key(path: Seq<char>) -> (bool, Seq<Seq<char>>) {
    (starts_with(path, "/"@), counted_pieces(split(path, '/')))
}

pub open spec fn seen_path(paths: Seq<Seq<char>>, path: Seq<char>) -> bool {
    exists|i: int| 0 <= i < paths.len() && path_key(#[trigger] paths[i]) == path_key(path)
}

/// Paths in their order, without empty ones and without one that came before in any spelling.
pub open spec fn distinct_paths_of(paths: Seq<Seq<char>>) -> Seq<Seq<char>>
    decreases paths.len(),
{
    if paths.len() == 0 {
        paths
    } else {
        let before = distinct_paths_of(paths.drop_last());
        if paths.last().len() == 0 || seen_path(before, paths.last()) {
            before
        } else {
            before.push(paths.last())
        }
    }
}

fn pieces_of(path: &str) -> (r: Vec<String>)
    ensures
        texts(r@) == counted_pieces(split(path@, '/')),
{
    let pieces = split_on(path, '/');
    let ghost all = texts(pieces@);
    let mut r: Vec<String> = Vec::new();
    let mut i: usize = 0;
    assert(all.take(0) =~= Seq::<Seq<char>>::empty());
    assert(texts(r@) =~= counted_pieces(all.take(0)));
    while i < pieces.len()
        invariant
            i <= pieces.len(),
            all == texts(pieces@),
            texts(r@) == counted_pieces(all.take(i as int)),
        decreases pieces.len() - i,
    {
        let piece = &pieces[i];
        proof {
            assert(all.take(i + 1).drop_last() =~= all.take(i as int));
            assert(all.take(i + 1).last() == piece@);
            assert(all.take(i + 1).len() == i + 1);
        }
        if !(piece.as_str().is_empty() || (same(piece.as_str(), ".") && i > 0)) {
            let ghost before = texts(r@);
            r.push(piece.clone());
            assert(texts(r@) =~= before.push(piece@));
        }
        i = i + 1;
    }
    assert(all.take(i as int) =~= all);
    r
}

pub fn same_path(a: &str, b: &str) -> (r: bool)
    ensures
        r == (path_key(a@) == path_key(b@)),
{
    if has_prefix(a, "/") != has_prefix(b, "/") {
        return false;
    }
    let x = pieces_of(a);
    let y = pieces_of(b);
    if x.len() != y.len() {
        assert(texts(x@).len() != texts(y@).len());
        return false;
    }
    let mut i: usize = 0;
    while i < x.len()
        invariant
            i <= x.len(),
            x.len() == y.len(),
            path_key(a@).1 == texts(x@),
            path_key(b@).1 == texts(y@),
            forall|k: int| 0 <= k < i ==> (#[trigger] x@[k])@ == y@[k]@,
        decreases x.len() - i,
    {
        if !same(x[i].as_str(), y[i].as_str()) {
            assert(texts(x@)[i as int] != texts(y@)[i as int]);
            return false;
        }
        i = i + 1;
    }
    assert(texts(x@) =~= texts(y@));
    true
}

/// Search path parts in their order, each directory once.
pub fn distinct_paths(parts: &Vec<String>) -> (r: Vec<String>)
    ensures
        texts(r@) == distinct_paths_of(texts(parts@)),
{
    let ghost all = texts(parts@);
    let mut r: Vec<String> = Vec::new();
    let mut i: usize = 0;
    assert(texts(r@) =~= all.take(0));
    while i < parts.len()
        invariant
            i <= parts.len(),
            all == texts(parts@),
            texts(r@) == distinct_paths_of(all.take(i as int)),
        decreases parts.len() - i,
    {
        let part = &parts[i];
        proof {
            assert(all.take(i + 1).drop_last() =~= all.take(i as int));
            assert(all.take(i + 1).last() == part@);
        }
        let ghost before = texts(r@);
        let mut seen = false;
        let mut k: usize = 0;
        while k < r.len() && !seen
            invariant
                k <= r.len(),
                before == texts(r@),
                seen ==> seen_path(before, part@),
                !seen ==> forall|j: int|
                    0 <= j < k ==> path_key(#[trigger] before[j]) != path_key(part@),
            decreases r.len() - k,
        {
            assert(before[k as int] == r@[k as int]@);
            if same_path(r[k].as_str(), part.as_str()) {
                assert(path_key(before[k as int]) == path_key(part@));
                seen = true;
            }
            k = k + 1;
        }
        if !part.as_str().is_empty() && !seen {
            r.push(part.clone());
            assert(texts(r@) =~= before.push(part@));
        }
        i = i + 1;
    }
    assert(all.take(i as int) =~= all);
    r
}

/// A search path names no directory twice and no empty one, and keeps all others.
pub proof fn law_distinct_paths(paths: Seq<Seq<char>>, path: Seq<char>)
    ensures
        forall|i: int, j: int|
            0 <= i < j < distinct_paths_of(paths).len() ==> path_key(
                #[trigger] distinct_paths_of(paths)[i],
            ) != path_key(#[trigger] distinct_paths_of(paths)[j]),
        paths.contains(path) && path.len() > 0 ==> seen_path(distinct_paths_of(paths), path),
        forall|i: int|
            0 <= i < distinct_paths_of(paths).len() ==> (#[trigger] distinct_paths_of(
                paths,
            )[i]).len() > 0,
    decreases paths.len(),
{
    if paths.len() > 0 {
        let rest = paths.drop_last();
        let before = distinct_paths_of(rest);
        let after = distinct_paths_of(paths);
        law_distinct_paths(rest, path);
        if paths.contains(path) && path.len() > 0 {
            if path == paths.last() {
                if !seen_path(before, path) {
                    assert(after[before.len() as int] == path);
                }
            } else {
                let i = choose|i: int| 0 <= i < paths.len() && paths[i] == path;
                assert(rest[i] == path);
                assert(rest.contains(path));
                let k = choose|k: int|
                    0 <= k < before.len() && path_key(#[trigger] before[k]) == path_key(path);
                assert(after[k] == before[k]);
            }
        }
        assert forall|i: int, j: int| 0 <= i < j < after.len() implies path_key(
            #[trigger] after[i],
        ) != path_key(#[trigger] after[j]) by {
            assert(after[i] == before[i]);
            if j < before.len() {
                assert(after[j] == before[j]);
            }
        }
    }
}

} // verus!
