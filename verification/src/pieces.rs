//! What a text and its pieces between slashes have to do with each other.

use vstd::prelude::*;
use crate::repo_key::non_empty_pieces;
use crate::text::{ascii_lowered, find_char, join, lemma_find_char, lemma_find_char_meaning, split};

verus! {

pub open spec fn no_slash(s: Seq<char>) -> bool {
    forall|i: int| 0 <= i < s.len() ==> #[trigger] s[i] != '/'
}

/// The pieces of a text that starts with one of them.
pub proof fn lemma_split_first(a: Seq<char>, b: Seq<char>)
    requires
        no_slash(a),
    ensures
        split(a + seq!['/'] + b, '/') == seq![a] + split(b, '/'),
        find_char(a + seq!['/'] + b, '/') == Some(a.len() as int),
{
    let s = a + seq!['/'] + b;
    lemma_find_char(s, '/', a.len() as int);
    assert(s.take(a.len() as int) =~= a);
    assert(s.skip(1 + a.len() as int) =~= b);
}

pub proof fn lemma_split_whole(a: Seq<char>)
    requires
        no_slash(a),
    ensures
        split(a, '/') == seq![a],
        find_char(a, '/') is None,
{
    lemma_find_char(a, '/', a.len() as int);
}

/// A text is its first piece, or that, a slash and the rest.
pub proof fn lemma_split_step(s: Seq<char>)
    ensures
        split(s, '/').len() > 0,
        no_slash(split(s, '/')[0]),
        match find_char(s, '/') {
            Some(i) => {
                &&& 0 <= i < s.len()
                &&& s == s.take(i) + seq!['/'] + s.skip(i + 1)
                &&& split(s, '/') == seq![s.take(i)] + split(s.skip(i + 1), '/')
            },
            None => no_slash(s) && split(s, '/') == seq![s],
        },
{
    lemma_find_char_meaning(s, '/');
    match find_char(s, '/') {
        Some(i) => {
            assert(s =~= s.take(i) + seq!['/'] + s.skip(i + 1));
        },
        None => {
            assert forall|i: int| 0 <= i < s.len() implies #[trigger] s[i] != '/' by {
                assert(s.contains(s[i]));
            }
        },
    }
}

/// No piece holds a slash.
pub proof fn lemma_pieces_plain(s: Seq<char>)
    ensures
        split(s, '/').len() > 0,
        forall|i: int| 0 <= i < split(s, '/').len() ==> no_slash(#[trigger] split(s, '/')[i]),
    decreases s.len(),
{
    lemma_split_step(s);
    match find_char(s, '/') {
        Some(i) => {
            lemma_pieces_plain(s.skip(i + 1));
        },
        None => {},
    }
}

/// What is put behind a text stands behind its last piece.
pub proof fn lemma_split_append(s: Seq<char>, x: Seq<char>)
    requires
        no_slash(x),
    ensures
        split(s + x, '/') == split(s, '/').drop_last().push(split(s, '/').last() + x),
    decreases s.len(),
{
    lemma_split_step(s);
    match find_char(s, '/') {
        Some(i) => {
            let rest = s.skip(i + 1);
            lemma_split_append(rest, x);
            lemma_split_step(rest);
            assert(s + x =~= s.take(i) + seq!['/'] + (rest + x));
            lemma_split_first(s.take(i), rest + x);
            assert(split(s + x, '/') =~= split(s, '/').drop_last().push(split(s, '/').last() + x));
        },
        None => {
            lemma_split_whole(s + x);
            assert(split(s + x, '/') =~= split(s, '/').drop_last().push(split(s, '/').last() + x));
        },
    }
}

/// What is put in front of a text stands in front of its first piece.
pub proof fn lemma_split_prepend(a: Seq<char>, s: Seq<char>)
    requires
        no_slash(a),
    ensures
        split(a + s, '/') == split(s, '/').update(0, a + split(s, '/')[0]),
{
    lemma_split_step(s);
    match find_char(s, '/') {
        Some(i) => {
            let rest = s.skip(i + 1);
            assert(a + s =~= (a + s.take(i)) + seq!['/'] + rest);
            lemma_split_first(a + s.take(i), rest);
            assert(split(a + s, '/') =~= split(s, '/').update(0, a + split(s, '/')[0]));
        },
        None => {
            lemma_split_whole(a + s);
            assert(split(a + s, '/') =~= split(s, '/').update(0, a + split(s, '/')[0]));
        },
    }
}

/// The pieces of a text with a slash behind it.
pub proof fn lemma_split_ended(s: Seq<char>)
    ensures
        split(s + seq!['/'], '/') == split(s, '/').push(Seq::<char>::empty()),
    decreases s.len(),
{
    let e = s + seq!['/'];
    lemma_split_step(s);
    match find_char(s, '/') {
        Some(j) => {
            let rest = s.skip(j + 1);
            lemma_split_ended(rest);
            assert(e =~= s.take(j) + seq!['/'] + (rest + seq!['/']));
            lemma_split_first(s.take(j), rest + seq!['/']);
            assert(split(e, '/') =~= split(s, '/').push(Seq::<char>::empty()));
        },
        None => {
            assert(e =~= s + seq!['/'] + Seq::<char>::empty());
            lemma_split_first(s, Seq::empty());
            lemma_split_whole(Seq::empty());
            assert(split(e, '/') =~= split(s, '/').push(Seq::<char>::empty()));
        },
    }
}

proof fn lemma_join_first(first: Seq<char>, rest: Seq<Seq<char>>)
    requires
        rest.len() > 0,
    ensures
        join(seq![first] + rest, "/"@) == first + "/"@ + join(rest, "/"@),
    decreases rest.len(),
{
    let all = seq![first] + rest;
    assert(all.last() == rest.last());
    if rest.len() == 1 {
        assert(all.drop_last() =~= seq![first]);
        assert(join(all.drop_last(), "/"@) == first);
    } else {
        assert(all.drop_last() =~= seq![first] + rest.drop_last());
        lemma_join_first(first, rest.drop_last());
        assert(join(all, "/"@) =~= first + "/"@ + join(rest, "/"@));
    }
}

/// The pieces of a text, joined, are the text.
pub proof fn lemma_join_split(s: Seq<char>)
    ensures
        join(split(s, '/'), "/"@) == s,
    decreases s.len(),
{
    reveal_strlit("/");
    assert("/"@ =~= seq!['/']);
    lemma_split_step(s);
    match find_char(s, '/') {
        Some(i) => {
            lemma_join_split(s.skip(i + 1));
            lemma_split_step(s.skip(i + 1));
            lemma_join_first(s.take(i), split(s.skip(i + 1), '/'));
        },
        None => {},
    }
}

/// Pieces without slashes, joined, are the pieces of the joined text.
pub proof fn lemma_split_join(parts: Seq<Seq<char>>)
    requires
        parts.len() > 0,
        forall|i: int| 0 <= i < parts.len() ==> no_slash(#[trigger] parts[i]),
    ensures
        split(join(parts, "/"@), '/') == parts,
    decreases parts.len(),
{
    reveal_strlit("/");
    assert("/"@ =~= seq!['/']);
    if parts.len() == 1 {
        lemma_split_whole(parts[0]);
        assert(parts =~= seq![parts[0]]);
    } else {
        let rest = parts.drop_first();
        assert(parts =~= seq![parts[0]] + rest);
        lemma_join_first(parts[0], rest);
        assert forall|i: int| 0 <= i < rest.len() implies no_slash(#[trigger] rest[i]) by {
            assert(rest[i] == parts[i + 1]);
        }
        lemma_split_join(rest);
        lemma_split_first(parts[0], join(rest, "/"@));
    }
}

/// The pieces that stay are pieces, and none of them is empty.
pub proof fn lemma_non_empty(pieces: Seq<Seq<char>>)
    ensures
        forall|i: int|
            0 <= i < non_empty_pieces(pieces).len() ==> pieces.contains(
                #[trigger] non_empty_pieces(pieces)[i],
            ) && non_empty_pieces(pieces)[i].len() > 0,
    decreases pieces.len(),
{
    if pieces.len() > 0 {
        let front = pieces.drop_last();
        lemma_non_empty(front);
        let kept = non_empty_pieces(pieces);
        assert forall|i: int| 0 <= i < kept.len() implies pieces.contains(#[trigger] kept[i])
            && kept[i].len() > 0 by {
            if i < non_empty_pieces(front).len() {
                assert(kept[i] == non_empty_pieces(front)[i]);
                let j = choose|j: int| 0 <= j < front.len() && front[j] == kept[i];
                assert(pieces[j] == kept[i]);
            } else {
                assert(pieces[pieces.len() - 1] == kept[i]);
            }
        }
    }
}

/// Where no piece is empty, all of them stay.
pub proof fn lemma_all_stay(pieces: Seq<Seq<char>>)
    requires
        forall|i: int| 0 <= i < pieces.len() ==> (#[trigger] pieces[i]).len() > 0,
    ensures
        non_empty_pieces(pieces) == pieces,
    decreases pieces.len(),
{
    if pieces.len() > 0 {
        let front = pieces.drop_last();
        assert forall|i: int| 0 <= i < front.len() implies (#[trigger] front[i]).len() > 0 by {
            assert(front[i] == pieces[i]);
        }
        lemma_all_stay(front);
        assert(pieces.last() == pieces[pieces.len() - 1]);
        assert(front.push(pieces.last()) =~= pieces);
    }
}

/// A first piece that is not empty stays first.
pub proof fn lemma_first_stays(pieces: Seq<Seq<char>>)
    requires
        pieces.len() > 0,
        pieces[0].len() > 0,
    ensures
        non_empty_pieces(pieces).len() > 0,
        non_empty_pieces(pieces)[0] == pieces[0],
    decreases pieces.len(),
{
    if pieces.len() == 1 {
        assert(non_empty_pieces(pieces.drop_last()) =~= Seq::<Seq<char>>::empty());
    } else {
        lemma_first_stays(pieces.drop_last());
    }
}

/// A text ends with its last piece, in front of which nothing or a slash stands.
pub proof fn lemma_last_piece(s: Seq<char>) -> (front: Seq<char>)
    ensures
        s == front + split(s, '/').last(),
        front.len() == 0 || front.last() == '/',
        split(s, '/').len() > 1 ==> front.len() > 0,
    decreases s.len(),
{
    lemma_split_step(s);
    match find_char(s, '/') {
        Some(i) => {
            let rest = s.skip(i + 1);
            let f = lemma_last_piece(rest);
            lemma_split_step(rest);
            let front = s.take(i) + seq!['/'] + f;
            assert(front + split(s, '/').last() =~= s);
            front
        },
        None => {
            assert(Seq::<char>::empty() + s =~= s);
            Seq::empty()
        },
    }
}

/// The pieces of a text in lower case are its pieces in lower case.
pub proof fn lemma_lowered_pieces(s: Seq<char>)
    ensures
        split(ascii_lowered(s), '/') == Seq::new(
            split(s, '/').len(),
            |i: int| ascii_lowered(split(s, '/')[i]),
        ),
    decreases s.len(),
{
    let t = ascii_lowered(s);
    let pieces = Seq::new(split(s, '/').len(), |i: int| ascii_lowered(split(s, '/')[i]));
    lemma_split_step(s);
    match find_char(s, '/') {
        Some(j) => {
            let rest = s.skip(j + 1);
            lemma_lowered_pieces(rest);
            assert(t =~= ascii_lowered(s.take(j)) + seq!['/'] + ascii_lowered(rest));
            lemma_split_first(ascii_lowered(s.take(j)), ascii_lowered(rest));
            assert(split(t, '/') =~= pieces);
        },
        None => {
            lemma_split_whole(t);
            assert(split(t, '/') =~= pieces);
        },
    }
}

/// The segments of a path are the pieces of the key made of them, and none is empty.
pub proof fn lemma_segments(path: Seq<char>)
    requires
        non_empty_pieces(split(path, '/')).len() > 0,
    ensures
        split(join(non_empty_pieces(split(path, '/')), "/"@), '/') == non_empty_pieces(
            split(path, '/'),
        ),
        forall|i: int|
            0 <= i < non_empty_pieces(split(path, '/')).len() ==> (#[trigger] non_empty_pieces(
                split(path, '/'),
            )[i]).len() > 0,
{
    let all = split(path, '/');
    let segments = non_empty_pieces(all);
    lemma_pieces_plain(path);
    lemma_non_empty(all);
    assert forall|i: int| 0 <= i < segments.len() implies no_slash(#[trigger] segments[i]) by {
        let j = choose|j: int| 0 <= j < all.len() && all[j] == segments[i];
        assert(no_slash(all[j]));
    }
    lemma_split_join(segments);
}

} // verus!
