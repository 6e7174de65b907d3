//! Byte offsets into strings: cutting a text where a character begins.

use vstd::prelude::*;
use vstd::utf8::*;

verus! {

/// The text before byte offset `i`.
pub open spec fn text_before(s: Seq<char>, i: int) -> Seq<char> {
    decode_utf8(encode_utf8(s).take(i))
}

/// The text from byte offset `i` on.
pub open spec fn text_from(s: Seq<char>, i: int) -> Seq<char> {
    decode_utf8(encode_utf8(s).skip(i))
}

/// The text from byte offset `i` up to byte offset `j`.
pub open spec fn text_between(s: Seq<char>, i: int, j: int) -> Seq<char> {
    decode_utf8(encode_utf8(s).subrange(i, j))
}

/// Whether a character of `s` begins at byte offset `i`, or the text ends there.
pub open spec fn at_char(s: Seq<char>, i: int) -> bool {
    is_char_boundary(encode_utf8(s), i)
}

pub proof fn lemma_encode_concat(a: Seq<char>, b: Seq<char>)
    ensures
        encode_utf8(a + b) == encode_utf8(a) + encode_utf8(b),
    decreases a.len(),
{
    if a.len() == 0 {
        assert(a + b =~= b);
        assert(encode_utf8(a) + encode_utf8(b) =~= encode_utf8(b));
    } else {
        lemma_encode_concat(a.drop_first(), b);
        assert((a + b).drop_first() =~= a.drop_first() + b);
        assert(encode_utf8(a + b) =~= encode_utf8(a) + encode_utf8(b));
    }
}

/// A boundary is a position in the text.
pub proof fn lemma_boundary_in_range(b: Seq<u8>, i: int)
    requires
        valid_utf8(b),
        is_char_boundary(b, i),
    ensures
        0 <= i <= b.len(),
{
}

proof fn lemma_boundary_step(b: Seq<u8>, i: int, j: int)
    requires
        valid_utf8(b),
        is_char_boundary(b, i),
        is_char_boundary(b.skip(i), j),
        valid_utf8(b.skip(i)),
        0 <= j,
    ensures
        is_char_boundary(b, i + j),
    decreases b.len(),
{
    if i == 0 {
        assert(b.skip(0) =~= b);
    } else {
        let n = length_of_first_scalar(b);
        let t = pop_first_scalar(b);
        assert(is_char_boundary(t, i - n));
        lemma_boundary_in_range(t, i - n);
        assert(t.skip(i - n) =~= b.skip(i));
        lemma_boundary_step(t, i - n, j);
        lemma_boundary_in_range(b.skip(i), j);
    }
}

pub proof fn lemma_boundary_after_ascii(b: Seq<u8>, i: int)
    requires
        valid_utf8(b),
        0 < i <= b.len(),
        b[i - 1] < 0x80,
    ensures
        is_char_boundary(b, i),
        is_char_boundary(b, i - 1),
{
    is_char_boundary_iff_not_is_continuation_byte(b, i - 1);
    assert(!is_continuation_byte(b[i - 1]));
    valid_utf8_split(b, i - 1);
    let t = b.subrange(i - 1, b.len() as int);
    assert(t =~= b.skip(i - 1));
    assert(is_char_boundary(t, 1)) by {
        reveal_with_fuel(is_char_boundary, 2);
        assert(t[0] == b[i - 1]);
    }
    lemma_boundary_step(b, i - 1, 1);
}

pub proof fn lemma_boundary_at_ascii(b: Seq<u8>, i: int)
    requires
        valid_utf8(b),
        0 <= i < b.len(),
        b[i] < 0x80,
    ensures
        is_char_boundary(b, i),
{
    is_char_boundary_iff_not_is_continuation_byte(b, i);
}

/// A boundary of a text cut off at an earlier boundary.
pub proof fn lemma_boundary_of_rest(b: Seq<u8>, i: int, j: int)
    requires
        valid_utf8(b),
        is_char_boundary(b, i),
        is_char_boundary(b, j),
        i <= j,
    ensures
        valid_utf8(b.skip(i)),
        is_char_boundary(b.skip(i), j - i),
    decreases b.len(),
{
    valid_utf8_split(b, i);
    assert(b.subrange(i, b.len() as int) =~= b.skip(i));
    if j == b.len() {
        is_char_boundary_start_end_of_seq(b.skip(i));
    } else {
        is_char_boundary_iff_not_is_continuation_byte(b, j);
        assert(b.skip(i)[j - i] == b[j]);
        is_char_boundary_iff_not_is_continuation_byte(b.skip(i), j - i);
    }
}

/// Cutting a text at a character keeps the bytes on both sides.
pub proof fn lemma_cut(s: Seq<char>, i: int)
    requires
        at_char(s, i),
    ensures
        encode_utf8(text_before(s, i)) == encode_utf8(s).take(i),
        encode_utf8(text_from(s, i)) == encode_utf8(s).skip(i),
        text_before(s, i) + text_from(s, i) == s,
        0 <= i <= encode_utf8(s).len(),
{
    let b = encode_utf8(s);
    encode_utf8_valid_utf8(s);
    lemma_boundary_in_range(b, i);
    valid_utf8_split(b, i);
    assert(b.subrange(0, i) =~= b.take(i));
    assert(b.subrange(i, b.len() as int) =~= b.skip(i));
    decode_utf8_encode_utf8(b.take(i));
    decode_utf8_encode_utf8(b.skip(i));
    decode_utf8_split(b, i);
    encode_utf8_decode_utf8(s);
}

/// A piece of a text between two characters keeps the bytes in between.
pub proof fn lemma_between(s: Seq<char>, i: int, j: int)
    requires
        at_char(s, i),
        at_char(s, j),
        i <= j,
    ensures
        encode_utf8(text_between(s, i, j)) == encode_utf8(s).subrange(i, j),
{
    let b = encode_utf8(s);
    encode_utf8_valid_utf8(s);
    lemma_boundary_in_range(b, i);
    lemma_boundary_in_range(b, j);
    lemma_boundary_of_rest(b, i, j);
    let t = b.skip(i);
    valid_utf8_split(t, j - i);
    assert(t.subrange(0, j - i) =~= b.subrange(i, j));
    decode_utf8_encode_utf8(b.subrange(i, j));
}

pub fn cut(s: &str, i: usize) -> (r: (&str, &str))
    requires
        at_char(s@, i as int),
    ensures
        r.0@ == text_before(s@, i as int),
        r.1@ == text_from(s@, i as int),
{
    let r = s.split_at(i);
    proof {
        let b = encode_utf8(s@);
        encode_utf8_valid_utf8(s@);
        lemma_boundary_in_range(b, i as int);
        assert(b.subrange(0, i as int) =~= b.take(i as int));
        assert(b.subrange(i as int, b.len() as int) =~= b.skip(i as int));
        encode_utf8_decode_utf8(r.0@);
        encode_utf8_decode_utf8(r.1@);
    }
    r
}

pub fn piece(s: &str, i: usize, j: usize) -> (r: &str)
    requires
        at_char(s@, i as int),
        at_char(s@, j as int),
        i <= j,
    ensures
        r@ == text_between(s@, i as int, j as int),
{
    proof {
        encode_utf8_valid_utf8(s@);
        lemma_boundary_of_rest(encode_utf8(s@), i as int, j as int);
        lemma_cut(s@, i as int);
    }
    let tail = cut(s, i).1;
    let r = cut(tail, j - i).0;
    proof {
        assert(encode_utf8(s@).skip(i as int).take(j - i) =~= encode_utf8(s@).subrange(
            i as int,
            j as int,
        ));
    }
    r
}

} // verus!
