//! What trimming a text depends on.

use vstd::prelude::*;
use crate::text::{ascii_lower, ascii_lowered, is_space, lemma_trim_end, lemma_trim_start, trimmed};

verus! {

pub open spec fn all_space(s: Seq<char>) -> bool {
    forall|k: int| 0 <= k < s.len() ==> is_space(#[trigger] s[k])
}

/// What is left of a text is what stands between its first and its last solid character.
pub proof fn lemma_trimmed_between(s: Seq<char>, i: int, j: int)
    requires
        0 <= i < j <= s.len(),
        !is_space(s[i]),
        !is_space(s[j - 1]),
        forall|k: int| 0 <= k < i || j <= k < s.len() ==> is_space(#[trigger] s[k]),
    ensures
        trimmed(s) == s.subrange(i, j),
{
    lemma_trim_start(s, i);
    let t = s.skip(i);
    assert forall|k: int| j - i <= k < t.len() implies is_space(#[trigger] t[k]) by {
        assert(t[k] == s[k + i]);
    }
    lemma_trim_end(t, j - i);
    assert(trimmed(s) =~= s.subrange(i, j));
}

pub proof fn lemma_trimmed_blank(s: Seq<char>)
    requires
        all_space(s),
    ensures
        trimmed(s).len() == 0,
{
    lemma_trim_start(s, s.len() as int);
    assert(s.skip(s.len() as int) =~= Seq::<char>::empty());
}

/// Where the solid part of a text starts and ends.
pub proof fn lemma_solid_part(s: Seq<char>) -> (part: (int, int))
    requires
        !all_space(s),
    ensures
        0 <= part.0 < part.1 <= s.len(),
        !is_space(s[part.0]),
        !is_space(s[part.1 - 1]),
        forall|k: int| 0 <= k < part.0 || part.1 <= k < s.len() ==> is_space(#[trigger] s[k]),
    decreases s.len(),
{
    if is_space(s[0]) {
        let t = s.drop_first();
        assert(!all_space(t)) by {
            let k = choose|k: int| 0 <= k < s.len() && !is_space(#[trigger] s[k]);
            assert(t[k - 1] == s[k]);
        }
        let (i, j) = lemma_solid_part(t);
        assert forall|k: int| 0 <= k < i + 1 || j + 1 <= k < s.len() implies is_space(
            #[trigger] s[k],
        ) by {
            if k > 0 {
                assert(t[k - 1] == s[k]);
            }
        }
        (i + 1, j + 1)
    } else if is_space(s.last()) {
        let t = s.drop_last();
        assert(t[0] == s[0]);
        let (i, j) = lemma_solid_part(t);
        assert forall|k: int| 0 <= k < i || j <= k < s.len() implies is_space(#[trigger] s[k]) by {
            if k < t.len() {
                assert(t[k] == s[k]);
            }
        }
        (i, j)
    } else {
        (0, s.len() as int)
    }
}

/// Trimming takes nothing but white space away, and all of it at both ends.
pub proof fn lemma_trimmed(s: Seq<char>)
    ensures
        trimmed(s).len() == 0 <==> all_space(s),
        trimmed(s).len() > 0 ==> !is_space(trimmed(s)[0]) && !is_space(trimmed(s).last()),
        trimmed(trimmed(s)) == trimmed(s),
{
    if all_space(s) {
        lemma_trimmed_blank(s);
        assert(trimmed(s) =~= Seq::<char>::empty());
    } else {
        let (i, j) = lemma_solid_part(s);
        lemma_trimmed_between(s, i, j);
        let t = trimmed(s);
        assert(t[0] == s[i] && t.last() == s[j - 1]);
        lemma_trimmed_between(t, 0, t.len() as int);
        assert(t.subrange(0, t.len() as int) =~= t);
    }
}

/// White space round a text does not matter.
pub proof fn lemma_trimmed_padded(front: Seq<char>, s: Seq<char>, back: Seq<char>)
    requires
        all_space(front),
        all_space(back),
    ensures
        trimmed(front + s + back) == trimmed(s),
{
    let t = front + s + back;
    let d = front.len() as int;
    if all_space(s) {
        assert forall|k: int| 0 <= k < t.len() implies is_space(#[trigger] t[k]) by {
            if k < d {
                assert(t[k] == front[k]);
            } else if k < d + s.len() {
                assert(t[k] == s[k - d]);
            } else {
                assert(t[k] == back[k - d - s.len()]);
            }
        }
        lemma_trimmed_blank(s);
        lemma_trimmed_blank(t);
        assert(trimmed(t) =~= trimmed(s));
    } else {
        let (i, j) = lemma_solid_part(s);
        lemma_trimmed_between(s, i, j);
        assert(t[d + i] == s[i] && t[d + j - 1] == s[j - 1]);
        assert forall|k: int| 0 <= k < d + i || d + j <= k < t.len() implies is_space(
            #[trigger] t[k],
        ) by {
            if k < d {
                assert(t[k] == front[k]);
            } else if k < d + s.len() {
                assert(t[k] == s[k - d]);
            } else {
                assert(t[k] == back[k - d - s.len()]);
            }
        }
        lemma_trimmed_between(t, d + i, d + j);
        assert(t.subrange(d + i, d + j) =~= s.subrange(i, j));
    }
}

proof fn lemma_lowered_space(c: char)
    ensures
        is_space(ascii_lower(c)) == is_space(c),
        ascii_lower(ascii_lower(c)) == ascii_lower(c),
{
}

/// Trimming and lowering the letters can change places, and lowering twice is lowering once.
pub proof fn lemma_trimmed_lowered(s: Seq<char>)
    ensures
        trimmed(ascii_lowered(s)) == ascii_lowered(trimmed(s)),
        ascii_lowered(ascii_lowered(s)) == ascii_lowered(s),
{
    let t = ascii_lowered(s);
    assert forall|k: int| 0 <= k < s.len() implies is_space(#[trigger] t[k]) == is_space(s[k])
        && ascii_lower(t[k]) == t[k] by {
        lemma_lowered_space(s[k]);
    }
    assert(ascii_lowered(t) =~= t);
    if all_space(s) {
        lemma_trimmed_blank(s);
        assert(all_space(t));
        lemma_trimmed_blank(t);
        assert(trimmed(t) =~= ascii_lowered(trimmed(s)));
    } else {
        let (i, j) = lemma_solid_part(s);
        lemma_trimmed_between(s, i, j);
        assert(is_space(t[i]) == is_space(s[i]) && is_space(t[j - 1]) == is_space(s[j - 1]));
        assert forall|k: int| 0 <= k < i || j <= k < t.len() implies is_space(#[trigger] t[k]) by {
            assert(is_space(s[k]));
        }
        lemma_trimmed_between(t, i, j);
        assert(trimmed(t) =~= ascii_lowered(trimmed(s)));
    }
}

} // verus!
