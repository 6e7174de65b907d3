//! What a plugin id keeps of a server's name, and what it looks like.

use vstd::prelude::*;
use crate::mcp_writers::dsh_yaml::{is_ascii_alphanumeric, slug_of, slug_state};
use crate::text::ascii_lower;

verus! {

/// Letters in lower case and digits, with single dashes between them.
pub open spec fn is_slug(s: Seq<char>) -> bool {
    &&& s.len() > 0
    &&& s[0] != '-' && s.last() != '-'
    &&& forall|i: int|
        0 <= i < s.len() ==> 'a' <= #[trigger] s[i] <= 'z' || '0' <= s[i] <= '9' || s[i] == '-'
    &&& forall|i: int| 0 <= i < s.len() - 1 && #[trigger] s[i] == '-' ==> s[i + 1] != '-'
}

proof fn lemma_lowered_letter(c: char)
    requires
        is_ascii_alphanumeric(c),
    ensures
        'a' <= ascii_lower(c) <= 'z' || '0' <= ascii_lower(c) <= '9',
        ascii_lower(c) != '-',
{
}

proof fn lemma_slug_state(s: Seq<char>)
    ensures
        slug_state(s).0.len() > 0 ==> is_slug(slug_state(s).0),
        slug_state(s).1 ==> slug_state(s).0.len() > 0,
    decreases s.len(),
{
    if s.len() > 0 {
        lemma_slug_state(s.drop_last());
        let (before, pending) = slug_state(s.drop_last());
        let slug = slug_state(s).0;
        if is_ascii_alphanumeric(s.last()) {
            lemma_lowered_letter(s.last());
            assert forall|i: int| 0 <= i < slug.len() implies 'a' <= #[trigger] slug[i] <= 'z' || '0'
                <= slug[i] <= '9' || slug[i] == '-' by {
                if i < before.len() {
                    assert(slug[i] == before[i]);
                }
            }
            assert forall|i: int| 0 <= i < slug.len() - 1 && #[trigger] slug[i] == '-' implies slug[i
                + 1] != '-' by {
                if i < before.len() - 1 {
                    assert(slug[i] == before[i] && slug[i + 1] == before[i + 1]);
                } else if i == before.len() - 1 {
                    assert(slug[i] == before.last());
                }
            }
        }
    }
}

// The slug of the part of a slug up to its `n`-th character.
proof fn lemma_slug_of_slug(s: Seq<char>, n: int)
    requires
        is_slug(s),
        0 <= n <= s.len(),
    ensures
        n > 0 && s[n - 1] == '-' ==> slug_state(s.take(n)) == (s.take(n - 1), true),
        n == 0 || s[n - 1] != '-' ==> slug_state(s.take(n)) == (s.take(n), false),
    decreases n,
{
    let t = s.take(n);
    if n == 0 {
        assert(t =~= Seq::<char>::empty());
    } else {
        assert(t.drop_last() =~= s.take(n - 1));
        assert(t.last() == s[n - 1]);
        lemma_slug_of_slug(s, n - 1);
        if s[n - 1] == '-' {
            assert(n - 1 > 0);
            if s[n - 2] == '-' {
                assert(s[n - 2 + 1] != '-');
            }
            assert(s.take(n - 1).len() > 0);
        } else {
            assert(is_ascii_alphanumeric(s[n - 1]));
            lemma_own_lower(s[n - 1]);
            if n > 1 && s[n - 2] == '-' {
                assert(s.take(n - 2).push('-').push(s[n - 1]) =~= s.take(n));
            } else {
                assert(s.take(n - 1).push(s[n - 1]) =~= s.take(n));
            }
        }
    }
}

proof fn lemma_own_lower(c: char)
    requires
        'a' <= c <= 'z' || '0' <= c <= '9',
    ensures
        ascii_lower(c) == c,
{
}

/// A plugin id is made of letters in lower case, digits and single dashes between them, and is
/// its own id.
pub proof fn law_slug_shape(name: Seq<char>)
    ensures
        is_slug(slug_of(name)),
        slug_of(slug_of(name)) == slug_of(name),
{
    lemma_slug_state(name);
    reveal_strlit("mcp");
    let slug = slug_of(name);
    assert(is_slug(slug));
    lemma_slug_of_slug(slug, slug.len() as int);
    assert(slug.take(slug.len() as int) =~= slug);
    assert(slug.last() == slug[slug.len() - 1]);
}

/// The letters and digits of a text, in lower case.
pub open spec fn letters_of(s: Seq<char>) -> Seq<char>
    decreases s.len(),
{
    if s.len() == 0 {
        s
    } else if is_ascii_alphanumeric(s.last()) {
        letters_of(s.drop_last()).push(ascii_lower(s.last()))
    } else {
        letters_of(s.drop_last())
    }
}

proof fn lemma_slug_letters(s: Seq<char>)
    ensures
        letters_of(slug_state(s).0) == letters_of(s),
        slug_state(s).0.len() == 0 <==> letters_of(s).len() == 0,
    decreases s.len(),
{
    if s.len() > 0 {
        lemma_slug_letters(s.drop_last());
        let (before, pending) = slug_state(s.drop_last());
        let slug = slug_state(s).0;
        if is_ascii_alphanumeric(s.last()) {
            let low = ascii_lower(s.last());
            lemma_lowered_letter(s.last());
            lemma_own_lower(low);
            assert(is_ascii_alphanumeric(low));
            if pending {
                let dashed = before.push('-');
                assert(dashed.drop_last() =~= before);
                assert(letters_of(dashed) == letters_of(before));
                assert(slug.drop_last() =~= dashed);
            } else {
                assert(slug.drop_last() =~= before);
            }
        }
    }
}

/// A plugin id keeps the letters and digits of the name, all of them in lower case and nothing
/// else but dashes; a name without any has the id `mcp`.
pub proof fn law_slug_keeps_letters(name: Seq<char>)
    ensures
        letters_of(name).len() > 0 ==> letters_of(slug_of(name)) == letters_of(name),
        letters_of(name).len() == 0 ==> slug_of(name) == "mcp"@,
{
    lemma_slug_letters(name);
}

} // verus!
