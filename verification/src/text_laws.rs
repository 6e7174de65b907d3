//! What the operations on text mean: numbers are written and read in decimal, pieces and separators
//! make up a text, and white space is what Unicode calls so.

use vstd::prelude::*;
use crate::order::lex_less;
use crate::text::{
    all_digits, ascii_lower, decimal, decimal_nat, digit_char, digits_value, ends_with, find,
    find_char, hex, hex_digit, is_control, is_space, join, lemma_find_char, lemma_find_char_meaning,
    parsed_u64, replace_char, rfind, rfind_char, split, starts_with, trimmed,
};
use crate::trimming::{all_space, lemma_solid_part, lemma_trimmed_between, lemma_trimmed_blank};

verus! {

// ── characters ──

/// White space is the characters that Unicode gives that property.
pub proof fn law_space(c: char)
    ensures
        is_space(c) <==> ({
            let n = c as u32;
            ||| 9 <= n <= 13
            ||| n == 32
            ||| n == 0x85
            ||| n == 0xa0
            ||| n == 0x1680
            ||| 0x2000 <= n <= 0x200a
            ||| n == 0x2028
            ||| n == 0x2029
            ||| n == 0x202f
            ||| n == 0x205f
            ||| n == 0x3000
        }),
{
}

/// Control characters are those below the space, delete, and those of the second control block.
pub proof fn law_control(c: char)
    ensures
        is_control(c) <==> (c as u32) < 32 || 127 <= (c as u32) < 160,
{
}

/// Only the letters from `A` to `Z` change, each to its small letter.
pub proof fn law_ascii_lower(c: char)
    ensures
        65 <= c as u32 <= 90 ==> ascii_lower(c) as u32 == c as u32 + 32,
        !(65 <= c as u32 <= 90) ==> ascii_lower(c) == c,
{
}

/// A trimmed text is the text without white space at its ends, and nothing else is taken away.
pub proof fn law_trimmed(s: Seq<char>) -> (cut: (int, int))
    ensures
        0 <= cut.0 <= cut.1 <= s.len(),
        trimmed(s) == s.subrange(cut.0, cut.1),
        forall|k: int| 0 <= k < cut.0 || cut.1 <= k < s.len() ==> is_space(#[trigger] s[k]),
        cut.0 < cut.1 ==> !is_space(s[cut.0]) && !is_space(s[cut.1 - 1]),
{
    if all_space(s) {
        lemma_trimmed_blank(s);
        let n = s.len() as int;
        assert(trimmed(s) =~= s.subrange(n, n));
        (n, n)
    } else {
        let (i, j) = lemma_solid_part(s);
        lemma_trimmed_between(s, i, j);
        (i, j)
    }
}

// ── numbers ──

proof fn lemma_digit(d: int)
    requires
        0 <= d < 10,
    ensures
        digit_char(d) as u32 == 48 + d,
        '0' <= digit_char(d) <= '9',
{
}

/// A number's decimal text is made of digits, without a zero in front, and denotes the number.
pub proof fn law_decimal_nat(n: nat)
    ensures
        decimal_nat(n).len() > 0,
        all_digits(decimal_nat(n)),
        digits_value(decimal_nat(n)) == n,
        n > 0 ==> decimal_nat(n)[0] != '0',
    decreases n,
{
    let s = decimal_nat(n);
    lemma_digit((n % 10) as int);
    if n < 10 {
        lemma_digit(n as int);
        assert(s.drop_last() =~= Seq::<char>::empty());
        assert(digits_value(Seq::<char>::empty()) == 0);
        assert(s.last() == digit_char(n as int));
    } else {
        law_decimal_nat(n / 10);
        let t = decimal_nat(n / 10);
        assert(s.drop_last() =~= t);
        assert(s.last() == digit_char((n % 10) as int));
        assert forall|i: int| 0 <= i < s.len() implies '0' <= #[trigger] s[i] <= '9' by {
            if i < t.len() {
                assert(s[i] == t[i]);
            }
        }
        assert(s[0] == t[0]);
    }
}

/// A number is read back from its decimal text, as it stands or with a plus sign in front.
pub proof fn law_number_reads_back(n: u64)
    ensures
        parsed_u64(decimal(n as int)) == Some(n),
        parsed_u64(seq!['+'] + decimal(n as int)) == Some(n),
{
    law_decimal_nat(n as nat);
    let s = decimal(n as int);
    assert(s[0] != '+');
    assert((seq!['+'] + s).drop_first() =~= s);
}

/// A text that is read as a number is made of digits, with at most a plus sign in front.
pub proof fn law_only_digits_are_numbers(s: Seq<char>)
    ensures
        parsed_u64(s) matches Some(n) ==> s.len() > 0 && forall|i: int|
            0 <= i < s.len() ==> '0' <= #[trigger] s[i] <= '9' || (i == 0 && s[i] == '+'),
{
    if parsed_u64(s) is Some {
        let digits = if s.len() > 0 && s[0] == '+' {
            s.drop_first()
        } else {
            s
        };
        assert forall|i: int| 0 <= i < s.len() implies '0' <= #[trigger] s[i] <= '9' || (i == 0
            && s[i] == '+') by {
            if s[0] == '+' {
                if i > 0 {
                    assert(digits[i - 1] == s[i]);
                }
            } else {
                assert(digits[i] == s[i]);
            }
        }
    }
}

/// The value of a hexadecimal digit.
pub open spec fn hex_value(c: char) -> int {
    if '0' <= c <= '9' {
        c as int - 48
    } else {
        c as int - 87
    }
}

pub proof fn lemma_hex_digit(d: int)
    requires
        0 <= d < 16,
    ensures
        hex_value(hex_digit(d)) == d,
        '0' <= hex_digit(d) <= '9' || 'a' <= hex_digit(d) <= 'f',
{
}

/// Bytes are written with two hexadecimal digits each, the higher half first.
pub proof fn law_hex(bytes: Seq<u8>, i: int)
    requires
        0 <= i < bytes.len(),
    ensures
        hex(bytes).len() == 2 * bytes.len(),
        hex_value(hex(bytes)[2 * i]) * 16 + hex_value(hex(bytes)[2 * i + 1]) == bytes[i],
    decreases bytes.len(),
{
    let front = bytes.drop_last();
    let b = bytes.last() as int;
    lemma_hex_digit(b / 16);
    lemma_hex_digit(b % 16);
    lemma_hex_len(front);
    lemma_hex_len(bytes);
    if i < front.len() {
        law_hex(front, i);
        assert(hex(bytes)[2 * i] == hex(front)[2 * i]);
        assert(hex(bytes)[2 * i + 1] == hex(front)[2 * i + 1]);
    }
}

proof fn lemma_hex_len(bytes: Seq<u8>)
    ensures
        hex(bytes).len() == 2 * bytes.len(),
    decreases bytes.len(),
{
    if bytes.len() > 0 {
        lemma_hex_len(bytes.drop_last());
    }
}

// ── pieces ──

pub open spec fn without(s: Seq<char>, c: char) -> bool {
    forall|i: int| 0 <= i < s.len() ==> #[trigger] s[i] != c
}

proof fn lemma_split_first(a: Seq<char>, b: Seq<char>, c: char)
    requires
        without(a, c),
    ensures
        split(a + seq![c] + b, c) == seq![a] + split(b, c),
{
    let s = a + seq![c] + b;
    lemma_find_char(s, c, a.len() as int);
    assert(s.take(a.len() as int) =~= a);
    assert(s.skip(1 + a.len() as int) =~= b);
}

pub proof fn lemma_join_first(first: Seq<char>, rest: Seq<Seq<char>>, sep: Seq<char>)
    requires
        rest.len() > 0,
    ensures
        join(seq![first] + rest, sep) == first + sep + join(rest, sep),
    decreases rest.len(),
{
    let all = seq![first] + rest;
    assert(all.last() == rest.last());
    if rest.len() == 1 {
        assert(all.drop_last() =~= seq![first]);
        assert(join(all.drop_last(), sep) == first);
    } else {
        assert(all.drop_last() =~= seq![first] + rest.drop_last());
        lemma_join_first(first, rest.drop_last(), sep);
        assert(join(all, sep) =~= first + sep + join(rest, sep));
    }
}

/// Pieces without the separator, joined by it, are the pieces of the joined text.
pub proof fn law_split_joined(parts: Seq<Seq<char>>, c: char)
    requires
        parts.len() > 0,
        forall|i: int| 0 <= i < parts.len() ==> without(#[trigger] parts[i], c),
    ensures
        split(join(parts, seq![c]), c) == parts,
    decreases parts.len(),
{
    if parts.len() == 1 {
        assert(without(parts[0], c));
        lemma_find_char(parts[0], c, parts[0].len() as int);
        assert(split(join(parts, seq![c]), c) =~= parts);
    } else {
        let rest = parts.drop_first();
        assert(parts =~= seq![parts[0]] + rest);
        lemma_join_first(parts[0], rest, seq![c]);
        assert forall|i: int| 0 <= i < rest.len() implies without(#[trigger] rest[i], c) by {
            assert(rest[i] == parts[i + 1]);
        }
        law_split_joined(rest, c);
        assert(without(parts[0], c));
        lemma_split_first(parts[0], join(rest, seq![c]), c);
    }
}

/// The pieces of a text, joined by the separator, are the text, and none holds the separator.
pub proof fn law_joined_pieces(s: Seq<char>, c: char)
    ensures
        join(split(s, c), seq![c]) == s,
        split(s, c).len() > 0,
        forall|i: int| 0 <= i < split(s, c).len() ==> without(#[trigger] split(s, c)[i], c),
    decreases s.len(),
{
    lemma_find_char_meaning(s, c);
    match find_char(s, c) {
        Some(i) => {
            let rest = s.skip(i + 1);
            law_joined_pieces(rest, c);
            lemma_join_first(s.take(i), split(rest, c), seq![c]);
            assert(s =~= s.take(i) + seq![c] + rest);
            assert forall|k: int| 0 <= k < split(s, c).len() implies without(
                #[trigger] split(s, c)[k],
                c,
            ) by {
                if k > 0 {
                    assert(split(s, c)[k] == split(rest, c)[k - 1]);
                } else {
                    assert(split(s, c)[0] == s.take(i));
                }
            }
        },
        None => {
            assert forall|k: int| 0 <= k < s.len() implies #[trigger] s[k] != c by {
                assert(s.contains(s[k]));
            }
        },
    }
}

// ── searching ──

/// The last place of a character is the last: it stands there, and nowhere behind.
pub proof fn law_rfind_char(s: Seq<char>, c: char)
    ensures
        match rfind_char(s, c) {
            Some(i) => 0 <= i < s.len() && s[i] == c && forall|k: int|
                i < k < s.len() ==> #[trigger] s[k] != c,
            None => without(s, c),
        },
    decreases s.len(),
{
    if s.len() > 0 && s.last() != c {
        let t = s.drop_last();
        law_rfind_char(t, c);
        match rfind_char(t, c) {
            Some(i) => {
                assert(t[i] == s[i]);
                assert forall|k: int| i < k < s.len() implies #[trigger] s[k] != c by {
                    if k < t.len() {
                        assert(t[k] == s[k]);
                    }
                }
            },
            None => {
                assert forall|k: int| 0 <= k < s.len() implies #[trigger] s[k] != c by {
                    if k < t.len() {
                        assert(t[k] == s[k]);
                    }
                }
            },
        }
    }
}

/// Whether a text has `pat` at a place.
pub open spec fn has_at(s: Seq<char>, pat: Seq<char>, i: int) -> bool {
    0 <= i && i + pat.len() <= s.len() && s.subrange(i, i + pat.len()) == pat
}

/// The first place of a text within another is the first.
pub proof fn law_find(s: Seq<char>, pat: Seq<char>)
    ensures
        match find(s, pat) {
            Some(i) => has_at(s, pat, i) && forall|k: int| 0 <= k < i ==> !#[trigger] has_at(s, pat, k),
            None => forall|k: int| !#[trigger] has_at(s, pat, k),
        },
    decreases s.len(),
{
    let n = pat.len() as int;
    if s.len() >= n {
        assert(s.subrange(0, n) =~= s.take(n));
    }
    if !starts_with(s, pat) && s.len() > 0 {
        let t = s.drop_first();
        law_find(t, pat);
        assert forall|k: int| 0 <= k implies #[trigger] has_at(t, pat, k) == has_at(s, pat, k + 1) by {
            if k + n <= t.len() {
                assert(t.subrange(k, k + n) =~= s.subrange(k + 1, k + 1 + n));
            }
        }
        match find(t, pat) {
            Some(i) => {
                assert(has_at(t, pat, i));
                assert forall|k: int| 0 <= k < i + 1 implies !#[trigger] has_at(s, pat, k) by {
                    if k > 0 {
                        assert(!has_at(t, pat, k - 1));
                    }
                }
            },
            None => {
                assert forall|k: int| !#[trigger] has_at(s, pat, k) by {
                    if k > 0 {
                        assert(!has_at(t, pat, k - 1));
                    }
                }
            },
        }
    } else if !starts_with(s, pat) {
        assert forall|k: int| !#[trigger] has_at(s, pat, k) by {}
    }
}

/// The last place of a text within another is the last.
pub proof fn law_rfind(s: Seq<char>, pat: Seq<char>)
    ensures
        match rfind(s, pat) {
            Some(i) => has_at(s, pat, i) && forall|k: int| i < k ==> !#[trigger] has_at(s, pat, k),
            None => forall|k: int| !#[trigger] has_at(s, pat, k),
        },
    decreases s.len(),
{
    let n = pat.len() as int;
    if s.len() >= n {
        let at = s.len() - n;
        assert(s.subrange(at, at + n) =~= s.skip(at));
    }
    if !ends_with(s, pat) && s.len() > 0 {
        let t = s.drop_last();
        law_rfind(t, pat);
        assert forall|k: int| 0 <= k && k + n <= t.len() implies #[trigger] has_at(t, pat, k) == has_at(
            s,
            pat,
            k,
        ) by {
            assert(t.subrange(k, k + n) =~= s.subrange(k, k + n));
        }
        assert forall|k: int| has_at(s, pat, k) implies #[trigger] has_at(t, pat, k) by {
            if k + n == s.len() {
                assert(s.subrange(k, k + n) =~= s.skip(k));
            } else {
                assert(t.subrange(k, k + n) =~= s.subrange(k, k + n));
            }
        }
        match rfind(t, pat) {
            Some(i) => {
                assert(has_at(t, pat, i));
                assert forall|k: int| i < k implies !#[trigger] has_at(s, pat, k) by {
                    assert(!has_at(t, pat, k));
                }
            },
            None => {
                assert forall|k: int| !#[trigger] has_at(s, pat, k) by {
                    assert(!has_at(t, pat, k));
                }
            },
        }
    } else if !ends_with(s, pat) {
        assert forall|k: int| !#[trigger] has_at(s, pat, k) by {}
    }
}

/// Replacing a character puts the other text in its place everywhere, and keeps all the rest.
pub proof fn law_replace_char(a: Seq<char>, c: char, b: Seq<char>, with: Seq<char>)
    ensures
        replace_char(a + seq![c] + b, c, with) == replace_char(a, c, with) + with + replace_char(
            b,
            c,
            with,
        ),
        without(a, c) ==> replace_char(a, c, with) == a,
    decreases b.len(),
{
    if without(a, c) {
        lemma_replace_none(a, c, with);
    }
    if b.len() == 0 {
        let s = a + seq![c] + b;
        assert(s.drop_last() =~= a);
        assert(s.last() == c);
        assert(replace_char(s, c, with) =~= replace_char(a, c, with) + with + replace_char(b, c, with));
    } else {
        let t = b.drop_last();
        let s = a + seq![c] + b;
        assert(s.drop_last() =~= a + seq![c] + t);
        assert(s.last() == b.last());
        law_replace_char(a, c, t, with);
        assert(replace_char(s, c, with) =~= replace_char(a, c, with) + with + replace_char(b, c, with));
    }
}

pub proof fn lemma_replace_none(a: Seq<char>, c: char, with: Seq<char>)
    requires
        without(a, c),
    ensures
        replace_char(a, c, with) == a,
    decreases a.len(),
{
    if a.len() > 0 {
        let t = a.drop_last();
        assert forall|i: int| 0 <= i < t.len() implies #[trigger] t[i] != c by {
            assert(t[i] == a[i]);
        }
        lemma_replace_none(t, c, with);
        assert(a.last() == a[a.len() - 1]);
        assert(t.push(a.last()) =~= a);
        assert(replace_char(a, c, with) =~= a);
    } else {
        assert(replace_char(a, c, with) =~= a);
    }
}

/// Texts are ordered by the first character in which they differ, and a text comes before every
/// longer one that it begins.
pub proof fn law_texts_are_ordered(
    front: Seq<char>,
    c: char,
    d: char,
    a: Seq<char>,
    b: Seq<char>,
)
    ensures
        c < d ==> lex_less(front + seq![c] + a, front + seq![d] + b) && !lex_less(
            front + seq![d] + b,
            front + seq![c] + a,
        ),
        a.len() > 0 ==> lex_less(front, front + a) && !lex_less(front + a, front),
        !lex_less(front, front),
    decreases front.len(),
{
    let x = front + seq![c] + a;
    let y = front + seq![d] + b;
    if front.len() > 0 {
        let rest = front.drop_first();
        law_texts_are_ordered(rest, c, d, a, b);
        assert(x.drop_first() =~= rest + seq![c] + a);
        assert(y.drop_first() =~= rest + seq![d] + b);
        assert((front + a).drop_first() =~= rest + a);
    } else {
        assert(x[0] == c && y[0] == d);
        assert(front + a =~= a);
    }
}

} // verus!
