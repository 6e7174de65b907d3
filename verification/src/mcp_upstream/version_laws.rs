//! Versions are compared by their numbers.

use vstd::prelude::*;
use crate::mcp_upstream::{
    number_at, version_core, version_less, version_number, version_numbers, without_v,
};
use crate::text::{all_digits, decimal, is_space, join, split};
use crate::text_laws::{law_decimal_nat, law_number_reads_back, law_split_joined, without};
use crate::trimming::lemma_trimmed_between;

verus! {

/// The decimal texts of numbers.
pub open spec fn decimals(ns: Seq<u64>) -> Seq<Seq<char>> {
    Seq::new(ns.len(), |i: int| decimal(ns[i] as int))
}

/// Numbers written in decimal, with dots between them.
pub open spec fn dotted(ns: Seq<u64>) -> Seq<char> {
    join(decimals(ns), seq!['.'])
}

/// Digits and dots.
pub open spec fn is_dotted(s: Seq<char>) -> bool {
    forall|i: int| 0 <= i < s.len() ==> '0' <= #[trigger] s[i] <= '9' || s[i] == '.'
}

pub proof fn lemma_dotted(ns: Seq<u64>)
    requires
        ns.len() > 0,
    ensures
        is_dotted(dotted(ns)),
        dotted(ns).len() > 0,
        split(dotted(ns), '.') == decimals(ns),
{
    let parts = decimals(ns);
    assert forall|i: int| 0 <= i < parts.len() implies without(#[trigger] parts[i], '.')
        && all_digits(parts[i]) && parts[i].len() > 0 by {
        law_decimal_nat(ns[i] as nat);
    }
    law_split_joined(parts, '.');
    lemma_joined_digits(parts);
}

proof fn lemma_joined_digits(parts: Seq<Seq<char>>)
    requires
        parts.len() > 0,
        forall|i: int| 0 <= i < parts.len() ==> all_digits(#[trigger] parts[i]) && parts[i].len() > 0,
    ensures
        is_dotted(join(parts, seq!['.'])),
        join(parts, seq!['.']).len() > 0,
    decreases parts.len(),
{
    assert(all_digits(parts[parts.len() - 1]));
    if parts.len() > 1 {
        let front = parts.drop_last();
        assert forall|i: int| 0 <= i < front.len() implies all_digits(#[trigger] front[i])
            && front[i].len() > 0 by {
            assert(front[i] == parts[i]);
        }
        lemma_joined_digits(front);
        let a = join(front, seq!['.']);
        let s = join(parts, seq!['.']);
        assert forall|i: int| 0 <= i < s.len() implies '0' <= #[trigger] s[i] <= '9' || s[i] == '.' by {
            if i < a.len() {
                assert(s[i] == a[i]);
            } else if i > a.len() {
                assert(s[i] == parts.last()[i - a.len() - 1]);
            }
        }
    }
}

proof fn lemma_core_kept(s: Seq<char>)
    requires
        is_dotted(s),
    ensures
        version_core(s) == s,
    decreases s.len(),
{
    if s.len() > 0 {
        let t = s.skip(1);
        assert forall|i: int| 0 <= i < t.len() implies '0' <= #[trigger] t[i] <= '9' || t[i] == '.' by {
            assert(t[i] == s[i + 1]);
        }
        lemma_core_kept(t);
        assert(seq![s[0]] + t =~= s);
        assert('0' <= s[0] <= '9' || s[0] == '.');
    } else {
        assert(version_core(s) =~= s);
    }
}

proof fn lemma_v_prefix(v: Seq<char>, s: Seq<char>)
    requires
        forall|i: int| 0 <= i < v.len() ==> #[trigger] v[i] == 'v',
        s.len() == 0 || s[0] != 'v',
    ensures
        without_v(v + s) == s,
    decreases v.len(),
{
    if v.len() == 0 {
        assert(v + s =~= s);
    } else {
        assert((v + s)[0] == v[0]);
        assert((v + s).skip(1) =~= v.skip(1) + s);
        lemma_v_prefix(v.skip(1), s);
    }
}

/// The numbers of a version are those written between its dots, whatever their size, with any `v`
/// and white space in front and white space behind.
pub proof fn law_numbers_are_read(front: Seq<char>, v: Seq<char>, ns: Seq<u64>, back: Seq<char>)
    requires
        ns.len() > 0,
        forall|i: int| 0 <= i < front.len() ==> is_space(#[trigger] front[i]),
        forall|i: int| 0 <= i < v.len() ==> #[trigger] v[i] == 'v',
        forall|i: int| 0 <= i < back.len() ==> is_space(#[trigger] back[i]),
    ensures
        version_numbers(front + (v + dotted(ns)) + back) == ns,
{
    let d = dotted(ns);
    let core = v + d;
    let s = front + core + back;
    lemma_dotted(ns);
    let i = front.len() as int;
    let j = i + core.len();
    assert(!is_space(core[0])) by {
        if v.len() > 0 {
            assert(core[0] == v[0]);
        } else {
            assert(core[0] == d[0]);
        }
    }
    assert(core.last() == d[d.len() - 1]);
    assert(s[i] == core[0] && s[j - 1] == core.last());
    assert forall|k: int| 0 <= k < i || j <= k < s.len() implies is_space(#[trigger] s[k]) by {
        if k < i {
            assert(s[k] == front[k]);
        } else {
            assert(s[k] == back[k - j]);
        }
    }
    lemma_trimmed_between(s, i, j);
    assert(s.subrange(i, j) =~= core);
    lemma_v_prefix(v, d);
    lemma_core_kept(d);
    let segments = split(d, '.');
    assert forall|k: int| 0 <= k < ns.len() implies version_number(#[trigger] segments[k])
        == ns[k] by {
        law_number_reads_back(ns[k]);
    }
    assert(version_numbers(s) =~= ns);
}

/// A piece of a version that is no number counts as zero.
pub proof fn law_other_pieces_are_zero(piece: Seq<char>)
    requires
        piece.len() == 0 || exists|i: int|
            0 <= i < piece.len() && !('0' <= #[trigger] piece[i] <= '9') && piece[i] != '+',
    ensures
        version_number(piece) == 0,
{
    crate::text_laws::law_only_digits_are_numbers(piece);
    if piece.len() > 0 && crate::text::parsed_u64(piece) is Some {
        let i = choose|i: int|
            0 <= i < piece.len() && !('0' <= #[trigger] piece[i] <= '9') && piece[i] != '+';
        assert('0' <= piece[i] <= '9' || (i == 0 && piece[i] == '+'));
    }
}

/// The order of numbers place by place from the front; what is missing counts as zero.
pub open spec fn numbers_before(a: Seq<u64>, b: Seq<u64>) -> bool
    decreases a.len() + b.len(),
{
    let x = if a.len() > 0 {
        a[0]
    } else {
        0
    };
    let y = if b.len() > 0 {
        b[0]
    } else {
        0
    };
    if a.len() == 0 && b.len() == 0 {
        false
    } else if x != y {
        x < y
    } else {
        numbers_before(
            if a.len() > 0 {
                a.drop_first()
            } else {
                a
            },
            if b.len() > 0 {
                b.drop_first()
            } else {
                b
            },
        )
    }
}

proof fn lemma_first_differs(a: Seq<u64>, b: Seq<u64>)
    requires
        number_at(a, 0) != number_at(b, 0),
    ensures
        version_less(a, b) == (number_at(a, 0) < number_at(b, 0)),
{
    if version_less(a, b) {
        let i = choose|i: int|
            0 <= i && #[trigger] number_at(a, i) < number_at(b, i) && forall|j: int|
                0 <= j < i ==> #[trigger] number_at(a, j) == number_at(b, j);
        if i > 0 {
            assert(number_at(a, 0) == number_at(b, 0));
        }
    }
}

proof fn lemma_first_equal(a: Seq<u64>, b: Seq<u64>, s: Seq<u64>, t: Seq<u64>)
    requires
        number_at(a, 0) == number_at(b, 0),
        forall|k: int| 0 <= k ==> #[trigger] number_at(s, k) == number_at(a, k + 1),
        forall|k: int| 0 <= k ==> #[trigger] number_at(t, k) == number_at(b, k + 1),
    ensures
        version_less(a, b) == version_less(s, t),
{
    if version_less(a, b) {
        let i = choose|i: int|
            0 <= i && #[trigger] number_at(a, i) < number_at(b, i) && forall|j: int|
                0 <= j < i ==> #[trigger] number_at(a, j) == number_at(b, j);
        assert(i > 0);
        assert(number_at(s, i - 1) < number_at(t, i - 1));
        assert forall|j: int| 0 <= j < i - 1 implies #[trigger] number_at(s, j) == number_at(
            t,
            j,
        ) by {
            assert(number_at(a, j + 1) == number_at(b, j + 1));
        }
    }
    if version_less(s, t) {
        let i = choose|i: int|
            0 <= i && #[trigger] number_at(s, i) < number_at(t, i) && forall|j: int|
                0 <= j < i ==> #[trigger] number_at(s, j) == number_at(t, j);
        assert(number_at(a, i + 1) < number_at(b, i + 1));
        assert forall|j: int| 0 <= j < i + 1 implies #[trigger] number_at(a, j) == number_at(
            b,
            j,
        ) by {
            if j > 0 {
                assert(number_at(s, j - 1) == number_at(t, j - 1));
            }
        }
    }
}

/// A version is behind another exactly if its numbers come before the other's, place by place from
/// the front.
pub proof fn law_versions_compare_by_number(a: Seq<u64>, b: Seq<u64>)
    ensures
        version_less(a, b) == numbers_before(a, b),
    decreases a.len() + b.len(),
{
    if a.len() > 0 || b.len() > 0 {
        let s = if a.len() > 0 {
            a.drop_first()
        } else {
            a
        };
        let t = if b.len() > 0 {
            b.drop_first()
        } else {
            b
        };
        if number_at(a, 0) != number_at(b, 0) {
            lemma_first_differs(a, b);
        } else {
            lemma_first_equal(a, b, s, t);
            law_versions_compare_by_number(s, t);
        }
    }
}

/// `a.b.c` is behind `d.e.f` exactly if it comes before it number by number, for all numbers of 64
/// bits.
pub proof fn law_three_numbers(a: u64, b: u64, c: u64, d: u64, e: u64, f: u64)
    ensures
        version_less(version_numbers(dotted(seq![a, b, c])), version_numbers(dotted(seq![d, e, f])))
            <==> (a < d || (a == d && (b < e || (b == e && c < f)))),
{
    let none = Seq::<char>::empty();
    let x = seq![a, b, c];
    let y = seq![d, e, f];
    law_numbers_are_read(none, none, x, none);
    law_numbers_are_read(none, none, y, none);
    assert(none + (none + dotted(x)) + none =~= dotted(x));
    assert(none + (none + dotted(y)) + none =~= dotted(y));
    law_versions_compare_by_number(x, y);
    reveal_with_fuel(numbers_before, 5);
    assert(x.drop_first() =~= seq![b, c]);
    assert(y.drop_first() =~= seq![e, f]);
    assert(seq![b, c].drop_first() =~= seq![c]);
    assert(seq![e, f].drop_first() =~= seq![f]);
    assert(seq![c].drop_first() =~= Seq::<u64>::empty());
    assert(seq![f].drop_first() =~= Seq::<u64>::empty());
}

} // verus!
