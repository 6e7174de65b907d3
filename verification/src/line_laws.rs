//! What the lines of a text are, and that texts made of lines have those lines.

use vstd::prelude::*;
use crate::text::{
    find_char, joined, law_lines_make_text, lemma_find_char, lemma_find_char_meaning,
    lemma_joined_concat, lines_of,
};

verus! {

/// A line: not empty, and with no line feed but at its end.
pub open spec fn is_line(line: Seq<char>) -> bool {
    line.len() > 0 && forall|i: int| 0 <= i < line.len() - 1 ==> #[trigger] line[i] != '\n'
}

/// Lines of which each but the last ends with a line feed.
pub open spec fn are_lines(lines: Seq<Seq<char>>) -> bool {
    &&& forall|i: int| 0 <= i < lines.len() ==> is_line(#[trigger] lines[i])
    &&& forall|i: int| 0 <= i < lines.len() - 1 ==> (#[trigger] lines[i]).last() == '\n'
}

/// The lines of a text, one after another, are the text; each is a line, and all but the last end
/// with a line feed.
pub proof fn law_lines_shape(s: Seq<char>)
    ensures
        are_lines(lines_of(s)),
        joined(lines_of(s)) == s,
        s.len() > 0 ==> lines_of(s).len() > 0 && lines_of(s).last().last() == s.last(),
    decreases s.len(),
{
    law_lines_make_text(s);
    lemma_find_char_meaning(s, '\n');
    match find_char(s, '\n') {
        Some(i) => {
            let rest = s.skip(i + 1);
            let first = s.take(i + 1);
            law_lines_shape(rest);
            let lines = lines_of(s);
            let more = lines_of(rest);
            assert(lines =~= seq![first] + more);
            assert(first.last() == '\n');
            assert forall|k: int| 0 <= k < lines.len() implies is_line(#[trigger] lines[k]) by {
                if k == 0 {
                    assert forall|p: int| 0 <= p < first.len() - 1 implies #[trigger] first[p]
                        != '\n' by {
                        assert(s[p] != '\n');
                    }
                } else {
                    assert(lines[k] == more[k - 1]);
                }
            }
            assert forall|k: int| 0 <= k < lines.len() - 1 implies (#[trigger] lines[k]).last()
                == '\n' by {
                if k > 0 {
                    assert(lines[k] == more[k - 1]);
                }
            }
            if rest.len() > 0 {
                assert(lines.last() == more.last());
                assert(rest.last() == s.last());
            } else {
                assert(lines.last() == first);
                assert(s =~= first);
            }
        },
        None => {
            if s.len() > 0 {
                assert forall|p: int| 0 <= p < s.len() - 1 implies #[trigger] s[p] != '\n' by {
                    assert(s.contains(s[p]));
                }
                assert(lines_of(s) =~= seq![s]);
            }
        },
    }
}

// A line in front of a text is its first line.
proof fn lemma_line_then(line: Seq<char>, x: Seq<char>)
    requires
        is_line(line),
        line.last() == '\n' || x.len() == 0,
    ensures
        lines_of(line + x) == seq![line] + lines_of(x),
{
    let s = line + x;
    let n = line.len() as int;
    if line.last() == '\n' {
        assert(s[n - 1] == '\n');
        assert forall|k: int| 0 <= k < n - 1 implies #[trigger] s[k] != '\n' by {
            assert(line[k] != '\n');
        }
        lemma_find_char(s, '\n', n - 1);
        assert(s.take(n) =~= line);
        assert(s.skip(n) =~= x);
    } else {
        assert(s =~= line);
        assert forall|k: int| 0 <= k < n implies #[trigger] s[k] != '\n' by {
            if k == n - 1 {
                assert(s[k] == line.last());
            } else {
                assert(line[k] != '\n');
            }
        }
        lemma_find_char(s, '\n', n);
        assert(lines_of(x) =~= Seq::<Seq<char>>::empty());
        assert(lines_of(s) =~= seq![line] + lines_of(x));
    }
}

/// Lines one after another make a text of those lines.
pub proof fn law_lines_of_joined(lines: Seq<Seq<char>>)
    requires
        are_lines(lines),
    ensures
        lines_of(joined(lines)) == lines,
    decreases lines.len(),
{
    if lines.len() == 0 {
        lemma_find_char(Seq::<char>::empty(), '\n', 0);
        assert(lines_of(joined(lines)) =~= lines);
    } else {
        let first = lines[0];
        let rest = lines.drop_first();
        assert(lines =~= seq![first] + rest);
        lemma_joined_concat(seq![first], rest);
        reveal_with_fuel(joined, 2);
        assert(joined(seq![first]) =~= first);
        assert forall|i: int| 0 <= i < rest.len() implies is_line(#[trigger] rest[i]) by {
            assert(rest[i] == lines[i + 1]);
        }
        assert forall|i: int| 0 <= i < rest.len() - 1 implies (#[trigger] rest[i]).last()
            == '\n' by {
            assert(rest[i] == lines[i + 1]);
        }
        law_lines_of_joined(rest);
        if rest.len() > 0 {
            assert(lines[0].last() == '\n');
        } else {
            assert(joined(rest) =~= Seq::<char>::empty());
        }
        assert(is_line(lines[0]));
        lemma_line_then(first, joined(rest));
    }
}

/// The lines of a text behind another that ends with a line feed stand behind its lines.
pub proof fn law_lines_concat(a: Seq<char>, b: Seq<char>)
    requires
        a.len() == 0 || a.last() == '\n',
    ensures
        lines_of(a + b) == lines_of(a) + lines_of(b),
    decreases a.len(),
{
    if a.len() == 0 {
        assert(a + b =~= b);
        lemma_find_char(a, '\n', 0);
        assert(lines_of(a) + lines_of(b) =~= lines_of(b));
    } else {
        law_lines_shape(a);
        let lines = lines_of(a);
        let first = lines[0];
        let rest = lines.drop_first();
        assert(lines =~= seq![first] + rest);
        lemma_joined_concat(seq![first], rest);
        reveal_with_fuel(joined, 2);
        assert(joined(seq![first]) =~= first);
        let more = joined(rest);
        assert(a =~= first + more);
        assert forall|i: int| 0 <= i < rest.len() implies is_line(#[trigger] rest[i]) by {
            assert(rest[i] == lines[i + 1]);
        }
        assert forall|i: int| 0 <= i < rest.len() - 1 implies (#[trigger] rest[i]).last()
            == '\n' by {
            assert(rest[i] == lines[i + 1]);
        }
        law_lines_of_joined(rest);
        assert(is_line(lines[0]));
        if rest.len() > 0 {
            assert(lines[0].last() == '\n');
            law_lines_shape(more);
            assert(rest.last() == lines.last());
        } else {
            assert(more =~= Seq::<char>::empty());
            assert(lines.last() == first);
        }
        assert(more.len() == 0 || more.last() == '\n');
        law_lines_concat(more, b);
        lemma_line_then(first, more + b);
        assert(a + b =~= first + (more + b));
        assert(lines_of(a + b) =~= lines_of(a) + lines_of(b));
    }
}

} // verus!
