//! Which lines of a cordis.patch.yml a write or a removal touches, said of the characters of the
//! lines: a block runs from its `- insert:` line to its last line of content, and the blank lines
//! and column-0 comments behind that are nobody's.

use vstd::prelude::*;
use crate::line_laws::{are_lines, law_lines_concat, law_lines_of_joined, law_lines_shape};
use crate::mcp_writers::{EntryDef, WriteError};
use crate::mcp_writers::dsh_laws::{
    law_append_keeps_text, law_removal_is_local, law_replacement_is_local,
};
use crate::mcp_writers::dsh_yaml::{
    access_lines, after_deleted, block_text, blocks_from, content_end, def_names, dsh_removed,
    dsh_upserted, env_lines, hits, is_blank_or_comment, is_insert, is_line_end, is_top_item,
    line_ended, line_text, next_item, parsed_defs, plugin_item, rebuilt, without_name, Block,
};
use crate::text::{is_space, joined, lemma_joined_concat, lines_of, starts_with, trim_end};
use crate::trimming::all_space;

verus! {

/// A line that opens a list item at column 0: a dash, with a space or nothing behind it.
pub open spec fn opens_item(line: Seq<char>) -> bool {
    line.len() > 0 && line[0] == '-' && ((line.len() > 1 && line[1] == ' ') || forall|i: int|
        1 <= i < line.len() ==> (#[trigger] line[i] == '\r' || line[i] == '\n'))
}

/// A line that opens a block.
pub open spec fn opens_block(line: Seq<char>) -> bool {
    starts_with(line, seq!['-', ' ', 'i', 'n', 's', 'e', 'r', 't', ':'])
}

/// A line beside the content: white space alone, or a comment at column 0.
pub open spec fn beside(line: Seq<char>) -> bool {
    all_space(line) || line[0] == '#'
}

proof fn lemma_line_text_prefix(line: Seq<char>, p: Seq<char>)
    requires
        p.len() > 0,
        !is_line_end(p.last()),
    ensures
        starts_with(line_text(line), p) == starts_with(line, p),
    decreases line.len(),
{
    if line.len() > 0 && is_line_end(line.last()) {
        let t = line.drop_last();
        lemma_line_text_prefix(t, p);
        if starts_with(line, p) {
            if p.len() == line.len() {
                assert(line.take(p.len() as int) =~= line);
            } else {
                assert(t.take(p.len() as int) =~= line.take(p.len() as int));
            }
        }
        if starts_with(t, p) {
            assert(t.take(p.len() as int) =~= line.take(p.len() as int));
        }
    }
}

proof fn lemma_bare_dash(line: Seq<char>)
    ensures
        line_text(line) == seq!['-'] <==> (line.len() > 0 && line[0] == '-' && forall|i: int|
            1 <= i < line.len() ==> is_line_end(#[trigger] line[i])),
    decreases line.len(),
{
    if line.len() > 0 && is_line_end(line.last()) {
        let t = line.drop_last();
        lemma_bare_dash(t);
        if line_text(line) == seq!['-'] {
            assert(t[0] == line[0]);
            assert forall|i: int| 1 <= i < line.len() implies is_line_end(#[trigger] line[i]) by {
                if i < t.len() {
                    assert(t[i] == line[i]);
                }
            }
        }
        if line[0] == '-' && forall|i: int| 1 <= i < line.len() ==> is_line_end(#[trigger] line[i]) {
            assert(t.len() > 0);
            assert(t[0] == line[0]);
            assert forall|i: int| 1 <= i < t.len() implies is_line_end(#[trigger] t[i]) by {
                assert(t[i] == line[i]);
            }
        }
    } else if line.len() > 0 {
        if line[0] == '-' && forall|i: int| 1 <= i < line.len() ==> is_line_end(#[trigger] line[i]) {
            if line.len() > 1 {
                assert(is_line_end(line[line.len() - 1]));
            }
            assert(line =~= seq!['-']);
        }
    }
}

proof fn lemma_items(line: Seq<char>)
    ensures
        is_top_item(line) == opens_item(line),
        is_insert(line) == opens_block(line),
        opens_block(line) ==> opens_item(line),
{
    reveal_strlit("- ");
    reveal_strlit("-");
    reveal_strlit("- insert:");
    assert("- insert:"@ =~= seq!['-', ' ', 'i', 'n', 's', 'e', 'r', 't', ':']);
    assert("-"@ =~= seq!['-']);
    lemma_line_text_prefix(line, "- insert:"@);
    lemma_line_text_prefix(line, "- "@);
    lemma_bare_dash(line);
    if starts_with(line, "- "@) {
        assert(line.take(2)[0] == "- "@[0]);
        assert(line.take(2)[1] == "- "@[1]);
    }
    if line.len() > 1 && line[0] == '-' && line[1] == ' ' {
        assert(line.take(2) =~= "- "@);
    }
    if opens_block(line) {
        let p = seq!['-', ' ', 'i', 'n', 's', 'e', 'r', 't', ':'];
        assert(line.take(9)[0] == p[0]);
        assert(line.take(9)[1] == p[1]);
    }
    if opens_item(line) && !(line.len() > 1 && line[1] == ' ') {
        assert forall|i: int| 1 <= i < line.len() implies is_line_end(#[trigger] line[i]) by {}
    }
}

proof fn lemma_trim_end_all(s: Seq<char>)
    ensures
        trim_end(s).len() == 0 <==> all_space(s),
        trim_end(s).len() > 0 ==> trim_end(s)[0] == s[0],
    decreases s.len(),
{
    if s.len() > 0 && is_space(s.last()) {
        let t = s.drop_last();
        lemma_trim_end_all(t);
        if all_space(t) {
            assert forall|k: int| 0 <= k < s.len() implies is_space(#[trigger] s[k]) by {
                if k < t.len() {
                    assert(t[k] == s[k]);
                }
            }
        }
        if all_space(s) {
            assert forall|k: int| 0 <= k < t.len() implies is_space(#[trigger] t[k]) by {
                assert(t[k] == s[k]);
            }
        }
    } else if s.len() > 0 {
        assert(!is_space(s[s.len() - 1]));
    }
}

proof fn lemma_beside(line: Seq<char>)
    requires
        line.len() > 0,
    ensures
        is_blank_or_comment(line) == beside(line),
{
    lemma_trim_end_all(line);
    if line[0] == '#' {
        assert(!is_space(line[0]));
    }
}

pub proof fn lemma_next(lines: Seq<Seq<char>>, j: int)
    requires
        0 <= j <= lines.len(),
    ensures
        j <= next_item(lines, j) <= lines.len(),
        forall|m: int| j <= m < next_item(lines, j) ==> !opens_item(#[trigger] lines[m]),
        next_item(lines, j) < lines.len() ==> opens_item(lines[next_item(lines, j)]),
    decreases lines.len() - j,
{
    if j < lines.len() {
        lemma_items(lines[j]);
        if !is_top_item(lines[j]) {
            lemma_next(lines, j + 1);
        }
    }
}

proof fn lemma_content(lines: Seq<Seq<char>>, i: int, j: int)
    requires
        0 <= i < j <= lines.len(),
        are_lines(lines),
    ensures
        i < content_end(lines, i, j) <= j,
        forall|m: int| content_end(lines, i, j) <= m < j ==> beside(#[trigger] lines[m]),
        content_end(lines, i, j) > i + 1 ==> !beside(lines[content_end(lines, i, j) - 1]),
    decreases j - i,
{
    if i + 1 < j {
        lemma_beside(lines[j - 1]);
        if is_blank_or_comment(lines[j - 1]) {
            lemma_content(lines, i, j - 1);
        }
    }
}

/// Whether the lines from `a` to `b` are the content of a block: the first opens it, no other opens
/// an item, the last is neither blank nor a column-0 comment, and what follows up to the next item
/// is nothing else.
pub open spec fn is_content(lines: Seq<Seq<char>>, a: int, b: int) -> bool {
    &&& 0 <= a < b <= lines.len()
    &&& opens_block(lines[a])
    &&& forall|m: int| a < m < b ==> !opens_item(#[trigger] lines[m])
    &&& b > a + 1 ==> !beside(lines[b - 1])
    &&& forall|m: int|
        b <= m < lines.len() && !beside(#[trigger] lines[m]) ==> exists|q: int|
            b <= q <= m && opens_item(#[trigger] lines[q])
}

proof fn lemma_blocks(lines: Seq<Seq<char>>, i: int, k: int)
    requires
        0 <= i,
        are_lines(lines),
        0 <= k < blocks_from(lines, i).len(),
    ensures
        ({
            let b = blocks_from(lines, i)[k];
            i <= b.start && is_content(lines, b.start, b.content_end)
        }),
    decreases lines.len() - i,
{
    if i < lines.len() {
        lemma_items(lines[i]);
        if !is_insert(lines[i]) {
            lemma_blocks(lines, i + 1, k);
        } else {
            let j = next_item(lines, i + 1);
            lemma_next(lines, i + 1);
            lemma_content(lines, i, j);
            if k > 0 {
                assert(blocks_from(lines, i)[k] == blocks_from(lines, j)[k - 1]);
                lemma_blocks(lines, j, k - 1);
            } else {
                let e = content_end(lines, i, j);
                assert forall|m: int| e <= m < lines.len() && !beside(#[trigger] lines[m]) implies exists|
                    q: int,
                |
                    e <= q <= m && opens_item(#[trigger] lines[q]) by {
                    assert(opens_item(lines[j]));
                }
            }
        }
    }
}

/// The blocks of a text are those that its `- insert:` lines at column 0 open, each with its
/// content.
pub proof fn law_blocks_are_found(text: Seq<char>, k: int)
    requires
        0 <= k < blocks_from(lines_of(text), 0).len(),
    ensures
        ({
            let b = blocks_from(lines_of(text), 0)[k];
            is_content(lines_of(text), b.start, b.content_end)
        }),
{
    law_lines_shape(text);
    lemma_blocks(lines_of(text), 0, k);
}

proof fn lemma_every_block(lines: Seq<Seq<char>>, i: int, p: int) -> (k: int)
    requires
        0 <= i <= p < lines.len(),
        opens_block(lines[p]),
    ensures
        0 <= k < blocks_from(lines, i).len(),
        blocks_from(lines, i)[k].start == p,
    decreases lines.len() - i,
{
    lemma_items(lines[i]);
    lemma_items(lines[p]);
    if !is_insert(lines[i]) {
        lemma_every_block(lines, i + 1, p)
    } else if i == p {
        0
    } else {
        let j = next_item(lines, i + 1);
        lemma_next(lines, i + 1);
        if p < j {
            assert(!opens_item(lines[p]));
        }
        let k = lemma_every_block(lines, j, p);
        assert(blocks_from(lines, i)[k + 1] == blocks_from(lines, j)[k]);
        k + 1
    }
}

/// Every `- insert:` line at column 0 opens a block.
pub proof fn law_every_block_is_found(text: Seq<char>, p: int)
    requires
        0 <= p < lines_of(text).len(),
        opens_block(lines_of(text)[p]),
    ensures
        exists|k: int|
            0 <= k < blocks_from(lines_of(text), 0).len() && (#[trigger] blocks_from(
                lines_of(text),
                0,
            )[k]).start == p,
{
    let k = lemma_every_block(lines_of(text), 0, p);
}

proof fn lemma_block_defs(lines: Seq<Seq<char>>, i: int, k: int, j: int)
    requires
        0 <= i,
        0 <= k < blocks_from(lines, i).len(),
        blocks_from(lines, i)[k].start < j <= lines.len(),
        forall|m: int|
            blocks_from(lines, i)[k].start < m < j ==> !opens_item(#[trigger] lines[m]),
        j < lines.len() ==> opens_item(lines[j]),
    ensures
        ({
            let b = blocks_from(lines, i)[k];
            let own = parsed_defs(joined(lines.subrange(b.start, j)));
            b.defs == match own {
                Ok(defs) => defs,
                Err(_) => Seq::empty(),
            }
        }),
        parsed_defs(joined(lines.subrange(blocks_from(lines, i)[k].start, j))) is Err
            ==> blocks_from(lines, i)[k].foreign,
    decreases lines.len() - i,
{
    if i < lines.len() {
        if !is_insert(lines[i]) {
            lemma_block_defs(lines, i + 1, k, j);
        } else {
            let n = next_item(lines, i + 1);
            lemma_next(lines, i + 1);
            if k > 0 {
                assert(blocks_from(lines, i)[k] == blocks_from(lines, n)[k - 1]);
                lemma_block_defs(lines, n, k - 1, j);
            } else {
                if n < j {
                    assert(opens_item(lines[n]));
                } else if j < n {
                    assert(!opens_item(lines[j]));
                }
            }
        }
    }
}

/// What a block declares is what its own lines read as, up to the next column-0 item; a block that
/// does not read declares nothing and may not be rebuilt.
pub proof fn law_block_declares_what_it_reads(text: Seq<char>, k: int, j: int)
    requires
        0 <= k < blocks_from(lines_of(text), 0).len(),
        blocks_from(lines_of(text), 0)[k].start < j <= lines_of(text).len(),
        forall|m: int|
            blocks_from(lines_of(text), 0)[k].start < m < j ==> !opens_item(
                #[trigger] lines_of(text)[m],
            ),
        j < lines_of(text).len() ==> opens_item(lines_of(text)[j]),
    ensures
        ({
            let b = blocks_from(lines_of(text), 0)[k];
            match parsed_defs(joined(lines_of(text).subrange(b.start, j))) {
                Ok(defs) => b.defs == defs,
                Err(_) => b.defs.len() == 0 && b.foreign,
            }
        }),
{
    lemma_block_defs(lines_of(text), 0, k, j);
}

proof fn lemma_env_ended(env: Seq<(Seq<char>, Seq<char>)>)
    requires
        env.len() > 0,
    ensures
        env_lines(env).len() > 0,
        env_lines(env).last() == '\n',
{
    reveal_strlit("\n");
    reveal_strlit(": ");
}

proof fn lemma_access_ended(e: EntryDef)
    ensures
        access_lines(e).len() > 0,
        access_lines(e).last() == '\n',
{
    reveal_strlit("\n");
    reveal_strlit(": ");
}

proof fn lemma_item_ended(e: EntryDef)
    ensures
        plugin_item(e).len() > 0,
        plugin_item(e).last() == '\n',
{
    lemma_access_ended(e);
    if e.env.len() > 0 {
        lemma_env_ended(e.env);
    } else {
        let s = plugin_item(e);
        assert(s.last() == access_lines(e).last());
    }
}

/// A rendered block ends with a line feed.
pub proof fn lemma_block_ended(defs: Seq<EntryDef>)
    ensures
        block_text(defs).len() > 0,
        block_text(defs).last() == '\n',
{
    reveal_strlit("- insert:\n");
    if defs.len() > 0 {
        lemma_item_ended(defs.last());
        let s = block_text(defs);
        assert(s.last() == plugin_item(defs.last()).last());
    } else {
        assert(block_text(defs) =~= "- insert:\n"@);
    }
}

// A text of kept lines, a middle that ends with a line feed, and kept lines.
proof fn lemma_lines_around(lines: Seq<Seq<char>>, a: int, b: int, middle: Seq<char>)
    requires
        are_lines(lines),
        0 <= a <= b <= lines.len(),
        a < lines.len(),
        middle.len() == 0 || middle.last() == '\n',
    ensures
        lines_of(joined(lines.take(a)) + middle + joined(lines.skip(b))) == lines.take(a) + lines_of(
            middle,
        ) + lines.skip(b),
{
    let front = lines.take(a);
    let behind = lines.skip(b);
    assert forall|i: int| 0 <= i < front.len() implies #[trigger] front[i] == lines[i] by {}
    assert(are_lines(front));
    assert forall|i: int| 0 <= i < behind.len() implies #[trigger] behind[i] == lines[i + b] by {}
    assert(are_lines(behind));
    law_lines_of_joined(front);
    law_lines_of_joined(behind);
    if a > 0 {
        assert(front.last() == lines[a - 1]);
        assert(lines[a - 1].last() == '\n');
        law_lines_shape(joined(front));
        assert(joined(front).len() > 0) by {
            assert(joined(front) == joined(front.drop_last()) + front.last());
        }
    } else {
        assert(joined(front) =~= Seq::<char>::empty());
    }
    let head = joined(front);
    law_lines_concat(head, middle);
    law_lines_concat(head + middle, joined(behind));
}

// The lines of a text in which the content of a block was exchanged.
#[verifier::rlimit(50)]
proof fn lemma_replaced_lines(text: Seq<char>, entry: EntryDef, new: Seq<char>) -> (cut: (
    int,
    int,
    Seq<Seq<char>>,
))
    requires
        dsh_upserted(text, entry) == Ok::<Seq<char>, WriteError>(new),
        hits(blocks_from(lines_of(text), 0), entry.name).len() > 0,
    ensures
        is_content(lines_of(text), cut.0, cut.1),
        lines_of(new) == lines_of(text).take(cut.0) + cut.2 + lines_of(text).skip(cut.1),
{
    let lines = lines_of(text);
    let blocks = blocks_from(lines, 0);
    law_lines_shape(text);
    let b = law_replacement_is_local(text, entry, new);
    let k = choose|k: int| 0 <= k < blocks.len() && blocks[k] == b;
    law_blocks_are_found(text, k);
    let defs = rebuilt(b.defs, entry);
    lemma_block_ended(defs);
    lemma_lines_around(lines, b.start, b.content_end, block_text(defs));
    (b.start, b.content_end, lines_of(block_text(defs)))
}

proof fn lemma_declares(defs: Seq<EntryDef>, name: Seq<char>)
    requires
        def_names(defs).contains(name),
    ensures
        exists|d: int| 0 <= d < defs.len() && (#[trigger] defs[d]).name == name,
{
    let names = def_names(defs);
    let d = choose|d: int| 0 <= d < names.len() && names[d] == name;
    assert(defs[d].name == name);
}

// The content lines of the block that declares a name, exchanged.
#[verifier::rlimit(50)]
#[verifier::spinoff_prover]
proof fn lemma_named_block(text: Seq<char>, entry: EntryDef, new: Seq<char>) -> (b: Block)
    requires
        dsh_upserted(text, entry) == Ok::<Seq<char>, WriteError>(new),
        hits(blocks_from(lines_of(text), 0), entry.name).len() > 0,
    ensures
        blocks_from(lines_of(text), 0).contains(b),
        def_names(b.defs).contains(entry.name),
        is_content(lines_of(text), b.start, b.content_end),
        lines_of(new) == lines_of(text).take(b.start) + lines_of(
            block_text(rebuilt(b.defs, entry)),
        ) + lines_of(text).skip(b.content_end),
{
    let lines = lines_of(text);
    let blocks = blocks_from(lines, 0);
    law_lines_shape(text);
    let b = law_replacement_is_local(text, entry, new);
    let k = choose|k: int| 0 <= k < blocks.len() && blocks[k] == b;
    law_blocks_are_found(text, k);
    let defs = rebuilt(b.defs, entry);
    lemma_block_ended(defs);
    lemma_lines_around(lines, b.start, b.content_end, block_text(defs));
    b
}

/// The block that a write exchanges is the one that declares the name: its content lines give way to
/// the block with the definition in its place, and every other line stays, column-0 comments in front
/// of it, behind it and in other blocks among them.
#[verifier::rlimit(50)]
#[verifier::spinoff_prover]
pub proof fn law_only_the_named_block_is_exchanged(text: Seq<char>, entry: EntryDef, new: Seq<char>) -> (b:
    Block)
    requires
        dsh_upserted(text, entry) == Ok::<Seq<char>, WriteError>(new),
        text != seq!['[', ']'],
        !starts_with(new, text),
    ensures
        blocks_from(lines_of(text), 0).contains(b),
        exists|d: int| 0 <= d < b.defs.len() && (#[trigger] b.defs[d]).name == entry.name,
        is_content(lines_of(text), b.start, b.content_end),
        lines_of(new) == lines_of(text).take(b.start) + lines_of(
            block_text(rebuilt(b.defs, entry)),
        ) + lines_of(text).skip(b.content_end),
{
    reveal_strlit("[]");
    assert("[]"@ =~= seq!['[', ']']);
    if hits(blocks_from(lines_of(text), 0), entry.name).len() == 0 {
        law_append_keeps_text(text, entry, new);
    }
    let b = lemma_named_block(text, entry, new);
    lemma_declares(b.defs, entry.name);
    b
}

/// A write of a name keeps the whole text, or it exchanges the content lines of one block and keeps
/// every line in front of them and behind them, column-0 comments among them. Only the blank
/// document gives way.
pub proof fn law_upsert_keeps_other_lines(text: Seq<char>, entry: EntryDef, new: Seq<char>) -> (cut: (
    int,
    int,
    Seq<Seq<char>>,
))
    requires
        dsh_upserted(text, entry) == Ok::<Seq<char>, WriteError>(new),
    ensures
        text == seq!['[', ']'] || starts_with(new, text) || {
            let lines = lines_of(text);
            &&& is_content(lines, cut.0, cut.1)
            &&& lines_of(new) == lines.take(cut.0) + cut.2 + lines.skip(cut.1)
        },
{
    reveal_strlit("[]");
    assert("[]"@ =~= seq!['[', ']']);
    if hits(blocks_from(lines_of(text), 0), entry.name).len() == 0 {
        law_append_keeps_text(text, entry, new);
        (0, 0, Seq::empty())
    } else {
        lemma_replaced_lines(text, entry, new)
    }
}

/// A removal leaves the text, or it takes the content lines of one block away or exchanges them, and
/// keeps every other line but the one empty line right behind a block that is gone.
#[verifier::rlimit(50)]
pub proof fn law_remove_keeps_other_lines(text: Seq<char>, name: Seq<char>, new: Seq<char>) -> (cut: (
    int,
    int,
    int,
    Seq<Seq<char>>,
))
    requires
        dsh_removed(text, name) == Ok::<Seq<char>, WriteError>(new),
    ensures
        new == text || {
            let lines = lines_of(text);
            &&& is_content(lines, cut.0, cut.1)
            &&& cut.2 == cut.1 || (cut.2 == cut.1 + 1 && cut.1 < lines.len() && lines[cut.1]
                == seq!['\n'] && cut.3.len() == 0)
            &&& lines_of(new) == lines.take(cut.0) + cut.3 + lines.skip(cut.2)
        },
{
    let lines = lines_of(text);
    let blocks = blocks_from(lines, 0);
    law_lines_shape(text);
    if !def_names(parsed_defs(text)->Ok_0).contains(name) {
        (0, 0, 0, Seq::empty())
    } else {
        let b = law_removal_is_local(text, name, new);
        let k = choose|k: int| 0 <= k < blocks.len() && blocks[k] == b;
        law_blocks_are_found(text, k);
        let left = without_name(b.defs, name);
        if left.len() == 0 {
            let to = after_deleted(lines, b.content_end);
            if to > b.content_end {
                let line = lines[b.content_end];
                assert(crate::line_laws::is_line(line));
                if line.len() > 1 {
                    assert(line[0] != '\n');
                }
                assert(line =~= seq!['\n']);
            }
            let none = Seq::<char>::empty();
            lemma_lines_around(lines, b.start, to, none);
            law_lines_of_joined(Seq::empty());
            assert(joined(Seq::<Seq<char>>::empty()) =~= none);
            assert(joined(lines.take(b.start)) + none + joined(lines.skip(to)) =~= new);
            (b.start, b.content_end, to, Seq::empty())
        } else {
            lemma_block_ended(left);
            lemma_lines_around(lines, b.start, b.content_end, block_text(left));
            (b.start, b.content_end, b.content_end, lines_of(block_text(left)))
        }
    }
}

/// Whether the line at `i` is followed by a content line before the next column-0 item.
pub open spec fn content_follows(lines: Seq<Seq<char>>, i: int) -> bool {
    exists|m: int|
        i < m < lines.len() && !beside(#[trigger] lines[m]) && forall|q: int|
            i < q <= m ==> !opens_item(#[trigger] lines[q])
}

/// A column-0 comment that no content line of a block follows is a line of the text after every
/// write and every removal, and those comments stay in their order.
#[verifier::rlimit(50)]
pub proof fn law_comments_stay(text: Seq<char>, entry: EntryDef, new: Seq<char>, i: int, j: int) -> (at: (
    int,
    int,
))
    requires
        dsh_upserted(text, entry) == Ok::<Seq<char>, WriteError>(new) || dsh_removed(text, entry.name)
            == Ok::<Seq<char>, WriteError>(new),
        0 <= i <= j < lines_of(text).len(),
        lines_of(text)[i][0] == '#',
        lines_of(text)[j][0] == '#',
        !content_follows(lines_of(text), i),
        !content_follows(lines_of(text), j),
    ensures
        0 <= at.0 <= at.1 < lines_of(new).len(),
        i < j ==> at.0 < at.1 && lines_of(new)[at.0] == lines_of(text)[i],
        lines_of(new)[at.1] == lines_of(text)[j] || lines_of(new)[at.1] == lines_of(text)[j].push('\n'),
{
    let lines = lines_of(text);
    law_lines_shape(text);
    if dsh_upserted(text, entry) == Ok::<Seq<char>, WriteError>(new) {
        if hits(blocks_from(lines, 0), entry.name).len() == 0 {
            law_append_keeps_text(text, entry, new);
            reveal_strlit("[]");
            if text == "[]"@ {
                lemma_lines_are_hash(text, i);
            }
            lemma_appended_lines(text, block_text(seq![entry]));
            (i, j)
        } else {
            let (a, b, middle) = lemma_replaced_lines(text, entry, new);
            lemma_places(lines, a, b, b, middle, i, j)
        }
    } else {
        let (a, b, to, middle) = law_remove_keeps_other_lines(text, entry.name, new);
        if new == text {
            (i, j)
        } else {
            lemma_places(lines, a, b, to, middle, i, j)
        }
    }
}

proof fn lemma_places(
    lines: Seq<Seq<char>>,
    a: int,
    b: int,
    to: int,
    middle: Seq<Seq<char>>,
    i: int,
    j: int,
) -> (at: (int, int))
    requires
        are_lines(lines),
        is_content(lines, a, b),
        to == b || (to == b + 1 && b < lines.len() && lines[b] == seq!['\n']),
        0 <= i <= j < lines.len(),
        lines[i][0] == '#',
        lines[j][0] == '#',
        !content_follows(lines, i),
        !content_follows(lines, j),
    ensures
        ({
            let new = lines.take(a) + middle + lines.skip(to);
            &&& 0 <= at.0 <= at.1 < new.len()
            &&& i < j ==> at.0 < at.1
            &&& new[at.0] == lines[i]
            &&& new[at.1] == lines[j]
        }),
{
    let new = lines.take(a) + middle + lines.skip(to);
    lemma_outside_cut(lines, a, b, i);
    lemma_outside_cut(lines, a, b, j);
    lemma_moved(lines, a, to, middle, i);
    lemma_moved(lines, a, to, middle, j);
    let d = new.len() - lines.len();
    (
        if i < a {
            i
        } else {
            i + d
        },
        if j < a {
            j
        } else {
            j + d
        },
    )
}

// A line that starts with a character has it in the text.
proof fn lemma_lines_are_hash(text: Seq<char>, i: int)
    requires
        0 <= i < lines_of(text).len(),
        lines_of(text)[i][0] == '#',
    ensures
        text.contains('#'),
{
    law_lines_shape(text);
    let lines = lines_of(text);
    assert(lines =~= lines.take(i) + seq![lines[i]] + lines.skip(i + 1));
    lemma_joined_concat(lines.take(i) + seq![lines[i]], lines.skip(i + 1));
    lemma_joined_concat(lines.take(i), seq![lines[i]]);
    reveal_with_fuel(joined, 2);
    assert(joined(seq![lines[i]]) =~= lines[i]);
    assert(crate::line_laws::is_line(lines[i]));
    assert(text[joined(lines.take(i)).len() as int] == '#');
}

// The lines of a text that a block was appended to.
proof fn lemma_appended_lines(text: Seq<char>, block: Seq<char>)
    requires
        text.len() > 0,
    ensures
        ({
            let new = line_ended(text) + "\n"@ + block;
            let lines = lines_of(text);
            &&& lines_of(new).len() >= lines.len()
            &&& forall|i: int| 0 <= i < lines.len() - 1 ==> #[trigger] lines_of(new)[i] == lines[i]
            &&& lines_of(new)[lines.len() - 1] == lines.last() || lines_of(new)[lines.len() - 1]
                == lines.last().push('\n')
        }),
{
    let lines = lines_of(text);
    let ended = line_ended(text);
    law_lines_shape(text);
    let own = if text.last() == '\n' {
        lines
    } else {
        lines.drop_last().push(lines.last().push('\n'))
    };
    if text.last() != '\n' {
        let last = lines.last();
        assert(crate::line_laws::is_line(lines[lines.len() - 1]));
        assert(are_lines(own)) by {
            assert forall|k: int| 0 <= k < own.len() implies crate::line_laws::is_line(
                #[trigger] own[k],
            ) by {
                if k < lines.len() - 1 {
                    assert(own[k] == lines[k]);
                } else {
                    let l = last.push('\n');
                    assert forall|q: int| 0 <= q < l.len() - 1 implies #[trigger] l[q] != '\n' by {
                        assert(l[q] == last[q]);
                        if q == last.len() - 1 {
                            assert(last.last() == text.last());
                        }
                    }
                }
            }
            assert forall|k: int| 0 <= k < own.len() - 1 implies (#[trigger] own[k]).last()
                == '\n' by {
                assert(own[k] == lines[k]);
            }
        }
        law_lines_of_joined(own);
        assert(own.drop_last() =~= lines.drop_last());
        assert(joined(own) =~= joined(lines).push('\n'));
    }
    assert(lines_of(ended) == own);
    assert(ended.last() == '\n');
    law_lines_concat(ended, "\n"@ + block);
    assert(ended + "\n"@ + block =~= ended + ("\n"@ + block));
}

// A comment that no content follows lies outside the content of every block.
proof fn lemma_outside_cut(lines: Seq<Seq<char>>, a: int, b: int, i: int)
    requires
        is_content(lines, a, b),
        0 <= i < lines.len(),
        lines[i].len() > 0,
        lines[i][0] == '#',
        !content_follows(lines, i),
    ensures
        i < a || i >= b,
{
    lemma_items(lines[a]);
    if a < i < b {
        if i == b - 1 {
            assert(beside(lines[i]));
        } else {
            assert(!beside(lines[b - 1]));
            assert forall|q: int| i < q <= b - 1 implies !opens_item(#[trigger] lines[q]) by {}
        }
    } else if i == a {
        assert(lines[a][0] == '-');
    }
}

proof fn lemma_moved(lines: Seq<Seq<char>>, a: int, b: int, middle: Seq<Seq<char>>, i: int)
    requires
        0 <= a <= b <= lines.len(),
        0 <= i < a || b <= i < lines.len(),
    ensures
        ({
            let new = lines.take(a) + middle + lines.skip(b);
            let at = if i < a {
                i
            } else {
                i + new.len() - lines.len()
            };
            0 <= at < new.len() && new[at] == lines[i]
        }),
{
    let new = lines.take(a) + middle + lines.skip(b);
    if i >= b {
        assert(new[i + new.len() - lines.len()] == lines.skip(b)[i - b]);
    }
}

} // verus!
