//! What the inference of a source does not depend on.

use vstd::prelude::*;
use vstd::utf8::*;
use crate::mcp_upstream::{
    base_name, is_launcher, launcher_source, node_modules_at, package_in_path, path_segments,
    positional, source_for_tool, starts_launcher, takes_value, tool_of, value_of_flag, without_exe,
    without_version, Source,
};
use crate::pieces::lemma_all_stay;
use crate::text::{
    ascii_lower, ascii_lowered, ends_with, is_space, join, lemma_rfind_char, lemma_trim_end,
    lemma_trim_start, replace_char, rfind, rfind_char, starts_with, trimmed,
};
use crate::text_laws::{
    has_at, law_replace_char, law_rfind, law_rfind_char, law_split_joined, lemma_replace_none,
    without,
};

verus! {

// Backslashes as slashes, place by place.
proof fn lemma_slashes(s: Seq<char>)
    ensures
        replace_char(s, '\\', "/"@).len() == s.len(),
        forall|i: int|
            0 <= i < s.len() ==> #[trigger] replace_char(s, '\\', "/"@)[i] == if s[i] == '\\' {
                '/'
            } else {
                s[i]
            },
    decreases s.len(),
{
    reveal_strlit("/");
    if s.len() > 0 {
        lemma_slashes(s.drop_last());
    }
}

/// A name of a program: no separators in it and no space round it.
pub open spec fn program_name(cmd: Seq<char>) -> bool {
    &&& cmd.len() > 0
    &&& !is_space(cmd[0]) && !is_space(cmd.last())
    &&& forall|i: int| 0 <= i < cmd.len() ==> #[trigger] cmd[i] != '/' && cmd[i] != '\\'
}

proof fn lemma_base_name(dir: Seq<char>, cmd: Seq<char>)
    requires
        program_name(cmd),
        dir.len() > 0 ==> dir.last() == '/' || dir.last() == '\\',
    ensures
        base_name(dir + cmd) == cmd,
{
    let s = dir + cmd;
    let t = replace_char(s, '\\', "/"@);
    lemma_slashes(s);
    assert forall|k: int| dir.len() <= k < t.len() implies #[trigger] t[k] != '/' by {
        assert(s[k] == cmd[k - dir.len()]);
    }
    if dir.len() > 0 {
        assert(s[dir.len() - 1] == dir.last());
        assert(t[dir.len() - 1] == '/');
    }
    lemma_rfind_char(t, '/', dir.len() as int);
    let tail = if dir.len() > 0 {
        t.skip(dir.len() as int)
    } else {
        t
    };
    assert(tail =~= cmd) by {
        assert forall|i: int| 0 <= i < cmd.len() implies tail[i] == cmd[i] by {
            assert(t[dir.len() + i] == s[dir.len() + i]);
        }
    }
}

// The first place that is no space.
proof fn lemma_first_solid(s: Seq<char>, last: int) -> (i: int)
    requires
        0 <= last < s.len(),
        !is_space(s[last]),
    ensures
        0 <= i <= last,
        !is_space(s[i]),
        forall|k: int| 0 <= k < i ==> is_space(#[trigger] s[k]),
    decreases s.len(),
{
    if !is_space(s[0]) {
        0
    } else {
        let i = lemma_first_solid(s.drop_first(), last - 1);
        assert forall|k: int| 0 <= k < i + 1 implies is_space(#[trigger] s[k]) by {
            if k > 0 {
                assert(is_space(s.drop_first()[k - 1]));
            }
        }
        i + 1
    }
}

/// A program classifies the same whatever directory it is started from.
pub proof fn law_paths_classify_like_bare_commands(dir: Seq<char>, cmd: Seq<char>)
    requires
        program_name(cmd),
        dir.len() > 0,
        dir.last() == '/' || dir.last() == '\\',
    ensures
        tool_of(dir + cmd) == tool_of(cmd),
{
    let s = dir + cmd;
    assert(s[dir.len() - 1] == dir.last());
    assert(s.last() == cmd.last());
    let i = lemma_first_solid(s, dir.len() - 1);
    lemma_trim_start(s, i);
    let t = s.skip(i);
    assert(t.last() == cmd.last());
    lemma_trim_end(t, t.len() as int);
    assert(trimmed(s) =~= dir.skip(i) + cmd);
    assert(dir.skip(i).last() == dir.last());
    lemma_base_name(dir.skip(i), cmd);
    lemma_trim_start(cmd, 0);
    assert(cmd.skip(0) =~= cmd);
    lemma_trim_end(cmd, cmd.len() as int);
    assert(trimmed(cmd) =~= cmd);
    lemma_base_name(Seq::empty(), cmd);
    assert(Seq::<char>::empty() + cmd =~= cmd);
}

// The program of a command, whatever directory stands in front of it.
proof fn lemma_program(dir: Seq<char>, cmd: Seq<char>)
    requires
        program_name(cmd),
        dir.len() > 0 ==> dir.last() == '/' || dir.last() == '\\',
    ensures
        base_name(trimmed(dir + cmd)) == cmd,
{
    let s = dir + cmd;
    assert(s.last() == cmd.last());
    if dir.len() > 0 {
        assert(s[dir.len() - 1] == dir.last());
        let i = lemma_first_solid(s, dir.len() - 1);
        lemma_trim_start(s, i);
        let t = s.skip(i);
        assert(t.last() == cmd.last());
        lemma_trim_end(t, t.len() as int);
        assert(trimmed(s) =~= dir.skip(i) + cmd);
        assert(dir.skip(i).last() == dir.last());
        lemma_base_name(dir.skip(i), cmd);
    } else {
        assert(s =~= cmd);
        lemma_trim_start(cmd, 0);
        assert(cmd.skip(0) =~= cmd);
        lemma_trim_end(cmd, cmd.len() as int);
        assert(trimmed(cmd) =~= cmd);
        lemma_base_name(Seq::empty(), cmd);
        assert(Seq::<char>::empty() + cmd =~= cmd);
    }
}

proof fn lemma_lowered_letter(c: char, low: char)
    requires
        ascii_lower(c) == low,
        'a' <= low <= 'z',
    ensures
        ('a' <= c <= 'z') || ('A' <= c <= 'Z'),
{
}

// A launcher's name is made of letters.
proof fn lemma_launcher(tool: Seq<char>)
    requires
        is_launcher(ascii_lowered(tool)),
    ensures
        tool.len() > 0,
        forall|i: int|
            0 <= i < tool.len() ==> ('a' <= #[trigger] tool[i] <= 'z') || ('A' <= tool[i] <= 'Z'),
{
    let low = ascii_lowered(tool);
    lemma_launcher_letters(low);
    assert forall|i: int| 0 <= i < tool.len() implies ('a' <= #[trigger] tool[i] <= 'z') || ('A'
        <= tool[i] <= 'Z') by {
        assert('a' <= low[i] <= 'z');
        lemma_lowered_letter(tool[i], low[i]);
    }
}

proof fn lemma_launcher_letters(tool: Seq<char>)
    requires
        is_launcher(tool),
    ensures
        tool.len() > 0,
        forall|i: int| 0 <= i < tool.len() ==> 'a' <= #[trigger] tool[i] <= 'z',
{
    reveal_strlit("npx");
    reveal_strlit("uvx");
    reveal_strlit("node");
    reveal_strlit("nodejs");
    reveal_strlit("bun");
    if tool == "npx"@ {
        assert("npx"@.len() == 3);
    } else if tool == "uvx"@ {
        assert("uvx"@.len() == 3);
    } else if tool == "node"@ {
        assert("node"@.len() == 4);
    } else if tool == "nodejs"@ {
        assert("nodejs"@.len() == 6);
    } else {
        assert("bun"@.len() == 3);
    }
}

// A launcher's name, bare and with `.exe` behind it.
proof fn lemma_launcher_names(tool: Seq<char>)
    requires
        is_launcher(ascii_lowered(tool)),
    ensures
        is_ascii_chars(tool),
        program_name(tool),
        program_name(tool + ".exe"@),
        without_exe(tool) == tool,
        without_exe(tool + ".exe"@) == tool,
{
    let exe = tool + ".exe"@;
    reveal_strlit(".exe");
    lemma_launcher(tool);
    assert(tool.last() == tool[tool.len() - 1]);
    assert(exe[0] == tool[0]);
    assert forall|i: int| 0 <= i < exe.len() implies #[trigger] exe[i] != '/' && exe[i] != '\\' by {
        if i < tool.len() {
            assert(exe[i] == tool[i]);
        } else {
            assert(exe[i] == ".exe"@[i - tool.len()]);
        }
    }
    assert(exe.last() == 'e');
    assert(exe.skip(exe.len() - 4) =~= ".exe"@);
    assert(exe.take(exe.len() - 4) =~= tool);
    assert(without_exe(tool) == tool) by {
        if ends_with(tool, ".exe"@) {
            assert(tool.skip(tool.len() - 4)[0] == ".exe"@[0]);
            assert(tool[tool.len() - 4] == '.');
        }
    }
}

/// A launcher's package is inferred the same from the bare command, from a path to it, and with
/// `.exe` behind either.
pub proof fn law_launchers_infer_alike(dir: Seq<char>, tool: Seq<char>, args: Seq<Seq<char>>)
    requires
        is_launcher(ascii_lowered(tool)),
        dir.len() > 0 ==> dir.last() == '/' || dir.last() == '\\',
    ensures
        starts_launcher(tool),
        starts_launcher(dir + tool),
        starts_launcher(dir + (tool + ".exe"@)),
        launcher_source(dir + tool, args) == launcher_source(tool, args),
        launcher_source(dir + (tool + ".exe"@), args) == launcher_source(tool, args),
        launcher_source(tool, args) == source_for_tool(ascii_lowered(tool), Seq::empty(), args),
{
    lemma_launcher_names(tool);
    lemma_program(dir, tool);
    lemma_program(dir, tool + ".exe"@);
    lemma_program(Seq::empty(), tool);
    assert(Seq::<char>::empty() + tool =~= tool);
}

/// Flags stand in nobody's way: a flag of its own, or one with its value, is skipped before the
/// package is looked for.
pub proof fn law_flags_are_skipped(flag: Seq<char>, value: Seq<char>, args: Seq<Seq<char>>)
    requires
        starts_with(flag, "-"@),
    ensures
        !takes_value(flag) ==> positional(seq![flag] + args) == positional(args),
        takes_value(flag) ==> positional(seq![flag, value] + args) == positional(args),
{
    assert((seq![flag] + args).skip(1) =~= args);
    assert((seq![flag, value] + args).skip(2) =~= args);
    reveal_strlit("-");
    assert("-"@[0] == '-');
    assert(flag.take(1)[0] == '-');
    assert(flag[0] == '-');
}

// The last place of a text that does not come again.
proof fn lemma_rfind(s: Seq<char>, pat: Seq<char>, at: int)
    requires
        0 <= at,
        at + pat.len() <= s.len(),
        s.subrange(at, at + pat.len()) == pat,
        forall|k: int|
            at < k && k + pat.len() <= s.len() ==> #[trigger] s.subrange(k, k + pat.len()) != pat,
    ensures
        rfind(s, pat) == Some(at),
    decreases s.len(),
{
    let k = s.len() - pat.len();
    if k == at {
        assert(s.skip(k) =~= s.subrange(at, at + pat.len()));
        assert(ends_with(s, pat));
    } else {
        assert(s.subrange(k, k + pat.len()) != pat);
        if ends_with(s, pat) {
            assert(s.subrange(k, k + pat.len()) =~= s.skip(k));
        }
        let t = s.drop_last();
        assert(t.subrange(at, at + pat.len()) =~= s.subrange(at, at + pat.len()));
        assert forall|q: int| at < q && q + pat.len() <= t.len() implies #[trigger] t.subrange(
            q,
            q + pat.len(),
        ) != pat by {
            assert(t.subrange(q, q + pat.len()) =~= s.subrange(q, q + pat.len()));
        }
        lemma_rfind(t, pat, at);
    }
}

/// A package nested in others is the innermost one: what stands before the last `node_modules/`
/// does not count.
pub proof fn law_innermost_package(outer: Seq<char>, inner: Seq<char>)
    requires
        forall|k: int|
            0 <= k && k + 13 <= inner.len() ==> #[trigger] inner.subrange(k, k + 13)
                != "node_modules/"@,
    ensures
        package_in_path(outer + "node_modules/"@ + inner) == package_in_path(
            "node_modules/"@ + inner,
        ),
{
    lemma_last_marker(outer, inner);
    lemma_last_marker(Seq::empty(), inner);
    let marker = "node_modules/"@;
    reveal_strlit("node_modules/");
    let s = outer + marker + inner;
    let t = marker + inner;
    assert(Seq::<char>::empty() + marker + inner =~= t);
    assert(s.skip(outer.len() as int + 13) =~= inner);
    assert(t.skip(13) =~= inner);
}

proof fn lemma_last_marker(outer: Seq<char>, inner: Seq<char>)
    requires
        forall|k: int|
            0 <= k && k + 13 <= inner.len() ==> #[trigger] inner.subrange(k, k + 13)
                != "node_modules/"@,
    ensures
        node_modules_at(outer + "node_modules/"@ + inner) == Some(outer.len() as int),
{
    let marker = "node_modules/"@;
    reveal_strlit("node_modules/");
    assert(marker.len() == 13);
    let s = outer + marker + inner;
    let at = outer.len() as int;
    assert(s.subrange(at, at + 13) =~= marker);
    assert forall|k: int| at < k && k + marker.len() <= s.len() implies #[trigger] s.subrange(
        k,
        k + marker.len(),
    ) != marker by {
        let w = s.subrange(k, k + 13);
        if k < at + 13 {
            assert(w[0] == marker[k - at]);
            assert(marker[0] == 'n');
            assert(marker[k - at] != 'n');
        } else {
            let p = k - at - 13;
            assert(w =~= inner.subrange(p, p + 13));
        }
    }
    lemma_rfind(s, marker, at);
}

// The value of the first occurrence of a flag.
proof fn lemma_flag_value(args: Seq<Seq<char>>, flag: Seq<char>, i: int)
    requires
        0 <= i < args.len(),
        args[i] == flag,
        forall|j: int| 0 <= j < i ==> #[trigger] args[j] != flag,
    ensures
        value_of_flag(args, flag) == if i + 1 < args.len() {
            Some(without_version(args[i + 1]))
        } else {
            None
        },
    decreases i,
{
    if i > 0 {
        let rest = args.skip(1);
        assert forall|j: int| 0 <= j < i - 1 implies #[trigger] rest[j] != flag by {
            assert(rest[j] == args[j + 1]);
        }
        assert(args[0] != flag);
        lemma_flag_value(rest, flag, i - 1);
    }
}

proof fn lemma_no_flag(args: Seq<Seq<char>>, flag: Seq<char>)
    requires
        forall|j: int| 0 <= j < args.len() ==> #[trigger] args[j] != flag,
    ensures
        value_of_flag(args, flag) is None,
    decreases args.len(),
{
    if args.len() > 0 {
        let rest = args.skip(1);
        assert forall|j: int| 0 <= j < rest.len() implies #[trigger] rest[j] != flag by {
            assert(rest[j] == args[j + 1]);
        }
        assert(args[0] != flag);
        lemma_no_flag(rest, flag);
    }
}

/// A package name without its version: what stands in front of the last `@`, unless that is the
/// first character.
pub proof fn law_version_is_cut(package: Seq<char>, version: Seq<char>)
    requires
        forall|i: int| 0 <= i < version.len() ==> #[trigger] version[i] != '@',
    ensures
        package.len() > 0 ==> without_version(package + seq!['@'] + version) == package,
        without_version(seq!['@'] + version) == seq!['@'] + version,
        without_version(version) == version,
{
    let s = package + seq!['@'] + version;
    let n = package.len() as int;
    assert(s[n] == '@');
    assert forall|k: int| n < k < s.len() implies #[trigger] s[k] != '@' by {
        assert(s[k] == version[k - n - 1]);
    }
    lemma_last_place(s, '@', n);
    assert(s.take(n) =~= package);
    let t = seq!['@'] + version;
    assert(t[0] == '@');
    assert forall|k: int| 0 < k < t.len() implies #[trigger] t[k] != '@' by {
        assert(t[k] == version[k - 1]);
    }
    lemma_last_place(t, '@', 0);
    law_rfind_char(version, '@');
}

proof fn lemma_last_place(s: Seq<char>, c: char, i: int)
    requires
        0 <= i < s.len(),
        s[i] == c,
        forall|k: int| i < k < s.len() ==> #[trigger] s[k] != c,
    ensures
        rfind_char(s, c) == Some(i),
{
    law_rfind_char(s, c);
    match rfind_char(s, c) {
        Some(j) => {
            if j < i {
                assert(s[i] != c);
            }
        },
        None => {
            assert(s[i] != c);
        },
    }
}

/// What `uvx` launches is the value of its first `--from`, wherever that stands.
pub proof fn law_uvx_from(lowered: Seq<char>, args: Seq<Seq<char>>, i: int)
    requires
        0 <= i,
        i + 1 < args.len(),
        args[i] == "--from"@,
        forall|j: int| 0 <= j < i ==> #[trigger] args[j] != "--from"@,
    ensures
        source_for_tool("uvx"@, lowered, args) == Source::PypiUvx(without_version(args[i + 1])),
{
    reveal_strlit("uvx");
    reveal_strlit("npx");
    assert("uvx"@[0] == 'u' && "npx"@[0] == 'n');
    lemma_flag_value(args, "--from"@, i);
}

/// Whether an argument is a flag.
pub open spec fn is_flag(arg: Seq<char>) -> bool {
    arg.len() > 0 && arg[0] == '-'
}

/// Whether the arguments before place `i` are flags and the values that such flags take.
pub open spec fn only_flags(args: Seq<Seq<char>>, i: int) -> bool
    decreases i,
{
    if i <= 0 {
        i == 0
    } else {
        ||| (only_flags(args, i - 1) && is_flag(args[i - 1]) && !takes_next(args[i - 1]))
        ||| (i >= 2 && only_flags(args, i - 2) && takes_next(args[i - 2]))
    }
}

/// The flags that take the argument behind them.
pub open spec fn takes_next(arg: Seq<char>) -> bool {
    ||| arg == seq!['-', 'p']
    ||| arg == seq!['-', '-', 'p', 'a', 'c', 'k', 'a', 'g', 'e']
    ||| arg == seq!['-', '-', 'f', 'r', 'o', 'm']
    ||| arg == seq!['-', '-', 'w', 'i', 't', 'h']
}

proof fn lemma_takes_next(arg: Seq<char>)
    ensures
        takes_value(arg) == takes_next(arg),
        takes_next(arg) ==> is_flag(arg),
{
    reveal_strlit("-p");
    reveal_strlit("--package");
    reveal_strlit("--from");
    reveal_strlit("--with");
    assert("-p"@ =~= seq!['-', 'p']);
    assert("--package"@ =~= seq!['-', '-', 'p', 'a', 'c', 'k', 'a', 'g', 'e']);
    assert("--from"@ =~= seq!['-', '-', 'f', 'r', 'o', 'm']);
    assert("--with"@ =~= seq!['-', '-', 'w', 'i', 't', 'h']);
}

proof fn lemma_positional_skips(args: Seq<Seq<char>>, i: int)
    requires
        0 <= i <= args.len(),
        only_flags(args, i),
    ensures
        positional(args) == positional(args.skip(i)),
    decreases i,
{
    if i == 0 {
        assert(args.skip(0) =~= args);
    } else if only_flags(args, i - 1) && is_flag(args[i - 1]) && !takes_next(args[i - 1]) {
        lemma_positional_skips(args, i - 1);
        lemma_takes_next(args[i - 1]);
        let rest = args.skip(i - 1);
        assert(rest[0] == args[i - 1]);
        assert(rest.skip(1) =~= args.skip(i));
    } else {
        lemma_positional_skips(args, i - 2);
        lemma_takes_next(args[i - 2]);
        let rest = args.skip(i - 2);
        assert(rest[0] == args[i - 2]);
        assert(rest.skip(2) =~= args.skip(i));
    }
}

/// What `npx` launches is the first argument that is neither a flag nor the value of one, without
/// its version; `uvx` launches it too where it has no `--from`.
pub proof fn law_first_positional_is_launched(lowered: Seq<char>, args: Seq<Seq<char>>, i: int)
    requires
        0 <= i < args.len(),
        only_flags(args, i),
        !is_flag(args[i]),
    ensures
        source_for_tool("npx"@, lowered, args) == Source::Npx(without_version(args[i])),
        (forall|j: int| 0 <= j < args.len() ==> #[trigger] args[j] != "--from"@) ==> source_for_tool(
            "uvx"@,
            lowered,
            args,
        ) == Source::PypiUvx(without_version(args[i])),
{
    reveal_strlit("uvx");
    reveal_strlit("npx");
    assert("uvx"@[0] == 'u' && "npx"@[0] == 'n');
    lemma_positional_skips(args, i);
    lemma_takes_next(args[i]);
    assert(args.skip(i)[0] == args[i]);
    if forall|j: int| 0 <= j < args.len() ==> #[trigger] args[j] != "--from"@ {
        lemma_no_flag(args, "--from"@);
    }
}

/// Without such an argument nothing is inferred.
pub proof fn law_only_flags_launch_nothing(lowered: Seq<char>, args: Seq<Seq<char>>)
    requires
        only_flags(args, args.len() as int),
    ensures
        source_for_tool("npx"@, lowered, args) == Source::Unknown,
{
    lemma_positional_skips(args, args.len() as int);
    assert(args.skip(args.len() as int) =~= Seq::<Seq<char>>::empty());
}

/// A program that is none of the launchers, and whose path does not end with `node`, is no known
/// upstream.
pub proof fn law_other_tools_are_unknown(tool: Seq<char>, lowered: Seq<char>, args: Seq<Seq<char>>)
    requires
        !is_launcher(tool),
        !ends_with(without_exe(lowered), "node"@),
    ensures
        source_for_tool(tool, lowered, args) == Source::Unknown,
{
}

// A package path below the last `node_modules`.
proof fn lemma_package_segments(outer: Seq<char>, parts: Seq<Seq<char>>)
    requires
        parts.len() > 0,
        forall|i: int|
            0 <= i < parts.len() ==> (#[trigger] parts[i]).len() > 0 && without(parts[i], '/')
                && without(parts[i], '\\'),
        forall|k: int| !#[trigger] has_at(join(parts, "/"@), "node_modules/"@, k),
    ensures
        node_modules_at(outer + "node_modules/"@ + join(parts, "/"@)) == Some(outer.len() as int),
        path_segments(join(parts, "/"@)) == parts,
{
    let inner = join(parts, "/"@);
    reveal_strlit("node_modules/");
    reveal_strlit("/");
    assert("/"@ =~= seq!['/']);
    assert forall|k: int| 0 <= k && k + 13 <= inner.len() implies #[trigger] inner.subrange(k, k + 13)
        != "node_modules/"@ by {
        assert(!has_at(inner, "node_modules/"@, k));
    }
    lemma_last_marker(outer, inner);
    lemma_joined_without(parts, '\\');
    law_replace_char(inner, '\\', Seq::empty(), "/"@);
    assert(replace_char(inner, '\\', "/"@) == inner);
    assert forall|i: int| 0 <= i < parts.len() implies without(#[trigger] parts[i], '/') by {}
    law_split_joined(parts, '/');
    lemma_all_stay(parts);
}

proof fn lemma_joined_without(parts: Seq<Seq<char>>, c: char)
    requires
        c != '/',
        forall|i: int| 0 <= i < parts.len() ==> without(#[trigger] parts[i], c),
    ensures
        without(join(parts, seq!['/']), c),
    decreases parts.len(),
{
    if parts.len() == 1 {
        assert(without(parts[0], c));
    } else if parts.len() > 1 {
        let front = parts.drop_last();
        assert forall|i: int| 0 <= i < front.len() implies without(#[trigger] front[i], c) by {
            assert(front[i] == parts[i]);
        }
        lemma_joined_without(front, c);
        let a = join(front, seq!['/']);
        let s = join(parts, seq!['/']);
        assert(without(parts[parts.len() - 1], c));
        assert forall|i: int| 0 <= i < s.len() implies #[trigger] s[i] != c by {
            if i < a.len() {
                assert(s[i] == a[i]);
            } else if i > a.len() {
                assert(s[i] == parts.last()[i - a.len() - 1]);
            }
        }
    }
}

/// What `node` launches from `…/node_modules/<package>/…` is that package, with its scope where it
/// has one.
pub proof fn law_node_launches_installed_package(
    tool: Seq<char>,
    lowered: Seq<char>,
    outer: Seq<char>,
    parts: Seq<Seq<char>>,
    more: Seq<Seq<char>>,
)
    requires
        tool == "node"@ || tool == "nodejs"@ || tool == "bun"@,
        parts.len() > 1,
        forall|i: int|
            0 <= i < parts.len() ==> (#[trigger] parts[i]).len() > 0 && without(parts[i], '/')
                && without(parts[i], '\\'),
        forall|k: int| !#[trigger] has_at(join(parts, "/"@), "node_modules/"@, k),
    ensures
        source_for_tool(
            tool,
            lowered,
            seq![outer + "node_modules/"@ + join(parts, "/"@)] + more,
        ) == Source::NpmGlobal(
            if parts[0][0] == '@' {
                parts[0] + seq!['/'] + parts[1]
            } else {
                parts[0]
            },
        ),
{
    reveal_strlit("uvx");
    reveal_strlit("npx");
    reveal_strlit("node");
    reveal_strlit("nodejs");
    reveal_strlit("bun");
    reveal_strlit("/");
    reveal_strlit("node_modules/");
    assert("/"@ =~= seq!['/']);
    assert("uvx"@.len() == 3 && "npx"@.len() == 3 && "node"@.len() == 4 && "nodejs"@.len() == 6
        && "bun"@.len() == 3 && "uvx"@[0] == 'u' && "npx"@[0] == 'n' && "bun"@[0] == 'b');
    lemma_package_segments(outer, parts);
    let path = outer + "node_modules/"@ + join(parts, "/"@);
    assert(path.skip(outer.len() as int + 13) =~= join(parts, "/"@));
    assert((seq![path] + more)[0] == path);
}

/// A program whose name only ends in `node`, with or without `.exe`, launches as `node` does.
pub proof fn law_names_that_end_in_node(
    tool: Seq<char>,
    front: Seq<char>,
    lowered: Seq<char>,
    args: Seq<Seq<char>>,
)
    requires
        tool != "npx"@,
        tool != "uvx"@,
        lowered == front + "node"@ || lowered == front + "node.exe"@,
    ensures
        source_for_tool(tool, lowered, args) == source_for_tool("node"@, Seq::empty(), args),
{
    reveal_strlit("uvx");
    reveal_strlit("npx");
    reveal_strlit("node");
    reveal_strlit(".exe");
    reveal_strlit("node.exe");
    assert("node"@.len() == 4 && "uvx"@.len() == 3 && "npx"@.len() == 3);
    let n = lowered.len() as int;
    if lowered == front + "node.exe"@ {
        assert(lowered.skip(n - 4) =~= ".exe"@);
        assert(lowered.take(n - 4) =~= front + "node"@);
    } else {
        if ends_with(lowered, ".exe"@) {
            assert(lowered.skip(n - 4)[0] == '.');
            assert(lowered[n - 4] == 'n');
        }
    }
    let bare = front + "node"@;
    assert(bare.skip(bare.len() - 4) =~= "node"@);
    assert(without_exe(lowered) =~= bare);
}

proof fn lemma_turned(parts: Seq<Seq<char>>)
    requires
        forall|i: int| 0 <= i < parts.len() ==> without(#[trigger] parts[i], '\\'),
    ensures
        replace_char(join(parts, seq!['\\']), '\\', seq!['/']) == join(parts, seq!['/']),
    decreases parts.len(),
{
    if parts.len() == 0 {
        lemma_replace_none(join(parts, seq!['\\']), '\\', seq!['/']);
    } else if parts.len() == 1 {
        assert(without(parts[0], '\\'));
        lemma_replace_none(parts[0], '\\', seq!['/']);
    } else {
        let front = parts.drop_last();
        let last = parts[parts.len() - 1];
        assert forall|i: int| 0 <= i < front.len() implies without(#[trigger] front[i], '\\') by {
            assert(front[i] == parts[i]);
        }
        lemma_turned(front);
        assert(without(last, '\\'));
        lemma_replace_none(last, '\\', seq!['/']);
        law_replace_char(join(front, seq!['\\']), '\\', last, seq!['/']);
    }
}

/// Backslashes separate a path as slashes do: what `node` launches from
/// `…\node_modules\<package>\…` is that package, with its scope where it has one.
pub proof fn law_node_launches_from_backslashes(
    tool: Seq<char>,
    lowered: Seq<char>,
    outer: Seq<char>,
    parts: Seq<Seq<char>>,
    more: Seq<Seq<char>>,
)
    requires
        tool == "node"@ || tool == "nodejs"@ || tool == "bun"@,
        parts.len() > 1,
        forall|i: int|
            0 <= i < parts.len() ==> (#[trigger] parts[i]).len() > 0 && without(parts[i], '/')
                && without(parts[i], '\\'),
        without(outer, '/'),
        forall|k: int| !#[trigger] has_at(join(parts, seq!['\\']), "node_modules\\"@, k),
    ensures
        source_for_tool(
            tool,
            lowered,
            seq![outer + "node_modules\\"@ + join(parts, seq!['\\'])] + more,
        ) == Source::NpmGlobal(
            if parts[0][0] == '@' {
                parts[0] + seq!['/'] + parts[1]
            } else {
                parts[0]
            },
        ),
{
    reveal_strlit("uvx");
    reveal_strlit("npx");
    reveal_strlit("node");
    reveal_strlit("nodejs");
    reveal_strlit("bun");
    reveal_strlit("/");
    reveal_strlit("node_modules/");
    reveal_strlit("node_modules\\");
    assert("/"@ =~= seq!['/']);
    assert("uvx"@.len() == 3 && "npx"@.len() == 3 && "node"@.len() == 4 && "nodejs"@.len() == 6
        && "bun"@.len() == 3 && "uvx"@[0] == 'u' && "npx"@[0] == 'n' && "bun"@[0] == 'b');
    let marker = "node_modules\\"@;
    let inner = join(parts, seq!['\\']);
    let path = outer + marker + inner;
    lemma_no_slash_joined(parts);
    assert forall|i: int| 0 <= i < path.len() implies #[trigger] path[i] != '/' by {
        if i < outer.len() {
            assert(path[i] == outer[i]);
        } else if i < outer.len() + 13 {
            assert(path[i] == marker[i - outer.len()]);
        } else {
            assert(path[i] == inner[i - outer.len() - 13]);
        }
    }
    law_rfind(path, "node_modules/"@);
    if let Some(i) = rfind(path, "node_modules/"@) {
        assert(has_at(path, "node_modules/"@, i));
        assert(path.subrange(i, i + 13)[12] == '/');
        assert(path[i + 12] == '/');
    }
    lemma_last_backslash(outer, inner);
    assert(path.skip(outer.len() as int + 13) =~= inner);
    lemma_turned(parts);
    law_split_joined(parts, '/');
    lemma_all_stay(parts);
    assert(path_segments(inner) == parts);
    assert((seq![path] + more)[0] == path);
}

proof fn lemma_no_slash_joined(parts: Seq<Seq<char>>)
    requires
        forall|i: int| 0 <= i < parts.len() ==> without(#[trigger] parts[i], '/'),
    ensures
        without(join(parts, seq!['\\']), '/'),
    decreases parts.len(),
{
    if parts.len() == 1 {
        assert(without(parts[0], '/'));
    } else if parts.len() > 1 {
        let front = parts.drop_last();
        assert forall|i: int| 0 <= i < front.len() implies without(#[trigger] front[i], '/') by {
            assert(front[i] == parts[i]);
        }
        lemma_no_slash_joined(front);
        let a = join(front, seq!['\\']);
        let s = join(parts, seq!['\\']);
        assert(without(parts[parts.len() - 1], '/'));
        assert forall|i: int| 0 <= i < s.len() implies #[trigger] s[i] != '/' by {
            if i < a.len() {
                assert(s[i] == a[i]);
            } else if i > a.len() {
                assert(s[i] == parts.last()[i - a.len() - 1]);
            }
        }
    }
}

proof fn lemma_last_backslash(outer: Seq<char>, inner: Seq<char>)
    requires
        forall|k: int| !#[trigger] has_at(inner, "node_modules\\"@, k),
    ensures
        rfind(outer + "node_modules\\"@ + inner, "node_modules\\"@) == Some(outer.len() as int),
{
    let marker = "node_modules\\"@;
    reveal_strlit("node_modules\\");
    let s = outer + marker + inner;
    let at = outer.len() as int;
    assert(s.subrange(at, at + 13) =~= marker);
    assert forall|k: int| at < k && k + 13 <= s.len() implies #[trigger] s.subrange(k, k + 13)
        != marker by {
        if s.subrange(k, k + 13) == marker {
            let t = s.subrange(k, k + 13);
            if k >= at + 13 {
                assert(inner.subrange(k - at - 13, k - at) =~= t);
                assert(has_at(inner, marker, k - at - 13));
            } else {
                let d = 13 - (k - at);
                assert(t[d - 1] == s[at + 12]);
                assert(s[at + 12] == marker[12]);
                assert(marker[d - 1] == marker[12]);
            }
        }
    }
    lemma_rfind(s, marker, at);
}

} // verus!
