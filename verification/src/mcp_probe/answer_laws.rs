//! What a probe sends, what counts as its answer, and what is made of that.

use vstd::prelude::*;
use crate::env_map::{bind_all, bound, keys_ascend, law_bind_then_bound, lemma_bind_ascends};
use crate::json::{json_document, lookup, member, text_member, JsonTree};
use crate::mcp_probe::{
    body_answer, client_info, http_outcome, initialize_params, initialize_request,
    initialized_notification, line_answer, probing, response_in, response_of, stdio_outcome,
    stream_answer, HttpReply, Info, Probing, REQUEST_ID, StdioEvent,
};
use crate::mcp_probe::environment::{
    extra_paths, newest_first_of, numbers_in, numbers_less, printed_path, probe_env_of, user_bins,
    version_bin, version_key,
};
use crate::mcp_upstream::without_v;
use crate::mcp_upstream::check_laws::law_child;
use crate::mcp_upstream::version_laws::{dotted, lemma_dotted, numbers_before};
use crate::mcp_writers::EntryDef;
use crate::text::{decimal, lines_of, parsed_u64, split, starts_with, trimmed};
use crate::text_laws::{has_at, law_find, law_number_reads_back};
use crate::trimming::{all_space, lemma_trimmed_padded};

verus! {

/// The first message of a probe is a JSON-RPC 2.0 request `initialize` with the id that an answer is
/// known by, which names the protocol's version and the client.
pub proof fn law_probe_asks_to_initialize()
    ensures
        text_member(initialize_request(), "jsonrpc"@) == Some("2.0"@),
        text_member(initialize_request(), "method"@) == Some("initialize"@),
        member(initialize_request(), "id"@) matches Some(JsonTree::Number(Some(id), _, text)) && id
            == 1 && text == seq!['1'],
        member(initialize_request(), "params"@) == Some(initialize_params()),
        text_member(initialize_params(), "protocolVersion"@) == Some("2025-03-26"@),
        member(initialize_params(), "clientInfo"@) == Some(client_info()),
        member(initialize_params(), "capabilities"@) == Some(JsonTree::Object(Seq::empty())),
        text_member(client_info(), "name"@) == Some("skills-manager"@),
        text_member(initialized_notification(), "jsonrpc"@) == Some("2.0"@),
        text_member(initialized_notification(), "method"@) == Some("notifications/initialized"@),
        member(initialized_notification(), "id"@) is None,
{
    reveal_strlit("name");
    reveal_strlit("version");
    reveal_strlit("capabilities");
    reveal_strlit("clientInfo");
    reveal_strlit("protocolVersion");
    reveal_strlit("id");
    reveal_strlit("jsonrpc");
    reveal_strlit("method");
    reveal_strlit("params");
    assert("id"@.len() == 2 && "jsonrpc"@.len() == 7 && "method"@.len() == 6 && "params"@.len() == 6
        && "name"@.len() == 4 && "version"@.len() == 7 && "capabilities"@.len() == 12
        && "clientInfo"@.len() == 10 && "protocolVersion"@.len() == 15);
    assert("method"@[0] == 'm' && "params"@[0] == 'p');
    reveal_with_fuel(lookup, 5);
    assert(decimal(1) =~= seq!['1']);
}

/// Only a message with the id of the request answers it: an error by what it says, a result by the
/// name and the version of the server, each where it is a text. Anything else is no answer.
pub proof fn law_answer_is_for_the_request(v: JsonTree, id: u64)
    ensures
        ({
            let own = member(v, "id"@) matches Some(JsonTree::Number(Some(n), _, _)) && n == id;
            let info = match member(v, "result"@) {
                Some(result) => member(result, "serverInfo"@),
                None => None,
            };
            &&& !own ==> response_of(v, id) is None
            &&& own && member(v, "error"@) is Some ==> (response_of(v, id) matches Some(Err(_)))
            &&& own && member(v, "error"@) is None && member(v, "result"@) is None ==> response_of(v, id)
                is None
            &&& own && member(v, "error"@) is None && member(v, "result"@) is Some ==> (response_of(
                v,
                id,
            ) matches Some(Ok(found)) && (info is None ==> found.server_name is None
                && found.server_version is None) && (info is Some ==> found.server_name
                == text_member(info->Some_0, "name"@) && found.server_version == text_member(
                info->Some_0,
                "version"@,
            )))
        }),
{
}

/// An error is told by its code and its message.
pub proof fn law_error_is_told(v: JsonTree, id: u64, error: JsonTree, code: i64, message: Seq<char>)
    requires
        member(v, "id"@) matches Some(JsonTree::Number(Some(n), _, _)) && n == id,
        member(v, "error"@) == Some(error),
        member(error, "code"@) matches Some(JsonTree::Number(_, Some(c), _)) && c == code,
        text_member(error, "message"@) == Some(message),
    ensures
        response_of(v, id) == Some(
            Err::<Info, Seq<char>>("JSON-RPC error "@ + decimal(code as int) + ": "@ + message),
        ),
{
}

/// An error without a code, or without a message, is still an error and told as one.
pub proof fn law_bare_error_is_told(v: JsonTree, id: u64, error: JsonTree)
    requires
        member(v, "id"@) matches Some(JsonTree::Number(Some(n), _, _)) && n == id,
        member(v, "error"@) == Some(error),
        !(member(error, "code"@) is Some),
    ensures
        text_member(error, "message"@) matches Some(m) ==> response_of(v, id) == Some(
            Err::<Info, Seq<char>>("JSON-RPC error: "@ + m),
        ),
        text_member(error, "message"@) is None ==> response_of(v, id) == Some(
            Err::<Info, Seq<char>>("JSON-RPC error: "@ + "unspecified JSON-RPC error"@),
        ),
{
}

/// White space round a line does not matter; a line that holds no object or no JSON is no answer.
pub proof fn law_line_is_read_as_json(front: Seq<char>, line: Seq<char>, back: Seq<char>, id: u64)
    requires
        all_space(front),
        all_space(back),
    ensures
        response_in(front + line + back, id) == response_in(line, id),
        json_document(trimmed(line)) is Err ==> response_in(line, id) is None,
        trimmed(line).len() > 0 && trimmed(line)[0] == '{' ==> (json_document(trimmed(line)) matches Ok(
            v,
        ) ==> response_in(line, id) == response_of(v, id)),
        trimmed(line).len() == 0 || trimmed(line)[0] != '{' ==> response_in(line, id) is None,
{
    lemma_trimmed_padded(front, line, back);
    reveal_strlit("{");
    let t = trimmed(line);
    if starts_with(t, "{"@) {
        assert(t.take(1)[0] == "{"@[0]);
    }
    if t.len() > 0 && t[0] == '{' {
        assert(t.take(1) =~= "{"@);
    }
}

/// In an event stream a line `data:` with a payload answers as the payload does.
pub proof fn law_event_line(data: Seq<char>)
    requires
        trimmed(data).len() > 0,
        trimmed(data) != "[DONE]"@,
    ensures
        line_answer("data:"@ + data) == response_in(data, REQUEST_ID),
{
    reveal_strlit("data:");
    let line = "data:"@ + data;
    assert(line.take(5) =~= "data:"@);
    assert(line.skip(5) =~= data);
    crate::trimming::lemma_trimmed(data);
}

/// Every other line of an event stream says nothing.
pub proof fn law_other_event_lines(line: Seq<char>)
    requires
        !starts_with(line, seq!['d', 'a', 't', 'a', ':']),
    ensures
        line_answer(line) is None,
{
    reveal_strlit("data:");
    assert("data:"@ =~= seq!['d', 'a', 't', 'a', ':']);
}

proof fn lemma_first_answer(lines: Seq<Seq<char>>, i: int)
    requires
        0 <= i < lines.len(),
        line_answer(lines[i]) is Some,
        forall|j: int| 0 <= j < i ==> line_answer(#[trigger] lines[j]) is None,
    ensures
        stream_answer(lines) == line_answer(lines[i]),
    decreases i,
{
    if i > 0 {
        let rest = lines.skip(1);
        assert forall|j: int| 0 <= j < i - 1 implies line_answer(#[trigger] rest[j]) is None by {
            assert(rest[j] == lines[j + 1]);
        }
        assert(line_answer(lines[0]) is None);
        lemma_first_answer(rest, i - 1);
    }
}

proof fn lemma_no_answer(lines: Seq<Seq<char>>)
    requires
        forall|j: int| 0 <= j < lines.len() ==> line_answer(#[trigger] lines[j]) is None,
    ensures
        stream_answer(lines) is None,
    decreases lines.len(),
{
    if lines.len() > 0 {
        let rest = lines.skip(1);
        assert forall|j: int| 0 <= j < rest.len() implies line_answer(#[trigger] rest[j]) is None by {
            assert(rest[j] == lines[j + 1]);
        }
        assert(line_answer(lines[0]) is None);
        lemma_no_answer(rest);
    }
}

/// A body is answered by its first line with an answer where it is an event stream, and as a whole
/// where it is not.
pub proof fn law_body_is_answered(content_type: Seq<char>, body: Seq<char>, i: int)
    ensures
        (exists|k: int| #[trigger] has_at(content_type, "text/event-stream"@, k)) && 0 <= i < lines_of(
            body,
        ).len() && line_answer(lines_of(body)[i]) is Some && (forall|j: int|
            0 <= j < i ==> line_answer(#[trigger] lines_of(body)[j]) is None) ==> body_answer(
            content_type,
            body,
        ) == line_answer(lines_of(body)[i]),
        (exists|k: int| #[trigger] has_at(content_type, "text/event-stream"@, k)) && (forall|j: int|
            0 <= j < lines_of(body).len() ==> line_answer(#[trigger] lines_of(body)[j]) is None)
            ==> body_answer(content_type, body) is None,
        (forall|k: int| !#[trigger] has_at(content_type, "text/event-stream"@, k)) ==> body_answer(
            content_type,
            body,
        ) == response_in(body, REQUEST_ID),
{
    law_find(content_type, "text/event-stream"@);
    let lines = lines_of(body);
    if 0 <= i < lines.len() && line_answer(lines[i]) is Some && (forall|j: int|
        0 <= j < i ==> line_answer(#[trigger] lines[j]) is None) {
        lemma_first_answer(lines, i);
    }
    if forall|j: int| 0 <= j < lines.len() ==> line_answer(#[trigger] lines[j]) is None {
        lemma_no_answer(lines);
    }
}

/// A stdio definition is probed by its own command and arguments, any other by its own address; one
/// without is not probed.
pub proof fn law_entry_is_probed_as_defined(e: EntryDef)
    ensures
        e.transport == "stdio"@ ==> match probing(e) {
            Ok(Probing::Stdio(command, args)) => e.command == Some(command) && args == e.args
                && command.len() > 0,
            Ok(_) => false,
            Err(_) => e.command is None || e.command->Some_0.len() == 0,
        },
        e.transport != "stdio"@ ==> match probing(e) {
            Ok(Probing::Http(url)) => e.url == Some(url) && url.len() > 0,
            Ok(_) => false,
            Err(_) => e.url is None || e.url->Some_0.len() == 0,
        },
{
}

/// A stdio probe goes on only over lines that are no answer, and succeeds only by one that is.
pub proof fn law_stdio_probe_is_decided(command: Seq<char>, event: StdioEvent)
    ensures
        match event {
            StdioEvent::Line(line) => stdio_outcome(command, event) == response_in(line@, REQUEST_ID),
            _ => stdio_outcome(command, event) matches Some(Err(_)),
        },
{
}

/// An http probe succeeds only by a body that answers it.
pub proof fn law_http_probe_is_decided(url: Seq<char>, reply: HttpReply)
    ensures
        match reply {
            HttpReply::Body { content_type, body } => match body_answer(content_type@, body@) {
                Some(answer) => http_outcome(url, reply) == answer,
                None => http_outcome(url, reply) is Err,
            },
            _ => http_outcome(url, reply) is Err,
        },
{
}

/// Each failure of a probe is told by its own words, with the command or the address and the reason.
pub proof fn law_probe_failures_are_told(command: Seq<char>, url: Seq<char>, e: String)
    ensures
        stdio_outcome(command, StdioEvent::SpawnFailed(e)) == Some(
            Err::<Info, Seq<char>>("spawn "@ + command + " failed: "@ + e@),
        ),
        stdio_outcome(command, StdioEvent::WriteFailed(e)) == Some(
            Err::<Info, Seq<char>>("write to "@ + command + " stdin failed: "@ + e@),
        ),
        stdio_outcome(command, StdioEvent::TimedOut(e)) == Some(
            Err::<Info, Seq<char>>(
                "timeout: "@ + command + " sent no initialize response within "@ + e@ + "s"@,
            ),
        ),
        stdio_outcome(command, StdioEvent::Closed) == Some(
            Err::<Info, Seq<char>>(
                command + " closed stdout without answering the initialize request"@,
            ),
        ),
        http_outcome(url, HttpReply::TimedOut) == Err::<Info, Seq<char>>("timeout"@),
        http_outcome(url, HttpReply::NoConnection(e)) == Err::<Info, Seq<char>>(
            "connect failed: "@ + e@,
        ),
        http_outcome(url, HttpReply::Failed(e)) == Err::<Info, Seq<char>>(e@),
        http_outcome(url, HttpReply::Refused(e)) == Err::<Info, Seq<char>>(
            "HTTP "@ + e@ + " from "@ + url,
        ),
{
}

// ── the environment of a probed server ──

pub proof fn lemma_bind_all_bound(s: Seq<(Seq<char>, Seq<char>)>, key: Seq<char>, i: int)
    requires
        0 <= i < s.len(),
        s[i].0 == key,
        forall|j: int| i < j < s.len() ==> (#[trigger] s[j]).0 != key,
    ensures
        bound(bind_all(s), key) == Some(s[i].1),
        keys_ascend(bind_all(s)),
    decreases s.len(),
{
    let front = s.drop_last();
    lemma_bind_all_ascends(front);
    lemma_bind_all_ascends(s);
    let last = s.last();
    law_bind_then_bound(bind_all(front), last.0, last.1, key);
    if i < front.len() {
        assert(s[s.len() - 1].0 != key);
        assert forall|j: int| i < j < front.len() implies (#[trigger] front[j]).0 != key by {
            assert(front[j] == s[j]);
        }
        assert(front[i] == s[i]);
        lemma_bind_all_bound(front, key, i);
    }
}

pub proof fn lemma_bind_all_ascends(s: Seq<(Seq<char>, Seq<char>)>)
    ensures
        keys_ascend(bind_all(s)),
    decreases s.len(),
{
    if s.len() > 0 {
        lemma_bind_all_ascends(s.drop_last());
        lemma_bind_ascends(bind_all(s.drop_last()), s.last().0, s.last().1);
    }
}

/// A probed server has its own variables as they are defined, then the search path, then what it
/// inherits.
pub proof fn law_own_variables_win(
    base: Seq<(Seq<char>, Seq<char>)>,
    path: Seq<char>,
    own: Seq<(Seq<char>, Seq<char>)>,
    i: int,
)
    requires
        keys_ascend(own),
    ensures
        0 <= i < own.len() ==> bound(probe_env_of(base, path, own), own[i].0) == Some(own[i].1),
        (forall|k: int| 0 <= k < own.len() ==> (#[trigger] own[k]).0 != "PATH"@) ==> bound(
            probe_env_of(base, path, own),
            "PATH"@,
        ) == Some(path),
        0 <= i < base.len() && base[i].0 != "PATH"@ && (forall|k: int|
            0 <= k < own.len() ==> (#[trigger] own[k]).0 != base[i].0) && (forall|k: int|
            i < k < base.len() ==> (#[trigger] base[k]).0 != base[i].0) ==> bound(
            probe_env_of(base, path, own),
            base[i].0,
        ) == Some(base[i].1),
{
    let all = base.push(("PATH"@, path)) + own;
    let n = base.len() as int;
    if 0 <= i < own.len() {
        let at = n + 1 + i;
        assert(all[at] == own[i]);
        assert forall|j: int| at < j < all.len() implies (#[trigger] all[j]).0 != own[i].0 by {
            assert(all[j] == own[j - n - 1]);
            assert(crate::order::lex_less(own[i].0, own[j - n - 1].0));
            crate::order::lemma_lex_irreflexive(own[i].0);
        }
        lemma_bind_all_bound(all, own[i].0, at);
    }
    if forall|k: int| 0 <= k < own.len() ==> (#[trigger] own[k]).0 != "PATH"@ {
        assert(all[n] == ("PATH"@, path));
        assert forall|j: int| n < j < all.len() implies (#[trigger] all[j]).0 != "PATH"@ by {
            assert(all[j] == own[j - n - 1]);
        }
        lemma_bind_all_bound(all, "PATH"@, n);
    }
    if 0 <= i < base.len() && base[i].0 != "PATH"@ && (forall|k: int|
        0 <= k < own.len() ==> (#[trigger] own[k]).0 != base[i].0) && (forall|k: int|
        i < k < base.len() ==> (#[trigger] base[k]).0 != base[i].0) {
        assert(all[i] == base[i]);
        assert forall|j: int| i < j < all.len() implies (#[trigger] all[j]).0 != base[i].0 by {
            if j < n {
                assert(all[j] == base[j]);
            } else if j == n {
                assert(all[j] == ("PATH"@, path));
            } else {
                assert(all[j] == own[j - n - 1]);
            }
        }
        lemma_bind_all_bound(all, base[i].0, i);
    }
}

/// A shell's search path is taken without white space round it, where the shell succeeded and
/// printed one.
pub proof fn law_printed_path(success: bool, stdout: Seq<char>)
    ensures
        printed_path(success, stdout) is Some <==> success && !all_space(stdout),
        printed_path(success, stdout) matches Some(path) ==> path == trimmed(stdout),
{
    crate::trimming::lemma_trimmed(stdout);
}

/// The well-known directories come first and in their order, then the programs of every node
/// version, the newest first.
pub proof fn law_extra_paths(
    home: Seq<char>,
    known: Seq<Seq<char>>,
    versions: Seq<Seq<char>>,
    i: int,
)
    ensures
        extra_paths(home, known, versions).len() == known.len() + versions.len(),
        0 <= i < known.len() ==> extra_paths(home, known, versions)[i] == known[i],
        forall|k: int|
            0 <= k < versions.len() ==> extra_paths(home, known, versions).contains(
                version_bin(home, #[trigger] versions[k]),
            ),
{
    broadcast use vstd::seq_lib::group_to_multiset_ensures;

    crate::mcp_probe::environment::law_newest_first(versions);
    let order = newest_first_of(versions);
    let all = extra_paths(home, known, versions);
    assert(order.to_multiset().len() == versions.to_multiset().len());
    assert forall|k: int| 0 <= k < versions.len() implies all.contains(
        version_bin(home, #[trigger] versions[k]),
    ) by {
        assert(versions.contains(versions[k]));
        assert(order.to_multiset().count(versions[k]) > 0);
        assert(order.contains(versions[k]));
        let p = choose|p: int| 0 <= p < order.len() && order[p] == versions[k];
        assert(all[known.len() + p] == version_bin(home, versions[k]));
    }
}

proof fn lemma_all_numbers(pieces: Seq<Seq<char>>, ns: Seq<u64>)
    requires
        pieces.len() == ns.len(),
        forall|i: int| 0 <= i < ns.len() ==> parsed_u64(#[trigger] pieces[i]) == Some(ns[i]),
    ensures
        numbers_in(pieces) == ns,
    decreases ns.len(),
{
    if ns.len() > 0 {
        let front = pieces.drop_last();
        assert forall|i: int| 0 <= i < front.len() implies parsed_u64(#[trigger] front[i]) == Some(
            ns.drop_last()[i],
        ) by {
            assert(front[i] == pieces[i]);
        }
        lemma_all_numbers(front, ns.drop_last());
        assert(pieces.last() == pieces[ns.len() - 1]);
        assert(ns.drop_last().push(ns.last()) =~= ns);
    } else {
        assert(numbers_in(pieces) =~= ns);
    }
}

/// The directory of a node version is known by its numbers, with or without a `v` before them.
pub proof fn law_version_directory_is_read(ns: Seq<u64>)
    requires
        ns.len() > 0,
    ensures
        version_key(dotted(ns)) == ns,
        version_key(seq!['v'] + dotted(ns)) == ns,
{
    lemma_dotted(ns);
    let s = dotted(ns);
    assert(s[0] != 'v');
    assert(without_v(s) == s);
    assert((seq!['v'] + s).skip(1) =~= s);
    assert(without_v(seq!['v'] + s) == s) by {
        reveal_with_fuel(without_v, 3);
    }
    let pieces = split(s, '.');
    assert forall|i: int| 0 <= i < ns.len() implies parsed_u64(#[trigger] pieces[i]) == Some(ns[i]) by {
        law_number_reads_back(ns[i]);
    }
    lemma_all_numbers(pieces, ns);
}

proof fn lemma_same_order(a: Seq<u64>, b: Seq<u64>)
    requires
        a.len() == b.len(),
    ensures
        numbers_less(a, b) == numbers_before(a, b),
    decreases a.len(),
{
    if a.len() > 0 {
        assert(a.skip(1) =~= a.drop_first());
        assert(b.skip(1) =~= b.drop_first());
        lemma_same_order(a.drop_first(), b.drop_first());
    }
}

/// No node version stands behind one that comes before it number by number.
pub proof fn law_newest_node_comes_first(
    versions: Seq<Seq<char>>,
    i: int,
    j: int,
    a: Seq<u64>,
    b: Seq<u64>,
)
    requires
        0 <= i < j < newest_first_of(versions).len(),
        a.len() == b.len(),
        a.len() > 0,
        newest_first_of(versions)[i] == seq!['v'] + dotted(a),
        newest_first_of(versions)[j] == seq!['v'] + dotted(b),
    ensures
        !numbers_before(a, b),
{
    crate::mcp_probe::environment::law_newest_first(versions);
    law_version_directory_is_read(a);
    law_version_directory_is_read(b);
    lemma_same_order(a, b);
    let s = newest_first_of(versions);
    assert(!numbers_less(version_key(s[i]), version_key(s[j])));
}

/// The directories that are looked for below a home, and the one of a node version.
pub proof fn law_user_directories(home: Seq<char>, version: Seq<char>)
    requires
        home.len() > 0,
        home.last() != '/',
        version.len() > 0,
        version[0] != '/',
        version.last() != '/',
    ensures
        user_bins(home) == seq![
            home + "/.local/bin"@,
            home + "/.cargo/bin"@,
            "/opt/homebrew/bin"@,
            "/opt/homebrew/sbin"@,
            home + "/.local/share/fnm/aliases/default/bin"@,
        ],
        version_bin(home, version) == home + "/.local/share/fnm/node-versions/"@ + version
            + "/installation/bin"@,
{
    reveal_strlit(".local/bin");
    reveal_strlit("/.local/bin");
    reveal_strlit(".cargo/bin");
    reveal_strlit("/.cargo/bin");
    reveal_strlit(".local/share/fnm/aliases/default/bin");
    reveal_strlit("/.local/share/fnm/aliases/default/bin");
    reveal_strlit(".local/share/fnm/node-versions");
    reveal_strlit("/.local/share/fnm/node-versions/");
    reveal_strlit("installation/bin");
    reveal_strlit("/installation/bin");
    law_child(home, ".local/bin"@);
    law_child(home, ".cargo/bin"@);
    law_child(home, ".local/share/fnm/aliases/default/bin"@);
    law_child(home, ".local/share/fnm/node-versions"@);
    let slash = seq!['/'];
    assert(slash + ".local/bin"@ =~= "/.local/bin"@);
    assert(slash + ".cargo/bin"@ =~= "/.cargo/bin"@);
    assert(slash + ".local/share/fnm/aliases/default/bin"@
        =~= "/.local/share/fnm/aliases/default/bin"@);
    assert(slash + ".local/share/fnm/node-versions"@ + slash =~= "/.local/share/fnm/node-versions/"@);
    assert(home + slash + ".local/bin"@ =~= home + "/.local/bin"@);
    assert(home + slash + ".cargo/bin"@ =~= home + "/.cargo/bin"@);
    assert(home + slash + ".local/share/fnm/aliases/default/bin"@ =~= home
        + "/.local/share/fnm/aliases/default/bin"@);
    let all = home + slash + ".local/share/fnm/node-versions"@;
    law_child(all, version);
    let one = all + slash + version;
    law_child(one, "installation/bin"@);
    assert(one =~= home + "/.local/share/fnm/node-versions/"@ + version);
    assert(slash + "installation/bin"@ =~= "/installation/bin"@);
    assert(one + slash + "installation/bin"@ =~= home + "/.local/share/fnm/node-versions/"@ + version
        + "/installation/bin"@);
}

} // verus!
