//! One-shot liveness probes for managed MCP servers.
//!
//! The shape is deliberately trivial: spawn the stdio entry (or POST to the http endpoint), send
//! exactly one JSON-RPC `initialize` request, read back the matching response, and take
//! `serverInfo`. Processes and connections live outside; here is what is sent, what each line or
//! body means, and what each event of a probe leads to. [`environment`] makes the search path
//! that a probed server is started with.

pub mod answer_laws;
pub mod environment;

use vstd::prelude::*;
use crate::json::{
    compact, json_document, json_text, member, member_keys_ascend, number_of, ordered, parse_json,
    text_member, tree, Json, JsonTree,
};
use crate::json_laws::{law_compact_is_one_line, one_line, one_line_numbers};
use crate::mcp_writers::{EntryDef, McpEntryDef};
use crate::order::lex_less;
use crate::text::{
    decimal, decimal_of_signed, find, has_prefix, lines_of, position_of_text, same, skip_chars,
    split_lines, starts_with, texts, trim, trimmed,
};
use crate::text_lists::copy_texts;

verus! {

/// What a successful handshake told us about the server. Both fields are optional: `serverInfo`
/// is optional in the initialize result itself.
#[derive(Debug, PartialEq)]
pub struct ProbeInfo {
    pub server_name: Option<String>,
    pub server_version: Option<String>,
}

/// What a [`ProbeInfo`] holds.
pub ghost struct Info {
    pub server_name: Option<Seq<char>>,
    pub server_version: Option<Seq<char>>,
}

impl View for ProbeInfo {
    type V = Info;

    open spec fn view(&self) -> Info {
        Info {
            server_name: self.server_name.deep_view(),
            server_version: self.server_version.deep_view(),
        }
    }
}

impl Default for ProbeInfo {
    fn default() -> (r: Self)
        ensures
            r@ == (Info { server_name: None, server_version: None }),
    {
        ProbeInfo { server_name: None, server_version: None }
    }
}

/// JSON-RPC request id for the one-shot initialize: exactly one request per probe.
pub const REQUEST_ID: u64 = 1;

/// MCP protocol version advertised to servers.
pub const PROTOCOL_VERSION: &'static str = "2025-03-26";

// ── what is sent ──

pub open spec fn client_info() -> JsonTree {
    JsonTree::Object(
        seq![("name"@, JsonTree::Text("skills-manager"@)), ("version"@, JsonTree::Text("0"@))],
    )
}

pub open spec fn initialize_params() -> JsonTree {
    JsonTree::Object(
        seq![
            ("capabilities"@, JsonTree::Object(Seq::empty())),
            ("clientInfo"@, client_info()),
            ("protocolVersion"@, JsonTree::Text(PROTOCOL_VERSION@)),
        ],
    )
}

/// The initialize request.
pub open spec fn initialize_request() -> JsonTree {
    JsonTree::Object(
        seq![
            ("id"@, JsonTree::Number(Some(1), Some(1), decimal(1))),
            ("jsonrpc"@, JsonTree::Text("2.0"@)),
            ("method"@, JsonTree::Text("initialize"@)),
            ("params"@, initialize_params()),
        ],
    )
}

/// The notification that closes a handshake.
pub open spec fn initialized_notification() -> JsonTree {
    JsonTree::Object(
        seq![
            ("jsonrpc"@, JsonTree::Text("2.0"@)),
            ("method"@, JsonTree::Text("notifications/initialized"@)),
        ],
    )
}

proof fn lemma_two_members(a: Seq<char>, x: JsonTree, b: Seq<char>, y: JsonTree)
    requires
        lex_less(a, b),
        ordered(x) && ordered(y),
        one_line_numbers(x) && one_line_numbers(y),
    ensures
        ordered(JsonTree::Object(seq![(a, x), (b, y)])),
        one_line_numbers(JsonTree::Object(seq![(a, x), (b, y)])),
{
    let ms = seq![(a, x), (b, y)];
    assert(member_keys_ascend(ms));
}

proof fn lemma_messages()
    ensures
        ordered(client_info()) && one_line_numbers(client_info()),
        ordered(initialize_params()) && one_line_numbers(initialize_params()),
        ordered(initialize_request()) && one_line_numbers(initialize_request()),
        ordered(initialized_notification()) && one_line_numbers(initialized_notification()),
{
    reveal_strlit("name");
    reveal_strlit("version");
    reveal_strlit("capabilities");
    reveal_strlit("clientInfo");
    reveal_strlit("protocolVersion");
    reveal_strlit("id");
    reveal_strlit("jsonrpc");
    reveal_strlit("method");
    reveal_strlit("params");
    reveal_with_fuel(lex_less, 2);
    assert("name"@[0] == 'n' && "version"@[0] == 'v');
    assert(lex_less("name"@, "version"@));
    lemma_two_members(
        "name"@,
        JsonTree::Text("skills-manager"@),
        "version"@,
        JsonTree::Text("0"@),
    );
    assert("jsonrpc"@[0] == 'j' && "method"@[0] == 'm');
    assert(lex_less("jsonrpc"@, "method"@));
    lemma_two_members(
        "jsonrpc"@,
        JsonTree::Text("2.0"@),
        "method"@,
        JsonTree::Text("notifications/initialized"@),
    );
    let ps = initialize_params()->Object_0;
    assert("capabilities"@[0] == 'c' && "capabilities"@[1] == 'a');
    assert("clientInfo"@[0] == 'c' && "clientInfo"@[1] == 'l' && "protocolVersion"@[0] == 'p');
    assert("capabilities"@.drop_first()[0] == 'a' && "clientInfo"@.drop_first()[0] == 'l');
    assert(lex_less("capabilities"@.drop_first(), "clientInfo"@.drop_first()));
    assert(lex_less("capabilities"@, "clientInfo"@));
    assert(lex_less("clientInfo"@, "protocolVersion"@));
    assert(lex_less("capabilities"@, "protocolVersion"@));
    assert(member_keys_ascend(ps));
    assert(forall|i: int| 0 <= i < ps.len() ==> ordered((#[trigger] ps[i]).1));
    assert(forall|i: int| 0 <= i < ps.len() ==> one_line_numbers((#[trigger] ps[i]).1));
    let rs = initialize_request()->Object_0;
    assert("id"@[0] == 'i' && "params"@[0] == 'p');
    assert(lex_less("id"@, "jsonrpc"@) && lex_less("id"@, "method"@) && lex_less(
        "id"@,
        "params"@,
    ));
    assert(lex_less("jsonrpc"@, "params"@) && lex_less("method"@, "params"@));
    assert(member_keys_ascend(rs));
    assert(decimal(1) =~= seq!['1']);
    assert(forall|i: int| 0 <= i < rs.len() ==> ordered((#[trigger] rs[i]).1));
    assert(forall|i: int| 0 <= i < rs.len() ==> one_line_numbers((#[trigger] rs[i]).1));
}

fn text_item(key: &str, value: &str) -> (r: (String, Json))
    ensures
        r.0@ == key@,
        tree(r.1) == JsonTree::Text(value@),
{
    (key.to_owned(), Json::Text(value.to_owned()))
}

fn object_of_two(a: (String, Json), b: (String, Json)) -> (r: Json)
    ensures
        r@ == JsonTree::Object(seq![(a.0@, tree(a.1)), (b.0@, tree(b.1))]),
{
    let ghost x = (a.0@, tree(a.1));
    let ghost y = (b.0@, tree(b.1));
    let mut members: Vec<(String, Json)> = Vec::new();
    members.push(a);
    members.push(b);
    let r = Json::Object(members);
    assert(r@->Object_0 =~= seq![x, y]);
    r
}

fn params_value() -> (r: Json)
    ensures
        r@ == initialize_params(),
{
    let mut members: Vec<(String, Json)> = Vec::new();
    let none: Vec<(String, Json)> = Vec::new();
    let capabilities = Json::Object(none);
    assert(capabilities@->Object_0 =~= Seq::empty());
    members.push(("capabilities".to_owned(), capabilities));
    let info = object_of_two(text_item("name", "skills-manager"), text_item("version", "0"));
    members.push(("clientInfo".to_owned(), info));
    members.push(text_item("protocolVersion", PROTOCOL_VERSION));
    let r = Json::Object(members);
    assert(r@->Object_0 =~= initialize_params()->Object_0);
    r
}

fn framed(message: &Json) -> (r: String)
    requires
        ordered(message@),
        one_line_numbers(message@),
    ensures
        r@ == compact(message@) + "\n"@,
        one_line(compact(message@)),
{
    let mut line = json_text(message);
    line.append("\n");
    proof {
        law_compact_is_one_line(message@);
    }
    line
}

/// The initialize request, newline-delimited (the stdio transport framing): the line feed at
/// its end is the only one in it.
pub fn initialize_request_line() -> (r: String)
    ensures
        r@ == compact(initialize_request()) + "\n"@,
        one_line(compact(initialize_request())),
{
    let mut members: Vec<(String, Json)> = Vec::new();
    let id = Json::Number(number_of(REQUEST_ID));
    assert(tree(id) == JsonTree::Number(Some(1), Some(1), decimal(1)));
    members.push(("id".to_owned(), id));
    members.push(text_item("jsonrpc", "2.0"));
    members.push(text_item("method", "initialize"));
    members.push(("params".to_owned(), params_value()));
    let request = Json::Object(members);
    assert(request@->Object_0 =~= initialize_request()->Object_0);
    proof {
        lemma_messages();
    }
    framed(&request)
}

/// The notification that closes a handshake, newline-delimited.
pub fn initialized_notification_line() -> (r: String)
    ensures
        r@ == compact(initialized_notification()) + "\n"@,
        one_line(compact(initialized_notification())),
{
    let message = object_of_two(
        text_item("jsonrpc", "2.0"),
        text_item("method", "notifications/initialized"),
    );
    proof {
        lemma_messages();
    }
    framed(&message)
}

// ── what comes back ──

pub open spec fn number_u64(v: Option<JsonTree>) -> Option<u64> {
    match v {
        Some(JsonTree::Number(unsigned, _, _)) => unsigned,
        _ => None,
    }
}

pub open spec fn number_i64(v: Option<JsonTree>) -> Option<i64> {
    match v {
        Some(JsonTree::Number(_, signed, _)) => signed,
        _ => None,
    }
}

/// The text of a JSON-RPC error object.
pub open spec fn rpc_error(error: JsonTree) -> Seq<char> {
    let message = match text_member(error, "message"@) {
        Some(m) => m,
        None => "unspecified JSON-RPC error"@,
    };
    match number_i64(member(error, "code"@)) {
        Some(code) => "JSON-RPC error "@ + decimal(code as int) + ": "@ + message,
        None => "JSON-RPC error: "@ + message,
    }
}

pub open spec fn info_member(info: Option<JsonTree>, key: Seq<char>) -> Option<Seq<char>> {
    match info {
        Some(v) => text_member(v, key),
        None => None,
    }
}

/// What a message says to the request with that id. Messages for other ids and notifications
/// say nothing.
pub open spec fn response_of(v: JsonTree, expect_id: u64) -> Option<Result<Info, Seq<char>>> {
    if number_u64(member(v, "id"@)) != Some(expect_id) {
        None
    } else {
        match member(v, "error"@) {
            Some(error) => Some(Err(rpc_error(error))),
            None => match member(v, "result"@) {
                None => None,
                Some(result) => {
                    let info = member(result, "serverInfo"@);
                    Some(
                        Ok(
                            Info {
                                server_name: info_member(info, "name"@),
                                server_version: info_member(info, "version"@),
                            },
                        ),
                    )
                },
            },
        }
    }
}

/// What a line says to the request with that id: every response is an object on one line.
pub open spec fn response_in(line: Seq<char>, expect_id: u64) -> Option<Result<Info, Seq<char>>> {
    if !starts_with(trimmed(line), "{"@) {
        None
    } else {
        match json_document(trimmed(line)) {
            Ok(v) => response_of(v, expect_id),
            Err(_) => None,
        }
    }
}

pub open spec fn probe_view(r: Result<ProbeInfo, String>) -> Result<Info, Seq<char>> {
    match r {
        Ok(info) => Ok(info@),
        Err(message) => Err(message@),
    }
}

pub open spec fn answer_view(r: Option<Result<ProbeInfo, String>>) -> Option<
    Result<Info, Seq<char>>,
> {
    match r {
        Some(answer) => Some(probe_view(answer)),
        None => None,
    }
}

fn text_in(v: &Json, key: &str) -> (r: Option<String>)
    ensures
        r.deep_view() == text_member(v@, key@),
{
    match v.get(key) {
        Some(m) => match m.as_str() {
            Some(s) => Some(s.clone()),
            None => None,
        },
        None => None,
    }
}

fn error_text(error: &Json) -> (r: String)
    ensures
        r@ == rpc_error(error@),
{
    let message = match text_in(error, "message") {
        Some(m) => m,
        None => "unspecified JSON-RPC error".to_owned(),
    };
    let code = match error.get("code") {
        Some(c) => c.as_i64(),
        None => None,
    };
    let mut m = String::new();
    match code {
        Some(code) => {
            m.append("JSON-RPC error ");
            m.append(decimal_of_signed(code).as_str());
            m.append(": ");
            assert(m@ =~= "JSON-RPC error "@ + decimal(code as int) + ": "@);
        },
        None => {
            m.append("JSON-RPC error: ");
            assert(m@ =~= "JSON-RPC error: "@);
        },
    }
    m.append(message.as_str());
    m
}

/// Interpret one message against the request with that id.
pub fn read_response(value: &Json, expect_id: u64) -> (r: Option<Result<ProbeInfo, String>>)
    ensures
        answer_view(r) == response_of(value@, expect_id),
{
    let id = match value.get("id") {
        Some(id) => id.as_u64(),
        None => None,
    };
    match id {
        Some(id) => if id != expect_id {
            return None;
        },
        None => {
            return None;
        },
    }
    if let Some(error) = value.get("error") {
        return Some(Err(error_text(error)));
    }
    let result = match value.get("result") {
        Some(result) => result,
        None => {
            return None;
        },
    };
    match result.get("serverInfo") {
        Some(info) => Some(
            Ok(
                ProbeInfo {
                    server_name: text_in(info, "name"),
                    server_version: text_in(info, "version"),
                },
            ),
        ),
        None => Some(Ok(ProbeInfo { server_name: None, server_version: None })),
    }
}

/// Interpret one stdout line against the initialize request.
///
/// `None` = not our response: noise (log banners on stdout are legal), non-JSON, other ids,
/// notifications. `Some(Ok)` = a result for `expect_id`; `Some(Err)` = a JSON-RPC error object
/// for `expect_id`.
pub fn parse_response_line(line: &str, expect_id: u64) -> (r: Option<Result<ProbeInfo, String>>)
    ensures
        answer_view(r) == response_in(line@, expect_id),
{
    let text = trim(line);
    // Cheap reject first.
    if !has_prefix(text.as_str(), "{") {
        return None;
    }
    match parse_json(text.as_str()) {
        Ok(value) => read_response(&value, expect_id),
        Err(_) => None,
    }
}

/// The payload of a line of an event stream; none for other lines, empty ones and the sentinel
/// that ends a stream.
pub open spec fn event_data(line: Seq<char>) -> Option<Seq<char>> {
    if starts_with(line, "data:"@) {
        let data = trimmed(line.skip("data:"@.len() as int));
        if data.len() == 0 || data == "[DONE]"@ {
            None
        } else {
            Some(data)
        }
    } else {
        None
    }
}

pub open spec fn line_answer(line: Seq<char>) -> Option<Result<Info, Seq<char>>> {
    match event_data(line) {
        Some(data) => response_in(data, REQUEST_ID),
        None => None,
    }
}

/// The first answer among the lines of an event stream.
pub open spec fn stream_answer(lines: Seq<Seq<char>>) -> Option<Result<Info, Seq<char>>>
    decreases lines.len(),
{
    if lines.len() == 0 {
        None
    } else {
        match line_answer(lines[0]) {
            Some(answer) => Some(answer),
            None => stream_answer(lines.skip(1)),
        }
    }
}

/// What a response body answers.
pub open spec fn body_answer(content_type: Seq<char>, body: Seq<char>) -> Option<
    Result<Info, Seq<char>>,
> {
    if find(content_type, "text/event-stream"@) is Some {
        stream_answer(lines_of(body))
    } else {
        response_in(body, REQUEST_ID)
    }
}

fn answer_of_line(line: &str) -> (r: Option<Result<ProbeInfo, String>>)
    ensures
        answer_view(r) == line_answer(line@),
{
    if !has_prefix(line, "data:") {
        return None;
    }
    proof {
        reveal_strlit("data:");
    }
    let data = trim(skip_chars(line, 5).as_str());
    if data.as_str().is_empty() || same(data.as_str(), "[DONE]") {
        return None;
    }
    parse_response_line(data.as_str(), REQUEST_ID)
}

/// Decide a probe answer from a (possibly partial) response body. `None` means "not decidable
/// yet". Event streams hide the payload in a `data:` line; comment and keep-alive lines are
/// skipped, and a data line that is no response does not end the search.
pub fn parse_probe_response_body(content_type: &str, body: &str) -> (r: Option<
    Result<ProbeInfo, String>,
>)
    ensures
        answer_view(r) == body_answer(content_type@, body@),
{
    if position_of_text(content_type, "text/event-stream").is_none() {
        return parse_response_line(body, REQUEST_ID);
    }
    let lines = split_lines(body);
    let ghost all = texts(lines@);
    assert(all.skip(0) =~= all);
    let mut i: usize = 0;
    while i < lines.len()
        invariant
            i <= lines.len(),
            all == texts(lines@),
            body_answer(content_type@, body@) == stream_answer(all),
            stream_answer(all) == stream_answer(all.skip(i as int)),
        decreases lines.len() - i,
    {
        let answer = answer_of_line(lines[i].as_str());
        proof {
            assert(all.skip(i as int)[0] == lines@[i as int]@);
            assert(all.skip(i as int).skip(1) =~= all.skip(i + 1));
        }
        if answer.is_some() {
            return answer;
        }
        i = i + 1;
    }
    None
}

// ── the two probes ──

/// A process to start and talk to.
#[derive(Debug)]
pub struct StdioProbe {
    pub command: String,
    pub args: Vec<String>,
}

/// How an entry is probed.
#[derive(Debug)]
pub enum ProbePlan {
    Stdio(StdioProbe),
    /// POST the initialize request to this address.
    Http(String),
}

/// What a [`ProbePlan`] holds.
pub ghost enum Probing {
    Stdio(Seq<char>, Seq<Seq<char>>),
    Http(Seq<char>),
}

impl View for ProbePlan {
    type V = Probing;

    open spec fn view(&self) -> Probing {
        match self {
            ProbePlan::Stdio(p) => Probing::Stdio(p.command@, texts(p.args@)),
            ProbePlan::Http(url) => Probing::Http(url@),
        }
    }
}

pub open spec fn plan_view(r: Result<ProbePlan, String>) -> Result<Probing, Seq<char>> {
    match r {
        Ok(plan) => Ok(plan@),
        Err(message) => Err(message@),
    }
}

/// How an entry is probed: by its command where its transport is stdio, by its address
/// otherwise.
pub open spec fn probing(e: EntryDef) -> Result<Probing, Seq<char>> {
    if e.transport == "stdio"@ {
        match e.command {
            Some(c) if c.len() > 0 => Ok(Probing::Stdio(c, e.args)),
            _ => Err("stdio entry has no command"@),
        }
    } else {
        match e.url {
            Some(u) if u.len() > 0 => Ok(Probing::Http(u)),
            _ => Err("http entry has no url"@),
        }
    }
}

/// The process that a stdio entry starts.
pub fn probe_stdio(entry: &McpEntryDef) -> (r: Result<StdioProbe, String>)
    ensures
        match r {
            Ok(p) => entry@.command == Some(p.command@) && p.command@.len() > 0 && texts(p.args@)
                == entry@.args,
            Err(m) => m@ == "stdio entry has no command"@ && (entry@.command matches Some(c)
                ==> c.len() == 0),
        },
{
    match &entry.command {
        Some(c) => if c.as_str().is_empty() {
            Err("stdio entry has no command".to_owned())
        } else {
            Ok(StdioProbe { command: c.clone(), args: copy_texts(&entry.args) })
        },
        None => Err("stdio entry has no command".to_owned()),
    }
}

/// The address that an http entry answers at.
pub fn probe_http(entry: &McpEntryDef) -> (r: Result<String, String>)
    ensures
        match r {
            Ok(url) => entry@.url == Some(url@) && url@.len() > 0,
            Err(m) => m@ == "http entry has no url"@ && (entry@.url matches Some(u) ==> u.len()
                == 0),
        },
{
    match &entry.url {
        Some(u) => if u.as_str().is_empty() {
            Err("http entry has no url".to_owned())
        } else {
            Ok(u.clone())
        },
        None => Err("http entry has no url".to_owned()),
    }
}

/// Transport dispatch: stdio entries get the handshake probe, everything else (http,
/// streamable-http) gets the POST probe.
pub fn probe_entry(entry: &McpEntryDef) -> (r: Result<ProbePlan, String>)
    ensures
        plan_view(r) == probing(entry@),
{
    if same(entry.transport.as_str(), "stdio") {
        match probe_stdio(entry) {
            Ok(p) => Ok(ProbePlan::Stdio(p)),
            Err(m) => Err(m),
        }
    } else {
        match probe_http(entry) {
            Ok(url) => Ok(ProbePlan::Http(url)),
            Err(m) => Err(m),
        }
    }
}

/// What happens to a process that is being probed.
#[derive(Debug)]
pub enum StdioEvent {
    /// It could not be started.
    SpawnFailed(String),
    /// The request could not be written to it.
    WriteFailed(String),
    /// It has no output to read.
    NoOutput,
    /// It wrote a line.
    Line(String),
    /// The time was up, in seconds.
    TimedOut(String),
    /// It closed its output.
    Closed,
}

/// What an event means for the probe of a command: its outcome, or nothing yet.
pub open spec fn stdio_outcome(command: Seq<char>, event: StdioEvent) -> Option<
    Result<Info, Seq<char>>,
> {
    match event {
        StdioEvent::SpawnFailed(e) => Some(Err("spawn "@ + command + " failed: "@ + e@)),
        StdioEvent::WriteFailed(e) => Some(
            Err("write to "@ + command + " stdin failed: "@ + e@),
        ),
        StdioEvent::NoOutput => Some(Err("stdio probe: child stdout was not piped"@)),
        StdioEvent::Line(line) => response_in(line@, REQUEST_ID),
        StdioEvent::TimedOut(seconds) => Some(
            Err(
                "timeout: "@ + command + " sent no initialize response within "@ + seconds@ + "s"@,
            ),
        ),
        StdioEvent::Closed => Some(
            Err(command + " closed stdout without answering the initialize request"@),
        ),
    }
}

/// Lead a stdio probe on by what happened. `None` = go on reading. The process is to be killed
/// and reaped whatever the outcome.
pub fn stdio_step(command: &str, event: &StdioEvent) -> (r: Option<Result<ProbeInfo, String>>)
    ensures
        answer_view(r) == stdio_outcome(command@, *event),
{
    match event {
        StdioEvent::SpawnFailed(e) => {
            let mut m = "spawn ".to_owned();
            m.append(command);
            m.append(" failed: ");
            m.append(e.as_str());
            Some(Err(m))
        },
        StdioEvent::WriteFailed(e) => {
            let mut m = "write to ".to_owned();
            m.append(command);
            m.append(" stdin failed: ");
            m.append(e.as_str());
            Some(Err(m))
        },
        StdioEvent::NoOutput => Some(Err("stdio probe: child stdout was not piped".to_owned())),
        StdioEvent::Line(line) => parse_response_line(line.as_str(), REQUEST_ID),
        StdioEvent::TimedOut(seconds) => {
            let mut m = "timeout: ".to_owned();
            m.append(command);
            m.append(" sent no initialize response within ");
            m.append(seconds.as_str());
            m.append("s");
            Some(Err(m))
        },
        StdioEvent::Closed => {
            let mut m = command.to_owned();
            m.append(" closed stdout without answering the initialize request");
            Some(Err(m))
        },
    }
}

/// A handshake goes on until the first event that decides it.
pub open spec fn handshake(command: Seq<char>, events: Seq<StdioEvent>) -> Option<
    Result<Info, Seq<char>>,
>
    decreases events.len(),
{
    if events.len() == 0 {
        None
    } else {
        match stdio_outcome(command, events[0]) {
            Some(outcome) => Some(outcome),
            None => handshake(command, events.skip(1)),
        }
    }
}

/// Lines that are no answer, however many, do not change what a handshake comes to.
pub proof fn law_noise_is_skipped(command: Seq<char>, noise: Seq<StdioEvent>, rest: Seq<StdioEvent>)
    requires
        forall|i: int|
            0 <= i < noise.len() ==> stdio_outcome(command, #[trigger] noise[i]) is None,
    ensures
        handshake(command, noise + rest) == handshake(command, rest),
    decreases noise.len(),
{
    if noise.len() == 0 {
        assert(noise + rest =~= rest);
    } else {
        assert((noise + rest)[0] == noise[0]);
        assert((noise + rest).skip(1) =~= noise.skip(1) + rest);
        assert forall|i: int| 0 <= i < noise.skip(1).len() implies stdio_outcome(
            command,
            #[trigger] noise.skip(1)[i],
        ) is None by {
            assert(noise.skip(1)[i] == noise[i + 1]);
        }
        law_noise_is_skipped(command, noise.skip(1), rest);
    }
}

/// What an endpoint replied.
#[derive(Debug)]
pub enum HttpReply {
    /// No reply in time.
    TimedOut,
    /// No connection.
    NoConnection(String),
    /// Another failure on the way.
    Failed(String),
    /// A status other than success.
    Refused(String),
    Body { content_type: String, body: String },
}

/// What a reply from an address means.
pub open spec fn http_outcome(url: Seq<char>, reply: HttpReply) -> Result<Info, Seq<char>> {
    match reply {
        HttpReply::TimedOut => Err("timeout"@),
        HttpReply::NoConnection(e) => Err("connect failed: "@ + e@),
        HttpReply::Failed(e) => Err(e@),
        HttpReply::Refused(status) => Err("HTTP "@ + status@ + " from "@ + url),
        HttpReply::Body { content_type, body } => match body_answer(content_type@, body@) {
            Some(answer) => answer,
            None => Err("no initialize result in response from "@ + url),
        },
    }
}

/// The outcome of an http probe by the endpoint's reply.
pub fn http_probe_outcome(url: &str, reply: HttpReply) -> (r: Result<ProbeInfo, String>)
    ensures
        probe_view(r) == http_outcome(url@, reply),
{
    match reply {
        HttpReply::TimedOut => Err("timeout".to_owned()),
        HttpReply::NoConnection(e) => {
            let mut m = "connect failed: ".to_owned();
            m.append(e.as_str());
            Err(m)
        },
        HttpReply::Failed(e) => Err(e),
        HttpReply::Refused(status) => {
            let mut m = "HTTP ".to_owned();
            m.append(status.as_str());
            m.append(" from ");
            m.append(url);
            Err(m)
        },
        HttpReply::Body { content_type, body } => match parse_probe_response_body(
            content_type.as_str(),
            body.as_str(),
        ) {
            Some(answer) => answer,
            None => {
                let mut m = "no initialize result in response from ".to_owned();
                m.append(url);
                Err(m)
            },
        },
    }
}

} // verus!
