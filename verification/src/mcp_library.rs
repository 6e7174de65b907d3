//! The managed MCP library: definitions deployed to agents by surgical text edits, with a
//! confirmation before any human edit is overwritten.
//!
//! Here lives what the operations share: the definition behind a record, its validation, the
//! live state of an entry in an agent's config text, and the token that a confirmation is bound
//! to. Agent files are read and written outside: [`funnel`] and [`rename`] say what one write
//! does to one file, [`runs`] leads an operation over every agent, [`report`], [`takeover`] and
//! [`upgrade`] answer the rest.

pub mod audit;
pub mod content_laws;
pub mod delete_laws;
pub mod edit_laws;
pub mod funnel;
pub mod funnel_laws;
pub mod jobs;
pub mod laws;
pub mod rename;
pub mod rename_laws;
pub mod report;
pub mod runs;
pub mod takeover;
pub mod tokens;
pub mod upgrade;

use vstd::prelude::*;
use crate::digest::{digest_text, hex_digest};
use crate::env_map::EnvMap;
use crate::error::{failure, invalid, AppError, ErrorKind, Failure};
use crate::json::{ordered, plain, Json, JsonTree};
use crate::mcp_store::{McpServerRecord, Server};
use crate::mcp_upstream::{
    may_say_why, parse_source, source_of_json, source_refused, source_to_json, source_tree,
    McpSource, Source,
};
use crate::mcp_writers::{
    entry_fingerprint, fingerprint, AgentWriteError, AgentWriter, EntryDef, McpEntryDef, McpWriter,
    WriteError,
};
use crate::text::{
    char_is_control, chars_of, decimal, decimal_of_signed, has_char, is_control, join, join_with,
    same, texts, trim, trimmed,
};
use crate::text_lists::{copy_text, copy_texts};

verus! {

/// Wire form of [`McpEntryDef`]; identical field set, kept as its own type so the frontend
/// contract never couples to the writers' struct.
#[derive(Debug)]
pub struct McpEntryDefDto {
    pub name: String,
    pub transport: String,
    pub command: Option<String>,
    pub args: Vec<String>,
    pub url: Option<String>,
    pub env: EnvMap,
}

impl View for McpEntryDefDto {
    type V = EntryDef;

    open spec fn view(&self) -> EntryDef {
        EntryDef {
            name: self.name@,
            transport: self.transport@,
            command: self.command.deep_view(),
            args: texts(self.args@),
            url: self.url.deep_view(),
            env: self.env@,
        }
    }
}

impl McpEntryDefDto {
    pub fn entry_def(&self) -> (r: McpEntryDef)
        ensures
            r@ == self@,
    {
        McpEntryDef {
            name: self.name.clone(),
            transport: self.transport.clone(),
            command: copy_text(&self.command),
            args: copy_texts(&self.args),
            url: copy_text(&self.url),
            env: self.env.clone(),
        }
    }
}

/// What a write refused to do until the user confirms: the file's current text vs the text this
/// operation would install.
#[derive(Debug)]
pub struct PendingDriftDto {
    pub agent_key: String,
    pub token: String,
    pub current_text: String,
    pub planned_text: String,
    /// "drift" = the ledger's own entry was changed behind our back; "foreign" = an entry we
    /// never wrote occupies the name.
    pub kind: String,
}

/// What a [`PendingDriftDto`] holds.
pub ghost struct Drift {
    pub agent_key: Seq<char>,
    pub token: Seq<char>,
    pub current_text: Seq<char>,
    pub planned_text: Seq<char>,
    pub kind: Seq<char>,
}

impl View for PendingDriftDto {
    type V = Drift;

    open spec fn view(&self) -> Drift {
        Drift {
            agent_key: self.agent_key@,
            token: self.token@,
            current_text: self.current_text@,
            planned_text: self.planned_text@,
            kind: self.kind@,
        }
    }
}

/// Result of a single (server, agent) write.
#[derive(Debug)]
pub enum WriteOutcome {
    Applied,
    PendingDrift(PendingDriftDto),
}

/// What a [`WriteOutcome`] holds.
pub ghost enum Written {
    Applied,
    Pending(Drift),
}

impl View for WriteOutcome {
    type V = Written;

    open spec fn view(&self) -> Written {
        match self {
            WriteOutcome::Applied => Written::Applied,
            WriteOutcome::PendingDrift(drift) => Written::Pending(drift@),
        }
    }
}

/// The definition behind a record.
pub open spec fn entry_of(s: Server) -> EntryDef {
    EntryDef {
        name: s.name,
        transport: s.transport,
        command: s.command,
        args: s.args,
        url: s.url,
        env: s.env,
    }
}

pub fn entry_from_record(record: &McpServerRecord) -> (r: McpEntryDef)
    ensures
        r@ == entry_of(record@),
{
    McpEntryDef {
        name: record.name.clone(),
        transport: record.transport.clone(),
        command: copy_text(&record.command),
        args: copy_texts(&record.args),
        url: copy_text(&record.url),
        env: record.env.clone(),
    }
}

/// A format the writer refuses to touch is an input-level refusal, never a silent whole-file
/// rewrite.
pub open spec fn writer_failure(e: WriteError) -> Failure {
    match e {
        WriteError::Unsafe(message) => invalid(message),
        WriteError::Io(message) => failure(ErrorKind::Io, message),
    }
}

pub fn writer_err(err: AgentWriteError) -> (r: AppError)
    ensures
        r@ == writer_failure(err@),
{
    match err {
        AgentWriteError::Unsafe(message) => AppError::new(ErrorKind::InvalidInput, message),
        AgentWriteError::Io(message) => AppError::new(ErrorKind::Io, message),
    }
}

// ── validation ──

pub open spec fn named_or_refused(raw: Seq<char>) -> Result<Seq<char>, Failure> {
    let name = trimmed(raw);
    if name.len() == 0 {
        Err(invalid("MCP server name must not be empty"@))
    } else if name.contains('/') || name.contains('\\') {
        Err(invalid("MCP server name \""@ + name + "\" must not contain path separators"@))
    } else {
        Ok(name)
    }
}

pub open spec fn name_view(r: Result<String, AppError>) -> Result<Seq<char>, Failure> {
    match r {
        Ok(name) => Ok(name@),
        Err(e) => Err(e@),
    }
}

/// Name validation for add/edit: trimmed, non-empty, and free of the two path separators that
/// would break out of a config-key context.
pub fn validate_name(raw: &str) -> (r: Result<String, AppError>)
    ensures
        name_view(r) == named_or_refused(raw@),
{
    let name = trim(raw);
    if name.as_str().is_empty() {
        return Err(AppError::invalid_input("MCP server name must not be empty"));
    }
    if has_char(name.as_str(), '/') || has_char(name.as_str(), '\\') {
        let mut m = "MCP server name \"".to_owned();
        m.append(name.as_str());
        m.append("\" must not contain path separators");
        return Err(AppError::invalid_input(m.as_str()));
    }
    Ok(name)
}

pub open spec fn known_transport(transport: Seq<char>) -> bool {
    transport == "stdio"@ || transport == "http"@ || transport == "streamable-http"@
}

/// Whether a text has a control character in it. Tabs are legal inside scalars and never start
/// a line, so they do not count.
pub open spec fn unsafe_text(s: Seq<char>) -> bool {
    exists|i: int| 0 <= i < s.len() && is_control(#[trigger] s[i]) && s[i] != '\t'
}

pub open spec fn unsafe_option(s: Option<Seq<char>>) -> bool {
    match s {
        Some(t) => unsafe_text(t),
        None => false,
    }
}

pub open spec fn when(unsafe_field: bool, label: Seq<char>) -> Seq<Seq<char>> {
    if unsafe_field {
        seq![label]
    } else {
        Seq::empty()
    }
}

/// The fields of a definition that have control characters in them.
pub open spec fn unsafe_fields(e: EntryDef) -> Seq<Seq<char>> {
    when(unsafe_text(e.name), "name"@) + when(unsafe_option(e.command), "command"@) + when(
        exists|i: int| 0 <= i < e.args.len() && unsafe_text(#[trigger] e.args[i]),
        "args"@,
    ) + when(unsafe_option(e.url), "url"@) + when(
        exists|i: int|
            0 <= i < e.env.len() && (unsafe_text((#[trigger] e.env[i]).0) || unsafe_text(
                e.env[i].1,
            )),
        "env"@,
    )
}

pub open spec fn scalars_checked(e: EntryDef) -> Result<(), Failure> {
    if !known_transport(e.transport) {
        Err(
            invalid(
                "unknown MCP transport \""@ + e.transport
                    + "\" (expected stdio, http or streamable-http)"@,
            ),
        )
    } else if unsafe_fields(e).len() > 0 {
        Err(
            invalid(
                "MCP entry fields ("@ + join(unsafe_fields(e), ", "@)
                    + ") must not contain newlines or control characters"@,
            ),
        )
    } else {
        Ok(())
    }
}

fn has_control(s: &str) -> (r: bool)
    ensures
        r == unsafe_text(s@),
{
    let chars = chars_of(s);
    let mut i: usize = 0;
    while i < chars.len()
        invariant
            i <= chars.len(),
            chars@ == s@,
            forall|k: int| 0 <= k < i ==> !is_control(#[trigger] s@[k]) || s@[k] == '\t',
        decreases chars.len() - i,
    {
        if char_is_control(chars[i]) && chars[i] != '\t' {
            assert(is_control(s@[i as int]));
            return true;
        }
        i = i + 1;
    }
    false
}

fn any_control(list: &Vec<String>) -> (r: bool)
    ensures
        r == exists|i: int|
            0 <= i < texts(list@).len() && unsafe_text(#[trigger] texts(list@)[i]),
{
    let mut i: usize = 0;
    while i < list.len()
        invariant
            i <= list.len(),
            forall|k: int| 0 <= k < i ==> !unsafe_text(#[trigger] texts(list@)[k]),
        decreases list.len() - i,
    {
        if has_control(list[i].as_str()) {
            assert(unsafe_text(texts(list@)[i as int]));
            return true;
        }
        i = i + 1;
    }
    false
}

fn env_has_control(env: &EnvMap) -> (r: bool)
    ensures
        r == exists|i: int|
            0 <= i < env@.len() && (unsafe_text((#[trigger] env@[i]).0) || unsafe_text(env@[i].1)),
{
    let n: usize = env.len();
    let mut i: usize = 0;
    while i < n
        invariant
            i <= n,
            n == env@.len(),
            forall|k: int|
                0 <= k < i ==> !unsafe_text((#[trigger] env@[k]).0) && !unsafe_text(env@[k].1),
        decreases n - i,
    {
        if has_control(env.key_at(i).as_str()) || has_control(env.value_at(i).as_str()) {
            assert(unsafe_text(env@[i as int].0) || unsafe_text(env@[i as int].1));
            return true;
        }
        i = i + 1;
    }
    false
}

fn option_has_control(s: &Option<String>) -> (r: bool)
    ensures
        r == unsafe_option(s.deep_view()),
{
    match s {
        Some(t) => has_control(t.as_str()),
        None => false,
    }
}

fn push_when(fields: &mut Vec<String>, found: bool, label: &str)
    ensures
        texts(final(fields)@) == texts(old(fields)@) + when(found, label@),
{
    let ghost before = texts(fields@);
    if found {
        fields.push(label.to_owned());
        assert(texts(fields@) =~= before + seq![label@]);
    } else {
        assert(before + Seq::<Seq<char>>::empty() =~= before);
    }
}

/// Reject an unknown transport, and control characters in any scalar that lands in an agent
/// config file: a raw newline in a YAML scalar could put a block opener at column 0, where the
/// writer splits blocks.
pub fn validate_entry_scalars(entry: &McpEntryDef) -> (r: Result<(), AppError>)
    ensures
        crate::mcp_store::unit_view(r) == scalars_checked(entry@),
{
    if !(same(entry.transport.as_str(), "stdio") || same(entry.transport.as_str(), "http") || same(
        entry.transport.as_str(),
        "streamable-http",
    )) {
        let mut m = "unknown MCP transport \"".to_owned();
        m.append(entry.transport.as_str());
        m.append("\" (expected stdio, http or streamable-http)");
        return Err(AppError::invalid_input(m.as_str()));
    }
    let mut fields: Vec<String> = Vec::new();
    assert(texts(fields@) =~= Seq::<Seq<char>>::empty());
    push_when(&mut fields, has_control(entry.name.as_str()), "name");
    push_when(&mut fields, option_has_control(&entry.command), "command");
    push_when(&mut fields, any_control(&entry.args), "args");
    push_when(&mut fields, option_has_control(&entry.url), "url");
    push_when(&mut fields, env_has_control(&entry.env), "env");
    assert(texts(fields@) =~= unsafe_fields(entry@));
    if fields.len() == 0 {
        return Ok(());
    }
    let mut m = "MCP entry fields (".to_owned();
    m.append(join_with(&fields, ", ").as_str());
    m.append(") must not contain newlines or control characters");
    Err(AppError::invalid_input(m.as_str()))
}

// ── sources ──

/// The source that a request names; null names none.
pub open spec fn requested_source(source: JsonTree) -> Option<Source> {
    if source is Null {
        Some(Source::Unknown)
    } else {
        source_of_json(source)
    }
}

pub open spec fn json_view(r: Result<Json, AppError>) -> Result<JsonTree, Failure> {
    match r {
        Ok(v) => Ok(v@),
        Err(e) => Err(e@),
    }
}

/// What preparing a source may ask: a git source to be cloned from its address, and what is wrong
/// with a value that is no source.
pub open spec fn may_prepare<
    C: FnOnce(&String) -> Result<String, String>,
    W: Fn(&Json) -> String,
>(source: JsonTree, clone_repo: C, why: W) -> bool {
    &&& forall|url: &String|
        (requested_source(source) matches Some(Source::Git(at, _)) && at == url@)
            ==> #[trigger] call_requires(clone_repo, (url,))
    &&& !(source is Null) ==> may_say_why(why, source)
}

/// What preparing a source may come to, where a git source is cloned by `clone_repo` and `why`
/// says what is wrong with a value that is no source.
pub open spec fn source_prepared<
    C: FnOnce(&String) -> Result<String, String>,
    W: Fn(&Json) -> String,
>(source: JsonTree, clone_repo: C, why: W, r: Result<JsonTree, Failure>) -> bool {
    match requested_source(source) {
        None => r matches Err(e) && e == invalid(e.message) && source_refused(source, why, e.message),
        Some(Source::Git(url, _)) => exists|repo_url: String, cloned: Result<String, String>|
            repo_url@ == url && #[trigger] call_ensures(clone_repo, (&repo_url,), cloned) && r
                == cloned_source(
                url,
                match cloned {
                    Ok(path) => Ok(path@),
                    Err(e) => Err(e@),
                },
            ),
        Some(other) => r == Ok::<JsonTree, Failure>(source_tree(other)),
    }
}

/// The stored source of a cloned repository; a failed clone aborts.
pub open spec fn cloned_source(url: Seq<char>, cloned: Result<Seq<char>, Seq<char>>) -> Result<
    JsonTree,
    Failure,
> {
    match cloned {
        Ok(path) => Ok(source_tree(Source::Git(url, path))),
        Err(e) => Err(failure(ErrorKind::Git, e)),
    }
}

/// Validate the incoming source, and materialize a git source into the central cache so the
/// stored record carries a real `clone_path`. Always returns the canonical form, so equality
/// checks against the stored column don't hinge on frontend key ordering.
pub fn prepare_source<C: FnOnce(&String) -> Result<String, String>, W: Fn(&Json) -> String>(
    source: &Json,
    clone_repo: C,
    why: &W,
) -> (r: Result<Json, AppError>)
    requires
        may_prepare(source@, clone_repo, *why),
    ensures
        source_prepared(source@, clone_repo, *why, json_view(r)),
        r matches Ok(v) ==> ordered(v@) && plain(v@, 100),
{
    let is_null = matches!(source, Json::Null);
    let parsed = if is_null {
        McpSource::Unknown
    } else {
        match parse_source(source, why) {
            Ok(parsed) => parsed,
            Err(message) => {
                return Err(AppError::new(ErrorKind::InvalidInput, message));
            },
        }
    };
    let ready = match parsed {
        McpSource::Git { repo_url, clone_path } => match clone_repo(&repo_url) {
            Ok(path) => McpSource::Git { repo_url, clone_path: path },
            Err(message) => {
                return Err(AppError::new(ErrorKind::Git, message));
            },
        },
        other => other,
    };
    Ok(source_to_json(&ready))
}

// ── live entries and tokens ──

/// The fingerprint of an entry as a config text has it. A text that cannot be read has none.
pub open spec fn live_fingerprint(writer: AgentWriter, text: Seq<char>, name: Seq<char>) -> Option<
    Seq<char>,
> {
    match writer.entry_in(text, name) {
        Ok(Some(entry)) => Some(fingerprint(entry)),
        _ => None,
    }
}

/// Fingerprint of the current stored definition of `name` in `text`. `None` covers both
/// "absent" and "file not parseable" — the writer operation turns a real parse failure into a
/// hard refusal.
pub fn current_fingerprint(writer: &AgentWriter, text: &str, name: &str) -> (r: Option<String>)
    ensures
        r.deep_view() == live_fingerprint(*writer, text@, name@),
{
    match writer.read_entry(text, name) {
        Ok(Some(entry)) => Some(entry_fingerprint(&entry)),
        _ => None,
    }
}

/// The fingerprint a definition would read back with in one agent's format.
pub open spec fn defined_fingerprint(writer: AgentWriter, s: Server) -> Option<Seq<char>> {
    match writer.upserted(writer.blank(), entry_of(s)) {
        Ok(text) => live_fingerprint(writer, text, s.name),
        Err(_) => None,
    }
}

/// The fingerprint the definition would read back with in one agent's format — the baseline a
/// binding's live entry is compared against. Rendered through a scratch document because
/// formats normalize.
pub fn record_fingerprint_via(writer: &AgentWriter, record: &McpServerRecord) -> (r: Option<String>)
    ensures
        r.deep_view() == defined_fingerprint(*writer, record@),
{
    match writer.upsert(writer.empty_doc(), &entry_from_record(record)) {
        Ok(text) => current_fingerprint(writer, text.as_str(), record.name.as_str()),
        Err(_) => None,
    }
}

/// What a confirmation token is the digest of: agent, entry name, the fingerprint believed to
/// be on disk, and the definition's revision.
pub open spec fn drift_commitment(
    agent_key: Seq<char>,
    name: Seq<char>,
    basis: Seq<char>,
    revision: i64,
) -> Seq<char> {
    "mcp-drift-v1"@ + seq!['\0'] + agent_key + seq!['\0'] + name + seq!['\0'] + basis + seq!['\0']
        + decimal(revision as int)
}

pub open spec fn drift_digest(
    agent_key: Seq<char>,
    name: Seq<char>,
    basis: Seq<char>,
    revision: i64,
) -> Seq<char> {
    digest_text(drift_commitment(agent_key, name, basis, revision))
}

/// Commitment hash for one drift confirmation: bound to the agent, the entry name, the
/// fingerprint the ledger believes is on disk, and the definition revision — so a token can
/// never authorize a different or newer pending change.
pub fn drift_token(agent_key: &str, name: &str, binding_fingerprint: &str, revision: i64) -> (r:
    String)
    ensures
        r@ == drift_digest(agent_key@, name@, binding_fingerprint@, revision),
{
    let mut t = "mcp-drift-v1".to_owned();
    t.push('\0');
    t.append(agent_key);
    t.push('\0');
    t.append(name);
    t.push('\0');
    t.append(binding_fingerprint);
    t.push('\0');
    t.append(decimal_of_signed(revision).as_str());
    assert(t@ =~= drift_commitment(agent_key@, name@, binding_fingerprint@, revision));
    hex_digest(t.as_str())
}

} // verus!
