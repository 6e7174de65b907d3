//! The library as it is shown: every definition with a live verdict on each of its bindings.

use vstd::prelude::*;
use crate::mcp_inventory::{ConfigRead, FileState, McpAgentStatus};
use crate::mcp_library::{defined_fingerprint, live_fingerprint, record_fingerprint_via};
use crate::mcp_store::{
    binding_views, lists_bindings_of, lists_servers, server_views, Binding, Library,
    McpBindingRecord, McpServerRecord, Server, SkillStore,
};
use crate::mcp_writers::{
    entry_fingerprint, fingerprint, write_error_message, AgentWriter, McpWriter,
};
use crate::text::{same, texts};
use crate::text_lists::{as_ref, same_option};

verus! {

/// One binding row enriched with a live drift verdict for its agent file.
#[derive(Debug)]
pub struct McpBindingDto {
    pub agent_key: String,
    pub fingerprint: String,
    pub drift: bool,
    pub drift_reason: Option<String>,
    /// The agent's live entry differs from the definition's command (adopted as-is at
    /// takeover). Not drift — nobody changed anything — but this agent does not run the
    /// definition verbatim.
    pub variant: bool,
}

/// What an [`McpBindingDto`] holds.
#[verifier::ext_equal]
pub ghost struct Verdict {
    pub agent_key: Seq<char>,
    pub fingerprint: Seq<char>,
    pub drift: bool,
    pub drift_reason: Option<Seq<char>>,
    pub variant: bool,
}

impl View for McpBindingDto {
    type V = Verdict;

    open spec fn view(&self) -> Verdict {
        Verdict {
            agent_key: self.agent_key@,
            fingerprint: self.fingerprint@,
            drift: self.drift,
            drift_reason: self.drift_reason.deep_view(),
            variant: self.variant,
        }
    }
}

/// A library definition plus its deployment ledger.
pub struct McpServerDto {
    pub record: McpServerRecord,
    pub bindings: Vec<McpBindingDto>,
}

pub struct McpLibraryReport {
    pub servers: Vec<McpServerDto>,
    /// Per-agent availability/read status — reused from the inventory scan so both sections of
    /// the page agree on what agents exist.
    pub agents: Vec<McpAgentStatus>,
}

/// An agent's config as it was found: the writer of its format, or why there is none, and the
/// file as it was read.
pub struct AgentFile {
    pub agent_key: String,
    pub writer: Result<AgentWriter, String>,
    pub read: ConfigRead,
}

/// What an [`AgentFile`] says of the agent's config.
pub ghost struct Found {
    pub agent_key: Seq<char>,
    pub writer: Result<AgentWriter, Seq<char>>,
    pub file: FileState,
}

pub open spec fn found_view(f: AgentFile) -> Found {
    Found {
        agent_key: f.agent_key@,
        writer: match f.writer {
            Ok(writer) => Ok(writer),
            Err(message) => Err(message@),
        },
        file: f.read@,
    }
}

pub open spec fn agent_files(v: Seq<AgentFile>) -> Seq<Found> {
    Seq::new(v.len(), |i: int| found_view(v[i]))
}

/// What was found first of an agent.
pub open spec fn file_read(files: Seq<Found>, agent_key: Seq<char>) -> Option<Found>
    decreases files.len(),
{
    if files.len() == 0 {
        None
    } else if files[0].agent_key == agent_key {
        Some(files[0])
    } else {
        file_read(files.skip(1), agent_key)
    }
}

pub open spec fn found_ref(f: Option<&AgentFile>) -> Option<Found> {
    match f {
        Some(file) => Some(found_view(*file)),
        None => None,
    }
}

/// What was found of an agent.
pub fn find_file<'a>(files: &'a Vec<AgentFile>, agent_key: &str) -> (r: Option<&'a AgentFile>)
    ensures
        found_ref(r) == file_read(agent_files(files@), agent_key@),
{
    let ghost all = agent_files(files@);
    assert(all.skip(0) =~= all);
    let mut i: usize = 0;
    while i < files.len()
        invariant
            i <= files.len(),
            all == agent_files(files@),
            file_read(all, agent_key@) == file_read(all.skip(i as int), agent_key@),
        decreases files.len() - i,
    {
        let file = &files[i];
        assert(all.skip(i as int)[0] == found_view(*file));
        if same(file.agent_key.as_str(), agent_key) {
            return Some(file);
        }
        assert(all.skip(i as int).skip(1) =~= all.skip(i + 1));
        i = i + 1;
    }
    None
}

/// Whether and why an agent's file no longer has what the ledger says.
pub open spec fn drift_reason(s: Server, b: Binding, found: Option<Found>) -> Option<Seq<char>> {
    match found {
        None => Some("config file not found"@),
        Some(Found { writer: Err(message), .. }) => Some(message),
        Some(Found { writer: Ok(w), file, .. }) => match file {
            FileState::Missing => Some("config file not found"@),
            FileState::Failed(error) => Some("config file unreadable: "@ + error),
            FileState::Text(text) => match w.entry_in(text, s.name) {
                Ok(Some(entry)) => if fingerprint(entry) == b.fingerprint {
                    None
                } else {
                    Some("entry was hand-edited since the last write"@)
                },
                Ok(None) => Some("entry is no longer in the config file"@),
                Err(e) => Some("config file not parseable: "@ + write_error_message(e)),
            },
        },
    }
}

/// The verdict on a binding: drifted, or as the ledger has it; and in that case whether it is
/// another command than the definition's own.
pub open spec fn verdict(s: Server, b: Binding, found: Option<Found>) -> Verdict {
    let reason = drift_reason(s, b, found);
    Verdict {
        agent_key: b.agent_key,
        fingerprint: b.fingerprint,
        drift: reason is Some,
        drift_reason: reason,
        variant: reason is None && match found {
            Some(Found { writer: Ok(w), .. }) => defined_fingerprint(w, s) is Some
                && defined_fingerprint(w, s) != Some(b.fingerprint),
            _ => false,
        },
    }
}

fn reason_of(
    record: &McpServerRecord,
    binding: &McpBindingRecord,
    found: Option<&AgentFile>,
) -> (r: Option<String>)
    ensures
        r.deep_view() == drift_reason(record@, binding@, found_ref(found)),
{
    let file = match found {
        Some(file) => file,
        None => {
            return Some("config file not found".to_owned());
        },
    };
    let writer = match &file.writer {
        Ok(writer) => writer,
        Err(message) => {
            return Some(message.clone());
        },
    };
    match &file.read {
        ConfigRead::Missing => Some("config file not found".to_owned()),
        ConfigRead::Failed(error) => {
            let mut m = "config file unreadable: ".to_owned();
            m.append(error.as_str());
            Some(m)
        },
        ConfigRead::Text(text) => match writer.read_entry(text.as_str(), record.name.as_str()) {
            Ok(Some(entry)) => {
                if same(entry_fingerprint(&entry).as_str(), binding.fingerprint.as_str()) {
                    None
                } else {
                    Some("entry was hand-edited since the last write".to_owned())
                }
            },
            Ok(None) => Some("entry is no longer in the config file".to_owned()),
            Err(e) => {
                let mut m = "config file not parseable: ".to_owned();
                m.append(e.message().as_str());
                Some(m)
            },
        },
    }
}

/// The verdict on one binding, by what was found of its agent.
pub fn binding_verdict(
    record: &McpServerRecord,
    binding: &McpBindingRecord,
    found: Option<&AgentFile>,
) -> (r: McpBindingDto)
    ensures
        r@ == verdict(record@, binding@, found_ref(found)),
{
    let drift_reason = reason_of(record, binding, found);
    let drift = drift_reason.is_some();
    let mut variant = false;
    if !drift {
        if let Some(file) = found {
            if let Ok(w) = &file.writer {
                // Live and as adopted: is it still the definition's own command?
                let defined = record_fingerprint_via(w, record);
                variant = defined.is_some() && !same_option(
                    as_ref(&defined),
                    Some(&binding.fingerprint),
                );
            }
        }
    }
    McpBindingDto {
        agent_key: binding.agent_key.clone(),
        fingerprint: binding.fingerprint.clone(),
        drift,
        drift_reason,
        variant,
    }
}

pub open spec fn verdict_views(v: Seq<McpBindingDto>) -> Seq<Verdict> {
    Seq::new(v.len(), |i: int| v[i]@)
}

pub open spec fn record_views(v: Seq<McpServerDto>) -> Seq<Server> {
    Seq::new(v.len(), |i: int| v[i].record@)
}

/// The verdicts on the bindings of a definition, in the order of the agents.
pub open spec fn verdicts_on(
    v: Seq<Verdict>,
    s: Server,
    l: Library,
    files: Seq<Found>,
) -> bool {
    exists|rows: Seq<Binding>| #[trigger]
        lists_bindings_of(rows, l, s.id) && v == Seq::new(
            rows.len(),
            |i: int| verdict(s, rows[i], file_read(files, rows[i].agent_key)),
        )
}

fn server_dto(store: &SkillStore, record: McpServerRecord, files: &Vec<AgentFile>) -> (r:
    McpServerDto)
    ensures
        r.record@ == record@,
        verdicts_on(verdict_views(r.bindings@), record@, store@, agent_files(files@)),
{
    let rows = store.get_mcp_bindings_for_server(record.id.as_str());
    let ghost bs = binding_views(rows@);
    let mut bindings: Vec<McpBindingDto> = Vec::new();
    let mut i: usize = 0;
    while i < rows.len()
        invariant
            i <= rows.len(),
            bs == binding_views(rows@),
            bindings@.len() == i,
            forall|k: int|
                0 <= k < i ==> (#[trigger] bindings@[k])@ == verdict(
                    record@,
                    bs[k],
                    file_read(agent_files(files@), bs[k].agent_key),
                ),
        decreases rows.len() - i,
    {
        let row = &rows[i];
        assert(bs[i as int] == row@);
        let file = find_file(files, row.agent_key.as_str());
        bindings.push(binding_verdict(&record, row, file));
        i = i + 1;
    }
    proof {
        let v = verdict_views(bindings@);
        assert(v =~= Seq::new(
            bs.len(),
            |k: int| verdict(record@, bs[k], file_read(agent_files(files@), bs[k].agent_key)),
        ));
        assert(lists_bindings_of(bs, store@, record@.id));
    }
    McpServerDto { record, bindings }
}

/// The agents whose configs a report needs, each once.
pub fn ledger_agents(store: &SkillStore) -> (r: Vec<String>)
    ensures
        forall|id: Seq<char>, agent: Seq<char>| #[trigger]
            store@.bindings.contains_key((id, agent)) ==> texts(r@).contains(agent),
        crate::order::strictly_ascending(texts(r@)),
{
    let rows = store.get_all_mcp_bindings();
    let ghost bs = binding_views(rows@);
    let mut keys: Vec<String> = Vec::new();
    let mut i: usize = 0;
    while i < rows.len()
        invariant
            i <= rows.len(),
            bs == binding_views(rows@),
            keys@.len() == i,
            forall|k: int| 0 <= k < i ==> (#[trigger] keys@[k])@ == bs[k].agent_key,
        decreases rows.len() - i,
    {
        assert(bs[i as int] == rows@[i as int]@);
        keys.push(rows[i].agent_key.clone());
        i = i + 1;
    }
    let r = crate::order::sort_distinct(&keys);
    proof {
        let names = texts(keys@);
        assert forall|id: Seq<char>, agent: Seq<char>| #[trigger]
            store@.bindings.contains_key((id, agent)) implies texts(r@).contains(agent) by {
            crate::table::lemma_found(bs, crate::mcp_store::binding_key(), (id, agent));
            let k = crate::table::row_at(bs, crate::mcp_store::binding_key(), (id, agent));
            assert(names[k] == agent);
            crate::order::law_distinct_sorted(names, agent);
        }
        crate::order::law_distinct_sorted(names, Seq::<char>::empty());
    }
    r
}

/// Every managed definition, by name, with every binding's live drift verdict. `files` has the
/// config of each agent in the ledger, read once.
pub fn get_mcp_library(store: &SkillStore, files: &Vec<AgentFile>, agents: Vec<McpAgentStatus>) -> (r:
    McpLibraryReport)
    ensures
        lists_servers(record_views(r.servers@), store@),
        forall|i: int|
            0 <= i < r.servers@.len() ==> verdicts_on(
                verdict_views((#[trigger] r.servers@[i]).bindings@),
                r.servers@[i].record@,
                store@,
                agent_files(files@),
            ),
        r.agents == agents,
{
    let records = store.get_all_mcp_servers();
    let mut servers: Vec<McpServerDto> = Vec::new();
    let mut i: usize = 0;
    while i < records.len()
        invariant
            i <= records.len(),
            servers@.len() == i,
            forall|k: int|
                0 <= k < i ==> (#[trigger] servers@[k]).record@ == records@[k]@ && verdicts_on(
                    verdict_views(servers@[k].bindings@),
                    servers@[k].record@,
                    store@,
                    agent_files(files@),
                ),
        decreases records.len() - i,
    {
        let dto = server_dto(store, records[i].clone(), files);
        servers.push(dto);
        i = i + 1;
    }
    assert(record_views(servers@) =~= server_views(records@));
    McpLibraryReport { servers, agents }
}

/// What the library wrote and nobody touched shows no drift.
pub proof fn law_untouched_shows_no_drift(
    s: Server,
    b: Binding,
    agent_key: Seq<char>,
    w: AgentWriter,
    text: Seq<char>,
)
    requires
        live_fingerprint(w, text, s.name) == Some(b.fingerprint),
    ensures
        !verdict(
            s,
            b,
            Some(Found { agent_key, writer: Ok(w), file: FileState::Text(text) }),
        ).drift,
{
}

/// An entry that reads otherwise than the ledger says shows drift.
pub proof fn law_touched_shows_drift(s: Server, b: Binding, found: Option<Found>)
    requires
        !(found matches Some(Found { writer: Ok(w), file: FileState::Text(text), .. })
            && live_fingerprint(w, text, s.name) == Some(b.fingerprint)),
    ensures
        verdict(s, b, found).drift,
{
}

} // verus!
