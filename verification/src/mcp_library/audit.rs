//! What is logged of every mutation of the library. A pending confirmation is part of the story:
//! it says that the write did not happen yet.

use vstd::prelude::*;
use crate::mcp_library::{Drift, PendingDriftDto, WriteOutcome, Written};
use crate::mcp_library::runs::{Fleet, FleetRun, Mode};
use crate::mcp_library::upgrade::{
    check_note, check_note_of, probe_note, probe_note_of, ProbeStateDto,
};
use crate::mcp_store::{McpServerRecord, Server};
use crate::mcp_upstream::checks::CheckOutcome;
use crate::text::{join, join_with, starts_with, texts, without_prefix};

verus! {

/// One line of the log.
#[derive(Debug)]
pub struct AuditEntry {
    pub action: String,
    pub server_id: String,
    pub server_name: String,
    pub detail: String,
    /// Why the operation counts as failed.
    pub failure: Option<String>,
}

/// What an [`AuditEntry`] holds.
#[verifier::ext_equal]
pub ghost struct Audit {
    pub action: Seq<char>,
    pub server_id: Seq<char>,
    pub server_name: Seq<char>,
    pub detail: Seq<char>,
    pub failure: Option<Seq<char>>,
}

impl View for AuditEntry {
    type V = Audit;

    open spec fn view(&self) -> Audit {
        Audit {
            action: self.action@,
            server_id: self.server_id@,
            server_name: self.server_name@,
            detail: self.detail@,
            failure: self.failure.deep_view(),
        }
    }
}

pub open spec fn audit_view(r: Option<AuditEntry>) -> Option<Audit> {
    match r {
        Some(entry) => Some(entry@),
        None => None,
    }
}

pub open spec fn pending_agents(pending: Seq<Drift>) -> Seq<Seq<char>> {
    Seq::new(pending.len(), |i: int| pending[i].agent_key)
}

/// What is logged of a finished run; nothing of one that an error stopped, nor of a rename that
/// still waits for a confirmation.
pub open spec fn run_audit(f: Fleet) -> Option<Audit> {
    let applied = join(f.applied, ", "@);
    let entry = Audit {
        action: Seq::empty(),
        server_id: f.record.id,
        server_name: f.record.name,
        detail: Seq::empty(),
        failure: None,
    };
    if f.over != Some(Ok::<(), crate::error::Failure>(())) {
        None
    } else {
        match f.mode {
            Mode::Add => {
                let detail = "agents: "@ + join(f.agents, ", "@);
                if f.failures.len() == 0 {
                    Some(Audit { action: "mcp_add"@, detail, ..entry })
                } else {
                    let joined = join(f.failures, "; "@);
                    Some(
                        Audit {
                            action: "mcp_add"@,
                            detail: detail + "; "@ + joined,
                            failure: Some(joined),
                            ..entry
                        },
                    )
                }
            },
            Mode::Edit => Some(
                Audit {
                    action: "mcp_edit"@,
                    detail: "applied: "@ + applied + "; pending: "@ + join(
                        pending_agents(f.pending),
                        ", "@,
                    ),
                    ..entry
                },
            ),
            Mode::Rename => if f.pending.len() > 0 {
                None
            } else {
                Some(
                    Audit {
                        action: "mcp_rename"@,
                        detail: "from \""@ + f.former.name + "\"; agents: "@ + applied,
                        ..entry
                    },
                )
            },
            Mode::Delete => if f.pending.len() > 0 {
                Some(
                    Audit {
                        action: "mcp_delete"@,
                        detail: "kept: drift confirmation pending"@,
                        failure: Some("pending drift confirmation"@),
                        ..entry
                    },
                )
            } else {
                Some(Audit { action: "mcp_delete"@, detail: "removed from: "@ + applied, ..entry })
            },
        }
    }
}

fn entry_for(record: &McpServerRecord, action: &str, detail: String, failure: Option<String>) -> (r:
    AuditEntry)
    ensures
        r@ == (Audit {
            action: action@,
            server_id: record@.id,
            server_name: record@.name,
            detail: detail@,
            failure: failure.deep_view(),
        }),
{
    AuditEntry {
        action: action.to_owned(),
        server_id: record.id.clone(),
        server_name: record.name.clone(),
        detail,
        failure,
    }
}

fn keys_of(pending: &Vec<PendingDriftDto>) -> (r: Vec<String>)
    ensures
        texts(r@) == pending_agents(crate::mcp_library::runs::drifts(pending@)),
{
    let mut keys: Vec<String> = Vec::new();
    let mut i: usize = 0;
    while i < pending.len()
        invariant
            i <= pending.len(),
            keys@.len() == i,
            forall|k: int| 0 <= k < i ==> (#[trigger] keys@[k])@ == pending@[k]@.agent_key,
        decreases pending.len() - i,
    {
        keys.push(pending[i].agent_key.clone());
        i = i + 1;
    }
    assert(texts(keys@) =~= pending_agents(crate::mcp_library::runs::drifts(pending@)));
    keys
}

/// What is logged of a run once it is over.
pub fn audit_run(run: &FleetRun) -> (r: Option<AuditEntry>)
    ensures
        audit_view(r) == run_audit(run@),
{
    if !run.succeeded() {
        return None;
    }
    let record = run.record();
    let applied = join_with(run.applied(), ", ");
    match run.mode() {
        Mode::Add => {
            let mut detail = "agents: ".to_owned();
            detail.append(join_with(run.agents(), ", ").as_str());
            let failures = run.failures();
            if failures.len() == 0 {
                return Some(entry_for(record, "mcp_add", detail, None));
            }
            let joined = join_with(failures, "; ");
            detail.append("; ");
            detail.append(joined.as_str());
            Some(entry_for(record, "mcp_add", detail, Some(joined)))
        },
        Mode::Edit => {
            let mut detail = "applied: ".to_owned();
            detail.append(applied.as_str());
            detail.append("; pending: ");
            detail.append(join_with(&keys_of(run.pending()), ", ").as_str());
            Some(entry_for(record, "mcp_edit", detail, None))
        },
        Mode::Rename => {
            if run.pending().len() > 0 {
                return None;
            }
            let mut detail = "from \"".to_owned();
            detail.append(run.former().name.as_str());
            detail.append("\"; agents: ");
            detail.append(applied.as_str());
            Some(entry_for(record, "mcp_rename", detail, None))
        },
        Mode::Delete => {
            if run.pending().len() > 0 {
                return Some(
                    entry_for(
                        record,
                        "mcp_delete",
                        "kept: drift confirmation pending".to_owned(),
                        Some("pending drift confirmation".to_owned()),
                    ),
                );
            }
            let mut detail = "removed from: ".to_owned();
            detail.append(applied.as_str());
            Some(entry_for(record, "mcp_delete", detail, None))
        },
    }
}

/// What is logged of a single write.
pub open spec fn write_audit(
    action: Seq<char>,
    s: Server,
    agent_key: Seq<char>,
    outcome: Written,
) -> Audit {
    Audit {
        action,
        server_id: s.id,
        server_name: s.name,
        detail: "agent '"@ + agent_key + "'"@,
        failure: match outcome {
            Written::Applied => None,
            Written::Pending(_) => Some("pending drift/foreign confirmation"@),
        },
    }
}

/// What is logged of a single write: `action` is `mcp_sync` or `mcp_unsync`.
pub fn audit_write(
    action: &str,
    record: &McpServerRecord,
    agent_key: &str,
    outcome: &WriteOutcome,
) -> (r: AuditEntry)
    ensures
        r@ == write_audit(action@, record@, agent_key@, outcome@),
{
    let mut detail = "agent '".to_owned();
    detail.append(agent_key);
    detail.append("'");
    let failure = match outcome {
        WriteOutcome::Applied => None,
        WriteOutcome::PendingDrift(_) => Some("pending drift/foreign confirmation".to_owned()),
    };
    entry_for(record, action, detail, failure)
}

/// What is logged of a takeover: a copy claimed for a definition that was there, or an entry
/// adopted as a new one.
pub fn audit_takeover(record: &McpServerRecord, agent_key: &str, claimed: bool) -> (r: AuditEntry)
    ensures
        r@ == (Audit {
            action: "mcp_takeover"@,
            server_id: record@.id,
            server_name: record@.name,
            detail: (if claimed {
                "claimed in place from agent '"@
            } else {
                "adopted from agent '"@
            }) + agent_key@ + "'"@,
            failure: None,
        }),
{
    let mut detail = if claimed {
        "claimed in place from agent '".to_owned()
    } else {
        "adopted from agent '".to_owned()
    };
    detail.append(agent_key);
    detail.append("'");
    entry_for(record, "mcp_takeover", detail, None)
}

/// What is logged of an upgrade whose commands ran: the version check and the probe that
/// followed.
pub fn audit_upgrade(
    record: &McpServerRecord,
    check: Option<&CheckOutcome>,
    probe: &ProbeStateDto,
) -> (r: AuditEntry)
    ensures
        r@ == (Audit {
            action: "mcp_upgrade"@,
            server_id: record@.id,
            server_name: record@.name,
            detail: check_note_of(
                match check {
                    Some(c) => Some(c@),
                    None => None,
                },
            ) + "; "@ + probe_note_of(probe.probe_status@, probe.probe_message.deep_view()),
            failure: None,
        }),
{
    let mut detail = check_note(check);
    detail.append("; ");
    detail.append(probe_note(probe).as_str());
    AuditEntry {
        action: "mcp_upgrade".to_owned(),
        server_id: record.id.clone(),
        server_name: record.name.clone(),
        detail,
        failure: None,
    }
}

/// What is logged of an upgrade that failed, by the message it failed with: the reason that the
/// message gives.
pub fn audit_failed_upgrade(record: &McpServerRecord, message: &str) -> (r: AuditEntry)
    ensures
        r@ == (Audit {
            action: "mcp_upgrade"@,
            server_id: record@.id,
            server_name: record@.name,
            detail: Seq::empty(),
            failure: Some(
                if starts_with(message@, "MCP upgrade failed: "@) {
                    message@.skip("MCP upgrade failed: "@.len() as int)
                } else {
                    message@
                },
            ),
        }),
{
    let reason = match without_prefix(message, "MCP upgrade failed: ") {
        Some(reason) => reason,
        None => message.to_owned(),
    };
    AuditEntry {
        action: "mcp_upgrade".to_owned(),
        server_id: record.id.clone(),
        server_name: record.name.clone(),
        detail: String::new(),
        failure: Some(reason),
    }
}

} // verus!
