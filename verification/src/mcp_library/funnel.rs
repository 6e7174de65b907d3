//! The single write funnel: what one (server, agent) write does to the agent's file and to the
//! ledger.
//!
//! [`plan_write`] decides from the file as it was read: refuse, ask for a confirmation, or what
//! text to install. After the file was written and read again, [`settle_write`] validates the
//! entry and reconciles the binding ledger.

use vstd::prelude::*;
use crate::error::{failure, invalid, AppError, ErrorKind, Failure};
use crate::mcp_inventory::{ConfigRead, FileState};
use crate::mcp_library::{
    current_fingerprint, drift_digest, drift_token, entry_from_record, entry_of, live_fingerprint,
    writer_err, writer_failure, Drift, PendingDriftDto,
};
use crate::mcp_store::{
    binding_upserted, lists_bindings_of, unit_view, valid, without_binding, Binding, Library,
    McpBindingRecord, McpServerRecord, Server, SkillStore,
};
use crate::mcp_writers::{rendered_by, AgentWriter, McpWriter, WriteError};
use crate::mcp_writers::opencode_json::EMPTY_DOC;
use crate::text::same;
use crate::text_lists::{as_ref, same_option, text_ref};

verus! {

/// The two write operations the library performs against an agent file.
#[derive(Debug, Clone, Copy, PartialEq, Eq, Structural)]
pub enum WriteOp {
    Upsert,
    Remove,
}

/// What a write is to do.
#[derive(Debug)]
pub enum WritePlan {
    /// The file is gone: only the ledger is left to fix.
    Forget,
    /// Nothing until the user confirms.
    Pending(PendingDriftDto),
    /// Install this text.
    Write(String),
    /// The file already has the text to install.
    Keep,
}

/// What a [`WritePlan`] holds.
pub ghost enum Plan {
    Forget,
    Pending(Drift),
    Write(Seq<char>),
    Keep,
}

impl View for WritePlan {
    type V = Plan;

    open spec fn view(&self) -> Plan {
        match self {
            WritePlan::Forget => Plan::Forget,
            WritePlan::Pending(drift) => Plan::Pending(drift@),
            WritePlan::Write(text) => Plan::Write(text@),
            WritePlan::Keep => Plan::Keep,
        }
    }
}

/// A config text and whether its file is there. An absent OpenCode config is a valid empty slate
/// the manager may seed; the DSH patch file belongs to DSH, so creating it blind is refused.
pub open spec fn opened(agent_key: Seq<char>, file: FileState) -> Result<
    (Seq<char>, bool),
    Failure,
> {
    match file {
        FileState::Text(text) => Ok((text, true)),
        FileState::Missing => if agent_key == "opencode"@ {
            Ok((EMPTY_DOC@, false))
        } else {
            Err(invalid("DSH patch file not found"@))
        },
        FileState::Failed(message) => Err(failure(ErrorKind::Io, message)),
    }
}

pub fn open_config(agent_key: &str, file: &ConfigRead) -> (r: Result<(String, bool), AppError>)
    ensures
        match r {
            Ok((text, existed)) => opened(agent_key@, file@) == Ok::<(Seq<char>, bool), Failure>(
                (text@, existed),
            ),
            Err(e) => opened(agent_key@, file@) == Err::<(Seq<char>, bool), Failure>(e@),
        },
{
    match file {
        ConfigRead::Text(text) => Ok((text.clone(), true)),
        ConfigRead::Missing => if same(agent_key, "opencode") {
            Ok((EMPTY_DOC.to_owned(), false))
        } else {
            Err(AppError::invalid_input("DSH patch file not found"))
        },
        ConfigRead::Failed(message) => Err(AppError::io(message.as_str())),
    }
}

/// What the writer makes of a text.
pub open spec fn op_text(writer: AgentWriter, op: WriteOp, text: Seq<char>, s: Server) -> Result<
    Seq<char>,
    WriteError,
> {
    match op {
        WriteOp::Upsert => writer.upserted(text, entry_of(s)),
        WriteOp::Remove => writer.removed(text, s.name),
    }
}

/// What stands in the way of a write: the basis of the token that lets it pass, and what it is
/// called. An entry we did not write may be adopted where the write would not change its
/// meaning; an entry we did write must be as the ledger has it.
pub open spec fn write_gate(
    ledger: Option<Seq<char>>,
    current: Option<Seq<char>>,
    planned: Option<Seq<char>>,
) -> Option<(Seq<char>, Seq<char>)> {
    match ledger {
        None => if current is Some && planned != current {
            Some(("foreign"@, "foreign"@))
        } else {
            None
        },
        Some(written) => if current != Some(written) {
            Some((written, "drift"@))
        } else {
            None
        },
    }
}

/// The plan of a write, by the file as it was read and the fingerprint in the ledger.
pub open spec fn write_plan(
    s: Server,
    agent_key: Seq<char>,
    writer: AgentWriter,
    op: WriteOp,
    approved: Option<Seq<char>>,
    ledger: Option<Seq<char>>,
    file: FileState,
) -> Result<Plan, Failure> {
    match opened(agent_key, file) {
        Err(e) => Err(e),
        Ok((text, existed)) => if !existed && op == WriteOp::Remove {
            Ok(Plan::Forget)
        } else {
            match op_text(writer, op, text, s) {
                Err(e) => Err(writer_failure(e)),
                Ok(planned) => {
                    let gate = write_gate(
                        ledger,
                        live_fingerprint(writer, text, s.name),
                        live_fingerprint(writer, planned, s.name),
                    );
                    match gate {
                        Some((basis, kind)) if approved != Some(
                            drift_digest(agent_key, s.name, basis, s.updated_at),
                        ) => Ok(
                            Plan::Pending(
                                Drift {
                                    agent_key,
                                    token: drift_digest(agent_key, s.name, basis, s.updated_at),
                                    current_text: text,
                                    planned_text: planned,
                                    kind,
                                },
                            ),
                        ),
                        _ => if planned != text {
                            Ok(Plan::Write(planned))
                        } else {
                            Ok(Plan::Keep)
                        },
                    }
                },
            }
        },
    }
}

/// Whether a text, if there is one, has an entry of that name.
pub open spec fn has_entry(writer: AgentWriter, text: Option<Seq<char>>, name: Seq<char>) -> bool {
    text matches Some(t) ==> live_fingerprint(writer, t, name) is Some
}

/// The text that a plan would install.
pub open spec fn planned_text(plan: Plan) -> Option<Seq<char>> {
    match plan {
        Plan::Pending(drift) => Some(drift.planned_text),
        Plan::Write(text) => Some(text),
        _ => None,
    }
}

pub open spec fn plan_view(r: Result<WritePlan, AppError>) -> Result<Plan, Failure> {
    match r {
        Ok(plan) => Ok(plan@),
        Err(e) => Err(e@),
    }
}

/// Decide one write from the file as it was read. `ledger` is the fingerprint of the binding,
/// where there is one.
pub fn plan_write(
    record: &McpServerRecord,
    agent_key: &str,
    writer: &AgentWriter,
    op: WriteOp,
    approved_drift: Option<&String>,
    ledger: Option<&String>,
    file: &ConfigRead,
) -> (r: Result<WritePlan, AppError>)
    ensures
        plan_view(r) == write_plan(
            record@,
            agent_key@,
            *writer,
            op,
            text_ref(approved_drift),
            text_ref(ledger),
            file@,
        ),
        op == WriteOp::Upsert && plan_view(r) is Ok ==> has_entry(
            *writer,
            planned_text(plan_view(r)->Ok_0),
            record@.name,
        ) && rendered_by(*writer, entry_of(record@)),
{
    let (text, existed) = match open_config(agent_key, file) {
        Ok(opened) => opened,
        Err(e) => {
            return Err(e);
        },
    };
    // A removal against a file that no longer exists can only fix the ledger.
    if !existed && op == WriteOp::Remove {
        return Ok(WritePlan::Forget);
    }
    let current = current_fingerprint(writer, text.as_str(), record.name.as_str());
    let written = match op {
        WriteOp::Upsert => writer.upsert(text.as_str(), &entry_from_record(record)),
        WriteOp::Remove => writer.remove(text.as_str(), record.name.as_str()),
    };
    let planned = match written {
        Ok(planned) => planned,
        Err(e) => {
            return Err(writer_err(e));
        },
    };
    let gate: Option<(String, String)> = match ledger {
        None => {
            let after = current_fingerprint(writer, planned.as_str(), record.name.as_str());
            if current.is_some() && !same_option(as_ref(&after), as_ref(&current)) {
                Some(("foreign".to_owned(), "foreign".to_owned()))
            } else {
                None
            }
        },
        Some(fingerprint) => {
            if same_option(as_ref(&current), ledger) {
                None
            } else {
                Some((fingerprint.clone(), "drift".to_owned()))
            }
        },
    };
    if let Some((basis, kind)) = gate {
        let token = drift_token(
            agent_key,
            record.name.as_str(),
            basis.as_str(),
            record.updated_at,
        );
        if !same_option(approved_drift, Some(&token)) {
            return Ok(
                WritePlan::Pending(
                    PendingDriftDto {
                        agent_key: agent_key.to_owned(),
                        token,
                        current_text: text,
                        planned_text: planned,
                        kind,
                    },
                ),
            );
        }
    }
    if same(planned.as_str(), text.as_str()) {
        Ok(WritePlan::Keep)
    } else {
        Ok(WritePlan::Write(planned))
    }
}

/// What the ledger holds of a definition and an agent.
pub open spec fn ledger_fingerprint(l: Library, server_id: Seq<char>, agent_key: Seq<char>) -> Option<
    Seq<char>,
> {
    if l.bindings.contains_key((server_id, agent_key)) {
        Some(l.bindings[(server_id, agent_key)].fingerprint)
    } else {
        None
    }
}

/// The binding of a definition in an agent.
pub fn find_binding(store: &SkillStore, server_id: &str, agent_key: &str) -> (r: Option<
    McpBindingRecord,
>)
    ensures
        valid(store@),
        match r {
            Some(b) => store@.bindings.contains_key((server_id@, agent_key@)) && store@.bindings[(
                server_id@,
                agent_key@,
            )] == b@,
            None => !store@.bindings.contains_key((server_id@, agent_key@)),
        },
{
    let bindings = store.get_mcp_bindings_for_server(server_id);
    let ghost rows = crate::mcp_store::binding_views(bindings@);
    let mut i: usize = 0;
    while i < bindings.len()
        invariant
            i <= bindings.len(),
            rows == crate::mcp_store::binding_views(bindings@),
            lists_bindings_of(rows, store@, server_id@),
            valid(store@),
            forall|k: int| 0 <= k < i ==> (#[trigger] rows[k]).agent_key != agent_key@,
        decreases bindings.len() - i,
    {
        assert(rows[i as int] == bindings@[i as int]@);
        if same(bindings[i].agent_key.as_str(), agent_key) {
            return Some(bindings[i].clone());
        }
        i = i + 1;
    }
    None
}

/// What the ledger comes to after a write, by the file as it was read again. The fingerprint is
/// that of the entry as the file really reads back, not of the definition: formats that lose
/// something would otherwise report drift forever.
pub open spec fn settled(
    l: Library,
    s: Server,
    agent_key: Seq<char>,
    writer: AgentWriter,
    op: WriteOp,
    text: Seq<char>,
    id: Seq<char>,
    now: i64,
) -> (Result<(), Failure>, Library) {
    let live = live_fingerprint(writer, text, s.name);
    match op {
        WriteOp::Upsert => match live {
            None => (
                Err(
                    failure(
                        ErrorKind::Internal,
                        "post-write validation failed: \""@ + s.name
                            + "\" is absent after upsert"@,
                    ),
                ),
                l,
            ),
            Some(fingerprint) => binding_upserted(
                l,
                Binding { id, server_id: s.id, agent_key, fingerprint, written_at: now },
            ),
        },
        WriteOp::Remove => match live {
            Some(_) => (
                Err(
                    failure(
                        ErrorKind::Internal,
                        "post-write validation failed: \""@ + s.name
                            + "\" still present after removal"@,
                    ),
                ),
                l,
            ),
            None => (Ok(()), without_binding(l, s.id, agent_key)),
        },
    }
}

/// Validate the entry in the file as it was read again after the write, and only then let the
/// ledger claim anything about it. `id` is that of a new binding, `now` the time of the write.
pub fn settle_write(
    store: &mut SkillStore,
    record: &McpServerRecord,
    agent_key: &str,
    writer: &AgentWriter,
    op: WriteOp,
    text: &str,
    id: String,
    now: i64,
) -> (r: Result<(), AppError>)
    ensures
        (unit_view(r), final(store)@) == settled(
            old(store)@,
            record@,
            agent_key@,
            *writer,
            op,
            text@,
            id@,
            now,
        ),
{
    let live = current_fingerprint(writer, text, record.name.as_str());
    match op {
        WriteOp::Upsert => match live {
            None => {
                let mut m = "post-write validation failed: \"".to_owned();
                m.append(record.name.as_str());
                m.append("\" is absent after upsert");
                Err(AppError::internal(m.as_str()))
            },
            Some(fingerprint) => store.upsert_mcp_binding(
                McpBindingRecord {
                    id,
                    server_id: record.id.clone(),
                    agent_key: agent_key.to_owned(),
                    fingerprint,
                    written_at: now,
                },
            ),
        },
        WriteOp::Remove => match live {
            Some(_) => {
                let mut m = "post-write validation failed: \"".to_owned();
                m.append(record.name.as_str());
                m.append("\" still present after removal");
                Err(AppError::internal(m.as_str()))
            },
            None => {
                store.delete_mcp_binding(record.id.as_str(), agent_key);
                Ok(())
            },
        },
    }
}

} // verus!
