//! Renaming in one agent, as a single operation on its file: remove the old name and upsert the
//! new one in the same read-modify-write, then repoint the binding row in place.
//!
//! The row is never deleted, so whoever tries again after a declined confirmation still sees
//! the full fleet.

use vstd::prelude::*;
use crate::error::{failure, AppError, ErrorKind, Failure};
use crate::mcp_inventory::{ConfigRead, FileState};
use crate::mcp_library::{
    current_fingerprint, drift_digest, drift_token, entry_from_record, entry_of, live_fingerprint,
    writer_err, writer_failure, Drift, PendingDriftDto,
};
use crate::mcp_library::funnel::{open_config, opened};
use crate::mcp_store::{
    binding_upserted, unit_view, Binding, Library, McpBindingRecord, McpServerRecord, Server,
    SkillStore,
};
use crate::mcp_writers::{AgentWriter, McpWriter, WriteError};
use crate::text::same;
use crate::text_lists::{as_ref, same_option, text_ref};

verus! {

/// What a rename in one agent is to do.
#[derive(Debug)]
pub enum RenamePlan {
    /// Nothing until the user confirms.
    Pending(PendingDriftDto),
    /// An earlier attempt has done it all.
    Done,
    /// Install this text.
    Write(String),
    /// The file already has the text to install.
    Keep,
}

/// What a [`RenamePlan`] holds.
pub ghost enum Renaming {
    Pending(Drift),
    Done,
    Write(Seq<char>),
    Keep,
}

impl View for RenamePlan {
    type V = Renaming;

    open spec fn view(&self) -> Renaming {
        match self {
            RenamePlan::Pending(drift) => Renaming::Pending(drift@),
            RenamePlan::Done => Renaming::Done,
            RenamePlan::Write(text) => Renaming::Write(text@),
            RenamePlan::Keep => Renaming::Keep,
        }
    }
}

/// A text with the old name gone and the new definition in it.
pub open spec fn renamed_text(writer: AgentWriter, text: Seq<char>, former: Server, new: Server) -> Result<
    Seq<char>,
    WriteError,
> {
    match writer.removed(text, former.name) {
        Ok(stripped) => writer.upserted(stripped, entry_of(new)),
        Err(e) => Err(e),
    }
}

/// What stands in the way of a rename: the old entry drifted from the ledger or vanished, or
/// another entry occupies the new name. Where the new name already has what the ledger says, an
/// earlier attempt has written it and nothing stands in the way.
pub open spec fn rename_gate(
    ledger: Seq<char>,
    old_live: Option<Seq<char>>,
    new_live: Option<Seq<char>>,
) -> Option<Seq<char>> {
    if new_live == Some(ledger) {
        None
    } else if new_live is Some {
        Some("foreign"@)
    } else if old_live != Some(ledger) {
        Some("drift"@)
    } else {
        None
    }
}

/// The plan of a rename, by the file as it was read and the fingerprint in the ledger.
pub open spec fn rename_plan(
    former: Server,
    new: Server,
    agent_key: Seq<char>,
    writer: AgentWriter,
    approved: Option<Seq<char>>,
    ledger: Seq<char>,
    file: FileState,
) -> Result<Renaming, Failure> {
    match opened(agent_key, file) {
        Err(e) => Err(e),
        Ok((text, _)) => match renamed_text(writer, text, former, new) {
            Err(e) => Err(writer_failure(e)),
            Ok(planned) => {
                let new_live = live_fingerprint(writer, text, new.name);
                let token = drift_digest(agent_key, new.name, ledger, former.updated_at);
                match rename_gate(ledger, live_fingerprint(writer, text, former.name), new_live) {
                    Some(kind) if approved != Some(token) => Ok(
                        Renaming::Pending(
                            Drift {
                                agent_key,
                                token,
                                current_text: text,
                                planned_text: planned,
                                kind,
                            },
                        ),
                    ),
                    _ => if planned != text {
                        Ok(Renaming::Write(planned))
                    } else if new_live == Some(ledger) {
                        Ok(Renaming::Done)
                    } else {
                        Ok(Renaming::Keep)
                    },
                }
            },
        },
    }
}

pub open spec fn rename_view(r: Result<RenamePlan, AppError>) -> Result<Renaming, Failure> {
    match r {
        Ok(plan) => Ok(plan@),
        Err(e) => Err(e@),
    }
}

/// Decide the rename in one agent from its file as it was read. `ledger` is the fingerprint of
/// the binding.
pub fn plan_rename(
    former: &McpServerRecord,
    new: &McpServerRecord,
    agent_key: &str,
    writer: &AgentWriter,
    approved_drift: Option<&String>,
    ledger: &String,
    file: &ConfigRead,
) -> (r: Result<RenamePlan, AppError>)
    ensures
        rename_view(r) == rename_plan(
            former@,
            new@,
            agent_key@,
            *writer,
            text_ref(approved_drift),
            ledger@,
            file@,
        ),
{
    let (text, existed) = match open_config(agent_key, file) {
        Ok(opened) => opened,
        Err(e) => {
            return Err(e);
        },
    };
    let stripped = match writer.remove(text.as_str(), former.name.as_str()) {
        Ok(stripped) => stripped,
        Err(e) => {
            return Err(writer_err(e));
        },
    };
    let planned = match writer.upsert(stripped.as_str(), &entry_from_record(new)) {
        Ok(planned) => planned,
        Err(e) => {
            return Err(writer_err(e));
        },
    };
    let old_live = current_fingerprint(writer, text.as_str(), former.name.as_str());
    let new_live = current_fingerprint(writer, text.as_str(), new.name.as_str());
    // Already renamed by an interrupted earlier attempt: the binding was repointed then, so its
    // fingerprint matches the new-name entry.
    let already_done = same_option(as_ref(&new_live), Some(ledger));
    let gate = if already_done {
        None
    } else if new_live.is_some() {
        Some("foreign")
    } else if !same_option(as_ref(&old_live), Some(ledger)) {
        Some("drift")
    } else {
        None
    };
    if let Some(kind) = gate {
        let token = drift_token(agent_key, new.name.as_str(), ledger.as_str(), former.updated_at);
        if !same_option(approved_drift, Some(&token)) {
            return Ok(
                RenamePlan::Pending(
                    PendingDriftDto {
                        agent_key: agent_key.to_owned(),
                        token,
                        current_text: text,
                        planned_text: planned,
                        kind: kind.to_owned(),
                    },
                ),
            );
        }
    }
    if !same(planned.as_str(), text.as_str()) {
        Ok(RenamePlan::Write(planned))
    } else if already_done {
        Ok(RenamePlan::Done)
    } else {
        Ok(RenamePlan::Keep)
    }
}

/// What the ledger comes to after a rename, by the file as it was read again: the binding row
/// is repointed in place.
pub open spec fn rename_settled(
    l: Library,
    old_name: Seq<char>,
    new_name: Seq<char>,
    writer: AgentWriter,
    binding: Binding,
    text: Seq<char>,
    now: i64,
) -> (Result<(), Failure>, Library) {
    if live_fingerprint(writer, text, old_name) is Some {
        (
            Err(
                failure(
                    ErrorKind::Internal,
                    "post-rename validation failed: \""@ + old_name + "\" still present"@,
                ),
            ),
            l,
        )
    } else {
        match live_fingerprint(writer, text, new_name) {
            None => (
                Err(
                    failure(
                        ErrorKind::Internal,
                        "post-rename validation failed: \""@ + new_name + "\" absent after rename"@,
                    ),
                ),
                l,
            ),
            Some(fingerprint) => binding_upserted(
                l,
                Binding { fingerprint, written_at: now, ..binding },
            ),
        }
    }
}

/// Validate the file as it was read again after the rename, and repoint the binding.
pub fn settle_rename(
    store: &mut SkillStore,
    old_name: &str,
    new_name: &str,
    writer: &AgentWriter,
    binding: McpBindingRecord,
    text: &str,
    now: i64,
) -> (r: Result<(), AppError>)
    ensures
        (unit_view(r), final(store)@) == rename_settled(
            old(store)@,
            old_name@,
            new_name@,
            *writer,
            binding@,
            text@,
            now,
        ),
{
    if current_fingerprint(writer, text, old_name).is_some() {
        let mut m = "post-rename validation failed: \"".to_owned();
        m.append(old_name);
        m.append("\" still present");
        return Err(AppError::internal(m.as_str()));
    }
    match current_fingerprint(writer, text, new_name) {
        None => {
            let mut m = "post-rename validation failed: \"".to_owned();
            m.append(new_name);
            m.append("\" absent after rename");
            Err(AppError::internal(m.as_str()))
        },
        Some(fingerprint) => store.upsert_mcp_binding(
            McpBindingRecord { fingerprint, written_at: now, ..binding },
        ),
    }
}

} // verus!
