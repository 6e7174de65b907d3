//! One agent's share of an operation, from the first read of its file to the settled ledger.
//!
//! [`begin_job`] takes the file as it was read and says what to do next: write a text, read the
//! file again, or nothing more. [`finish_job`] takes the file as it was read again.

use vstd::prelude::*;
use crate::error::{failure, invalid, AppError, ErrorKind, Failure};
use crate::mcp_inventory::{ConfigRead, FileState};
use crate::mcp_library::{entry_of, WriteOutcome, Written};
use crate::mcp_library::funnel::{
    find_binding, has_entry, ledger_fingerprint, plan_write, settle_write, settled, write_plan,
    Plan, WriteOp, WritePlan,
};
use crate::mcp_library::rename::{
    plan_rename, rename_plan, rename_settled, settle_rename, RenamePlan, Renaming,
};
use crate::mcp_store::{without_binding, Library, McpServerRecord, Server, SkillStore};
use crate::mcp_writers::{registered_writer, rendered_by, writer_for_agent, AgentWriter};
use crate::text_lists::text_ref;

verus! {

/// What is to be done in one agent.
#[derive(Debug, Clone, Copy, PartialEq, Eq, Structural)]
pub enum Job {
    /// Put the definition's entry there, or take it out.
    Write(WriteOp),
    /// Ask whether a rename could go through, without touching anything.
    Gate,
    /// Rename the entry.
    Rename,
}

/// What a job needs next.
#[derive(Debug)]
pub enum Progress {
    /// Replace the agent's file by this text, then read it again.
    Write(String),
    /// Read the agent's file again.
    ReadBack,
    Done(Result<WriteOutcome, AppError>),
}

/// What a [`Progress`] holds.
pub ghost enum Progressed {
    Write(Seq<char>),
    ReadBack,
    Done(Result<Written, Failure>),
}

pub open spec fn outcome_view(r: Result<WriteOutcome, AppError>) -> Result<Written, Failure> {
    match r {
        Ok(outcome) => Ok(outcome@),
        Err(e) => Err(e@),
    }
}

impl View for Progress {
    type V = Progressed;

    open spec fn view(&self) -> Progressed {
        match self {
            Progress::Write(text) => Progressed::Write(text@),
            Progress::ReadBack => Progressed::ReadBack,
            Progress::Done(r) => Progressed::Done(outcome_view(*r)),
        }
    }
}

/// The text that a job would write, at once or when it is confirmed.
pub open spec fn next_text(progress: Progressed) -> Option<Seq<char>> {
    match progress {
        Progressed::Write(text) => Some(text),
        Progressed::Done(Ok(Written::Pending(drift))) => Some(drift.planned_text),
        _ => None,
    }
}

pub open spec fn no_writer(agent_key: Seq<char>) -> Failure {
    invalid("no MCP config writer for agent '"@ + agent_key + "'"@)
}

pub open spec fn no_binding(agent_key: Seq<char>) -> Failure {
    failure(ErrorKind::NotFound, "no binding for agent '"@ + agent_key + "'"@)
}

/// A write begun: what it needs next, and the ledger.
pub open spec fn write_begun(
    s: Server,
    agent_key: Seq<char>,
    writer: AgentWriter,
    op: WriteOp,
    approved: Option<Seq<char>>,
    l: Library,
    file: FileState,
) -> (Progressed, Library) {
    let ledger = ledger_fingerprint(l, s.id, agent_key);
    match write_plan(s, agent_key, writer, op, approved, ledger, file) {
        Err(e) => (Progressed::Done(Err(e)), l),
        Ok(Plan::Forget) => (
            Progressed::Done(Ok(Written::Applied)),
            without_binding(l, s.id, agent_key),
        ),
        Ok(Plan::Pending(drift)) => (Progressed::Done(Ok(Written::Pending(drift))), l),
        Ok(Plan::Write(text)) => (Progressed::Write(text), l),
        Ok(Plan::Keep) => (Progressed::ReadBack, l),
    }
}

/// A rename begun, or only asked about.
pub open spec fn rename_begun(
    former: Server,
    new: Server,
    agent_key: Seq<char>,
    writer: AgentWriter,
    dry: bool,
    approved: Option<Seq<char>>,
    l: Library,
    file: FileState,
) -> Progressed {
    match ledger_fingerprint(l, former.id, agent_key) {
        None => Progressed::Done(Err(no_binding(agent_key))),
        Some(ledger) => match rename_plan(former, new, agent_key, writer, approved, ledger, file) {
            Err(e) => Progressed::Done(Err(e)),
            Ok(Renaming::Pending(drift)) => Progressed::Done(Ok(Written::Pending(drift))),
            Ok(Renaming::Done) => Progressed::Done(Ok(Written::Applied)),
            Ok(Renaming::Write(text)) => if dry {
                Progressed::Done(Ok(Written::Applied))
            } else {
                Progressed::Write(text)
            },
            Ok(Renaming::Keep) => if dry {
                Progressed::Done(Ok(Written::Applied))
            } else {
                Progressed::ReadBack
            },
        },
    }
}

/// A job begun: what it needs next, and the ledger.
pub open spec fn job_begun(
    job: Job,
    former: Server,
    s: Server,
    agent_key: Seq<char>,
    writer: AgentWriter,
    approved: Option<Seq<char>>,
    l: Library,
    file: FileState,
) -> (Progressed, Library) {
    match job {
        Job::Write(op) => write_begun(s, agent_key, writer, op, approved, l, file),
        Job::Gate => (rename_begun(former, s, agent_key, writer, true, approved, l, file), l),
        Job::Rename => (rename_begun(former, s, agent_key, writer, false, approved, l, file), l),
    }
}

/// The writer that edits an agent's config, or the refusal of an agent that has none.
pub fn resolve_agent_config(agent_key: &str) -> (r: Result<AgentWriter, AppError>)
    ensures
        match r {
            Ok(writer) => registered_writer(agent_key@) == Some(writer),
            Err(e) => registered_writer(agent_key@) is None && e@ == no_writer(agent_key@),
        },
{
    match writer_for_agent(agent_key) {
        Some(writer) => Ok(writer),
        None => {
            let mut m = "no MCP config writer for agent '".to_owned();
            m.append(agent_key);
            m.append("'");
            Err(AppError::invalid_input(m.as_str()))
        },
    }
}

fn missing_binding(agent_key: &str) -> (r: AppError)
    ensures
        r@ == no_binding(agent_key@),
{
    let mut m = "no binding for agent '".to_owned();
    m.append(agent_key);
    m.append("'");
    AppError::not_found(m.as_str())
}

fn begin_write(
    store: &mut SkillStore,
    record: &McpServerRecord,
    agent_key: &str,
    writer: &AgentWriter,
    op: WriteOp,
    approved_drift: Option<&String>,
    file: &ConfigRead,
) -> (r: Progress)
    ensures
        (r@, final(store)@) == write_begun(
            record@,
            agent_key@,
            *writer,
            op,
            text_ref(approved_drift),
            old(store)@,
            file@,
        ),
        op == WriteOp::Upsert ==> has_entry(*writer, next_text(r@), record@.name),
        op == WriteOp::Upsert && !(r@ matches Progressed::Done(Err(_))) ==> rendered_by(
            *writer,
            entry_of(record@),
        ),
{
    let binding = find_binding(store, record.id.as_str(), agent_key);
    let ledger = match &binding {
        Some(b) => Some(&b.fingerprint),
        None => None,
    };
    match plan_write(record, agent_key, writer, op, approved_drift, ledger, file) {
        Err(e) => Progress::Done(Err(e)),
        Ok(WritePlan::Forget) => {
            store.delete_mcp_binding(record.id.as_str(), agent_key);
            Progress::Done(Ok(WriteOutcome::Applied))
        },
        Ok(WritePlan::Pending(drift)) => Progress::Done(Ok(WriteOutcome::PendingDrift(drift))),
        Ok(WritePlan::Write(text)) => Progress::Write(text),
        Ok(WritePlan::Keep) => Progress::ReadBack,
    }
}

fn begin_rename(
    store: &SkillStore,
    former: &McpServerRecord,
    new: &McpServerRecord,
    agent_key: &str,
    writer: &AgentWriter,
    dry: bool,
    approved_drift: Option<&String>,
    file: &ConfigRead,
) -> (r: Progress)
    ensures
        r@ == rename_begun(
            former@,
            new@,
            agent_key@,
            *writer,
            dry,
            text_ref(approved_drift),
            store@,
            file@,
        ),
{
    let binding = match find_binding(store, former.id.as_str(), agent_key) {
        Some(binding) => binding,
        None => {
            return Progress::Done(Err(missing_binding(agent_key)));
        },
    };
    match plan_rename(former, new, agent_key, writer, approved_drift, &binding.fingerprint, file) {
        Err(e) => Progress::Done(Err(e)),
        Ok(RenamePlan::Pending(drift)) => Progress::Done(Ok(WriteOutcome::PendingDrift(drift))),
        Ok(RenamePlan::Done) => Progress::Done(Ok(WriteOutcome::Applied)),
        Ok(RenamePlan::Write(text)) => if dry {
            Progress::Done(Ok(WriteOutcome::Applied))
        } else {
            Progress::Write(text)
        },
        Ok(RenamePlan::Keep) => if dry {
            Progress::Done(Ok(WriteOutcome::Applied))
        } else {
            Progress::ReadBack
        },
    }
}

/// Begin a job from the agent's file as it was read. A rename goes from `former` to `record`; a
/// write is of `record`.
pub fn begin_job(
    store: &mut SkillStore,
    job: Job,
    former: &McpServerRecord,
    record: &McpServerRecord,
    agent_key: &str,
    writer: &AgentWriter,
    approved_drift: Option<&String>,
    file: &ConfigRead,
) -> (r: Progress)
    ensures
        (r@, final(store)@) == job_begun(
            job,
            former@,
            record@,
            agent_key@,
            *writer,
            text_ref(approved_drift),
            old(store)@,
            file@,
        ),
        job == Job::Write(WriteOp::Upsert) ==> has_entry(*writer, next_text(r@), record@.name),
        job == Job::Write(WriteOp::Upsert) && !(r@ matches Progressed::Done(Err(_))) ==> rendered_by(
            *writer,
            entry_of(record@),
        ),
{
    match job {
        Job::Write(op) => begin_write(store, record, agent_key, writer, op, approved_drift, file),
        Job::Gate => begin_rename(
            store,
            former,
            record,
            agent_key,
            writer,
            true,
            approved_drift,
            file,
        ),
        Job::Rename => begin_rename(
            store,
            former,
            record,
            agent_key,
            writer,
            false,
            approved_drift,
            file,
        ),
    }
}

pub open spec fn applied(r: Result<(), Failure>) -> Result<Written, Failure> {
    match r {
        Ok(_) => Ok(Written::Applied),
        Err(e) => Err(e),
    }
}

/// A job finished, by the text that the file was found to hold after it was written.
pub open spec fn job_finished(
    job: Job,
    former: Server,
    s: Server,
    agent_key: Seq<char>,
    writer: AgentWriter,
    l: Library,
    text: Seq<char>,
    id: Seq<char>,
    now: i64,
) -> (Result<Written, Failure>, Library) {
    match job {
        Job::Write(op) => {
            let (r, after) = settled(l, s, agent_key, writer, op, text, id, now);
            (applied(r), after)
        },
        Job::Gate => (Ok(Written::Applied), l),
        Job::Rename => if l.bindings.contains_key((former.id, agent_key)) {
            let (r, after) = rename_settled(
                l,
                former.name,
                s.name,
                writer,
                l.bindings[(former.id, agent_key)],
                text,
                now,
            );
            (applied(r), after)
        } else {
            (Err(no_binding(agent_key)), l)
        },
    }
}

fn when_applied(r: Result<(), AppError>) -> (out: Result<WriteOutcome, AppError>)
    ensures
        outcome_view(out) == applied(crate::mcp_store::unit_view(r)),
{
    match r {
        Ok(_) => Ok(WriteOutcome::Applied),
        Err(e) => Err(e),
    }
}

/// Finish a job from the agent's file as it was read again. `id` is that of a new binding,
/// `now` the time of the write.
pub fn finish_job(
    store: &mut SkillStore,
    job: Job,
    former: &McpServerRecord,
    record: &McpServerRecord,
    agent_key: &str,
    writer: &AgentWriter,
    text: &str,
    id: String,
    now: i64,
) -> (r: Result<WriteOutcome, AppError>)
    ensures
        (outcome_view(r), final(store)@) == job_finished(
            job,
            former@,
            record@,
            agent_key@,
            *writer,
            old(store)@,
            text@,
            id@,
            now,
        ),
{
    match job {
        Job::Write(op) => when_applied(
            settle_write(store, record, agent_key, writer, op, text, id, now),
        ),
        Job::Gate => Ok(WriteOutcome::Applied),
        Job::Rename => match find_binding(store, former.id.as_str(), agent_key) {
            Some(binding) => when_applied(
                settle_rename(
                    store,
                    former.name.as_str(),
                    record.name.as_str(),
                    writer,
                    binding,
                    text,
                    now,
                ),
            ),
            None => Err(missing_binding(agent_key)),
        },
    }
}

/// What is reported where the file could not be read again.
pub open spec fn reread_failure(job: Job, path: Seq<char>, error: Seq<char>) -> Failure {
    match job {
        Job::Rename => failure(
            ErrorKind::Io,
            "re-read "@ + path + " after rename: "@ + error,
        ),
        _ => failure(ErrorKind::Io, "re-read "@ + path + " after write failed: "@ + error),
    }
}

pub fn reread_failed(job: Job, path: &str, error: &str) -> (r: AppError)
    ensures
        r@ == reread_failure(job, path@, error@),
{
    let mut m = "re-read ".to_owned();
    m.append(path);
    match job {
        Job::Rename => {
            m.append(" after rename: ");
        },
        _ => {
            m.append(" after write failed: ");
        },
    }
    m.append(error);
    AppError::io(m.as_str())
}

} // verus!
