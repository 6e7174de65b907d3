//! When a write asks first, what it does then, and what is told of it.

use vstd::prelude::*;
use crate::error::{ErrorKind, Failure};
use crate::json::{Json, JsonTree};
use crate::mcp_inventory::FileState;
use crate::mcp_library::{
    cloned_source, drift_digest, entry_of, live_fingerprint, requested_source, source_prepared,
    writer_failure, Written,
};
use crate::mcp_library::audit::{run_audit, write_audit};
use crate::mcp_library::funnel::{opened, settled, write_plan, Plan, WriteOp};
use crate::mcp_library::jobs::{job_begun, job_finished, reread_failure, Job, Progressed};
use crate::mcp_library::rename::{rename_plan, rename_settled, Renaming};
use crate::mcp_library::report::{file_read, verdict, verdicts_on, Found, Verdict};
use crate::mcp_library::runs::{next_job_of, stepped, Fleet, Mode};
use crate::mcp_library::upgrade::{
    check_note_of, command_union, distinct, installed_source, probe_note_of, probe_state_of,
    sources_of,
};
use crate::mcp_probe::Info;
use crate::mcp_store::{lists_bindings_of, Binding, Library, Server};
use crate::mcp_upstream::{
    inferred_source, law_source_round_trip, source_of_json, upgrade_plan, Source,
};
use crate::mcp_upstream::checks::Checked;
use crate::mcp_writers::{fingerprint, AgentWriter, McpWriter, WriteError};
use crate::text::join;

verus! {

// ── writes ──

/// An entry is known by the fingerprint of what the agent's file says under its name, where it says
/// something.
pub proof fn law_live_fingerprint(w: AgentWriter, text: Seq<char>, name: Seq<char>)
    ensures
        w.entry_in(text, name) matches Ok(Some(entry)) ==> live_fingerprint(w, text, name) == Some(
            fingerprint(entry),
        ),
        !(w.entry_in(text, name) matches Ok(Some(_))) ==> live_fingerprint(w, text, name) is None,
{
}

/// A missing file is as good as an empty one where the writer can begin one, and an error where it
/// cannot; a file that cannot be read is an error that says why.
pub proof fn law_opened(text: Seq<char>, message: Seq<char>, agent: Seq<char>)
    ensures
        opened(agent, FileState::Text(text)) == Ok::<(Seq<char>, bool), Failure>((text, true)),
        opened("opencode"@, FileState::Missing) == Ok::<(Seq<char>, bool), Failure>(
            ("{\n  \"mcp\": {}\n}"@, false),
        ),
        agent != "opencode"@ ==> (opened(agent, FileState::Missing) matches Err(e) && e.kind
            == ErrorKind::InvalidInput),
        opened(agent, FileState::Failed(message)) matches Err(e) && e.kind == ErrorKind::Io && e.message
            == message,
{
}

/// A write goes through where the file has what was last written there, or nothing, or already what
/// is wanted; otherwise it asks first and tells the file as it is and as it would be. The word of
/// the one who was asked lets it through.
pub proof fn law_write_asks_where_it_must(
    s: Server,
    agent: Seq<char>,
    w: AgentWriter,
    op: WriteOp,
    approved: Option<Seq<char>>,
    ledger: Option<Seq<char>>,
    text: Seq<char>,
    planned: Seq<char>,
)
    requires
        op == WriteOp::Upsert ==> w.upserted(text, entry_of(s)) == Ok::<Seq<char>, WriteError>(planned),
        op == WriteOp::Remove ==> w.removed(text, s.name) == Ok::<Seq<char>, WriteError>(planned),
    ensures
        ({
            let live = live_fingerprint(w, text, s.name);
            let wanted = live_fingerprint(w, planned, s.name);
            let foreign = ledger is None && live is Some && wanted != live;
            let drifted = ledger is Some && live != ledger;
            let token = drift_digest(
                agent,
                s.name,
                if ledger is Some {
                    ledger->Some_0
                } else {
                    "foreign"@
                },
                s.updated_at,
            );
            let plan = write_plan(s, agent, w, op, approved, ledger, FileState::Text(text));
            &&& (foreign || drifted) && approved != Some(token) ==> (plan matches Ok(
                Plan::Pending(d),
            ) && d.agent_key == agent && d.token == token && d.current_text == text
                && d.planned_text == planned && d.kind == if foreign {
                "foreign"@
            } else {
                "drift"@
            })
            &&& !((foreign || drifted) && approved != Some(token)) ==> plan == Ok::<Plan, Failure>(
                if planned == text {
                    Plan::Keep
                } else {
                    Plan::Write(planned)
                },
            )
        }),
{
}

/// A text that the writer refuses is not written; nothing is taken out of a file that is not there.
pub proof fn law_refused_write(
    s: Server,
    agent: Seq<char>,
    w: AgentWriter,
    approved: Option<Seq<char>>,
    ledger: Option<Seq<char>>,
    text: Seq<char>,
)
    ensures
        w.upserted(text, entry_of(s)) matches Err(e) ==> write_plan(
            s,
            agent,
            w,
            WriteOp::Upsert,
            approved,
            ledger,
            FileState::Text(text),
        ) == Err::<Plan, Failure>(writer_failure(e)),
        w.removed(text, s.name) matches Err(e) ==> write_plan(
            s,
            agent,
            w,
            WriteOp::Remove,
            approved,
            ledger,
            FileState::Text(text),
        ) == Err::<Plan, Failure>(writer_failure(e)),
        write_plan(s, "opencode"@, w, WriteOp::Remove, approved, ledger, FileState::Missing) == Ok::<
            Plan,
            Failure,
        >(Plan::Forget),
{
}

/// What a writer refuses is bad input, and what it cannot read or write is a fault of the files;
/// either is told as the writer told it.
pub proof fn law_writer_errors_are_kept(message: Seq<char>)
    ensures
        writer_failure(WriteError::Unsafe(message)) == (Failure {
            kind: ErrorKind::InvalidInput,
            message,
        }),
        writer_failure(WriteError::Io(message)) == (Failure { kind: ErrorKind::Io, message }),
{
}

/// A write counts only by what the file says when it is read again: an upsert records that
/// entry's fingerprint and the time, a removal forgets the entry; a file that says otherwise leaves
/// everything as it was.
pub proof fn law_write_is_settled_by_the_file(
    l: Library,
    s: Server,
    agent: Seq<char>,
    w: AgentWriter,
    text: Seq<char>,
    id: Seq<char>,
    now: i64,
)
    requires
        l.servers.contains_key(s.id),
    ensures
        ({
            let live = live_fingerprint(w, text, s.name);
            let (put, after) = settled(l, s, agent, w, WriteOp::Upsert, text, id, now);
            let (taken, left) = settled(l, s, agent, w, WriteOp::Remove, text, id, now);
            &&& put is Ok <==> live is Some
            &&& taken is Ok <==> live is None
            &&& put is Err ==> after == l
            &&& taken is Err ==> left == l
            &&& put is Ok ==> after.servers == l.servers && after.bindings.contains_key((s.id, agent))
                && ({
                let b = after.bindings[(s.id, agent)];
                b.id == id && b.server_id == s.id && b.agent_key == agent && Some(b.fingerprint) == live
                    && b.written_at == now
            })
            &&& taken is Ok ==> left.servers == l.servers && left.bindings == l.bindings.remove(
                (s.id, agent),
            )
        }),
{
}

// ── renames ──

/// A rename goes through where the file has the old entry as it was last written and nothing under
/// the new name, or the new one already; otherwise it asks first.
pub proof fn law_rename_asks_where_it_must(
    former: Server,
    new: Server,
    agent: Seq<char>,
    w: AgentWriter,
    approved: Option<Seq<char>>,
    ledger: Seq<char>,
    text: Seq<char>,
    stripped: Seq<char>,
    planned: Seq<char>,
)
    requires
        w.removed(text, former.name) == Ok::<Seq<char>, WriteError>(stripped),
        w.upserted(stripped, entry_of(new)) == Ok::<Seq<char>, WriteError>(planned),
    ensures
        ({
            let old_live = live_fingerprint(w, text, former.name);
            let new_live = live_fingerprint(w, text, new.name);
            let foreign = new_live is Some && new_live != Some(ledger);
            let drifted = new_live is None && old_live != Some(ledger);
            let token = drift_digest(agent, new.name, ledger, former.updated_at);
            let plan = rename_plan(former, new, agent, w, approved, ledger, FileState::Text(text));
            &&& (foreign || drifted) && approved != Some(token) ==> (plan matches Ok(
                Renaming::Pending(d),
            ) && d.agent_key == agent && d.token == token && d.current_text == text
                && d.planned_text == planned && d.kind == if foreign {
                "foreign"@
            } else {
                "drift"@
            })
            &&& !((foreign || drifted) && approved != Some(token)) ==> plan == Ok::<Renaming, Failure>(
                if planned != text {
                    Renaming::Write(planned)
                } else if new_live == Some(ledger) {
                    Renaming::Done
                } else {
                    Renaming::Keep
                },
            )
        }),
{
}

/// A rename counts only where the file has the new entry and no longer the old one; the binding
/// then has its fingerprint and the time, and keeps the rest.
pub proof fn law_rename_is_settled_by_the_file(
    l: Library,
    old_name: Seq<char>,
    new_name: Seq<char>,
    w: AgentWriter,
    b: Binding,
    text: Seq<char>,
    now: i64,
)
    requires
        l.servers.contains_key(b.server_id),
    ensures
        ({
            let old_live = live_fingerprint(w, text, old_name);
            let new_live = live_fingerprint(w, text, new_name);
            let (r, after) = rename_settled(l, old_name, new_name, w, b, text, now);
            &&& r is Ok <==> old_live is None && new_live is Some
            &&& r is Err ==> after == l
            &&& r is Ok ==> after.servers == l.servers && after.bindings.contains_key(
                (b.server_id, b.agent_key),
            ) && ({
                let c = after.bindings[(b.server_id, b.agent_key)];
                c.id == b.id && c.server_id == b.server_id && c.agent_key == b.agent_key && Some(
                    c.fingerprint,
                ) == new_live && c.written_at == now
            })
        }),
{
}

// ── runs over the agents ──

/// The job of a run is the same for each of its agents: an addition and an edit put the entry in, a
/// deletion takes it out, and a rename first asks and then renames.
pub proof fn law_jobs_of_a_run(f: Fleet)
    ensures
        next_job_of(f) is Some <==> f.over is None && 0 <= f.at < f.agents.len(),
        next_job_of(f) matches Some(job) ==> match f.mode {
            Mode::Add => job == Job::Write(WriteOp::Upsert),
            Mode::Edit => job == Job::Write(WriteOp::Upsert),
            Mode::Delete => job == Job::Write(WriteOp::Remove),
            Mode::Rename => job == if f.gating {
                Job::Gate
            } else {
                Job::Rename
            },
        },
{
}

/// What one agent's outcome makes of a run: an agent that took the change is listed, one that asks
/// is kept with what it asks, a failure is noted in an addition and ends every other run; and no
/// agent is passed over.
pub proof fn law_outcome_is_kept(f: Fleet, l: Library, outcome: Result<Written, Failure>, now: i64)
    requires
        f.over is None,
        0 <= f.at < f.agents.len(),
    ensures
        ({
            let (g, after) = stepped(f, l, outcome, now);
            let agent = f.agents[f.at];
            let ends = f.mode != Mode::Add && (outcome is Err || (f.mode == Mode::Rename && !f.gating
                && outcome != Ok::<Written, Failure>(Written::Applied)));
            &&& g.mode == f.mode && g.former == f.former && g.agents == f.agents && g.approved
                == f.approved
            &&& g.record == (Server { updated_at: g.record.updated_at, ..f.record })
            &&& outcome == Ok::<Written, Failure>(Written::Applied) ==> g.pending == f.pending
                && g.failures == f.failures && g.applied == if f.gating && f.mode != Mode::Add {
                f.applied
            } else {
                f.applied.push(agent)
            }
            &&& outcome matches Ok(Written::Pending(d)) ==> g.applied == f.applied && if f.mode
                == Mode::Add {
                g.pending == f.pending && g.failures.len() == f.failures.len() + 1
                    && g.failures.drop_last() == f.failures
            } else {
                g.pending == f.pending.push(d) && g.failures == f.failures
            }
            &&& outcome matches Err(e) ==> g.applied == f.applied && g.pending == f.pending && if f.mode
                == Mode::Add {
                g.failures == f.failures.push(agent + ": "@ + e.message)
            } else {
                g.failures == f.failures && g.over == Some(Err::<(), Failure>(e)) && after == l
            }
            &&& f.at + 1 < f.agents.len() && !ends ==> g.over is None && g.at == f.at + 1 && g.gating
                == f.gating && g.record == f.record && after == l
            &&& ends ==> g.over is Some && after == l
        }),
{
    let (g, after) = stepped(f, l, outcome, now);
    assert(g.failures.len() > 0 ==> g.failures.drop_last().push(g.failures.last()) =~= g.failures);
    assert(f.failures.push(g.failures.last()).drop_last() =~= f.failures);
    if f.mode == Mode::Add {
        if let Ok(Written::Pending(_)) = outcome {
            assert(g.failures.drop_last() =~= f.failures);
        }
    }
}

/// The last agent closes the run: an addition and an edit are done; a deletion takes the server out
/// unless an agent asks; a rename that only asked begins to rename unless one does, and then
/// stores the new name.
pub proof fn law_last_outcome_closes(f: Fleet, l: Library, outcome: Result<Written, Failure>, now: i64)
    requires
        f.over is None,
        f.agents.len() > 0,
        f.at == f.agents.len() - 1,
        f.mode != Mode::Add ==> outcome is Ok,
        l.servers.contains_key(f.record.id),
        forall|id: Seq<char>|
            id != f.record.id && l.servers.contains_key(id) ==> (#[trigger] l.servers[id]).name
                != f.record.name,
    ensures
        ({
            let (g, after) = stepped(f, l, outcome, now);
            let asks = f.pending.len() > 0 || outcome matches Ok(Written::Pending(_));
            match f.mode {
                Mode::Add => g.over == Some(Ok::<(), Failure>(())) && after == l,
                Mode::Edit => g.over == Some(Ok::<(), Failure>(())) && after == l,
                Mode::Delete => g.over == Some(Ok::<(), Failure>(())) && (asks ==> after == l) && (!asks
                    ==> !after.servers.contains_key(f.record.id)),
                Mode::Rename => if f.gating {
                    if asks {
                        g.over == Some(Ok::<(), Failure>(())) && after == l
                    } else {
                        g.over is None && !g.gating && g.at == 0 && after == l
                    }
                } else if outcome == Ok::<Written, Failure>(Written::Applied) {
                    g.over == Some(Ok::<(), Failure>(())) && after.servers[f.record.id].name
                        == f.record.name && after.servers[f.record.id].updated_at == now
                        && after.bindings == l.bindings
                } else {
                    g.over == Some(Ok::<(), Failure>(())) && after == l
                },
            }
        }),
{
    crate::mcp_store::store_laws::law_update(l, Server { updated_at: now, ..f.record }, f.record.id);
}

// ── one agent's job ──

/// A job that writes does what its plan says: it asks without touching anything, hands out the
/// text to install, or looks at the file again; where the file is gone the ledger forgets the
/// entry, and where the plan fails nothing happens.
pub proof fn law_write_follows_its_plan(
    op: WriteOp,
    former: Server,
    s: Server,
    agent: Seq<char>,
    w: AgentWriter,
    approved: Option<Seq<char>>,
    l: Library,
    file: FileState,
)
    ensures
        ({
            let ledger = if l.bindings.contains_key((s.id, agent)) {
                Some(l.bindings[(s.id, agent)].fingerprint)
            } else {
                None
            };
            let (next, after) = job_begun(Job::Write(op), former, s, agent, w, approved, l, file);
            match write_plan(s, agent, w, op, approved, ledger, file) {
                Err(e) => next == Progressed::Done(Err(e)) && after == l,
                Ok(Plan::Pending(d)) => next == Progressed::Done(Ok(Written::Pending(d))) && after == l,
                Ok(Plan::Write(text)) => next == Progressed::Write(text) && after == l,
                Ok(Plan::Keep) => next == Progressed::ReadBack && after == l,
                Ok(Plan::Forget) => next == Progressed::Done(Ok(Written::Applied)) && after.servers
                    == l.servers && after.bindings == l.bindings.remove((s.id, agent)),
            }
        }),
{
}

/// A rename does what its plan says, and a gate only asks: neither begins with a change, and an
/// agent without a binding is refused.
pub proof fn law_rename_follows_its_plan(
    former: Server,
    s: Server,
    agent: Seq<char>,
    w: AgentWriter,
    approved: Option<Seq<char>>,
    l: Library,
    file: FileState,
)
    ensures
        ({
            let (asked, kept) = job_begun(Job::Gate, former, s, agent, w, approved, l, file);
            let (next, after) = job_begun(Job::Rename, former, s, agent, w, approved, l, file);
            &&& kept == l && after == l
            &&& !l.bindings.contains_key((former.id, agent)) ==> (next matches Progressed::Done(Err(e))
                && e.kind == ErrorKind::NotFound && asked == next)
            &&& l.bindings.contains_key((former.id, agent)) ==> match rename_plan(
                former,
                s,
                agent,
                w,
                approved,
                l.bindings[(former.id, agent)].fingerprint,
                file,
            ) {
                Err(e) => next == Progressed::Done(Err(e)) && asked == next,
                Ok(Renaming::Pending(d)) => next == Progressed::Done(Ok(Written::Pending(d))) && asked
                    == next,
                Ok(Renaming::Done) => next == Progressed::Done(Ok(Written::Applied)) && asked == next,
                Ok(Renaming::Write(text)) => next == Progressed::Write(text) && asked
                    == Progressed::Done(Ok(Written::Applied)),
                Ok(Renaming::Keep) => next == Progressed::ReadBack && asked == Progressed::Done(
                    Ok(Written::Applied),
                ),
            }
        }),
{
}

/// A job ends as the file says when it is read again; one that cannot be read is a fault that names
/// the file and the reason.
pub proof fn law_job_ends_by_the_file(
    op: WriteOp,
    former: Server,
    s: Server,
    agent: Seq<char>,
    w: AgentWriter,
    l: Library,
    text: Seq<char>,
    id: Seq<char>,
    now: i64,
    error: Seq<char>,
)
    ensures
        ({
            let (r, after) = job_finished(Job::Write(op), former, s, agent, w, l, text, id, now);
            let (settles, then) = settled(l, s, agent, w, op, text, id, now);
            &&& after == then
            &&& settles is Ok ==> r == Ok::<Written, Failure>(Written::Applied)
            &&& settles matches Err(e) ==> r == Err::<Written, Failure>(e)
        }),
        l.bindings.contains_key((former.id, agent)) ==> ({
            let (r, after) = job_finished(Job::Rename, former, s, agent, w, l, text, id, now);
            let b = l.bindings[(former.id, agent)];
            let (settles, then) = rename_settled(l, former.name, s.name, w, b, text, now);
            &&& after == then
            &&& settles is Ok ==> r == Ok::<Written, Failure>(Written::Applied)
            &&& settles matches Err(e) ==> r == Err::<Written, Failure>(e)
        }),
        reread_failure(Job::Write(op), agent, error) == (Failure {
            kind: ErrorKind::Io,
            message: "re-read "@ + agent + " after write failed: "@ + error,
        }),
        reread_failure(Job::Rename, agent, error) == (Failure {
            kind: ErrorKind::Io,
            message: "re-read "@ + agent + " after rename: "@ + error,
        }),
{
}

// ── what is reported ──

/// A binding is reported with its own agent and fingerprint; it drifts exactly where a reason is
/// told, and each reason is told by its own words.
pub proof fn law_binding_is_reported(s: Server, b: Binding, found: Option<Found>)
    ensures
        ({
            let v = verdict(s, b, found);
            &&& v.agent_key == b.agent_key
            &&& v.fingerprint == b.fingerprint
            &&& v.drift <==> v.drift_reason is Some
            &&& v.drift ==> !v.variant
            &&& match found {
                None => v.drift_reason == Some("config file not found"@),
                Some(f) => match f.writer {
                    Err(message) => v.drift_reason == Some(message),
                    Ok(w) => match f.file {
                        FileState::Missing => v.drift_reason == Some("config file not found"@),
                        FileState::Failed(error) => v.drift_reason == Some(
                            "config file unreadable: "@ + error,
                        ),
                        FileState::Text(text) => match w.entry_in(text, s.name) {
                            Err(_) => v.drift,
                            Ok(None) => v.drift_reason == Some("entry is no longer in the config file"@),
                            Ok(Some(entry)) => v.drift <==> fingerprint(entry) != b.fingerprint,
                        },
                    },
                },
            }
        }),
{
}

/// A binding that does not drift is a variant exactly where the definition, written to an empty
/// file, would read back as another entry.
pub proof fn law_variant(
    s: Server,
    b: Binding,
    agent: Seq<char>,
    w: AgentWriter,
    text: Seq<char>,
    alone: Seq<char>,
)
    requires
        live_fingerprint(w, text, s.name) == Some(b.fingerprint),
        w.upserted(w.blank(), entry_of(s)) == Ok::<Seq<char>, WriteError>(alone),
        live_fingerprint(w, alone, s.name) is Some,
    ensures
        verdict(
            s,
            b,
            Some(Found { agent_key: agent, writer: Ok(w), file: FileState::Text(text) }),
        ).variant <==> live_fingerprint(w, alone, s.name) != Some(b.fingerprint),
{
}

/// An agent's file is the first one found for it, wherever it stands.
pub proof fn law_file_of_agent(files: Seq<Found>, agent: Seq<char>, i: int)
    ensures
        0 <= i < files.len() && files[i].agent_key == agent && (forall|j: int|
            0 <= j < i ==> (#[trigger] files[j]).agent_key != agent) ==> file_read(files, agent) == Some(
            files[i],
        ),
        (forall|j: int| 0 <= j < files.len() ==> (#[trigger] files[j]).agent_key != agent) ==> file_read(
            files,
            agent,
        ) is None,
    decreases files.len(),
{
    if files.len() > 0 {
        let rest = files.skip(1);
        law_file_of_agent(rest, agent, i - 1);
        assert forall|j: int| 0 <= j < rest.len() implies rest[j] == #[trigger] files[j + 1] by {}
        assert(forall|j: int| 0 <= j < rest.len() ==> #[trigger] rest[j] == files[j + 1]);
    }
}

/// What a finished run is told as: the action and the server it was on, the agents it reached, and
/// as a failure what could not be done.
pub proof fn law_run_is_told(f: Fleet)
    ensures
        f.over != Some(Ok::<(), Failure>(())) ==> run_audit(f) is None,
        run_audit(f) matches Some(a) ==> a.server_id == f.record.id && a.server_name == f.record.name
            && a.action == match f.mode {
            Mode::Add => "mcp_add"@,
            Mode::Edit => "mcp_edit"@,
            Mode::Rename => "mcp_rename"@,
            Mode::Delete => "mcp_delete"@,
        },
        f.over == Some(Ok::<(), Failure>(())) ==> match f.mode {
            Mode::Add => run_audit(f) matches Some(a) && (a.failure is Some <==> f.failures.len() > 0)
                && (f.failures.len() == 0 ==> a.detail == "agents: "@ + join(f.agents, ", "@)) && (
            f.failures.len() > 0 ==> a.failure == Some(join(f.failures, "; "@)) && a.detail
                == "agents: "@ + join(f.agents, ", "@) + "; "@ + join(f.failures, "; "@)),
            Mode::Edit => run_audit(f) matches Some(a) && a.failure is None && a.detail == "applied: "@
                + join(f.applied, ", "@) + "; pending: "@ + join(
                Seq::new(f.pending.len(), |i: int| f.pending[i].agent_key),
                ", "@,
            ),
            Mode::Rename => (run_audit(f) is None <==> f.pending.len() > 0) && (run_audit(f) matches Some(
                a,
            ) ==> a.failure is None && a.detail == "from \""@ + f.former.name + "\"; agents: "@
                + join(f.applied, ", "@)),
            Mode::Delete => run_audit(f) matches Some(a) && (a.failure is Some <==> f.pending.len() > 0)
                && (f.pending.len() == 0 ==> a.detail == "removed from: "@ + join(f.applied, ", "@)),
        },
{
    assert(Seq::new(f.pending.len(), |i: int| f.pending[i].agent_key)
        =~= crate::mcp_library::audit::pending_agents(f.pending));
}

/// What a write to one agent is told as.
pub proof fn law_write_is_told(action: Seq<char>, s: Server, agent: Seq<char>, outcome: Written)
    ensures
        write_audit(action, s, agent, outcome).action == action,
        write_audit(action, s, agent, outcome).server_id == s.id,
        write_audit(action, s, agent, outcome).server_name == s.name,
        write_audit(action, s, agent, outcome).detail == "agent '"@ + agent + "'"@,
        write_audit(action, s, agent, outcome).failure is Some <==> outcome is Pending,
{
}

// ── sources and upgrades ──

/// A source is stored as it was asked for; a repository is stored with the place it was cloned to.
pub proof fn law_requested_source(v: JsonTree, url: Seq<char>, path: Seq<char>, error: Seq<char>)
    ensures
        v is Null ==> requested_source(v) == Some(Source::Unknown),
        !(v is Null) ==> requested_source(v) == source_of_json(v),
        cloned_source(url, Ok(path)) matches Ok(t) && source_of_json(t) == Some(Source::Git(url, path)),
        cloned_source(url, Err(error)) matches Err(e) && e.kind == ErrorKind::Git && e.message == error,
{
    law_source_round_trip(Source::Git(url, path));
}

/// A source is prepared as it was asked for: a repository by cloning the address it names, any other
/// as it stands, and one that cannot be read is refused.
pub proof fn law_source_is_prepared<
    C: FnOnce(&String) -> Result<String, String>,
    W: Fn(&Json) -> String,
>(asked: JsonTree, clone_repo: C, why: W, r: Result<JsonTree, Failure>)
    requires
        source_prepared(asked, clone_repo, why, r),
    ensures
        requested_source(asked) is None ==> (r matches Err(e) && e.kind == ErrorKind::InvalidInput),
        requested_source(asked) matches Some(source) ==> (!(source is Git) ==> (r matches Ok(t)
            && source_of_json(t) == Some(source))),
        requested_source(asked) matches Some(Source::Git(url, _)) ==> exists|
            at: String,
            cloned: Result<String, String>,
        |
            at@ == url && #[trigger] call_ensures(clone_repo, (&at,), cloned) && match cloned {
                Ok(path) => r matches Ok(t) && source_of_json(t) == Some(Source::Git(url, path@)),
                Err(message) => r matches Err(e) && e.kind == ErrorKind::Git && e.message == message@,
            },
{
    match requested_source(asked) {
        Some(Source::Git(url, _)) => {
            let (at, cloned) = choose|at: String, cloned: Result<String, String>|
                at@ == url && #[trigger] call_ensures(clone_repo, (&at,), cloned) && r == cloned_source(
                    url,
                    match cloned {
                        Ok(path) => Ok(path@),
                        Err(e) => Err(e@),
                    },
                );
            assert(call_ensures(clone_repo, (&at,), cloned));
            if let Ok(path) = cloned {
                law_source_round_trip(Source::Git(url, path@));
            }
        },
        Some(other) => {
            law_source_round_trip(other);
        },
        None => {},
    }
}

/// An agent's source is inferred from the command line in its own file, and from the definition's
/// only where the file tells none.
pub proof fn law_live_entry_tells_the_source(
    s: Server,
    agent: Seq<char>,
    w: AgentWriter,
    text: Seq<char>,
)
    ensures
        ({
            let found = Some(Found { agent_key: agent, writer: Ok(w), file: FileState::Text(text) });
            &&& w.entry_in(text, s.name) matches Ok(Some(e)) ==> installed_source(s, found)
                == inferred_source(e.command, e.args)
            &&& !(w.entry_in(text, s.name) matches Ok(Some(_))) ==> installed_source(s, found)
                == inferred_source(s.command, s.args)
            &&& installed_source(s, None) == inferred_source(s.command, s.args)
        }),
{
}

/// An upgrade of one source runs that source's commands, and is refused for that source's reason.
pub proof fn law_single_upgrade(source: Source, dirs: Seq<Seq<char>>)
    ensures
        upgrade_plan(source, dirs) matches Err(reason) ==> (command_union(seq![source], seq![dirs])
            matches Err(e) && e.kind == ErrorKind::InvalidInput && e.message == reason),
        upgrade_plan(source, dirs) matches Ok(commands) ==> (commands.len() == 1 ==> command_union(
            seq![source],
            seq![dirs],
        ) == Ok::<Seq<Seq<char>>, Failure>(commands)),
{
    reveal_with_fuel(crate::mcp_library::upgrade::gathered, 3);
    reveal_with_fuel(crate::mcp_library::upgrade::distinct, 3);
    assert(seq![source].drop_last() =~= Seq::<Source>::empty());
    if let Ok(commands) = upgrade_plan(source, dirs) {
        assert(Seq::<Seq<char>>::empty() + commands =~= commands);
        if commands.len() == 1 {
            assert(commands.drop_last() =~= Seq::<Seq<char>>::empty());
            assert(commands.drop_last().push(commands.last()) =~= commands);
        }
    }
}

/// The words for a check, a probe's result and its note.
pub proof fn law_notes(
    c: Checked,
    error: Seq<char>,
    latest: Seq<char>,
    name: Seq<char>,
    version: Seq<char>,
    status: Seq<char>,
)
    ensures
        check_note_of(None) == "check skipped"@,
        check_note_of(Some(Checked { error: Some(error), ..c })) == "check failed: "@ + error,
        check_note_of(Some(Checked { error: None, latest: Some(latest), behind: true }))
            == "still behind latest "@ + latest,
        check_note_of(Some(Checked { error: None, latest: Some(latest), behind: false }))
            == "latest is "@ + latest,
        probe_state_of(Err(error)) == ("fail"@, error),
        probe_state_of(Ok(Info { server_name: Some(name), server_version: Some(version) })) == (
            "ok"@,
            name + " "@ + version,
        ),
        probe_state_of(Ok(Info { server_name: Some(name), server_version: None })) == ("ok"@, name),
        probe_state_of(Ok(Info { server_name: None, server_version: Some(version) })) == (
            "ok"@,
            version,
        ),
        probe_state_of(Ok(Info { server_name: None, server_version: None })).0 == "ok"@,
        probe_note_of(status, Some(error)) == "probe "@ + status + ": "@ + error,
        probe_note_of(status, None) == "probe "@ + status,
{
}

// ── over all agents of a server ──

proof fn lemma_distinct<T>(s: Seq<T>, x: T)
    ensures
        distinct(s).contains(x) <==> s.contains(x),
    decreases s.len(),
{
    if s.len() > 0 {
        let t = s.drop_last();
        let before = distinct(t);
        lemma_distinct(t, x);
        assert(s =~= t.push(s.last()));
        if s.contains(x) {
            let i = choose|i: int| 0 <= i < s.len() && s[i] == x;
            if i < t.len() {
                assert(t[i] == x);
            }
        }
        if t.contains(x) {
            let i = choose|i: int| 0 <= i < t.len() && t[i] == x;
            assert(s[i] == x);
        }
        assert(s[s.len() - 1] == s.last());
        let all = before.push(s.last());
        assert(all[before.len() as int] == s.last());
        if before.contains(x) {
            let i = choose|i: int| 0 <= i < before.len() && before[i] == x;
            assert(all[i] == x);
        }
        if all.contains(x) {
            let i = choose|i: int| 0 <= i < all.len() && all[i] == x;
            if i < before.len() {
                assert(before[i] == x);
            }
        }
    }
}

/// An upgrade is planned for the source of every agent that has the server, each inferred from what
/// that agent runs, and for no other; for a server that no agent has, it is the stored source.
pub proof fn law_sources_of_a_server<W: Fn(&Json) -> String>(
    s: Server,
    rows: Seq<Binding>,
    files: Seq<Found>,
    why: W,
    sources: Seq<Source>,
    i: int,
)
    requires
        sources_of(s, rows, files, why, Ok::<Seq<Source>, Failure>(sources)),
    ensures
        rows.len() == 0 ==> sources.len() == 1 && source_of_json(s.source) == Some(sources[0]),
        0 <= i < rows.len() ==> sources.contains(
            installed_source(s, file_read(files, rows[i].agent_key)),
        ),
        0 <= i < sources.len() && rows.len() > 0 ==> exists|k: int|
            0 <= k < rows.len() && sources[i] == installed_source(
                s,
                file_read(files, (#[trigger] rows[k]).agent_key),
            ),
{
    if rows.len() > 0 {
        let all = Seq::new(
            rows.len(),
            |k: int| installed_source(s, file_read(files, rows[k].agent_key)),
        );
        if 0 <= i < rows.len() {
            lemma_distinct(all, all[i]);
            assert(all.contains(all[i]));
        }
        if 0 <= i < sources.len() {
            lemma_distinct(all, sources[i]);
            assert(sources.contains(sources[i]));
            let k = choose|k: int| 0 <= k < all.len() && all[k] == sources[i];
            assert(sources[i] == installed_source(s, file_read(files, rows[k].agent_key)));
        }
    }
}

/// A report on a server has one verdict for every binding of it, by what that agent's file says, and
/// no other.
pub proof fn law_every_binding_is_judged(
    v: Seq<Verdict>,
    s: Server,
    l: Library,
    files: Seq<Found>,
    agent: Seq<char>,
    i: int,
)
    requires
        verdicts_on(v, s, l, files),
    ensures
        l.bindings.contains_key((s.id, agent)) ==> v.contains(
            verdict(s, l.bindings[(s.id, agent)], file_read(files, agent)),
        ),
        0 <= i < v.len() ==> l.bindings.contains_key((s.id, v[i].agent_key)) && v[i] == verdict(
            s,
            l.bindings[(s.id, v[i].agent_key)],
            file_read(files, v[i].agent_key),
        ),
{
    let rows = choose|rows: Seq<Binding>| #[trigger]
        lists_bindings_of(rows, l, s.id) && v == Seq::new(
            rows.len(),
            |k: int| verdict(s, rows[k], file_read(files, rows[k].agent_key)),
        );
    if l.bindings.contains_key((s.id, agent)) {
        let k = choose|k: int| 0 <= k < rows.len() && (#[trigger] rows[k]).agent_key == agent;
        assert(v[k] == verdict(s, rows[k], file_read(files, rows[k].agent_key)));
        assert(v.contains(v[k]));
    }
    if 0 <= i < v.len() {
        assert(rows[i].server_id == s.id);
    }
}

} // verus!
