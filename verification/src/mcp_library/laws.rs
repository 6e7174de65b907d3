//! What the operations keep to, over a world of a library and of agent files in which a text
//! that is written is what is read next.

use vstd::prelude::*;
use crate::error::Failure;
use crate::json::JsonTree;
use crate::mcp_inventory::FileState;
use crate::mcp_library::{
    entry_of, live_fingerprint, scalars_checked, unsafe_fields, unsafe_text, Written,
};
use crate::mcp_library::funnel::{ledger_fingerprint, WriteOp};
use crate::mcp_library::jobs::{job_begun, job_finished, reread_failure, Job, Progressed};
use crate::mcp_library::runs::{
    addition_begun, edit_begun, edited, next_job_of, stepped, Fleet, Mode,
};
use crate::mcp_store::{deleted, valid, Library, Server};
use crate::mcp_writers::{
    fingerprint, law_written_is_found, rendered_by, AgentWriter, EntryDef, McpWriter,
};
use crate::mcp_writers::dsh_shape::{flat, flat_entry, law_rendered_block_is_one_block};
use crate::mcp_writers::dsh_yaml::{block_text, next_item};
use crate::mcp_writers::opencode_laws::law_seed_has_no_entry;
use crate::text::{is_control, lines_of};

verus! {

/// A library, and the agents' files.
#[verifier::ext_equal]
pub ghost struct World {
    pub library: Library,
    pub files: Map<Seq<char>, FileState>,
}

pub open spec fn file_of(w: World, agent_key: Seq<char>) -> FileState {
    if w.files.contains_key(agent_key) {
        w.files[agent_key]
    } else {
        FileState::Missing
    }
}

/// The text of an agent's file; none where there is no file or it cannot be read.
pub open spec fn text_in(w: World, agent_key: Seq<char>) -> Option<Seq<char>> {
    match file_of(w, agent_key) {
        FileState::Text(text) => Some(text),
        _ => None,
    }
}

/// A job from its first read to the settled ledger. `id` is that of a new binding.
pub open spec fn performed(
    job: Job,
    former: Server,
    s: Server,
    agent_key: Seq<char>,
    writer: AgentWriter,
    approved: Option<Seq<char>>,
    w: World,
    id: Seq<char>,
    now: i64,
) -> (Result<Written, Failure>, World) {
    let (progress, l) = job_begun(
        job,
        former,
        s,
        agent_key,
        writer,
        approved,
        w.library,
        file_of(w, agent_key),
    );
    match progress {
        Progressed::Done(r) => (r, World { library: l, ..w }),
        Progressed::Write(text) => {
            let (r, after) = job_finished(job, former, s, agent_key, writer, l, text, id, now);
            (
                r,
                World {
                    library: after,
                    files: w.files.insert(agent_key, FileState::Text(text)),
                },
            )
        },
        Progressed::ReadBack => match text_in(w, agent_key) {
            Some(text) => {
                let (r, after) = job_finished(job, former, s, agent_key, writer, l, text, id, now);
                (r, World { library: after, ..w })
            },
            None => (
                Err(reread_failure(job, agent_key, Seq::empty())),
                World { library: l, ..w },
            ),
        },
    }
}

/// A write that waits for a confirmation has touched neither the file nor the ledger.
pub proof fn law_pending_touches_nothing(
    job: Job,
    former: Server,
    s: Server,
    agent_key: Seq<char>,
    writer: AgentWriter,
    approved: Option<Seq<char>>,
    w: World,
    id: Seq<char>,
    now: i64,
)
    ensures
        performed(job, former, s, agent_key, writer, approved, w, id, now).0 matches Ok(
            Written::Pending(_),
        ) ==> performed(job, former, s, agent_key, writer, approved, w, id, now).1 == w,
{
}

/// Asking whether a rename could go through touches nothing, whatever the answer.
pub proof fn law_asking_touches_nothing(
    former: Server,
    s: Server,
    agent_key: Seq<char>,
    writer: AgentWriter,
    approved: Option<Seq<char>>,
    w: World,
    id: Seq<char>,
    now: i64,
)
    ensures
        performed(Job::Gate, former, s, agent_key, writer, approved, w, id, now).1 == w,
{
}

/// What is waiting for a confirmation goes ahead once it is confirmed by its token: the text that
/// was shown is what the file then holds. A definition is then applied (that it was rendered
/// [`begin_job`] ensures); a removal or a rename where that text reads as the job means it to.
///
/// [`begin_job`]: crate::mcp_library::jobs::begin_job
pub proof fn law_confirmed_is_applied(
    job: Job,
    former: Server,
    s: Server,
    agent_key: Seq<char>,
    writer: AgentWriter,
    approved: Option<Seq<char>>,
    w: World,
    id: Seq<char>,
    now: i64,
)
    requires
        valid(w.library),
        w.library.servers.contains_key(s.id),
        former.id == s.id,
        agent_key == "opencode"@ ==> writer is OpenCode,
    ensures
        performed(job, former, s, agent_key, writer, approved, w, id, now).0 matches Ok(
            Written::Pending(drift),
        ) ==> {
            let text = drift.planned_text;
            let (r, after) = performed(
                job,
                former,
                s,
                agent_key,
                writer,
                Some(drift.token),
                w,
                id,
                now,
            );
            let live = live_fingerprint(writer, text, s.name);
            &&& job == Job::Gate ==> r == Ok::<Written, Failure>(Written::Applied) && after == w
            &&& job == Job::Write(WriteOp::Upsert) && rendered_by(writer, entry_of(s)) ==> {
                &&& live is Some
                &&& r == Ok::<Written, Failure>(Written::Applied)
                &&& text_in(after, agent_key) == Some(text)
                &&& ledger_fingerprint(after.library, s.id, agent_key) == live
            }
            &&& job == Job::Write(WriteOp::Remove) && live is None ==> {
                &&& r == Ok::<Written, Failure>(Written::Applied)
                &&& text_in(after, agent_key) == Some(text)
                &&& ledger_fingerprint(after.library, s.id, agent_key) is None
            }
            &&& job == Job::Rename && live is Some && live_fingerprint(writer, text, former.name) is None
                ==> {
                &&& r == Ok::<Written, Failure>(Written::Applied)
                &&& text_in(after, agent_key) == Some(text)
                &&& ledger_fingerprint(after.library, s.id, agent_key) == live
            }
        },
{
    law_seed_has_no_entry(s.name);
    if let Ok(Written::Pending(drift)) = performed(
        job,
        former,
        s,
        agent_key,
        writer,
        approved,
        w,
        id,
        now,
    ).0 {
        if job == Job::Write(WriteOp::Upsert) && rendered_by(writer, entry_of(s)) {
            law_written_is_found(writer, drift.current_text, entry_of(s), drift.planned_text);
        }
    }
}

/// A job changes no definition, no other agent's file, and no other binding.
pub proof fn law_job_is_local(
    job: Job,
    former: Server,
    s: Server,
    agent_key: Seq<char>,
    writer: AgentWriter,
    approved: Option<Seq<char>>,
    w: World,
    id: Seq<char>,
    now: i64,
    other: Seq<char>,
    pair: (Seq<char>, Seq<char>),
)
    requires
        valid(w.library),
        former.id == s.id,
        forall|k: (Seq<char>, Seq<char>)| #[trigger]
            w.library.bindings.contains_key(k) ==> w.library.bindings[k].id != id,
        other != agent_key,
        pair != (s.id, agent_key),
    ensures
        ({
            let after = performed(job, former, s, agent_key, writer, approved, w, id, now).1;
            &&& after.library.servers == w.library.servers
            &&& file_of(after, other) == file_of(w, other)
            &&& after.library.bindings.contains_key(pair) <==> w.library.bindings.contains_key(pair)
            &&& w.library.bindings.contains_key(pair) ==> after.library.bindings[pair]
                == w.library.bindings[pair]
        }),
{
    let l = w.library;
    let k = (former.id, agent_key);
    if l.bindings.contains_key(k) && l.bindings.contains_key(pair) {
        assert(l.bindings[k].id != l.bindings[pair].id);
    }
    if l.bindings.contains_key(k) {
        assert(l.bindings[k].server_id == k.0 && l.bindings[k].agent_key == k.1);
    }
}

/// After a definition was written to an agent, the ledger has the fingerprint of the entry as
/// the file reads back: no drift is reported of what we wrote ourselves.
pub proof fn law_written_is_in_sync(
    former: Server,
    s: Server,
    agent_key: Seq<char>,
    writer: AgentWriter,
    approved: Option<Seq<char>>,
    w: World,
    id: Seq<char>,
    now: i64,
)
    ensures
        ({
            let (r, after) = performed(
                Job::Write(WriteOp::Upsert),
                former,
                s,
                agent_key,
                writer,
                approved,
                w,
                id,
                now,
            );
            r == Ok::<Written, Failure>(Written::Applied) ==> {
                &&& text_in(after, agent_key) is Some
                &&& ledger_fingerprint(after.library, s.id, agent_key) is Some
                &&& ledger_fingerprint(after.library, s.id, agent_key) == live_fingerprint(
                    writer,
                    text_in(after, agent_key)->Some_0,
                    s.name,
                )
            }
        }),
{
}

/// Writing the same definition again asks for no confirmation.
pub proof fn law_writing_again_is_quiet(
    former: Server,
    s: Server,
    agent_key: Seq<char>,
    writer: AgentWriter,
    approved: Option<Seq<char>>,
    w: World,
    id: Seq<char>,
    now: i64,
    again: Option<Seq<char>>,
    id2: Seq<char>,
    now2: i64,
)
    ensures
        ({
            let job = Job::Write(WriteOp::Upsert);
            let (r, after) = performed(job, former, s, agent_key, writer, approved, w, id, now);
            r == Ok::<Written, Failure>(Written::Applied) ==> !(performed(
                job,
                former,
                s,
                agent_key,
                writer,
                again,
                after,
                id2,
                now2,
            ).0 matches Ok(Written::Pending(_)))
        }),
{
    law_written_is_in_sync(former, s, agent_key, writer, approved, w, id, now);
}

/// After an entry was taken out of an agent, neither the ledger nor the file has it.
pub proof fn law_removed_is_gone(
    former: Server,
    s: Server,
    agent_key: Seq<char>,
    writer: AgentWriter,
    approved: Option<Seq<char>>,
    w: World,
    id: Seq<char>,
    now: i64,
)
    ensures
        ({
            let (r, after) = performed(
                Job::Write(WriteOp::Remove),
                former,
                s,
                agent_key,
                writer,
                approved,
                w,
                id,
                now,
            );
            r == Ok::<Written, Failure>(Written::Applied) ==> {
                &&& !after.library.bindings.contains_key((s.id, agent_key))
                &&& text_in(after, agent_key) matches Some(text) ==> live_fingerprint(
                    writer,
                    text,
                    s.name,
                ) is None
            }
        }),
{
}

/// A rename never drops an agent from the ledger: whoever tries again sees the full fleet.
pub proof fn law_rename_keeps_the_fleet(
    former: Server,
    s: Server,
    agent_key: Seq<char>,
    writer: AgentWriter,
    approved: Option<Seq<char>>,
    w: World,
    id: Seq<char>,
    now: i64,
    pair: (Seq<char>, Seq<char>),
)
    requires
        valid(w.library),
    ensures
        performed(
            Job::Rename,
            former,
            s,
            agent_key,
            writer,
            approved,
            w,
            id,
            now,
        ).1.library.bindings.contains_key(pair) <==> w.library.bindings.contains_key(pair),
{
    let l = w.library;
    let k = (former.id, agent_key);
    if l.bindings.contains_key(k) {
        assert(l.bindings[k].server_id == k.0 && l.bindings[k].agent_key == k.1);
        if l.bindings.contains_key(pair) && pair != k {
            assert(l.bindings[k].id != l.bindings[pair].id);
        }
    }
}

/// An agent that took a rename needs no confirmation when the rename is tried again: it reads
/// as renamed already.
pub proof fn law_renamed_reads_as_done(
    job: Job,
    former: Server,
    s: Server,
    agent_key: Seq<char>,
    writer: AgentWriter,
    approved: Option<Seq<char>>,
    w: World,
    id: Seq<char>,
    now: i64,
    again: Option<Seq<char>>,
    id2: Seq<char>,
    now2: i64,
)
    requires
        job == Job::Gate || job == Job::Rename,
        valid(w.library),
        text_in(w, agent_key) is Some,
        w.library.bindings.contains_key((former.id, agent_key)),
    ensures
        ({
            let (r, after) = performed(Job::Rename, former, s, agent_key, writer, approved, w, id, now);
            r == Ok::<Written, Failure>(Written::Applied) ==> !(performed(
                job,
                former,
                s,
                agent_key,
                writer,
                again,
                after,
                id2,
                now2,
            ).0 matches Ok(Written::Pending(_)))
        }),
{
    let l = w.library;
    let k = (former.id, agent_key);
    assert(l.bindings[k].server_id == k.0 && l.bindings[k].agent_key == k.1);
}

/// After a definition was written to an agent, the file reads back as an entry, the ledger has
/// exactly one binding of the definition and the agent, with the fingerprint of that entry, and
/// every other binding, every definition and every other file is as it was. Only a binding that
/// had the id of the new one before gives way to it.
pub proof fn law_write_settles_one_binding(
    former: Server,
    s: Server,
    agent_key: Seq<char>,
    writer: AgentWriter,
    approved: Option<Seq<char>>,
    w: World,
    id: Seq<char>,
    now: i64,
)
    ensures
        ({
            let pair = (s.id, agent_key);
            let (r, after) = performed(
                Job::Write(WriteOp::Upsert),
                former,
                s,
                agent_key,
                writer,
                approved,
                w,
                id,
                now,
            );
            let fresh = forall|k: (Seq<char>, Seq<char>)| #[trigger]
                w.library.bindings.contains_key(k) && k != pair ==> w.library.bindings[k].id != id;
            r == Ok::<Written, Failure>(Written::Applied) ==> {
                &&& text_in(after, agent_key) matches Some(text) && writer.entry_in(text, s.name) matches Ok(
                    Some(entry),
                ) && after.library.bindings.contains_key(pair)
                    && after.library.bindings[pair].fingerprint == fingerprint(entry)
                &&& forall|k: (Seq<char>, Seq<char>)|
                    k != pair ==> (#[trigger] after.library.bindings.contains_key(k) <==> (
                    w.library.bindings.contains_key(k) && w.library.bindings[k].id != id))
                &&& forall|k: (Seq<char>, Seq<char>)|
                    k != pair && #[trigger] after.library.bindings.contains_key(k)
                        ==> after.library.bindings[k] == w.library.bindings[k]
                &&& fresh ==> after.library.bindings.remove(pair) == w.library.bindings.remove(pair)
                &&& after.library.servers == w.library.servers
                &&& after.files.remove(agent_key) == w.files.remove(agent_key)
            }
        }),
{
    let pair = (s.id, agent_key);
    let after = performed(
        Job::Write(WriteOp::Upsert),
        former,
        s,
        agent_key,
        writer,
        approved,
        w,
        id,
        now,
    ).1;
    assert(after.files.remove(agent_key) =~= w.files.remove(agent_key));
    if forall|k: (Seq<char>, Seq<char>)| #[trigger]
        w.library.bindings.contains_key(k) && k != pair ==> w.library.bindings[k].id != id {
        assert(after.library.bindings.remove(pair) =~= w.library.bindings.remove(pair));
    }
}

// ── whole operations ──

/// While a rename still asks, nothing in the library changes, and it turns to writing only when
/// no agent is waiting for a confirmation.
pub proof fn law_rename_asks_first(f: Fleet, l: Library, outcome: Result<Written, Failure>, now: i64)
    requires
        f.mode == Mode::Rename,
        f.gating,
        f.over is None,
        0 <= f.at < f.agents.len(),
    ensures
        stepped(f, l, outcome, now).1 == l,
        stepped(f, l, outcome, now).0.over is None && !stepped(f, l, outcome, now).0.gating
            ==> f.pending.len() == 0 && outcome == Ok::<Written, Failure>(Written::Applied),
{
}

/// What holds of every rename under way: none has taken it while it asks, and while it writes,
/// exactly the agents before the next one have, with none waiting.
pub open spec fn rename_in_order(f: Fleet) -> bool {
    &&& f.mode == Mode::Rename
    &&& 0 <= f.at <= f.agents.len()
    &&& f.gating ==> f.applied.len() == 0
    &&& !f.gating && f.over is None ==> f.pending.len() == 0 && f.applied == f.agents.take(f.at)
}

/// A rename stays in order, and it is recorded in the library only by the step after which
/// every agent has taken it.
pub proof fn law_rename_commits_last(
    f: Fleet,
    l: Library,
    outcome: Result<Written, Failure>,
    now: i64,
)
    requires
        rename_in_order(f),
    ensures
        rename_in_order(stepped(f, l, outcome, now).0),
        stepped(f, l, outcome, now).1 != l ==> stepped(f, l, outcome, now).0.over == Some(
            Ok::<(), Failure>(()),
        ) && stepped(f, l, outcome, now).0.applied == f.agents && f.pending.len() == 0,
{
    let next = stepped(f, l, outcome, now).0;
    if f.over is None && f.at < f.agents.len() {
        assert(f.agents.take(f.at + 1) =~= f.agents.take(f.at).push(f.agents[f.at]));
        if f.at + 1 == f.agents.len() {
            assert(f.agents.take(f.at + 1) =~= f.agents);
        }
        assert(f.agents.take(0) =~= Seq::<Seq<char>>::empty());
        assert(f.applied.len() == 0 ==> f.applied =~= Seq::<Seq<char>>::empty());
    }
}

/// A deletion takes the definition out of the library only when no agent is waiting for a
/// confirmation; while one is, the definition and its bindings stay.
pub proof fn law_delete_waits_for_confirmation(
    f: Fleet,
    l: Library,
    outcome: Result<Written, Failure>,
    now: i64,
)
    requires
        f.mode == Mode::Delete,
    ensures
        stepped(f, l, outcome, now).1 != l ==> {
            &&& stepped(f, l, outcome, now).0.pending.len() == 0
            &&& stepped(f, l, outcome, now).1 == deleted(l, f.record.id).1
        },
        f.over is None && f.at + 1 == f.agents.len() && 0 <= f.at && (f.pending.len() > 0
            || outcome matches Ok(Written::Pending(_))) && outcome is Ok ==> stepped(
            f,
            l,
            outcome,
            now,
        ).0.over == Some(Ok::<(), Failure>(())) && stepped(f, l, outcome, now).1 == l,
{
}

/// An edit that changes nothing leaves the revision, so that a confirmation that was asked for
/// it still counts.
pub proof fn law_unchanged_edit_keeps_the_revision(
    l: Library,
    id: Seq<char>,
    entry: EntryDef,
    source: JsonTree,
    agents: Seq<Seq<char>>,
    approved: Option<Seq<char>>,
    now: i64,
)
    requires
        l.servers.contains_key(id),
        edited(l.servers[id], entry.name, entry, source) == l.servers[id],
    ensures
        edit_begun(l, id, entry, entry.name, Ok(source), agents, approved, now).1 == l,
        edit_begun(l, id, entry, entry.name, Ok(source), agents, approved, now).0 matches Ok(f)
            ==> f.record == l.servers[id],
{
}

/// The agents that are still to be turned to.
pub open spec fn steps_left(f: Fleet) -> int {
    (if f.gating {
        f.agents.len() as int
    } else {
        0
    }) + f.agents.len() - f.at
}

/// A run led on by the job of its next agent.
#[verifier::opaque]
pub open spec fn advanced(
    f: Fleet,
    writers: spec_fn(Seq<char>) -> AgentWriter,
    w: World,
    id: Seq<char>,
    now: i64,
) -> (Fleet, World) {
    match next_job_of(f) {
        None => (f, w),
        Some(job) => {
            let (r, reached) = performed(
                job,
                f.former,
                f.record,
                f.agents[f.at],
                writers(f.agents[f.at]),
                f.approved,
                w,
                id,
                now,
            );
            let (next, l) = stepped(f, reached.library, r, now);
            (next, World { library: l, ..reached })
        },
    }
}

/// A run carried through in a world, agent by agent.
pub open spec fn carried(
    f: Fleet,
    writers: spec_fn(Seq<char>) -> AgentWriter,
    w: World,
    id: Seq<char>,
    now: i64,
) -> (Fleet, World)
    decreases steps_left(f),
    when f.at <= f.agents.len()
{
    if next_job_of(f) is None {
        (f, w)
    } else {
        let (next, v) = advanced(f, writers, w, id, now);
        if 0 <= steps_left(next) < steps_left(f) {
            carried(next, writers, v, id, now)
        } else {
            (next, v)
        }
    }
}

/// A rename that some agent has to confirm first ends where it began: no file and nothing in
/// the library has changed, in any agent.
pub proof fn law_declined_rename_changes_nothing(
    f: Fleet,
    writers: spec_fn(Seq<char>) -> AgentWriter,
    w: World,
    id: Seq<char>,
    now: i64,
)
    requires
        rename_in_order(f),
        f.gating,
        carried(f, writers, w, id, now).0.gating,
    ensures
        carried(f, writers, w, id, now).1 == w,
    decreases steps_left(f),
{
    reveal(advanced);
    if next_job_of(f) is Some {
        let job = Job::Gate;
        let (r, reached) = performed(
            job,
            f.former,
            f.record,
            f.agents[f.at],
            writers(f.agents[f.at]),
            f.approved,
            w,
            id,
            now,
        );
        law_asking_touches_nothing(
            f.former,
            f.record,
            f.agents[f.at],
            writers(f.agents[f.at]),
            f.approved,
            w,
            id,
            now,
        );
        law_rename_asks_first(f, reached.library, r, now);
        law_rename_commits_last(f, reached.library, r, now);
        let (next, l) = stepped(f, reached.library, r, now);
        let v = World { library: l, ..reached };
        assert(v =~= w);
        if 0 <= steps_left(next) < steps_left(f) {
            if next.gating {
                law_declined_rename_changes_nothing(next, writers, v, id, now);
            } else {
                lemma_writing_stays(next, writers, v, id, now);
            }
        }
    }
}

// A rename that has begun to write does not go back to asking.
proof fn lemma_writing_stays(
    f: Fleet,
    writers: spec_fn(Seq<char>) -> AgentWriter,
    w: World,
    id: Seq<char>,
    now: i64,
)
    requires
        rename_in_order(f),
        !f.gating,
    ensures
        !carried(f, writers, w, id, now).0.gating,
    decreases steps_left(f),
{
    reveal(advanced);
    if next_job_of(f) is Some {
        let (r, reached) = performed(
            Job::Rename,
            f.former,
            f.record,
            f.agents[f.at],
            writers(f.agents[f.at]),
            f.approved,
            w,
            id,
            now,
        );
        law_rename_commits_last(f, reached.library, r, now);
        let (next, l) = stepped(f, reached.library, r, now);
        if 0 <= steps_left(next) < steps_left(f) {
            lemma_writing_stays(next, writers, World { library: l, ..reached }, id, now);
        }
    }
}

/// A definition that passes validation has no line feed in any scalar, so that no value can open
/// a block of its own in an agent's file.
pub proof fn law_validated_entries_render_to_one_block(e: EntryDef)
    requires
        scalars_checked(e) is Ok,
    ensures
        flat_entry(e),
        next_item(lines_of(block_text(seq![e])), 1) == lines_of(block_text(seq![e])).len(),
{
    reveal_strlit("stdio");
    reveal_strlit("http");
    reveal_strlit("streamable-http");
    assert(unsafe_fields(e).len() == 0);
    assert forall|s: Seq<char>| !unsafe_text(s) implies #[trigger] flat(s) by {
        assert forall|i: int| 0 <= i < s.len() implies #[trigger] s[i] != '\n' by {
            assert(!is_control(s[i]) || s[i] == '\t');
        }
    }
    assert forall|i: int| 0 <= i < e.args.len() implies flat(#[trigger] e.args[i]) by {
        assert(!unsafe_text(e.args[i]));
    }
    assert forall|i: int| 0 <= i < e.env.len() implies flat((#[trigger] e.env[i]).0) && flat(
        e.env[i].1,
    ) by {
        assert(!unsafe_text(e.env[i].0) && !unsafe_text(e.env[i].1));
    }
    assert(flat(e.name) && flat(e.transport));
    law_rendered_block_is_one_block(seq![e]);
}

/// A clone that fails leaves no trace of the addition or the edit that asked for it.
pub proof fn law_failed_clone_changes_nothing(
    l: Library,
    id: Seq<char>,
    entry: EntryDef,
    name: Seq<char>,
    e: Failure,
    agents: Seq<Seq<char>>,
    approved: Option<Seq<char>>,
    now: i64,
)
    ensures
        addition_begun(l, entry, name, Err(e), agents, id, now) == (Err::<Fleet, Failure>(e), l),
        edit_begun(l, id, entry, name, Err(e), agents, approved, now) == (
            Err::<Fleet, Failure>(e),
            l,
        ),
{
}

/// A rename records nothing when it begins, as long as the definition is bound anywhere.
pub proof fn law_rename_begins_without_a_change(
    l: Library,
    id: Seq<char>,
    entry: EntryDef,
    name: Seq<char>,
    prepared: Result<JsonTree, Failure>,
    agents: Seq<Seq<char>>,
    approved: Option<Seq<char>>,
    now: i64,
)
    requires
        l.servers.contains_key(id),
        name != l.servers[id].name,
        agents.len() > 0,
    ensures
        edit_begun(l, id, entry, name, prepared, agents, approved, now).1 == l,
        edit_begun(l, id, entry, name, prepared, agents, approved, now).0 matches Ok(f)
            ==> rename_in_order(f) && f.gating,
{
}

} // verus!
