//! An edit that an agent has to confirm goes through when it is tried again with the token that
//! was asked for.

use vstd::prelude::*;
use crate::error::Failure;
use crate::json::JsonTree;
use crate::mcp_library::{entry_of, live_fingerprint, Drift, Written};
use crate::mcp_library::content_laws::law_edit_holds_the_entry;
use crate::mcp_library::funnel::{ledger_fingerprint, opened, write_plan, Plan, WriteOp};
use crate::mcp_library::jobs::Job;
use crate::mcp_library::laws::{
    file_of, law_pending_touches_nothing, law_written_is_in_sync, performed, text_in, World,
};
use crate::mcp_library::runs::{edit_begun, edited, next_job_of, stepped, Fleet, Mode};
use crate::mcp_store::{valid, Library, Server};
use crate::mcp_writers::{AgentWriter, EntryDef, McpWriter, WriteError};
use crate::mcp_writers::opencode_json::{opencode_entry_in, opencode_upserted, OpenCodeWriter};
use crate::mcp_writers::opencode_laws::{
    law_seed_has_no_entry, law_upsert_again_changes_nothing, lemma_upsert_reads_back, renders,
};

verus! {

/// A run of an edit carried through, agent by agent. `ids` gives the binding of each agent its id.
pub open spec fn edit_carried(
    f: Fleet,
    writers: spec_fn(Seq<char>) -> AgentWriter,
    ids: spec_fn(Seq<char>) -> Seq<char>,
    w: World,
    now: i64,
) -> (Fleet, World)
    decreases f.agents.len() - f.at,
{
    if next_job_of(f) is None {
        (f, w)
    } else {
        let (next, v) = edit_advanced(f, writers, ids, w, now);
        if next.agents == f.agents && next.at == f.at + 1 {
            edit_carried(next, writers, ids, v, now)
        } else {
            (next, v)
        }
    }
}

/// What the job of an edit's next agent comes to.
pub open spec fn edit_performed(
    f: Fleet,
    writers: spec_fn(Seq<char>) -> AgentWriter,
    ids: spec_fn(Seq<char>) -> Seq<char>,
    w: World,
    now: i64,
) -> (Result<Written, Failure>, World) {
    let agent = f.agents[f.at];
    performed(
        Job::Write(WriteOp::Upsert),
        f.former,
        f.record,
        agent,
        writers(agent),
        f.approved,
        w,
        ids(agent),
        now,
    )
}

/// A run of an edit led on by the job of its next agent.
#[verifier::opaque]
pub open spec fn edit_advanced(
    f: Fleet,
    writers: spec_fn(Seq<char>) -> AgentWriter,
    ids: spec_fn(Seq<char>) -> Seq<char>,
    w: World,
    now: i64,
) -> (Fleet, World) {
    let (r, reached) = edit_performed(f, writers, ids, w, now);
    let (next, l) = stepped(f, reached.library, r, now);
    (next, World { library: l, ..reached })
}

/// No agent twice, an id for each, and none of these ids on the binding of anything else.
pub open spec fn own_ids(
    l: Library,
    server: Seq<char>,
    agents: Seq<Seq<char>>,
    ids: spec_fn(Seq<char>) -> Seq<char>,
) -> bool {
    &&& forall|i: int, j: int|
        0 <= i < j < agents.len() ==> #[trigger] agents[i] != #[trigger] agents[j] && ids(agents[i])
            != ids(agents[j])
    &&& forall|k: (Seq<char>, Seq<char>), i: int|
        0 <= i < agents.len() && #[trigger] l.bindings.contains_key(k) && l.bindings[k].id == ids(
            #[trigger] agents[i],
        ) ==> k == (server, agents[i])
}

/// The plan of a write of a definition to an agent, in a world.
pub open spec fn plan_in(
    w: World,
    s: Server,
    agent: Seq<char>,
    writer: AgentWriter,
    approved: Option<Seq<char>>,
) -> Result<Plan, Failure> {
    write_plan(
        s,
        agent,
        writer,
        WriteOp::Upsert,
        approved,
        ledger_fingerprint(w.library, s.id, agent),
        file_of(w, agent),
    )
}

/// Whether a write asks for nothing, whatever was confirmed.
pub open spec fn quiet(w: World, s: Server, agent: Seq<char>, writer: AgentWriter) -> bool {
    forall|approved: Option<Seq<char>>|
        !(#[trigger] plan_in(w, s, agent, writer, approved) matches Ok(Plan::Pending(_)))
}

/// Whether a writer takes a text that it has written an entry to again, as it is and with the
/// entry in it.
#[verifier::opaque]
pub open spec fn takes_again(writer: AgentWriter, entry: EntryDef) -> bool {
    forall|text: Seq<char>|
        match #[trigger] writer.upserted(text, entry) {
            Ok(new) => writer.upserted(new, entry) == Ok::<Seq<char>, WriteError>(new)
                && writer.entry_in(new, entry.name) matches Ok(Some(_)),
            Err(_) => true,
        }
}

/// Whether every agent's writer takes its own text again, and OpenCode's own agent has
/// OpenCode's.
pub open spec fn all_take_again(
    agents: Seq<Seq<char>>,
    writers: spec_fn(Seq<char>) -> AgentWriter,
    entry: EntryDef,
) -> bool {
    forall|j: int|
        0 <= j < agents.len() ==> takes_again(writers(#[trigger] agents[j]), entry) && (agents[j]
            == "opencode"@ ==> writers(agents[j]) is OpenCode)
}

/// OpenCode's writer takes its own text again, with every definition that has been rendered.
pub proof fn law_opencode_takes_again(writer: OpenCodeWriter, entry: EntryDef)
    requires
        renders(entry),
    ensures
        takes_again(AgentWriter::OpenCode(writer), entry),
{
    reveal(takes_again);
    let w = AgentWriter::OpenCode(writer);
    assert forall|text: Seq<char>|
        match #[trigger] w.upserted(text, entry) {
            Ok(new) => w.upserted(new, entry) == Ok::<Seq<char>, WriteError>(new) && w.entry_in(
                new,
                entry.name,
            ) matches Ok(Some(_)),
            Err(_) => true,
        } by {
        if let Ok(new) = opencode_upserted(text, entry) {
            law_upsert_again_changes_nothing(text, new, entry);
            lemma_upsert_reads_back(text, new, entry, entry.name);
        }
    }
}

/// Whether an agent's file holds a definition as its writer writes it, and the ledger says so.
pub open spec fn at_rest(w: World, s: Server, agent: Seq<char>, writer: AgentWriter) -> bool {
    text_in(w, agent) matches Some(text) && {
        &&& writer.upserted(text, entry_of(s)) == Ok::<Seq<char>, WriteError>(text)
        &&& live_fingerprint(writer, text, s.name) is Some
        &&& ledger_fingerprint(w.library, s.id, agent) == live_fingerprint(writer, text, s.name)
    }
}

/// How an agent stands that has taken a definition.
pub open spec fn taken(w: World, s: Server, agent: Seq<char>, writer: AgentWriter) -> bool {
    quiet(w, s, agent, writer) && (takes_again(writer, entry_of(s)) ==> at_rest(w, s, agent, writer))
}

/// Whether a write waits for the confirmation of `drift`.
pub open spec fn waits(
    w: World,
    s: Server,
    agent: Seq<char>,
    writer: AgentWriter,
    approved: Option<Seq<char>>,
    drift: Drift,
) -> bool {
    plan_in(w, s, agent, writer, approved) == Ok::<Plan, Failure>(Plan::Pending(drift))
}

/// What of a world a write to an agent depends on.
pub open spec fn same_for(v: World, w: World, server: Seq<char>, agent: Seq<char>) -> bool {
    &&& file_of(v, agent) == file_of(w, agent)
    &&& ledger_fingerprint(v.library, server, agent) == ledger_fingerprint(w.library, server, agent)
}

/// A run of an edit that is not stopped.
pub open spec fn editing(f: Fleet) -> bool {
    f.mode == Mode::Edit && !f.gating && 0 <= f.at <= f.agents.len() && (f.over is None ==> f.at
        < f.agents.len())
}

pub open spec fn went_through(f: Fleet) -> bool {
    f.over == Some(Ok::<(), Failure>(()))
}

// One job of an edit touches nothing of the other agents.
proof fn lemma_job_is_local(
    f: Fleet,
    writers: spec_fn(Seq<char>) -> AgentWriter,
    ids: spec_fn(Seq<char>) -> Seq<char>,
    w: World,
    now: i64,
)
    requires
        editing(f),
        f.over is None,
        own_ids(w.library, f.record.id, f.agents, ids),
    ensures
        ({
            let v = edit_performed(f, writers, ids, w, now).1;
            &&& own_ids(v.library, f.record.id, f.agents, ids)
            &&& v.library.servers == w.library.servers
            &&& forall|j: int|
                0 <= j < f.agents.len() && j != f.at ==> same_for(
                    v,
                    w,
                    f.record.id,
                    #[trigger] f.agents[j],
                )
        }),
{
    let v = edit_performed(f, writers, ids, w, now).1;
    let agent = f.agents[f.at];
    let pair = (f.record.id, agent);
    assert forall|j: int| 0 <= j < f.agents.len() && j != f.at implies same_for(
        v,
        w,
        f.record.id,
        #[trigger] f.agents[j],
    ) by {
        let other = (f.record.id, f.agents[j]);
        if j < f.at {
            assert(f.agents[j] != f.agents[f.at]);
        } else {
            assert(f.agents[f.at] != f.agents[j]);
        }
        assert(other != pair);
        if w.library.bindings.contains_key(other) {
            assert(w.library.bindings[other].id != ids(agent));
        }
    }
    assert forall|k: (Seq<char>, Seq<char>), i: int|
        0 <= i < f.agents.len() && #[trigger] v.library.bindings.contains_key(k)
            && v.library.bindings[k].id == ids(#[trigger] f.agents[i]) implies k == (
        f.record.id,
        f.agents[i],
    ) by {
        if k == pair && i != f.at && v.library.bindings[k].id == ids(agent) {
            if i < f.at {
                assert(ids(f.agents[i]) != ids(f.agents[f.at]));
            } else {
                assert(ids(f.agents[f.at]) != ids(f.agents[i]));
            }
        } else if w.library.bindings.contains_key(k) {
        }
    }
}

// What a job of an edit says of the agent's next write.
proof fn lemma_job_answers(
    f: Fleet,
    writers: spec_fn(Seq<char>) -> AgentWriter,
    ids: spec_fn(Seq<char>) -> Seq<char>,
    w: World,
    now: i64,
)
    requires
        editing(f),
        f.over is None,
    ensures
        ({
            let agent = f.agents[f.at];
            let (r, v) = edit_performed(f, writers, ids, w, now);
            &&& r == Ok::<Written, Failure>(Written::Applied) ==> taken(
                v,
                f.record,
                agent,
                writers(agent),
            )
            &&& r matches Ok(Written::Pending(drift)) ==> v == w && waits(
                w,
                f.record,
                agent,
                writers(agent),
                f.approved,
                drift,
            )
            &&& forall|drift: Drift|
                r == Ok::<Written, Failure>(Written::Pending(drift)) <==> #[trigger] waits(
                    w,
                    f.record,
                    agent,
                    writers(agent),
                    f.approved,
                    drift,
                )
        }),
{
    let agent = f.agents[f.at];
    law_pending_touches_nothing(
        Job::Write(WriteOp::Upsert),
        f.former,
        f.record,
        agent,
        writers(agent),
        f.approved,
        w,
        ids(agent),
        now,
    );
    law_written_is_in_sync(
        f.former,
        f.record,
        agent,
        writers(agent),
        f.approved,
        w,
        ids(agent),
        now,
    );
    reveal(takes_again);
}

// What is left of a step once its job has an outcome.
proof fn lemma_edit_step(
    f: Fleet,
    writers: spec_fn(Seq<char>) -> AgentWriter,
    ids: spec_fn(Seq<char>) -> Seq<char>,
    w: World,
    now: i64,
)
    requires
        editing(f),
        f.over is None,
    ensures
        ({
            let (r, reached) = edit_performed(f, writers, ids, w, now);
            let (next, v) = edit_advanced(f, writers, ids, w, now);
            let agent = f.agents[f.at];
            &&& v == reached
            &&& editing(next)
            &&& next.record == f.record && next.agents == f.agents && next.approved == f.approved
            &&& match r {
                Ok(Written::Applied) => next.at == f.at + 1 && next.applied == f.applied.push(agent)
                    && next.pending == f.pending,
                Ok(Written::Pending(drift)) => next.at == f.at + 1 && next.applied == f.applied
                    && next.pending == f.pending.push(drift),
                Err(_) => next.at == f.at && next.applied == f.applied && next.pending == f.pending,
            }
            &&& r is Err ==> next.over is Some && !went_through(next)
            &&& r is Ok ==> (next.over is Some <==> next.at == next.agents.len())
            &&& next.over is Some && r is Ok ==> went_through(next)
        }),
{
    reveal(edit_advanced);
    let (r, reached) = edit_performed(f, writers, ids, w, now);
    let (next, l) = stepped(f, reached.library, r, now);
    assert(World { library: l, ..reached } =~= reached);
}

/// After an edit that went through, each of its agents either waits for one of the confirmations
/// that the edit asks for, or takes the definition again without asking.
pub proof fn law_edit_leaves_agents_quiet_or_waiting(
    f: Fleet,
    writers: spec_fn(Seq<char>) -> AgentWriter,
    ids: spec_fn(Seq<char>) -> Seq<char>,
    w: World,
    now: i64,
)
    requires
        editing(f),
        own_ids(w.library, f.record.id, f.agents, ids),
    ensures
        ({
            let (end, after) = edit_carried(f, writers, ids, w, now);
            &&& end.record == f.record
            &&& after.library.servers == w.library.servers
            &&& own_ids(after.library, f.record.id, f.agents, ids)
            &&& forall|j: int|
                0 <= j < f.at ==> same_for(after, w, f.record.id, #[trigger] f.agents[j])
            &&& forall|d: Drift| f.pending.contains(d) ==> end.pending.contains(d)
            &&& went_through(end) && f.over is None ==> forall|j: int|
                f.at <= j < f.agents.len() ==> answered(
                    after,
                    f.record,
                    #[trigger] f.agents[j],
                    writers,
                    f.approved,
                    end.pending,
                )
        }),
    decreases f.agents.len() - f.at,
{
    if f.over is None {
        lemma_job_is_local(f, writers, ids, w, now);
        lemma_job_answers(f, writers, ids, w, now);
        lemma_edit_step(f, writers, ids, w, now);
        let r = edit_performed(f, writers, ids, w, now).0;
        let (next, v) = edit_advanced(f, writers, ids, w, now);
        let (end, after) = edit_carried(f, writers, ids, w, now);
        if r is Ok {
            law_edit_leaves_agents_quiet_or_waiting(next, writers, ids, v, now);
            let agent = f.agents[f.at];
            assert(same_for(after, v, f.record.id, next.agents[f.at]));
            assert forall|d: Drift| f.pending.contains(d) implies end.pending.contains(d) by {
                let i = choose|i: int| 0 <= i < f.pending.len() && f.pending[i] == d;
                assert(next.pending[i] == d);
                assert(next.pending.contains(d));
            }
            if let Ok(Written::Pending(drift)) = r {
                assert(next.pending[f.pending.len() as int] == drift);
                assert(next.pending.contains(drift));
                assert(waits(after, f.record, agent, writers(agent), f.approved, drift));
            } else {
                lemma_taken_kept(after, v, f.record, agent, writers(agent));
            }
            assert forall|j: int| 0 <= j < f.at implies same_for(
                after,
                w,
                f.record.id,
                #[trigger] f.agents[j],
            ) by {
                assert(same_for(after, v, f.record.id, next.agents[j]));
                assert(same_for(v, w, f.record.id, f.agents[j]));
            }
        } else {
            assert((end, after) == (next, v));
            assert forall|j: int| 0 <= j < f.at implies same_for(
                after,
                w,
                f.record.id,
                #[trigger] f.agents[j],
            ) by {
                assert(same_for(v, w, f.record.id, f.agents[j]));
            }
        }
    }
}

/// How an agent stands after an edit that went through.
pub open spec fn answered(
    w: World,
    s: Server,
    agent: Seq<char>,
    writers: spec_fn(Seq<char>) -> AgentWriter,
    approved: Option<Seq<char>>,
    pending: Seq<Drift>,
) -> bool {
    ||| taken(w, s, agent, writers(agent))
    ||| exists|drift: Drift| #[trigger]
        waits(w, s, agent, writers(agent), approved, drift) && pending.contains(drift)
}

proof fn lemma_taken_kept(v: World, w: World, s: Server, agent: Seq<char>, writer: AgentWriter)
    requires
        same_for(v, w, s.id, agent),
        taken(w, s, agent, writer),
    ensures
        taken(v, s, agent, writer),
{
    assert forall|approved: Option<Seq<char>>|
        !(#[trigger] plan_in(v, s, agent, writer, approved) matches Ok(Plan::Pending(_))) by {
        assert(plan_in(v, s, agent, writer, approved) == plan_in(w, s, agent, writer, approved));
    }
}

// A write that waits for a confirmation goes ahead with it, and installs the text that was shown.
proof fn lemma_confirmed(
    f: Fleet,
    writers: spec_fn(Seq<char>) -> AgentWriter,
    ids: spec_fn(Seq<char>) -> Seq<char>,
    w: World,
    now: i64,
    asked: Option<Seq<char>>,
    drift: Drift,
)
    requires
        editing(f),
        f.over is None,
        f.approved == Some(drift.token),
        waits(w, f.record, f.agents[f.at], writers(f.agents[f.at]), asked, drift),
    ensures
        ({
            let (r, v) = edit_performed(f, writers, ids, w, now);
            &&& !(r matches Ok(Written::Pending(_)))
            &&& r is Ok ==> text_in(v, f.agents[f.at]) == Some(drift.planned_text)
            &&& w.library.servers.contains_key(f.record.id) && all_take_again(
                f.agents,
                writers,
                entry_of(f.record),
            ) ==> r == Ok::<Written, Failure>(Written::Applied)
        }),
{
    let agent = f.agents[f.at];
    if all_take_again(f.agents, writers, entry_of(f.record)) {
        reveal(takes_again);
        assert(takes_again(writers(agent), entry_of(f.record)));
        law_seed_has_no_entry(f.record.name);
    }
}

// A write to an agent that has taken the definition goes ahead.
proof fn lemma_taken_again(
    f: Fleet,
    writers: spec_fn(Seq<char>) -> AgentWriter,
    ids: spec_fn(Seq<char>) -> Seq<char>,
    w: World,
    now: i64,
)
    requires
        editing(f),
        f.over is None,
        w.library.servers.contains_key(f.record.id),
        at_rest(w, f.record, f.agents[f.at], writers(f.agents[f.at])),
    ensures
        edit_performed(f, writers, ids, w, now).0 == Ok::<Written, Failure>(Written::Applied),
{
}

/// An edit in which each agent takes the definition without asking, or waits for the confirmation
/// that is given, asks for nothing more. It goes through where the writers take their own text
/// again; and then all of its agents have taken it, and those that waited hold the text that was
/// shown.
pub proof fn law_confirmed_edit_reaches_every_agent(
    f: Fleet,
    writers: spec_fn(Seq<char>) -> AgentWriter,
    ids: spec_fn(Seq<char>) -> Seq<char>,
    w: World,
    now: i64,
    asked: Option<Seq<char>>,
    drift: Drift,
)
    requires
        editing(f),
        own_ids(w.library, f.record.id, f.agents, ids),
        f.approved == Some(drift.token),
        f.over is None ==> forall|j: int|
            f.at <= j < f.agents.len() ==> answered(
                w,
                f.record,
                #[trigger] f.agents[j],
                writers,
                asked,
                seq![drift],
            ),
    ensures
        ({
            let (end, after) = edit_carried(f, writers, ids, w, now);
            &&& end.pending == f.pending
            &&& after.library.servers == w.library.servers
            &&& forall|j: int|
                0 <= j < f.at ==> same_for(after, w, f.record.id, #[trigger] f.agents[j])
            &&& f.over is None && w.library.servers.contains_key(f.record.id) && all_take_again(
                f.agents,
                writers,
                entry_of(f.record),
            ) ==> went_through(end)
            &&& f.over is None && went_through(end) ==> {
                &&& end.applied == f.applied + f.agents.skip(f.at)
                &&& forall|j: int|
                    f.at <= j < f.agents.len() && waits(
                        w,
                        f.record,
                        #[trigger] f.agents[j],
                        writers(f.agents[j]),
                        asked,
                        drift,
                    ) ==> text_in(after, f.agents[j]) == Some(drift.planned_text)
            }
        }),
    decreases f.agents.len() - f.at,
{
    if f.over is None {
        lemma_job_is_local(f, writers, ids, w, now);
        lemma_job_answers(f, writers, ids, w, now);
        lemma_edit_step(f, writers, ids, w, now);
        let agent = f.agents[f.at];
        let r = edit_performed(f, writers, ids, w, now).0;
        let (next, v) = edit_advanced(f, writers, ids, w, now);
        let (end, after) = edit_carried(f, writers, ids, w, now);
        assert(answered(w, f.record, agent, writers, asked, seq![drift]));
        if taken(w, f.record, agent, writers(agent)) {
            if let Ok(Written::Pending(d)) = r {
                assert(plan_in(w, f.record, agent, writers(agent), f.approved) matches Ok(
                    Plan::Pending(_),
                ));
            }
        } else {
            let d = choose|d: Drift| #[trigger]
                waits(w, f.record, agent, writers(agent), asked, d) && seq![drift].contains(d);
            assert(d == drift);
        }
        if waits(w, f.record, agent, writers(agent), asked, drift) {
            lemma_confirmed(f, writers, ids, w, now, asked, drift);
        } else if w.library.servers.contains_key(f.record.id) && all_take_again(
            f.agents,
            writers,
            entry_of(f.record),
        ) {
            assert(takes_again(writers(agent), entry_of(f.record)));
            lemma_taken_again(f, writers, ids, w, now);
        }
        if r is Ok {
            assert forall|j: int| next.at <= j < next.agents.len() implies answered(
                v,
                next.record,
                #[trigger] next.agents[j],
                writers,
                asked,
                seq![drift],
            ) by {
                let a = f.agents[j];
                assert(same_for(v, w, f.record.id, f.agents[j]));
                assert(answered(w, f.record, f.agents[j], writers, asked, seq![drift]));
                if taken(w, f.record, a, writers(a)) {
                    lemma_taken_kept(v, w, f.record, a, writers(a));
                } else {
                    let d = choose|d: Drift| #[trigger]
                        waits(w, f.record, a, writers(a), asked, d) && seq![drift].contains(d);
                    assert(waits(v, f.record, a, writers(a), asked, d));
                }
            }
            law_confirmed_edit_reaches_every_agent(next, writers, ids, v, now, asked, drift);
            assert forall|j: int| 0 <= j < f.at implies same_for(
                after,
                w,
                f.record.id,
                #[trigger] f.agents[j],
            ) by {
                assert(same_for(after, v, f.record.id, next.agents[j]));
                assert(same_for(v, w, f.record.id, f.agents[j]));
            }
            assert(same_for(after, v, f.record.id, next.agents[f.at]));
            if went_through(end) {
                assert(f.applied + f.agents.skip(f.at) =~= f.applied.push(agent) + f.agents.skip(
                    f.at + 1,
                ));
                if next.over is Some {
                    assert(f.agents.skip(f.at + 1) =~= Seq::<Seq<char>>::empty());
                }
                assert forall|j: int|
                    f.at <= j < f.agents.len() && waits(
                        w,
                        f.record,
                        #[trigger] f.agents[j],
                        writers(f.agents[j]),
                        asked,
                        drift,
                    ) implies text_in(after, f.agents[j]) == Some(drift.planned_text) by {
                    if j > f.at {
                        assert(same_for(v, w, f.record.id, f.agents[j]));
                        assert(waits(
                            v,
                            f.record,
                            next.agents[j],
                            writers(next.agents[j]),
                            asked,
                            drift,
                        ));
                    }
                }
            }
        } else {
            assert((end, after) == (next, v));
            assert forall|j: int| 0 <= j < f.at implies same_for(
                after,
                w,
                f.record.id,
                #[trigger] f.agents[j],
            ) by {
                assert(same_for(v, w, f.record.id, f.agents[j]));
            }
        }
    }
}

/// An edit of a definition under its name, from its begin to its end.
pub open spec fn edit_made(
    w: World,
    server: Seq<char>,
    entry: EntryDef,
    source: JsonTree,
    agents: Seq<Seq<char>>,
    writers: spec_fn(Seq<char>) -> AgentWriter,
    ids: spec_fn(Seq<char>) -> Seq<char>,
    approved: Option<Seq<char>>,
    now: i64,
) -> Result<(Fleet, World), Failure> {
    match edit_begun(w.library, server, entry, entry.name, Ok(source), agents, approved, now) {
        (Err(e), _) => Err(e),
        (Ok(run), l) => Ok(edit_carried(run, writers, ids, World { library: l, ..w }, now)),
    }
}

/// An edit of which one agent asks for a confirmation, tried again with the same content and that
/// token: the revision has not moved in between, nothing waits any more, and where the writers
/// take their own text again the edit goes through. All agents have then taken it, and the one
/// that asked holds the text that was shown.
pub proof fn law_edit_retry_is_applied(
    w: World,
    server: Seq<char>,
    entry: EntryDef,
    source: JsonTree,
    agents: Seq<Seq<char>>,
    writers: spec_fn(Seq<char>) -> AgentWriter,
    ids: spec_fn(Seq<char>) -> Seq<char>,
    again_ids: spec_fn(Seq<char>) -> Seq<char>,
    approved: Option<Seq<char>>,
    now: i64,
    later: i64,
    first: Fleet,
    between: World,
    drift: Drift,
)
    requires
        w.library.servers.contains_key(server),
        w.library.servers[server].id == server,
        entry.name == w.library.servers[server].name,
        own_ids(w.library, server, agents, ids),
        own_ids(between.library, server, agents, again_ids),
        edit_made(w, server, entry, source, agents, writers, ids, approved, now) == Ok::<
            (Fleet, World),
            Failure,
        >((first, between)),
        went_through(first),
        first.pending == seq![drift],
    ensures
        edit_made(
            between,
            server,
            entry,
            source,
            agents,
            writers,
            again_ids,
            Some(drift.token),
            later,
        ) matches Ok((second, after)) && {
            &&& second.record == first.record
            &&& after.library.servers == between.library.servers
            &&& after.library.servers[server] == first.record
            &&& second.pending.len() == 0
            &&& all_take_again(agents, writers, entry_of(first.record)) ==> went_through(second)
            &&& went_through(second) ==> second.applied == agents
            &&& went_through(second) ==> forall|j: int|
                0 <= j < agents.len() && waits(
                    between,
                    first.record,
                    #[trigger] agents[j],
                    writers(agents[j]),
                    approved,
                    drift,
                ) ==> text_in(after, agents[j]) == Some(drift.planned_text)
        },
{
    let (begun, l) = edit_begun(
        w.library,
        server,
        entry,
        entry.name,
        Ok(source),
        agents,
        approved,
        now,
    );
    let run = begun->Ok_0;
    let v = World { library: l, ..w };
    let record = run.record;
    assert(l.servers[server] =~= record);
    assert(own_ids(l, server, agents, ids));
    if agents.len() > 0 {
        law_edit_leaves_agents_quiet_or_waiting(run, writers, ids, v, now);
    }
    assert(agents.len() > 0);
    assert(between.library.servers[server] == record);
    assert(edited(record, entry.name, entry, source) =~= record);
    let (again, l2) = edit_begun(
        between.library,
        server,
        entry,
        entry.name,
        Ok(source),
        agents,
        Some(drift.token),
        later,
    );
    let rerun = again->Ok_0;
    assert(rerun.record == record && rerun.agents == agents && rerun.over is None);
    assert(l2 == between.library);
    assert(World { library: l2, ..between } =~= between);
    law_confirmed_edit_reaches_every_agent(
        rerun,
        writers,
        again_ids,
        between,
        later,
        approved,
        drift,
    );
    lemma_record_kept(rerun, writers, again_ids, between, later);
    assert(agents.skip(0) =~= agents);
    assert(rerun.applied + agents =~= agents);
}

proof fn lemma_record_kept(
    f: Fleet,
    writers: spec_fn(Seq<char>) -> AgentWriter,
    ids: spec_fn(Seq<char>) -> Seq<char>,
    w: World,
    now: i64,
)
    requires
        editing(f),
        own_ids(w.library, f.record.id, f.agents, ids),
    ensures
        edit_carried(f, writers, ids, w, now).0.record == f.record,
{
    law_edit_leaves_agents_quiet_or_waiting(f, writers, ids, w, now);
}

/// In OpenCode's format a retry with the token that was asked for always goes through: every
/// agent has taken the definition, nothing waits, and the revision is that of the first attempt.
/// That the definition renders [`begin_job`] ensures of each one it hands out a text for.
///
/// [`begin_job`]: crate::mcp_library::jobs::begin_job
pub proof fn law_opencode_edit_retry_goes_through(
    w: World,
    server: Seq<char>,
    entry: EntryDef,
    source: JsonTree,
    agents: Seq<Seq<char>>,
    writers: spec_fn(Seq<char>) -> AgentWriter,
    ids: spec_fn(Seq<char>) -> Seq<char>,
    again_ids: spec_fn(Seq<char>) -> Seq<char>,
    approved: Option<Seq<char>>,
    now: i64,
    later: i64,
    first: Fleet,
    between: World,
    drift: Drift,
)
    requires
        w.library.servers.contains_key(server),
        w.library.servers[server].id == server,
        entry.name == w.library.servers[server].name,
        own_ids(w.library, server, agents, ids),
        own_ids(between.library, server, agents, again_ids),
        edit_made(w, server, entry, source, agents, writers, ids, approved, now) == Ok::<
            (Fleet, World),
            Failure,
        >((first, between)),
        went_through(first),
        first.pending == seq![drift],
        renders(entry_of(first.record)),
        forall|j: int| 0 <= j < agents.len() ==> writers(#[trigger] agents[j]) is OpenCode,
    ensures
        edit_made(
            between,
            server,
            entry,
            source,
            agents,
            writers,
            again_ids,
            Some(drift.token),
            later,
        ) matches Ok((second, after)) && {
            &&& went_through(second)
            &&& second.applied == agents
            &&& second.pending.len() == 0
            &&& after.library.servers[server] == first.record
        },
{
    let e = entry_of(first.record);
    assert forall|j: int| 0 <= j < agents.len() implies takes_again(
        writers(#[trigger] agents[j]),
        e,
    ) by {
        law_opencode_takes_again(writers(agents[j])->OpenCode_0, e);
    }
    law_edit_retry_is_applied(
        w,
        server,
        entry,
        source,
        agents,
        writers,
        ids,
        again_ids,
        approved,
        now,
        later,
        first,
        between,
        drift,
    );
}

// ── what the agents' files hold ──

/// Whether an agent's OpenCode file has a definition as it is: program, arguments and environment of
/// a local server, or the address of a remote one.
pub open spec fn file_has(w: World, agent: Seq<char>, s: Server) -> bool {
    text_in(w, agent) matches Some(text) && opencode_entry_in(text, s.name) matches Ok(Some(d)) && {
        &&& d.name == s.name
        &&& s.transport == "stdio"@ ==> {
            &&& d.transport == "stdio"@
            &&& s.command is Some ==> d.command == s.command && d.args == s.args
            &&& s.command is None && s.args.len() > 0 ==> d.command == Some(s.args[0]) && d.args
                == s.args.drop_first()
            &&& d.url is None
            &&& d.env == s.env
        }
        &&& s.transport != "stdio"@ ==> {
            &&& d.transport == "http"@
            &&& d.command is None && d.args.len() == 0
            &&& s.url is Some ==> d.url == s.url
        }
    }
}

/// A definition that was written to an OpenCode file is there as it is.
pub proof fn law_applied_write_is_in_the_file(
    former: Server,
    s: Server,
    agent: Seq<char>,
    writer: AgentWriter,
    approved: Option<Seq<char>>,
    w: World,
    id: Seq<char>,
    now: i64,
)
    requires
        writer is OpenCode,
        renders(entry_of(s)),
        performed(Job::Write(WriteOp::Upsert), former, s, agent, writer, approved, w, id, now).0
            == Ok::<Written, Failure>(Written::Applied),
    ensures
        file_has(
            performed(
                Job::Write(WriteOp::Upsert),
                former,
                s,
                agent,
                writer,
                approved,
                w,
                id,
                now,
            ).1,
            agent,
            s,
        ),
{
    let after = performed(
        Job::Write(WriteOp::Upsert),
        former,
        s,
        agent,
        writer,
        approved,
        w,
        id,
        now,
    ).1;
    let text = text_in(after, agent)->Some_0;
    let e = entry_of(s);
    let (before, existed) = opened(agent, file_of(w, agent))->Ok_0;
    assert(opencode_upserted(before, e) == Ok::<Seq<char>, WriteError>(text));
    lemma_upsert_reads_back(before, text, e, e.name);
    if s.command is Some {
        assert((seq![s.command->Some_0] + s.args).drop_first() =~= s.args);
    }
}

/// An edit that went through without a further question has reached every agent's file.
pub proof fn law_edit_reaches_every_file(
    f: Fleet,
    writers: spec_fn(Seq<char>) -> AgentWriter,
    ids: spec_fn(Seq<char>) -> Seq<char>,
    w: World,
    now: i64,
)
    requires
        editing(f),
        own_ids(w.library, f.record.id, f.agents, ids),
        renders(entry_of(f.record)),
        forall|j: int| 0 <= j < f.agents.len() ==> writers(#[trigger] f.agents[j]) is OpenCode,
    ensures
        ({
            let (end, after) = edit_carried(f, writers, ids, w, now);
            &&& end.pending.len() >= f.pending.len()
            &&& forall|j: int|
                0 <= j < f.at ==> same_for(after, w, f.record.id, #[trigger] f.agents[j])
            &&& went_through(end) && f.over is None && end.pending.len() == f.pending.len()
                ==> forall|j: int|
                f.at <= j < f.agents.len() ==> file_has(after, #[trigger] f.agents[j], f.record)
        }),
    decreases f.agents.len() - f.at,
{
    if f.over is None {
        lemma_job_is_local(f, writers, ids, w, now);
        lemma_edit_step(f, writers, ids, w, now);
        let agent = f.agents[f.at];
        let r = edit_performed(f, writers, ids, w, now).0;
        let (next, v) = edit_advanced(f, writers, ids, w, now);
        let (end, after) = edit_carried(f, writers, ids, w, now);
        assert(writers(agent) is OpenCode);
        if r is Ok {
            law_edit_reaches_every_file(next, writers, ids, v, now);
            assert(same_for(after, v, f.record.id, next.agents[f.at]));
            if r == Ok::<Written, Failure>(Written::Applied) {
                law_applied_write_is_in_the_file(
                    f.former,
                    f.record,
                    agent,
                    writers(agent),
                    f.approved,
                    w,
                    ids(agent),
                    now,
                );
            }
            assert forall|j: int| 0 <= j < f.at implies same_for(
                after,
                w,
                f.record.id,
                #[trigger] f.agents[j],
            ) by {
                assert(same_for(after, v, f.record.id, next.agents[j]));
                assert(same_for(v, w, f.record.id, f.agents[j]));
            }
            if went_through(end) && end.pending.len() == f.pending.len() {
                assert forall|j: int| f.at <= j < f.agents.len() implies file_has(
                    after,
                    #[trigger] f.agents[j],
                    f.record,
                ) by {
                    if j > f.at {
                        assert(file_has(after, next.agents[j], next.record));
                    }
                }
            }
        } else {
            assert((end, after) == (next, v));
            assert forall|j: int| 0 <= j < f.at implies same_for(
                after,
                w,
                f.record.id,
                #[trigger] f.agents[j],
            ) by {
                assert(same_for(v, w, f.record.id, f.agents[j]));
            }
        }
    }
}

/// After an edit that was made without a question, the library and every OpenCode file have what
/// was given: each field of the entry.
pub proof fn law_edit_is_carried_out(
    w: World,
    server: Seq<char>,
    entry: EntryDef,
    source: JsonTree,
    agents: Seq<Seq<char>>,
    writers: spec_fn(Seq<char>) -> AgentWriter,
    ids: spec_fn(Seq<char>) -> Seq<char>,
    approved: Option<Seq<char>>,
    now: i64,
    end: Fleet,
    after: World,
)
    requires
        valid(w.library),
        w.library.servers.contains_key(server),
        entry.name == w.library.servers[server].name,
        agents.len() > 0,
        own_ids(w.library, server, agents, ids),
        renders(entry),
        forall|j: int| 0 <= j < agents.len() ==> writers(#[trigger] agents[j]) is OpenCode,
        edit_made(w, server, entry, source, agents, writers, ids, approved, now) == Ok::<
            (Fleet, World),
            Failure,
        >((end, after)),
        went_through(end),
        end.pending.len() == 0,
    ensures
        ({
            let s = after.library.servers[server];
            &&& after.library.servers.contains_key(server)
            &&& s.name == entry.name
            &&& s.transport == entry.transport
            &&& s.command == entry.command
            &&& s.args == entry.args
            &&& s.url == entry.url
            &&& s.env == entry.env
            &&& s.source == source
            &&& forall|j: int| 0 <= j < agents.len() ==> file_has(after, #[trigger] agents[j], s)
        }),
{
    let (begun, l) = edit_begun(
        w.library,
        server,
        entry,
        entry.name,
        Ok(source),
        agents,
        approved,
        now,
    );
    law_edit_holds_the_entry(w.library, server, entry, entry.name, source, agents, approved, now);
    let run = begun->Ok_0;
    let v = World { library: l, ..w };
    assert(own_ids(l, server, agents, ids));
    assert(entry_of(run.record) =~= entry);
    law_edit_reaches_every_file(run, writers, ids, v, now);
    law_edit_leaves_agents_quiet_or_waiting(run, writers, ids, v, now);
}

} // verus!
