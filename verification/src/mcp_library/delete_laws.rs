//! What a deletion has done once it is over.

use vstd::prelude::*;
use crate::error::Failure;
use crate::mcp_library::{live_fingerprint, Written};
use crate::mcp_library::funnel::WriteOp;
use crate::mcp_library::jobs::Job;
use crate::mcp_library::laws::{advanced, carried, performed, steps_left, text_in, World};
use crate::mcp_library::rename_laws::finished;
use crate::mcp_library::runs::{stepped, Fleet, Mode};
use crate::mcp_writers::AgentWriter;

verus! {

/// An agent's file does not have the entry, if there is a file at all.
pub open spec fn gone_from(w: World, writer: AgentWriter, name: Seq<char>, agent: Seq<char>) -> bool {
    text_in(w, agent) matches Some(text) ==> live_fingerprint(writer, text, name) is None
}

// What holds between two jobs of a deletion with none waiting: the entry is gone from the agents
// before the next one.
spec fn removing(f: Fleet, writers: spec_fn(Seq<char>) -> AgentWriter, w: World, done: int) -> bool {
    &&& f.mode == Mode::Delete
    &&& !f.gating
    &&& f.agents.no_duplicates()
    &&& 0 <= f.at < f.agents.len()
    &&& f.over is None
    &&& forall|j: int|
        0 <= j < done ==> gone_from(
            w,
            writers(#[trigger] f.agents[j]),
            f.record.name,
            f.agents[j],
        )
}

/// The entry is gone from every agent, and the definition from the library.
pub open spec fn deleted_all(f: Fleet, writers: spec_fn(Seq<char>) -> AgentWriter, w: World) -> bool {
    &&& forall|j: int|
        0 <= j < f.agents.len() ==> gone_from(
            w,
            writers(#[trigger] f.agents[j]),
            f.record.name,
            f.agents[j],
        )
    &&& !w.library.servers.contains_key(f.record.id)
    &&& forall|agent: Seq<char>| !(#[trigger] w.library.bindings.contains_key((f.record.id, agent)))
}

proof fn lemma_removed(
    f: Fleet,
    agent: Seq<char>,
    writer: AgentWriter,
    w: World,
    id: Seq<char>,
    now: i64,
    other: Seq<char>,
)
    ensures
        ({
            let (r, v) = performed(
                Job::Write(WriteOp::Remove),
                f.former,
                f.record,
                agent,
                writer,
                f.approved,
                w,
                id,
                now,
            );
            &&& other != agent ==> text_in(v, other) == text_in(w, other)
            &&& r == Ok::<Written, Failure>(Written::Applied) ==> gone_from(
                v,
                writer,
                f.record.name,
                agent,
            )
        }),
{
}

// One step of a deletion.
proof fn lemma_step(
    f: Fleet,
    writers: spec_fn(Seq<char>) -> AgentWriter,
    w: World,
    id: Seq<char>,
    now: i64,
)
    requires
        removing(f, writers, w, f.at),
        f.pending.len() == 0,
    ensures
        ({
            let (next, v) = advanced(f, writers, w, id, now);
            &&& next.agents == f.agents && next.record == f.record && next.mode == f.mode
            &&& next.over is None ==> next.at == f.at + 1 && next.at < next.agents.len()
                && !next.gating
            &&& next.over is None && next.pending.len() == 0 ==> removing(next, writers, v, next.at)
            &&& finished(next) ==> deleted_all(f, writers, v)
        }),
{
    reveal(advanced);
    let agent = f.agents[f.at];
    let (r, reached) = performed(
        Job::Write(WriteOp::Remove),
        f.former,
        f.record,
        agent,
        writers(agent),
        f.approved,
        w,
        id,
        now,
    );
    let (next, l) = stepped(f, reached.library, r, now);
    let v = World { library: l, ..reached };
    assert forall|j: int| 0 <= j < f.agents.len() && (j < f.at || (j == f.at && r == Ok::<
        Written,
        Failure,
    >(Written::Applied))) implies gone_from(
        v,
        writers(#[trigger] f.agents[j]),
        f.record.name,
        f.agents[j],
    ) by {
        let other = f.agents[j];
        lemma_removed(f, agent, writers(agent), w, id, now, other);
        assert(text_in(v, other) == text_in(reached, other));
        if j < f.at {
            assert(gone_from(w, writers(other), f.record.name, other));
        }
    }
}

// A deletion that has someone waiting does not finish.
proof fn lemma_waiting(
    f: Fleet,
    writers: spec_fn(Seq<char>) -> AgentWriter,
    w: World,
    id: Seq<char>,
    now: i64,
)
    requires
        f.mode == Mode::Delete,
        !f.gating,
        f.over is None,
        0 <= f.at < f.agents.len(),
        f.pending.len() > 0,
    ensures
        !finished(carried(f, writers, w, id, now).0),
    decreases steps_left(f),
{
    let (next, v) = advanced(f, writers, w, id, now);
    assert(next.pending.len() > 0 && next.agents == f.agents && next.mode == f.mode && !next.gating
        && (next.over is None ==> next.at == f.at + 1 && next.at < next.agents.len())
        && next.at <= next.agents.len()) by {
        reveal(advanced);
    }
    if next.over is None {
        assert(0 <= steps_left(next) < steps_left(f));
        lemma_waiting(next, writers, v, id, now);
    } else if 0 <= steps_left(next) < steps_left(f) {
        assert(carried(next, writers, v, id, now) == (next, v));
    }
}

proof fn lemma_carried(
    f: Fleet,
    writers: spec_fn(Seq<char>) -> AgentWriter,
    w: World,
    id: Seq<char>,
    now: i64,
)
    requires
        removing(f, writers, w, f.at),
        f.pending.len() == 0,
    ensures
        finished(carried(f, writers, w, id, now).0) ==> deleted_all(
            f,
            writers,
            carried(f, writers, w, id, now).1,
        ),
    decreases steps_left(f),
{
    let (next, v) = advanced(f, writers, w, id, now);
    lemma_step(f, writers, w, id, now);
    assert(next.at <= next.agents.len()) by {
        reveal(advanced);
    }
    if next.over is None {
        assert(0 <= steps_left(next) < steps_left(f));
        if next.pending.len() == 0 {
            lemma_carried(next, writers, v, id, now);
            let end = carried(next, writers, v, id, now).1;
            assert(deleted_all(next, writers, end) ==> deleted_all(f, writers, end));
        } else {
            lemma_waiting(next, writers, v, id, now);
        }
        assert(carried(f, writers, w, id, now) == carried(next, writers, v, id, now));
    } else if 0 <= steps_left(next) < steps_left(f) {
        assert(carried(next, writers, v, id, now) == (next, v));
    }
}

/// A deletion that is over without an agent left to confirm has taken the entry out of every
/// agent's file, and the definition with its bindings out of the library.
pub proof fn law_finished_delete_is_gone(
    f: Fleet,
    writers: spec_fn(Seq<char>) -> AgentWriter,
    w: World,
    id: Seq<char>,
    now: i64,
)
    requires
        f.mode == Mode::Delete,
        !f.gating,
        f.over is None,
        f.at == 0,
        f.agents.len() > 0,
        f.agents.no_duplicates(),
        f.pending.len() == 0,
    ensures
        finished(carried(f, writers, w, id, now).0) ==> deleted_all(
            f,
            writers,
            carried(f, writers, w, id, now).1,
        ),
{
    lemma_carried(f, writers, w, id, now);
}

} // verus!
