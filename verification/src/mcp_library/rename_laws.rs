//! What a rename has done once it is over.

use vstd::prelude::*;
use crate::error::Failure;
use crate::mcp_library::{live_fingerprint, Written};
use crate::mcp_library::funnel::ledger_fingerprint;
use crate::mcp_library::jobs::Job;
use crate::mcp_library::laws::{
    advanced, carried, law_asking_touches_nothing, law_rename_asks_first, law_rename_commits_last,
    performed, rename_in_order, steps_left, text_in, World,
};
use crate::mcp_library::runs::{stepped, Fleet};
use crate::mcp_store::{bound_to, valid, Binding, Library, Server};
use crate::mcp_writers::AgentWriter;

verus! {

/// The ledger has the fingerprint of the entry that an agent's file reads under a name.
pub open spec fn in_sync(
    w: World,
    writer: AgentWriter,
    id: Seq<char>,
    name: Seq<char>,
    agent: Seq<char>,
) -> bool {
    match (text_in(w, agent), ledger_fingerprint(w.library, id, agent)) {
        (Some(text), Some(ledger)) => live_fingerprint(writer, text, name) == Some(ledger),
        _ => false,
    }
}

proof fn lemma_bound_valid(l: Library, b: Binding)
    requires
        valid(l),
        l.servers.contains_key(b.server_id),
    ensures
        valid(bound_to(l, b)),
{
    let after = bound_to(l, b);
    assert forall|j: (Seq<char>, Seq<char>), k: (Seq<char>, Seq<char>)|
        after.bindings.contains_key(j) && after.bindings.contains_key(k) && (
        #[trigger] after.bindings[j]).id == (#[trigger] after.bindings[k]).id implies j == k by {
        let p = (b.server_id, b.agent_key);
        if j != p && k != p {
            assert(l.bindings[j].id == l.bindings[k].id);
        }
    }
}

// A rename in one agent: the agent is in sync where it took it, every other agent is as it was,
// and the library stays valid.
proof fn lemma_renamed(
    former: Server,
    s: Server,
    agent: Seq<char>,
    writer: AgentWriter,
    approved: Option<Seq<char>>,
    w: World,
    id: Seq<char>,
    now: i64,
    other: Seq<char>,
)
    requires
        valid(w.library),
        former.id == s.id,
        text_in(w, agent) is Some,
    ensures
        ({
            let (r, after) = performed(Job::Rename, former, s, agent, writer, approved, w, id, now);
            &&& valid(after.library)
            &&& after.library.servers == w.library.servers
            &&& text_in(after, agent) is Some
            &&& other != agent ==> text_in(after, other) == text_in(w, other)
            &&& other != agent ==> ledger_fingerprint(after.library, s.id, other)
                == ledger_fingerprint(w.library, s.id, other)
            &&& r == Ok::<Written, Failure>(Written::Applied) ==> in_sync(
                after,
                writer,
                s.id,
                s.name,
                agent,
            )
        }),
{
    let l = w.library;
    let k = (former.id, agent);
    let o = (former.id, other);
    if l.bindings.contains_key(k) {
        let old_row = l.bindings[k];
        assert(old_row.server_id == k.0 && old_row.agent_key == k.1 && l.servers.contains_key(k.0));
        if l.bindings.contains_key(o) && o != k {
            assert(l.bindings[o].id != old_row.id);
        }
        let after = performed(
            Job::Rename,
            former,
            s,
            agent,
            writer,
            approved,
            w,
            id,
            now,
        ).1.library;
        if after != l {
            let row = after.bindings[k];
            assert(after == bound_to(l, row));
            lemma_bound_valid(l, row);
        }
    }
}

// What holds between two jobs of a rename: every agent has a file, and the first `done` of them
// are in sync.
spec fn on_the_way(
    f: Fleet,
    writers: spec_fn(Seq<char>) -> AgentWriter,
    w: World,
    done: int,
) -> bool {
    &&& rename_in_order(f)
    &&& f.former.id == f.record.id
    &&& f.agents.no_duplicates()
    &&& valid(w.library)
    &&& forall|j: int| 0 <= j < f.agents.len() ==> text_in(w, #[trigger] f.agents[j]) is Some
    &&& forall|j: int|
        0 <= j < done ==> in_sync(
            w,
            writers(#[trigger] f.agents[j]),
            f.record.id,
            f.record.name,
            f.agents[j],
        )
}

spec fn same_rename(f: Fleet, g: Fleet) -> bool {
    &&& g.agents == f.agents && g.former == f.former
    &&& g.record.id == f.record.id && g.record.name == f.record.name
}

// The world after the job of one agent, before the run is led on.
proof fn lemma_job_syncs(
    f: Fleet,
    writers: spec_fn(Seq<char>) -> AgentWriter,
    w: World,
    id: Seq<char>,
    now: i64,
)
    requires
        on_the_way(f, writers, w, f.at),
        f.at < f.agents.len(),
    ensures
        ({
            let agent = f.agents[f.at];
            let (r, v) = performed(
                Job::Rename,
                f.former,
                f.record,
                agent,
                writers(agent),
                f.approved,
                w,
                id,
                now,
            );
            &&& on_the_way(
                f,
                writers,
                v,
                if r == Ok::<Written, Failure>(Written::Applied) {
                    f.at + 1
                } else {
                    f.at
                },
            )
        }),
{
    let agent = f.agents[f.at];
    let (r, v) = performed(
        Job::Rename,
        f.former,
        f.record,
        agent,
        writers(agent),
        f.approved,
        w,
        id,
        now,
    );
    assert forall|j: int| 0 <= j < f.agents.len() implies text_in(v, #[trigger] f.agents[j]) is Some
        && (j < f.at ==> in_sync(
        v,
        writers(f.agents[j]),
        f.record.id,
        f.record.name,
        f.agents[j],
    )) by {
        let other = f.agents[j];
        lemma_renamed(f.former, f.record, agent, writers(agent), f.approved, w, id, now, other);
        if j < f.at {
            assert(in_sync(w, writers(other), f.record.id, f.record.name, other));
        }
    }
    lemma_renamed(f.former, f.record, agent, writers(agent), f.approved, w, id, now, agent);
}

// Recording a rename changes no binding and no file.
proof fn lemma_step_keeps(
    f: Fleet,
    writers: spec_fn(Seq<char>) -> AgentWriter,
    v: World,
    r: Result<Written, Failure>,
    now: i64,
    done: int,
)
    requires
        on_the_way(f, writers, v, done),
        !f.gating,
        f.over is None,
        0 <= done <= f.agents.len(),
        f.at < f.agents.len(),
        done == if r == Ok::<Written, Failure>(Written::Applied) {
            f.at + 1
        } else {
            f.at
        },
    ensures
        ({
            let (next, l) = stepped(f, v.library, r, now);
            let w = World { library: l, ..v };
            &&& same_rename(f, next) && rename_in_order(next)
            &&& !next.gating
            &&& next.over is None ==> on_the_way(next, writers, w, next.at) && next.at == f.at + 1
                && next.at < next.agents.len()
            &&& next.over == Some(Ok::<(), Failure>(())) && next.pending.len() == 0 ==> renamed_all(
                f,
                writers,
                w,
            )
        }),
{
    let (next, l) = stepped(f, v.library, r, now);
    let w = World { library: l, ..v };
    law_rename_commits_last(f, v.library, r, now);
    assert(l.bindings == v.library.bindings);
    assert forall|j: int| 0 <= j < f.agents.len() implies text_in(w, #[trigger] f.agents[j])
        == text_in(v, f.agents[j]) && ledger_fingerprint(w.library, f.record.id, f.agents[j])
        == ledger_fingerprint(v.library, f.record.id, f.agents[j]) by {}
    assert forall|j: int| 0 <= j < done implies in_sync(
        w,
        writers(#[trigger] f.agents[j]),
        f.record.id,
        f.record.name,
        f.agents[j],
    ) by {
        assert(in_sync(v, writers(f.agents[j]), f.record.id, f.record.name, f.agents[j]));
    }
}

/// Every agent is in sync under the new name, which is recorded.
pub open spec fn renamed_all(
    f: Fleet,
    writers: spec_fn(Seq<char>) -> AgentWriter,
    w: World,
) -> bool {
    &&& forall|j: int|
        0 <= j < f.agents.len() ==> in_sync(
            w,
            writers(#[trigger] f.agents[j]),
            f.record.id,
            f.record.name,
            f.agents[j],
        )
    &&& w.library.servers.contains_key(f.record.id)
    &&& w.library.servers[f.record.id].name == f.record.name
}

pub open spec fn finished(f: Fleet) -> bool {
    f.over == Some(Ok::<(), Failure>(())) && f.pending.len() == 0
}

// One step of the writing pass.
proof fn lemma_written(
    f: Fleet,
    writers: spec_fn(Seq<char>) -> AgentWriter,
    w: World,
    id: Seq<char>,
    now: i64,
)
    requires
        on_the_way(f, writers, w, f.at),
        !f.gating,
        f.over is None,
        f.at < f.agents.len(),
    ensures
        ({
            let (next, v) = advanced(f, writers, w, id, now);
            &&& same_rename(f, next) && rename_in_order(next)
            &&& !next.gating
            &&& next.over is None ==> on_the_way(next, writers, v, next.at) && next.at == f.at + 1
                && next.at < next.agents.len()
            &&& finished(next) ==> renamed_all(f, writers, v)
        }),
{
    reveal(advanced);
    lemma_job_syncs(f, writers, w, id, now);
    let agent = f.agents[f.at];
    let (r, v) = performed(
        Job::Rename,
        f.former,
        f.record,
        agent,
        writers(agent),
        f.approved,
        w,
        id,
        now,
    );
    let done = if r == Ok::<Written, Failure>(Written::Applied) {
        f.at + 1
    } else {
        f.at
    };
    lemma_step_keeps(f, writers, v, r, now, done);
}

// One step of the asking pass.
proof fn lemma_asked(
    f: Fleet,
    writers: spec_fn(Seq<char>) -> AgentWriter,
    w: World,
    id: Seq<char>,
    now: i64,
)
    requires
        on_the_way(f, writers, w, 0),
        f.gating,
        f.over is None,
        f.at < f.agents.len(),
    ensures
        ({
            let (next, v) = advanced(f, writers, w, id, now);
            &&& v == w
            &&& same_rename(f, next) && rename_in_order(next)
            &&& next.over is None ==> on_the_way(next, writers, w, 0) && next.at
                < next.agents.len() && (next.gating ==> next.at == f.at + 1) && (!next.gating
                ==> next.at == 0)
            &&& !finished(next)
        }),
{
    reveal(advanced);
    let agent = f.agents[f.at];
    let (r, v) = performed(
        Job::Gate,
        f.former,
        f.record,
        agent,
        writers(agent),
        f.approved,
        w,
        id,
        now,
    );
    law_asking_touches_nothing(
        f.former,
        f.record,
        agent,
        writers(agent),
        f.approved,
        w,
        id,
        now,
    );
    law_rename_asks_first(f, v.library, r, now);
    law_rename_commits_last(f, v.library, r, now);
}

proof fn lemma_carried(
    f: Fleet,
    writers: spec_fn(Seq<char>) -> AgentWriter,
    w: World,
    id: Seq<char>,
    now: i64,
)
    requires
        on_the_way(
            f,
            writers,
            w,
            if f.gating {
                0
            } else {
                f.at
            },
        ),
        f.over is None,
        f.at < f.agents.len(),
    ensures
        finished(carried(f, writers, w, id, now).0) ==> renamed_all(
            f,
            writers,
            carried(f, writers, w, id, now).1,
        ),
    decreases steps_left(f),
{
    let (next, v) = advanced(f, writers, w, id, now);
    if f.gating {
        lemma_asked(f, writers, w, id, now);
    } else {
        lemma_written(f, writers, w, id, now);
    }
    if next.over is None {
        assert(0 <= steps_left(next) < steps_left(f));
        lemma_carried(next, writers, v, id, now);
        assert(carried(f, writers, w, id, now) == carried(next, writers, v, id, now));
        let end = carried(next, writers, v, id, now).1;
        assert(renamed_all(next, writers, end) ==> renamed_all(f, writers, end));
    } else if 0 <= steps_left(next) < steps_left(f) {
        assert(carried(next, writers, v, id, now) == (next, v));
    }
}

/// A rename that is over without an agent left to confirm is recorded, and every agent's ledger
/// has the fingerprint of the entry that its file now reads under the new name.
pub proof fn law_finished_rename_is_in_sync(
    f: Fleet,
    writers: spec_fn(Seq<char>) -> AgentWriter,
    w: World,
    id: Seq<char>,
    now: i64,
)
    requires
        rename_in_order(f),
        f.gating,
        f.over is None,
        f.at == 0,
        f.agents.len() > 0,
        f.former.id == f.record.id,
        f.agents.no_duplicates(),
        valid(w.library),
        forall|j: int| 0 <= j < f.agents.len() ==> text_in(w, #[trigger] f.agents[j]) is Some,
    ensures
        finished(carried(f, writers, w, id, now).0) ==> renamed_all(
            f,
            writers,
            carried(f, writers, w, id, now).1,
        ),
{
    lemma_carried(f, writers, w, id, now);
}

} // verus!
