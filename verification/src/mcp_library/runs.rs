//! Operations over every agent of a definition: add, edit, rename and delete.
//!
//! A [`FleetRun`] is one operation under way. It names the job of the next agent; the outcome of
//! that job leads it on, until it is over. A rename runs twice over the agents: it asks every
//! one of them before it writes to any.

use vstd::prelude::*;
use crate::env_map::EnvMap;
use crate::error::{failure, invalid, AppError, ErrorKind, Failure};
use crate::json::{same_json, Json, JsonTree};
use crate::mcp_library::{
    entry_from_record, entry_of, json_view, may_prepare, named_or_refused, prepare_source,
    scalars_checked, source_prepared, validate_entry_scalars, validate_name, Drift, McpEntryDefDto,
    PendingDriftDto, WriteOutcome, Written,
};
use crate::mcp_library::funnel::WriteOp;
use crate::mcp_library::jobs::{outcome_view, Job};
use crate::mcp_store::{
    binding_views, deleted, inserted, name_taken, no_such_server, server_missing, unit_view,
    updated, valid, Library, McpServerRecord, Server, SkillStore,
};
use crate::mcp_writers::EntryDef;
use crate::order::strictly_ascending;
use crate::text::{is_blank, same, texts, trimmed};
use crate::text_lists::{as_ref, same_option, same_texts, text_ref};

verus! {

/// Result of a multi-agent operation: which agents took the write, and which are waiting on a
/// confirmation.
#[derive(Debug)]
pub struct EditOutcome {
    pub applied: Vec<String>,
    pub pending_drift: Vec<PendingDriftDto>,
}

/// Which operation a run is.
#[derive(Debug, Clone, Copy, PartialEq, Eq, Structural)]
pub enum Mode {
    Add,
    Edit,
    Rename,
    Delete,
}

/// An operation under way over the agents of a definition.
pub struct FleetRun {
    mode: Mode,
    gating: bool,
    former: McpServerRecord,
    record: McpServerRecord,
    agents: Vec<String>,
    at: usize,
    approved: Option<String>,
    applied: Vec<String>,
    pending: Vec<PendingDriftDto>,
    failures: Vec<String>,
    over: Option<Result<(), AppError>>,
}

/// What a [`FleetRun`] holds.
#[verifier::ext_equal]
pub ghost struct Fleet {
    pub mode: Mode,
    /// Whether a rename is still asking.
    pub gating: bool,
    /// The definition as it was.
    pub former: Server,
    /// The definition as it is to be.
    pub record: Server,
    pub agents: Seq<Seq<char>>,
    /// The agent whose job is next.
    pub at: int,
    pub approved: Option<Seq<char>>,
    pub applied: Seq<Seq<char>>,
    pub pending: Seq<Drift>,
    /// Why agents did not take an addition.
    pub failures: Seq<Seq<char>>,
    /// How the operation ended.
    pub over: Option<Result<(), Failure>>,
}

pub open spec fn drifts(v: Seq<PendingDriftDto>) -> Seq<Drift> {
    Seq::new(v.len(), |i: int| v[i]@)
}

pub open spec fn end_view(r: Option<Result<(), AppError>>) -> Option<Result<(), Failure>> {
    match r {
        Some(end) => Some(unit_view(end)),
        None => None,
    }
}

impl View for FleetRun {
    type V = Fleet;

    closed spec fn view(&self) -> Fleet {
        Fleet {
            mode: self.mode,
            gating: self.gating,
            former: self.former@,
            record: self.record@,
            agents: texts(self.agents@),
            at: self.at as int,
            approved: self.approved.deep_view(),
            applied: texts(self.applied@),
            pending: drifts(self.pending@),
            failures: texts(self.failures@),
            over: end_view(self.over),
        }
    }
}

/// A run begins with the first of its agents.
pub open spec fn fleet(
    mode: Mode,
    former: Server,
    record: Server,
    agents: Seq<Seq<char>>,
    approved: Option<Seq<char>>,
) -> Fleet {
    Fleet {
        mode,
        gating: mode == Mode::Rename,
        former,
        record,
        agents,
        at: 0,
        approved,
        applied: Seq::empty(),
        pending: Seq::empty(),
        failures: Seq::empty(),
        over: None,
    }
}

pub open spec fn ended(f: Fleet, end: Result<(), Failure>) -> Fleet {
    Fleet { over: Some(end), ..f }
}

/// The rename recorded in the library, at a new revision.
pub open spec fn committed(f: Fleet, l: Library, now: i64) -> (Fleet, Library) {
    let record = Server { updated_at: now, ..f.record };
    let (r, after) = updated(l, record);
    (ended(Fleet { record, ..f }, r), after)
}

/// What follows once every agent has been asked.
pub open spec fn pass_closed(f: Fleet, l: Library, now: i64) -> (Fleet, Library) {
    match f.mode {
        Mode::Add | Mode::Edit => (ended(f, Ok(())), l),
        Mode::Delete => if f.pending.len() == 0 {
            let (r, after) = deleted(l, f.record.id);
            (ended(f, r), after)
        } else {
            (ended(f, Ok(())), l)
        },
        Mode::Rename => if !f.gating {
            committed(f, l, now)
        } else if f.pending.len() > 0 {
            (ended(f, Ok(())), l)
        } else if f.agents.len() == 0 {
            committed(Fleet { gating: false, ..f }, l, now)
        } else {
            (Fleet { gating: false, at: 0, ..f }, l)
        },
    }
}

/// The run turned to its next agent, or to what follows the last one.
pub open spec fn turned(f: Fleet, l: Library, now: i64) -> (Fleet, Library) {
    if f.at < f.agents.len() {
        (f, l)
    } else {
        pass_closed(f, l, now)
    }
}

/// What is noted of an agent that did not take an addition.
pub open spec fn addition_note(agent: Seq<char>, outcome: Result<Written, Failure>) -> Option<
    Seq<char>,
> {
    match outcome {
        Ok(Written::Applied) => None,
        Ok(Written::Pending(drift)) => Some(
            drift.agent_key
                + ": a foreign same-name entry is there — sync it again to review the overwrite"@,
        ),
        Err(e) => Some(agent + ": "@ + e.message),
    }
}

/// The run after the job of its agent came to an outcome.
pub open spec fn stepped(
    f: Fleet,
    l: Library,
    outcome: Result<Written, Failure>,
    now: i64,
) -> (Fleet, Library) {
    if f.over is Some || !(0 <= f.at < f.agents.len()) {
        (f, l)
    } else {
        let agent = f.agents[f.at];
        let next = Fleet { at: f.at + 1, ..f };
        if f.mode == Mode::Add {
            match addition_note(agent, outcome) {
                None => turned(Fleet { applied: f.applied.push(agent), ..next }, l, now),
                Some(note) => turned(Fleet { failures: f.failures.push(note), ..next }, l, now),
            }
        } else {
            match outcome {
                Err(e) => (ended(f, Err(e)), l),
                Ok(Written::Pending(drift)) => {
                    let waiting = Fleet { pending: f.pending.push(drift), ..next };
                    if f.mode == Mode::Rename && !f.gating {
                        (ended(waiting, Ok(())), l)
                    } else {
                        turned(waiting, l, now)
                    }
                },
                Ok(Written::Applied) => if f.gating {
                    turned(next, l, now)
                } else {
                    turned(Fleet { applied: f.applied.push(agent), ..next }, l, now)
                },
            }
        }
    }
}

/// The job of the next agent.
pub open spec fn next_job_of(f: Fleet) -> Option<Job> {
    if f.over is Some || !(0 <= f.at < f.agents.len()) {
        None
    } else {
        match f.mode {
            Mode::Add | Mode::Edit => Some(Job::Write(WriteOp::Upsert)),
            Mode::Delete => Some(Job::Write(WriteOp::Remove)),
            Mode::Rename => if f.gating {
                Some(Job::Gate)
            } else {
                Some(Job::Rename)
            },
        }
    }
}

impl FleetRun {
    #[verifier::type_invariant]
    spec fn has_next(self) -> bool {
        self.over is None ==> self.at < self.agents@.len()
    }

    /// The job of the next agent; none once the operation is over.
    pub fn next_job(&self) -> (r: Option<Job>)
        ensures
            r == next_job_of(self@),
            r is None <==> self@.over is Some,
            r is Some ==> 0 <= self@.at < self@.agents.len(),
    {
        proof {
            use_type_invariant(self);
        }
        if self.over.is_some() {
            return None;
        }
        match self.mode {
            Mode::Add | Mode::Edit => Some(Job::Write(WriteOp::Upsert)),
            Mode::Delete => Some(Job::Write(WriteOp::Remove)),
            Mode::Rename => if self.gating {
                Some(Job::Gate)
            } else {
                Some(Job::Rename)
            },
        }
    }

    /// The agent whose job is next.
    pub fn next_agent(&self) -> (r: &String)
        requires
            self@.over is None,
        ensures
            0 <= self@.at < self@.agents.len(),
            r@ == self@.agents[self@.at],
    {
        proof {
            use_type_invariant(self);
        }
        &self.agents[self.at]
    }

    /// The definition as it was before the operation.
    pub fn former(&self) -> (r: &McpServerRecord)
        ensures
            r@ == self@.former,
    {
        &self.former
    }

    /// The definition as it is to be.
    pub fn record(&self) -> (r: &McpServerRecord)
        ensures
            r@ == self@.record,
    {
        &self.record
    }

    /// The confirmation that came with the request.
    pub fn approved(&self) -> (r: Option<&String>)
        ensures
            text_ref(r) == self@.approved,
    {
        as_ref(&self.approved)
    }

    pub fn mode(&self) -> (r: Mode)
        ensures
            r == self@.mode,
    {
        self.mode
    }

    /// The agents that the operation goes over.
    pub fn agents(&self) -> (r: &Vec<String>)
        ensures
            texts(r@) == self@.agents,
    {
        &self.agents
    }

    /// The agents that took the write.
    pub fn applied(&self) -> (r: &Vec<String>)
        ensures
            texts(r@) == self@.applied,
    {
        &self.applied
    }

    /// What waits for a confirmation.
    pub fn pending(&self) -> (r: &Vec<PendingDriftDto>)
        ensures
            drifts(r@) == self@.pending,
    {
        &self.pending
    }

    /// Whether the operation is over and no error stopped it.
    pub fn succeeded(&self) -> (r: bool)
        ensures
            r == (self@.over == Some(Ok::<(), Failure>(()))),
    {
        match &self.over {
            Some(Ok(_)) => true,
            _ => false,
        }
    }

    /// Why agents did not take an addition.
    pub fn failures(&self) -> (r: &Vec<String>)
        ensures
            texts(r@) == self@.failures,
    {
        &self.failures
    }

    fn begin(
        store: &mut SkillStore,
        mode: Mode,
        former: McpServerRecord,
        record: McpServerRecord,
        agents: Vec<String>,
        approved: Option<String>,
        now: i64,
    ) -> (r: FleetRun)
        ensures
            (r@, final(store)@) == turned(
                fleet(mode, former@, record@, texts(agents@), approved.deep_view()),
                old(store)@,
                now,
            ),
    {
        let ghost start = fleet(mode, former@, record@, texts(agents@), approved.deep_view());
        let gating = mode == Mode::Rename;
        let run = Parts {
            mode,
            gating,
            former,
            record,
            agents,
            at: 0,
            approved,
            applied: Vec::new(),
            pending: Vec::new(),
            failures: Vec::new(),
        };
        assert(run@ =~= start);
        run.turn(store, now)
    }

    /// Lead the run on by the outcome of its next agent's job.
    pub fn step(
        self,
        store: &mut SkillStore,
        outcome: Result<WriteOutcome, AppError>,
        now: i64,
    ) -> (r: FleetRun)
        ensures
            (r@, final(store)@) == stepped(self@, old(store)@, outcome_view(outcome), now),
    {
        proof {
            use_type_invariant(&self);
        }
        if self.over.is_some() {
            return self;
        }
        let ghost before = self@;
        let at: usize = self.at;
        let agent = self.agents[at].clone();
        let n: usize = self.agents.len();
        assert(at < n);
        let mut run = Parts {
            mode: self.mode,
            gating: self.gating,
            former: self.former,
            record: self.record,
            agents: self.agents,
            at: at + 1,
            approved: self.approved,
            applied: self.applied,
            pending: self.pending,
            failures: self.failures,
        };
        let ghost next = Fleet { at: before.at + 1, ..before };
        assert(run@ =~= next);
        if run.mode == Mode::Add {
            match outcome {
                Ok(WriteOutcome::Applied) => {
                    run.applied.push(agent);
                    assert(texts(run.applied@) =~= before.applied.push(agent@));
                    assert(run@ =~= (Fleet { applied: before.applied.push(agent@), ..next }));
                },
                Ok(WriteOutcome::PendingDrift(drift)) => {
                    let ghost key = drift@.agent_key;
                    let mut note = drift.agent_key;
                    note.append(
                        ": a foreign same-name entry is there — sync it again to review the overwrite",
                    );
                    let ghost text = note@;
                    run.failures.push(note);
                    assert(texts(run.failures@) =~= before.failures.push(text));
                    assert(run@ =~= (Fleet { failures: before.failures.push(text), ..next }));
                },
                Err(e) => {
                    let mut note = agent;
                    note.append(": ");
                    note.append(e.message.as_str());
                    let ghost text = note@;
                    run.failures.push(note);
                    assert(texts(run.failures@) =~= before.failures.push(text));
                    assert(run@ =~= (Fleet { failures: before.failures.push(text), ..next }));
                },
            }
            return run.turn(store, now);
        }
        match outcome {
            Err(e) => {
                run.at = at;
                assert(run@ =~= before);
                run.end(Err(e))
            },
            Ok(WriteOutcome::PendingDrift(drift)) => {
                let ghost d = drift@;
                run.pending.push(drift);
                assert(drifts(run.pending@) =~= before.pending.push(d));
                assert(run@ =~= (Fleet { pending: before.pending.push(d), ..next }));
                if run.mode == Mode::Rename && !run.gating {
                    // The file moved between the two passes. The rename is not recorded; agents
                    // that took it are recoverable, since their bindings were repointed.
                    run.end(Ok(()))
                } else {
                    run.turn(store, now)
                }
            },
            Ok(WriteOutcome::Applied) => {
                if !run.gating {
                    run.applied.push(agent);
                    assert(texts(run.applied@) =~= before.applied.push(agent@));
                    assert(run@ =~= (Fleet { applied: before.applied.push(agent@), ..next }));
                }
                run.turn(store, now)
            },
        }
    }

    /// How the operation ended: which agents took the write and which are waiting, or the error
    /// that stopped it.
    pub fn outcome(self) -> (r: Result<EditOutcome, AppError>)
        requires
            self@.over is Some,
        ensures
            match r {
                Ok(done) => self@.over == Some(Ok::<(), Failure>(())) && texts(done.applied@)
                    == self@.applied && drifts(done.pending_drift@) == self@.pending,
                Err(e) => self@.over == Some(Err::<(), Failure>(e@)),
            },
    {
        match self.over {
            Some(Err(e)) => Err(e),
            _ => Ok(EditOutcome { applied: self.applied, pending_drift: self.pending }),
        }
    }
}

// A run between two of its states.
struct Parts {
    mode: Mode,
    gating: bool,
    former: McpServerRecord,
    record: McpServerRecord,
    agents: Vec<String>,
    at: usize,
    approved: Option<String>,
    applied: Vec<String>,
    pending: Vec<PendingDriftDto>,
    failures: Vec<String>,
}

impl View for Parts {
    type V = Fleet;

    closed spec fn view(&self) -> Fleet {
        Fleet {
            mode: self.mode,
            gating: self.gating,
            former: self.former@,
            record: self.record@,
            agents: texts(self.agents@),
            at: self.at as int,
            approved: self.approved.deep_view(),
            applied: texts(self.applied@),
            pending: drifts(self.pending@),
            failures: texts(self.failures@),
            over: None,
        }
    }
}

impl Parts {
    fn end(self, end: Result<(), AppError>) -> (r: FleetRun)
        ensures
            r@ == ended(self@, unit_view(end)),
    {
        FleetRun {
            mode: self.mode,
            gating: self.gating,
            former: self.former,
            record: self.record,
            agents: self.agents,
            at: self.at,
            approved: self.approved,
            applied: self.applied,
            pending: self.pending,
            failures: self.failures,
            over: Some(end),
        }
    }

    fn go_on(self) -> (r: FleetRun)
        requires
            self@.at < self@.agents.len(),
        ensures
            r@ == self@,
    {
        FleetRun {
            mode: self.mode,
            gating: self.gating,
            former: self.former,
            record: self.record,
            agents: self.agents,
            at: self.at,
            approved: self.approved,
            applied: self.applied,
            pending: self.pending,
            failures: self.failures,
            over: None,
        }
    }

    fn commit(self, store: &mut SkillStore, now: i64) -> (r: FleetRun)
        ensures
            (r@, final(store)@) == committed(self@, old(store)@, now),
    {
        let mut run = self;
        run.record.updated_at = now;
        assert(run@ =~= (Fleet { record: Server { updated_at: now, ..self@.record }, ..self@ }));
        let end = store.update_mcp_server(run.record.clone());
        run.end(end)
    }

    fn turn(self, store: &mut SkillStore, now: i64) -> (r: FleetRun)
        ensures
            (r@, final(store)@) == turned(self@, old(store)@, now),
    {
        if self.at < self.agents.len() {
            return self.go_on();
        }
        match self.mode {
            Mode::Add | Mode::Edit => self.end(Ok(())),
            Mode::Delete => {
                if self.pending.len() == 0 {
                    let end = store.delete_mcp_server(self.record.id.as_str());
                    self.end(end)
                } else {
                    self.end(Ok(()))
                }
            },
            Mode::Rename => {
                if !self.gating {
                    self.commit(store, now)
                } else if self.pending.len() > 0 {
                    self.end(Ok(()))
                } else if self.agents.len() == 0 {
                    let mut run = self;
                    run.gating = false;
                    assert(run@ =~= (Fleet { gating: false, ..self@ }));
                    run.commit(store, now)
                } else {
                    let mut run = self;
                    run.gating = false;
                    run.at = 0;
                    assert(run@ =~= (Fleet { gating: false, at: 0, ..self@ }));
                    run.go_on()
                }
            },
        }
    }
}

// ── how the operations begin ──

pub fn load_record(store: &SkillStore, id: &str) -> (r: Result<McpServerRecord, AppError>)
    ensures
        valid(store@),
        match r {
            Ok(record) => store@.servers.contains_key(id@) && store@.servers[id@] == record@,
            Err(e) => !store@.servers.contains_key(id@) && e@ == server_missing(id@),
        },
{
    match store.get_mcp_server_by_id(id) {
        Some(record) => Ok(record),
        None => Err(no_such_server(id)),
    }
}

/// The agents that a definition is bound in, in their order.
pub open spec fn lists_agents(agents: Seq<Seq<char>>, l: Library, id: Seq<char>) -> bool {
    &&& strictly_ascending(agents)
    &&& forall|agent: Seq<char>| #[trigger]
        agents.contains(agent) <==> l.bindings.contains_key((id, agent))
}

/// There is one such list.
pub proof fn law_agents_are_determined(
    a: Seq<Seq<char>>,
    b: Seq<Seq<char>>,
    l: Library,
    id: Seq<char>,
)
    requires
        lists_agents(a, l, id),
        lists_agents(b, l, id),
    ensures
        a == b,
    decreases a.len(),
{
    lemma_same_ascending(a, b);
}

proof fn lemma_same_ascending(a: Seq<Seq<char>>, b: Seq<Seq<char>>)
    requires
        strictly_ascending(a),
        strictly_ascending(b),
        forall|x: Seq<char>| #[trigger] a.contains(x) <==> b.contains(x),
    ensures
        a == b,
    decreases a.len(),
{
    if a.len() == 0 {
        if b.len() > 0 {
            assert(b.contains(b[0]));
            assert(a.contains(b[0]));
        }
        assert(a =~= b);
    } else {
        assert(a.contains(a[0]));
        let j = choose|j: int| 0 <= j < b.len() && b[j] == a[0];
        assert(b.contains(b[0]));
        assert(a.contains(b[0]));
        let i = choose|i: int| 0 <= i < a.len() && a[i] == b[0];
        crate::order::lemma_lex_irreflexive(a[0]);
        if i > 0 && j > 0 {
            assert(crate::order::lex_less(a[0], a[i]));
            assert(crate::order::lex_less(b[0], b[j]));
            crate::order::lemma_lex_asymmetric(a[0], b[0]);
        }
        assert(a[0] == b[0]);
        let ra = a.drop_first();
        let rb = b.drop_first();
        assert(strictly_ascending(ra)) by {
            assert forall|p: int, q: int| 0 <= p < q < ra.len() implies crate::order::lex_less(
                #[trigger] ra[p],
                #[trigger] ra[q],
            ) by {
                assert(crate::order::lex_less(a[p + 1], a[q + 1]));
            }
        }
        assert(strictly_ascending(rb)) by {
            assert forall|p: int, q: int| 0 <= p < q < rb.len() implies crate::order::lex_less(
                #[trigger] rb[p],
                #[trigger] rb[q],
            ) by {
                assert(crate::order::lex_less(b[p + 1], b[q + 1]));
            }
        }
        assert forall|x: Seq<char>| #[trigger] ra.contains(x) <==> rb.contains(x) by {
            if ra.contains(x) {
                let p = choose|p: int| 0 <= p < ra.len() && ra[p] == x;
                assert(a[p + 1] == x);
                assert(crate::order::lex_less(a[0], a[p + 1]));
                assert(a.contains(x));
                let q = choose|q: int| 0 <= q < b.len() && b[q] == x;
                assert(q > 0);
                assert(rb[q - 1] == x);
            }
            if rb.contains(x) {
                let p = choose|p: int| 0 <= p < rb.len() && rb[p] == x;
                assert(b[p + 1] == x);
                assert(crate::order::lex_less(b[0], b[p + 1]));
                assert(b.contains(x));
                assert(a.contains(x));
                let q = choose|q: int| 0 <= q < a.len() && a[q] == x;
                assert(q > 0);
                assert(ra[q - 1] == x);
            }
        }
        lemma_same_ascending(ra, rb);
        assert(a =~= seq![a[0]] + ra);
        assert(b =~= seq![b[0]] + rb);
    }
}

/// The agents that a definition is bound in.
pub fn bound_agents(store: &SkillStore, id: &str) -> (r: Vec<String>)
    ensures
        lists_agents(texts(r@), store@, id@),
{
    let bindings = store.get_mcp_bindings_for_server(id);
    let ghost rows = binding_views(bindings@);
    let mut agents: Vec<String> = Vec::new();
    let mut i: usize = 0;
    while i < bindings.len()
        invariant
            i <= bindings.len(),
            agents@.len() == i,
            rows == binding_views(bindings@),
            forall|k: int| 0 <= k < i ==> (#[trigger] agents@[k])@ == rows[k].agent_key,
        decreases bindings.len() - i,
    {
        assert(rows[i as int] == bindings@[i as int]@);
        agents.push(bindings[i].agent_key.clone());
        i = i + 1;
    }
    proof {
        let names = texts(agents@);
        assert forall|p: int, q: int| 0 <= p < q < names.len() implies crate::order::lex_less(
            #[trigger] names[p],
            #[trigger] names[q],
        ) by {
            assert(crate::order::lex_less(rows[p].agent_key, rows[q].agent_key));
        }
        assert forall|agent: Seq<char>| #[trigger] names.contains(agent)
            <==> store@.bindings.contains_key((id@, agent)) by {
            if names.contains(agent) {
                let k = choose|k: int| 0 <= k < names.len() && names[k] == agent;
                assert(rows[k].agent_key == agent);
            }
            if store@.bindings.contains_key((id@, agent)) {
                let k = choose|k: int|
                    0 <= k < rows.len() && (#[trigger] rows[k]).agent_key == agent;
                assert(names[k] == agent);
            }
        }
    }
    agents
}

pub open spec fn managed_name(name: Seq<char>) -> Failure {
    invalid("a managed MCP server named \""@ + name + "\" already exists"@)
}

fn name_is_managed(name: &str) -> (r: AppError)
    ensures
        r@ == managed_name(name@),
{
    let mut m = "a managed MCP server named \"".to_owned();
    m.append(name);
    m.append("\" already exists");
    AppError::invalid_input(m.as_str())
}

/// What an addition is refused for before its source is prepared; else its name.
pub open spec fn addition_checked(l: Library, entry: EntryDef) -> Result<Seq<char>, Failure> {
    match named_or_refused(entry.name) {
        Err(e) => Err(e),
        Ok(name) => if name_taken(l, name) {
            Err(managed_name(name))
        } else if trimmed(entry.transport).len() == 0 {
            Err(invalid("MCP transport must not be empty"@))
        } else {
            Ok(name)
        },
    }
}

/// A definition that nothing is known of yet.
pub open spec fn new_server(id: Seq<char>, entry: EntryDef, source: JsonTree, now: i64) -> Server {
    Server {
        id,
        name: entry.name,
        transport: entry.transport,
        command: entry.command,
        args: entry.args,
        url: entry.url,
        env: entry.env,
        source,
        update_status: "unknown"@,
        remote_version: None,
        last_checked_at: None,
        last_check_error: None,
        probe_status: "pending"@,
        probe_message: None,
        probe_checked_at: None,
        created_at: now,
        updated_at: now,
    }
}

/// A definition stored, once it has been validated.
pub open spec fn stored(l: Library, s: Server) -> (Result<(), Failure>, Library) {
    match scalars_checked(entry_of(s)) {
        Err(e) => (Err(e), l),
        Ok(_) => inserted(l, s),
    }
}

pub fn new_record(id: String, entry: McpEntryDefDto, source: Json, now: i64) -> (r: McpServerRecord)
    ensures
        r@ == new_server(id@, entry@, source@, now),
{
    McpServerRecord {
        id,
        name: entry.name,
        transport: entry.transport,
        command: entry.command,
        args: entry.args,
        url: entry.url,
        env: entry.env,
        source,
        update_status: "unknown".to_owned(),
        remote_version: None,
        last_checked_at: None,
        last_check_error: None,
        probe_status: "pending".to_owned(),
        probe_message: None,
        probe_checked_at: None,
        created_at: now,
        updated_at: now,
    }
}

/// Every persisted record is validated: a stored entry can be re-emitted to an agent by a later
/// sync.
pub fn store_record(store: &mut SkillStore, record: &McpServerRecord) -> (r: Result<(), AppError>)
    ensures
        (unit_view(r), final(store)@) == stored(old(store)@, record@),
{
    match validate_entry_scalars(&entry_from_record(record)) {
        Err(e) => Err(e),
        Ok(_) => store.insert_mcp_server(record.clone()),
    }
}

/// How an addition begins once its source is prepared: the run, or why there is none, and the
/// library.
pub open spec fn addition_begun(
    l: Library,
    entry: EntryDef,
    name: Seq<char>,
    prepared: Result<JsonTree, Failure>,
    agents: Seq<Seq<char>>,
    id: Seq<char>,
    now: i64,
) -> (Result<Fleet, Failure>, Library) {
    match prepared {
        Err(e) => (Err(e), l),
        Ok(source) => {
            let s = new_server(id, EntryDef { name, ..entry }, source, now);
            match stored(l, s) {
                (Err(e), after) => (Err(e), after),
                (Ok(_), after) => {
                    let (f, last) = turned(fleet(Mode::Add, s, s, agents, None), after, now);
                    (Ok(f), last)
                },
            }
        },
    }
}

pub open spec fn run_view(r: Result<FleetRun, AppError>) -> Result<Fleet, Failure> {
    match r {
        Ok(run) => Ok(run@),
        Err(e) => Err(e@),
    }
}

/// Begin to add a definition with the new id `id` and to write it to `agents`. A failed clone
/// aborts before a record exists. A partial addition stays partial — the record and every
/// successful binding are kept.
pub fn add_mcp_server<C: FnOnce(&String) -> Result<String, String>, W: Fn(&Json) -> String>(
    store: &mut SkillStore,
    entry: McpEntryDefDto,
    source: &Json,
    clone_repo: C,
    why: &W,
    agents: Vec<String>,
    id: String,
    now: i64,
) -> (r: Result<FleetRun, AppError>)
    requires
        addition_checked(old(store)@, entry@) is Ok ==> may_prepare(source@, clone_repo, *why),
    ensures
        match addition_checked(old(store)@, entry@) {
            Err(e) => run_view(r) == Err::<Fleet, Failure>(e) && final(store)@ == old(store)@,
            Ok(name) => exists|prepared: Result<JsonTree, Failure>| #[trigger]
                source_prepared(source@, clone_repo, *why, prepared) && (run_view(r), final(store)@)
                    == addition_begun(
                    old(store)@,
                    entry@,
                    name,
                    prepared,
                    texts(agents@),
                    id@,
                    now,
                ),
        },
        r matches Ok(run) ==> {
            let s = run@.record;
            &&& s.id == id@
            &&& s.name == trimmed(entry@.name)
            &&& s.transport == entry@.transport
            &&& s.command == entry@.command
            &&& s.args == entry@.args
            &&& s.url == entry@.url
            &&& s.env == entry@.env
            &&& final(store)@.servers.contains_key(id@)
            &&& final(store)@.servers[id@] == s
        },
{
    let name = match validate_name(entry.name.as_str()) {
        Ok(name) => name,
        Err(e) => {
            return Err(e);
        },
    };
    if store.get_mcp_server_by_name(name.as_str()).is_some() {
        return Err(name_is_managed(name.as_str()));
    }
    if is_blank(entry.transport.as_str()) {
        return Err(AppError::invalid_input("MCP transport must not be empty"));
    }
    let ghost e = entry@;
    let ghost n = name@;
    let prepared = prepare_source(source, clone_repo, why);
    let ghost p = json_view(prepared);
    assert(source_prepared(source@, clone_repo, *why, p));
    let source = match prepared {
        Ok(source) => source,
        Err(e) => {
            return Err(e);
        },
    };
    let named = McpEntryDefDto { name, ..entry };
    assert(named@ =~= (EntryDef { name: n, ..e }));
    let record = new_record(id, named, source, now);
    if let Err(e) = store_record(store, &record) {
        return Err(e);
    }
    let former = record.clone();
    Ok(FleetRun::begin(store, Mode::Add, former, record, agents, None, now))
}

/// What an edit is refused for before its source is prepared; else the new name.
pub open spec fn edit_checked(l: Library, id: Seq<char>, entry: EntryDef) -> Result<
    Seq<char>,
    Failure,
> {
    if !l.servers.contains_key(id) {
        Err(server_missing(id))
    } else {
        match named_or_refused(entry.name) {
            Err(e) => Err(e),
            Ok(name) => if name != l.servers[id].name && name_taken(l, name) {
                Err(managed_name(name))
            } else {
                Ok(name)
            },
        }
    }
}

/// A definition with the content of an edit.
pub open spec fn edited(s: Server, name: Seq<char>, entry: EntryDef, source: JsonTree) -> Server {
    Server {
        name,
        transport: entry.transport,
        command: entry.command,
        args: entry.args,
        url: entry.url,
        env: entry.env,
        source,
        ..s
    }
}

/// How an edit begins once its source is prepared. A rename changes the library only when every
/// agent has taken it. An edit under the same name is recorded at once, at a new revision only
/// where the content changed: a confirmation is bound to the revision that it was asked for.
pub open spec fn edit_begun(
    l: Library,
    id: Seq<char>,
    entry: EntryDef,
    name: Seq<char>,
    prepared: Result<JsonTree, Failure>,
    agents: Seq<Seq<char>>,
    approved: Option<Seq<char>>,
    now: i64,
) -> (Result<Fleet, Failure>, Library) {
    let former = l.servers[id];
    match prepared {
        Err(e) => (Err(e), l),
        Ok(source) => {
            let s = edited(former, name, entry, source);
            match scalars_checked(entry_of(s)) {
                Err(e) => (Err(e), l),
                Ok(_) => if name != former.name {
                    let (f, after) = turned(
                        fleet(Mode::Rename, former, s, agents, approved),
                        l,
                        now,
                    );
                    (Ok(f), after)
                } else if s != former {
                    let stamped = Server { updated_at: now, ..s };
                    match updated(l, stamped) {
                        (Err(e), after) => (Err(e), after),
                        (Ok(_), after) => {
                            let (f, last) = turned(
                                fleet(Mode::Edit, former, stamped, agents, approved),
                                after,
                                now,
                            );
                            (Ok(f), last)
                        },
                    }
                } else {
                    let (f, after) = turned(
                        fleet(Mode::Edit, former, former, agents, approved),
                        l,
                        now,
                    );
                    (Ok(f), after)
                },
            }
        },
    }
}

fn same_env(a: &EnvMap, b: &EnvMap) -> (r: bool)
    ensures
        r == (a@ == b@),
{
    let n: usize = a.len();
    if n != b.len() {
        return false;
    }
    let mut i: usize = 0;
    while i < n
        invariant
            i <= n,
            n == a@.len(),
            n == b@.len(),
            forall|k: int| 0 <= k < i ==> #[trigger] a@[k] == b@[k],
        decreases n - i,
    {
        if !same(a.key_at(i).as_str(), b.key_at(i).as_str()) || !same(
            a.value_at(i).as_str(),
            b.value_at(i).as_str(),
        ) {
            assert(a@[i as int] != b@[i as int]);
            return false;
        }
        i = i + 1;
    }
    assert(a@ =~= b@);
    true
}

/// Whether two records hold the same definition and source.
fn same_content(a: &McpServerRecord, b: &McpServerRecord) -> (r: bool)
    ensures
        r == (entry_of(a@) == entry_of(b@) && a@.source == b@.source),
{
    same(a.name.as_str(), b.name.as_str()) && same(a.transport.as_str(), b.transport.as_str())
        && same_option(as_ref(&a.command), as_ref(&b.command)) && same_texts(&a.args, &b.args)
        && same_option(as_ref(&a.url), as_ref(&b.url)) && same_env(&a.env, &b.env) && same_json(
        &a.source,
        &b.source,
    )
}

/// Begin to edit a definition.
pub fn edit_mcp_server<C: FnOnce(&String) -> Result<String, String>, W: Fn(&Json) -> String>(
    store: &mut SkillStore,
    id: &str,
    entry: McpEntryDefDto,
    source: &Json,
    clone_repo: C,
    why: &W,
    approved_drift: Option<String>,
    now: i64,
) -> (r: Result<FleetRun, AppError>)
    requires
        edit_checked(old(store)@, id@, entry@) is Ok ==> may_prepare(source@, clone_repo, *why),
    ensures
        match edit_checked(old(store)@, id@, entry@) {
            Err(e) => run_view(r) == Err::<Fleet, Failure>(e) && final(store)@ == old(store)@,
            Ok(name) => exists|prepared: Result<JsonTree, Failure>, agents: Seq<Seq<char>>|
                #[trigger] source_prepared(source@, clone_repo, *why, prepared) && #[trigger] lists_agents(
                    agents,
                    old(store)@,
                    id@,
                ) && (run_view(r), final(store)@) == edit_begun(
                    old(store)@,
                    id@,
                    entry@,
                    name,
                    prepared,
                    agents,
                    approved_drift.deep_view(),
                    now,
                ),
        },
        r matches Ok(run) ==> {
            let s = run@.record;
            &&& s.id == old(store)@.servers[id@].id
            &&& s.name == trimmed(entry@.name)
            &&& s.transport == entry@.transport
            &&& s.command == entry@.command
            &&& s.args == entry@.args
            &&& s.url == entry@.url
            &&& s.env == entry@.env
        },
{
    let ghost before = store@;
    let ghost e = entry@;
    let current = match load_record(store, id) {
        Ok(current) => current,
        Err(e) => {
            return Err(e);
        },
    };
    let name = match validate_name(entry.name.as_str()) {
        Ok(name) => name,
        Err(e) => {
            return Err(e);
        },
    };
    let renamed = !same(name.as_str(), current.name.as_str());
    if renamed && store.get_mcp_server_by_name(name.as_str()).is_some() {
        return Err(name_is_managed(name.as_str()));
    }
    let ghost n = name@;
    let prepared = prepare_source(source, clone_repo, why);
    let ghost p = json_view(prepared);
    let agents = bound_agents(store, id);
    let ghost fleet_agents = texts(agents@);
    assert(source_prepared(source@, clone_repo, *why, p) && lists_agents(fleet_agents, before, id@));
    let source = match prepared {
        Ok(source) => source,
        Err(e) => {
            return Err(e);
        },
    };
    let copy = current.clone();
    let mut record = McpServerRecord {
        name,
        transport: entry.transport,
        command: entry.command,
        args: entry.args,
        url: entry.url,
        env: entry.env,
        source,
        ..copy
    };
    assert(record@ =~= edited(current@, n, e, p->Ok_0));
    if let Err(e) = validate_entry_scalars(&entry_from_record(&record)) {
        return Err(e);
    }
    if renamed {
        return Ok(
            FleetRun::begin(store, Mode::Rename, current, record, agents, approved_drift, now),
        );
    }
    let unchanged = same_content(&current, &record);
    proof {
        if unchanged {
            assert(entry_of(record@) == entry_of(current@));
            assert(record@ =~= current@);
        } else {
            assert(record@ != current@);
        }
    }
    if !unchanged {
        record.updated_at = now;
        assert(record@ =~= (Server { updated_at: now, ..edited(current@, n, e, p->Ok_0) }));
        if let Err(e) = store.update_mcp_server(record.clone()) {
            return Err(e);
        }
        return Ok(
            FleetRun::begin(store, Mode::Edit, current, record, agents, approved_drift, now),
        );
    }
    let former = current.clone();
    Ok(FleetRun::begin(store, Mode::Edit, former, current, agents, approved_drift, now))
}

/// How a deletion begins.
pub open spec fn deletion_begun(
    l: Library,
    id: Seq<char>,
    agents: Seq<Seq<char>>,
    approved: Option<Seq<char>>,
    now: i64,
) -> (Result<Fleet, Failure>, Library) {
    if l.servers.contains_key(id) {
        let s = l.servers[id];
        let (f, after) = turned(fleet(Mode::Delete, s, s, agents, approved), l, now);
        (Ok(f), after)
    } else {
        (Err(server_missing(id)), l)
    }
}

/// Begin to delete a definition: its entries go from every agent, and the row only when no
/// agent is still waiting on a confirmation.
pub fn delete_mcp_server(
    store: &mut SkillStore,
    id: &str,
    approved_drift: Option<String>,
    now: i64,
) -> (r: Result<FleetRun, AppError>)
    ensures
        exists|agents: Seq<Seq<char>>| #[trigger]
            lists_agents(agents, old(store)@, id@) && (run_view(r), final(store)@)
                == deletion_begun(old(store)@, id@, agents, approved_drift.deep_view(), now),
{
    let ghost before = store@;
    let agents = bound_agents(store, id);
    assert(lists_agents(texts(agents@), before, id@));
    let record = match load_record(store, id) {
        Ok(record) => record,
        Err(e) => {
            return Err(e);
        },
    };
    let former = record.clone();
    Ok(FleetRun::begin(store, Mode::Delete, former, record, agents, approved_drift, now))
}

pub open spec fn not_synced(name: Seq<char>, agent_key: Seq<char>) -> Failure {
    failure(
        ErrorKind::NotFound,
        "\""@ + name + "\" is not synced to agent '"@ + agent_key + "' by this library"@,
    )
}

/// The definition to sync to an agent: any that is there.
pub fn sync_mcp_to_agent(store: &SkillStore, id: &str) -> (r: Result<McpServerRecord, AppError>)
    ensures
        match r {
            Ok(record) => store@.servers.contains_key(id@) && store@.servers[id@] == record@,
            Err(e) => !store@.servers.contains_key(id@) && e@ == server_missing(id@),
        },
{
    load_record(store, id)
}

/// The definition to take out of an agent: only one that the library has put there.
pub fn unsync_mcp_from_agent(store: &SkillStore, id: &str, agent_key: &str) -> (r: Result<
    McpServerRecord,
    AppError,
>)
    ensures
        match r {
            Ok(record) => store@.servers.contains_key(id@) && store@.servers[id@] == record@
                && store@.bindings.contains_key((id@, agent_key@)),
            Err(e) => if store@.servers.contains_key(id@) {
                !store@.bindings.contains_key((id@, agent_key@)) && e@ == not_synced(
                    store@.servers[id@].name,
                    agent_key@,
                )
            } else {
                e@ == server_missing(id@)
            },
        },
{
    let record = match load_record(store, id) {
        Ok(record) => record,
        Err(e) => {
            return Err(e);
        },
    };
    if crate::mcp_library::funnel::find_binding(store, id, agent_key).is_none() {
        let mut m = "\"".to_owned();
        m.append(record.name.as_str());
        m.append("\" is not synced to agent '");
        m.append(agent_key);
        m.append("' by this library");
        return Err(AppError::not_found(m.as_str()));
    }
    Ok(record)
}

} // verus!
