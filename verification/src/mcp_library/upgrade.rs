//! Upgrades and probes of a definition.
//!
//! An upgrade acts on what is actually installed: each binding's live command is inferred into a
//! source, and the union of distinct sources' commands is the plan. It runs only as it was
//! confirmed.

use vstd::prelude::*;
use crate::error::{failure, invalid, AppError, ErrorKind, Failure};
use crate::json::Json;
use crate::mcp_inventory::{ConfigRead, FileState};
use crate::mcp_library::report::{agent_files, file_read, find_file, found_ref, AgentFile, Found};
use crate::mcp_probe::{probe_view, Info, ProbeInfo};
use crate::mcp_store::{
    binding_views, lists_bindings_of, Binding, Library, McpServerRecord, Server, SkillStore,
};
use crate::mcp_upstream::{
    infer_source, inferred_source, may_run, may_say_why, parse_source, ran, run_commands,
    run_outcome, source_of_json, source_refused, upgrade_commands_for_source, upgrade_plan,
    McpSource, Source,
};
use crate::mcp_upstream::checks::{CheckOutcome, Checked};
use crate::mcp_writers::{EntryDef, McpWriter};
use crate::order::{has_text, sort_texts, sorted};
use crate::text::{same, texts};
use crate::text_lists::{append_all, copy_text, same_texts};

verus! {

#[derive(Debug)]
pub struct UpgradePlanDto {
    pub commands: Vec<String>,
    pub latest_version: Option<String>,
}

/// Upgrade apply result. The plan is re-derived from live agent files at apply time, and if it
/// no longer equals what was confirmed, nothing runs — the fresh plan goes back for a new
/// confirmation.
#[derive(Debug)]
pub enum ApplyUpgradeOutcome {
    Ran { output: String },
    PlanChanged { plan: UpgradePlanDto },
}

#[derive(Debug)]
pub struct ProbeStateDto {
    pub probe_status: String,
    pub probe_message: Option<String>,
}

/// The items of a list in their order, each once.
pub open spec fn distinct<T>(s: Seq<T>) -> Seq<T>
    decreases s.len(),
{
    if s.len() == 0 {
        s
    } else {
        let before = distinct(s.drop_last());
        if before.contains(s.last()) {
            before
        } else {
            before.push(s.last())
        }
    }
}

/// The definition that an agent's config has under a name.
pub open spec fn live_entry(found: Option<Found>, name: Seq<char>) -> Option<EntryDef> {
    match found {
        Some(Found { writer: Ok(w), file: FileState::Text(text), .. }) => match w.entry_in(text, name) {
            Ok(entry) => entry,
            Err(_) => None,
        },
        _ => None,
    }
}

/// The source of what an agent runs: of its live entry, or where that is gone, of the
/// definition.
pub open spec fn installed_source(s: Server, found: Option<Found>) -> Source {
    match live_entry(found, s.name) {
        Some(entry) => inferred_source(entry.command, entry.args),
        None => inferred_source(s.command, s.args),
    }
}

/// Whether these are the distinct sources of what is installed; of a definition without
/// bindings, its own.
pub open spec fn sources_of<W: Fn(&Json) -> String>(
    s: Server,
    rows: Seq<Binding>,
    files: Seq<Found>,
    why: W,
    r: Result<Seq<Source>, Failure>,
) -> bool {
    if rows.len() == 0 {
        match source_of_json(s.source) {
            Some(source) => r == Ok::<Seq<Source>, Failure>(seq![source]),
            None => r matches Err(e) && e == invalid(e.message) && source_refused(
                s.source,
                why,
                e.message,
            ),
        }
    } else {
        r == Ok::<Seq<Source>, Failure>(
            distinct(
                Seq::new(
                    rows.len(),
                    |i: int|
                        installed_source(s, file_read(files, rows[i].agent_key)),
                ),
            ),
        )
    }
}

pub open spec fn sources_view(r: Result<Vec<McpSource>, AppError>) -> Result<Seq<Source>, Failure> {
    match r {
        Ok(sources) => Ok(source_views(sources@)),
        Err(e) => Err(e@),
    }
}

pub open spec fn source_views(v: Seq<McpSource>) -> Seq<Source> {
    Seq::new(v.len(), |i: int| v[i]@)
}

fn same_source(a: &McpSource, b: &McpSource) -> (r: bool)
    ensures
        r == (a@ == b@),
{
    match (a, b) {
        (McpSource::Unknown, McpSource::Unknown) => true,
        (McpSource::NpmGlobal { package: x }, McpSource::NpmGlobal { package: y }) => same(
            x.as_str(),
            y.as_str(),
        ),
        (McpSource::Npx { package: x }, McpSource::Npx { package: y }) => same(
            x.as_str(),
            y.as_str(),
        ),
        (McpSource::PypiUvx { package: x }, McpSource::PypiUvx { package: y }) => same(
            x.as_str(),
            y.as_str(),
        ),
        (
            McpSource::Git { repo_url: u, clone_path: p },
            McpSource::Git { repo_url: v, clone_path: q },
        ) => same(u.as_str(), v.as_str()) && same(p.as_str(), q.as_str()),
        _ => false,
    }
}

fn add_source(list: &mut Vec<McpSource>, source: McpSource)
    ensures
        source_views(final(list)@) == if source_views(old(list)@).contains(source@) {
            source_views(old(list)@)
        } else {
            source_views(old(list)@).push(source@)
        },
{
    let ghost before = source_views(list@);
    let mut i: usize = 0;
    while i < list.len()
        invariant
            i <= list.len(),
            before == source_views(list@),
            forall|k: int| 0 <= k < i ==> #[trigger] before[k] != source@,
        decreases list.len() - i,
    {
        assert(before[i as int] == list@[i as int]@);
        if same_source(&list[i], &source) {
            assert(before[i as int] == source@);
            return;
        }
        i = i + 1;
    }
    let ghost view = source@;
    list.push(source);
    assert(source_views(list@) =~= before.push(view));
}

fn infer(command: &Option<String>, args: &Vec<String>) -> (r: McpSource)
    ensures
        r@ == inferred_source(command.deep_view(), texts(args@)),
{
    match command {
        Some(c) => infer_source(Some(c.as_str()), args),
        None => infer_source(None, args),
    }
}

fn source_in_agent(record: &McpServerRecord, found: Option<&AgentFile>) -> (r: McpSource)
    ensures
        r@ == installed_source(record@, found_ref(found)),
{
    if let Some(file) = found {
        if let Ok(writer) = &file.writer {
            if let ConfigRead::Text(text) = &file.read {
                if let Ok(Some(entry)) = writer.read_entry(text.as_str(), record.name.as_str()) {
                    return infer(&entry.command, &entry.args);
                }
            }
        }
    }
    infer(&record.command, &record.args)
}

/// Whether the ledger has no binding of a definition.
pub open spec fn unbound(l: Library, server_id: Seq<char>) -> bool {
    forall|agent: Seq<char>| !#[trigger] l.bindings.contains_key((server_id, agent))
}

/// The distinct sources of what is installed of a definition. `files` has the file of each
/// agent in the ledger, as far as it could be read.
pub fn upgrade_sources<W: Fn(&Json) -> String>(
    store: &SkillStore,
    record: &McpServerRecord,
    files: &Vec<AgentFile>,
    why: &W,
) -> (r: Result<Vec<McpSource>, AppError>)
    requires
        unbound(store@, record@.id) ==> may_say_why(*why, record@.source),
    ensures
        exists|rows: Seq<Binding>| #[trigger]
            lists_bindings_of(rows, store@, record@.id) && sources_of(
                record@,
                rows,
                agent_files(files@),
                *why,
                sources_view(r),
            ),
{
    let bindings = store.get_mcp_bindings_for_server(record.id.as_str());
    let ghost rows = binding_views(bindings@);
    let ghost known = agent_files(files@);
    assert(lists_bindings_of(rows, store@, record@.id));
    let mut sources: Vec<McpSource> = Vec::new();
    if bindings.len() == 0 {
        match parse_source(&record.source, why) {
            Ok(source) => {
                let ghost view = source@;
                sources.push(source);
                assert(source_views(sources@) =~= seq![view]);
                return Ok(sources);
            },
            Err(message) => {
                return Err(AppError::new(ErrorKind::InvalidInput, message));
            },
        }
    }
    let ghost all = Seq::new(
        rows.len(),
        |i: int| installed_source(record@, file_read(known, rows[i].agent_key)),
    );
    let mut i: usize = 0;
    assert(source_views(sources@) =~= all.take(0));
    while i < bindings.len()
        invariant
            i <= bindings.len(),
            rows == binding_views(bindings@),
            known == agent_files(files@),
            all == Seq::new(
                rows.len(),
                |i: int|
                    installed_source(record@, file_read(known, rows[i].agent_key)),
            ),
            source_views(sources@) == distinct(all.take(i as int)),
        decreases bindings.len() - i,
    {
        let key = &bindings[i].agent_key;
        assert(rows[i as int] == bindings@[i as int]@);
        let source = source_in_agent(record, find_file(files, key.as_str()));
        proof {
            assert(all.take(i + 1).drop_last() =~= all.take(i as int));
            assert(all.take(i + 1).last() == source@);
        }
        add_source(&mut sources, source);
        i = i + 1;
    }
    assert(all.take(i as int) =~= all);
    Ok(sources)
}

pub open spec fn dir_lists(v: Seq<Vec<String>>) -> Seq<Seq<Seq<char>>> {
    Seq::new(v.len(), |i: int| texts(v[i]@))
}

/// The commands of the sources one after another, and the last reason for which a source has
/// none.
pub open spec fn gathered(sources: Seq<Source>, npx_dirs: Seq<Seq<Seq<char>>>) -> (
    Seq<Seq<char>>,
    Option<Seq<char>>,
)
    decreases sources.len(),
{
    if sources.len() == 0 {
        (Seq::empty(), None)
    } else {
        let n = sources.len() - 1;
        let (commands, refused) = gathered(sources.drop_last(), npx_dirs);
        match upgrade_plan(sources[n], npx_dirs[n]) {
            Ok(more) => (commands + more, refused),
            Err(reason) => (commands, Some(reason)),
        }
    }
}

/// The union of the sources' commands, each once; an error where none has any.
pub open spec fn command_union(sources: Seq<Source>, npx_dirs: Seq<Seq<Seq<char>>>) -> Result<
    Seq<Seq<char>>,
    Failure,
> {
    let (commands, refused) = gathered(sources, npx_dirs);
    if commands.len() == 0 {
        Err(
            invalid(
                match refused {
                    Some(reason) => reason,
                    None => "no upstream source"@,
                },
            ),
        )
    } else {
        Ok(distinct(commands))
    }
}

fn keep_distinct(list: Vec<String>) -> (r: Vec<String>)
    ensures
        texts(r@) == distinct(texts(list@)),
{
    let ghost all = texts(list@);
    let mut r: Vec<String> = Vec::new();
    let mut i: usize = 0;
    assert(texts(r@) =~= all.take(0));
    while i < list.len()
        invariant
            i <= list.len(),
            all == texts(list@),
            texts(r@) == distinct(all.take(i as int)),
        decreases list.len() - i,
    {
        let item = &list[i];
        proof {
            assert(all.take(i + 1).drop_last() =~= all.take(i as int));
            assert(all.take(i + 1).last() == item@);
        }
        if !has_text(&r, item.as_str()) {
            let ghost before = texts(r@);
            r.push(item.clone());
            assert(texts(r@) =~= before.push(item@));
        }
        i = i + 1;
    }
    assert(all.take(i as int) =~= all);
    r
}

/// The union of the commands of every source. An npx copy and a global install of the same
/// package need different commands — both must run. `npx_dirs` has, for each source, the cache
/// directories of its package.
pub fn upgrade_command_union(sources: &Vec<McpSource>, npx_dirs: &Vec<Vec<String>>) -> (r: Result<
    Vec<String>,
    AppError,
>)
    requires
        npx_dirs@.len() == sources@.len(),
    ensures
        match r {
            Ok(commands) => command_union(source_views(sources@), dir_lists(npx_dirs@)) == Ok::<
                Seq<Seq<char>>,
                Failure,
            >(texts(commands@)),
            Err(e) => command_union(source_views(sources@), dir_lists(npx_dirs@)) == Err::<
                Seq<Seq<char>>,
                Failure,
            >(e@),
        },
{
    let ghost all = source_views(sources@);
    let ghost dirs = dir_lists(npx_dirs@);
    let mut commands: Vec<String> = Vec::new();
    let mut refused: Option<String> = None;
    let mut i: usize = 0;
    assert(all.take(0) =~= Seq::<Source>::empty());
    assert(texts(commands@) =~= Seq::<Seq<char>>::empty());
    while i < sources.len()
        invariant
            i <= sources.len(),
            npx_dirs@.len() == sources@.len(),
            all == source_views(sources@),
            dirs == dir_lists(npx_dirs@),
            gathered(all.take(i as int), dirs) == (texts(commands@), refused.deep_view()),
        decreases sources.len() - i,
    {
        proof {
            assert(all.take(i + 1).drop_last() =~= all.take(i as int));
            assert(all.take(i + 1)[i as int] == sources@[i as int]@);
            assert(dirs[i as int] == texts(npx_dirs@[i as int]@));
        }
        match upgrade_commands_for_source(&sources[i], &npx_dirs[i]) {
            Ok(more) => {
                append_all(&mut commands, more);
            },
            Err(reason) => {
                refused = Some(reason);
            },
        }
        i = i + 1;
    }
    assert(all.take(i as int) =~= all);
    if commands.len() == 0 {
        return match refused {
            Some(reason) => Err(AppError::new(ErrorKind::InvalidInput, reason)),
            None => Err(AppError::invalid_input("no upstream source")),
        };
    }
    Ok(keep_distinct(commands))
}

/// The plan that is shown before an upgrade.
pub fn get_mcp_upgrade_plan(record: &McpServerRecord, commands: Vec<String>) -> (r: UpgradePlanDto)
    ensures
        r.commands == commands,
        r.latest_version.deep_view() == record@.remote_version,
{
    UpgradePlanDto { commands, latest_version: copy_text(&record.remote_version) }
}

/// Whether two lists hold the same commands, in any order.
pub open spec fn same_plan(derived: Seq<Seq<char>>, approved: Seq<Seq<char>>) -> bool {
    sorted(derived) == sorted(approved)
}

/// Plans are the same exactly where they hold the same commands equally often.
pub proof fn law_same_plan_is_same_commands(a: Seq<Seq<char>>, b: Seq<Seq<char>>)
    ensures
        same_plan(a, b) <==> a.to_multiset() == b.to_multiset(),
{
    crate::order::law_sorted_is_ascending_permutation(a);
    crate::order::law_sorted_is_ascending_permutation(b);
    if a.to_multiset() == b.to_multiset() {
        lemma_ascending_determined(sorted(a), sorted(b));
    }
}

// Ascending lists of the same texts are the same.
proof fn lemma_ascending_determined(a: Seq<Seq<char>>, b: Seq<Seq<char>>)
    requires
        crate::order::ascending(a),
        crate::order::ascending(b),
        a.to_multiset() == b.to_multiset(),
    ensures
        a == b,
    decreases a.len(),
{
    broadcast use vstd::seq_lib::group_to_multiset_ensures;

    a.to_multiset_ensures();
    b.to_multiset_ensures();
    if a.len() == 0 {
        assert(a.to_multiset().len() == 0);
        assert(a =~= b);
    } else {
        assert(a.to_multiset().len() == b.to_multiset().len());
        let x = a.last();
        let y = b.last();
        assert(a.contains(x));
        assert(a.to_multiset().count(x) > 0);
        assert(b.contains(x));
        let j = choose|j: int| 0 <= j < b.len() && b[j] == x;
        assert(b.contains(y));
        assert(b.to_multiset().count(y) > 0);
        assert(a.contains(y));
        let i = choose|i: int| 0 <= i < a.len() && a[i] == y;
        if x != y {
            assert(!crate::order::lex_less(b[b.len() - 1], b[j]));
            assert(!crate::order::lex_less(a[a.len() - 1], a[i]));
            crate::order::lemma_lex_total(x, y);
        }
        let ra = a.drop_last();
        let rb = b.drop_last();
        assert(a =~= ra.push(x));
        assert(b =~= rb.push(x));
        assert(ra.to_multiset() =~= a.to_multiset().remove(x));
        assert(rb.to_multiset() =~= b.to_multiset().remove(x));
        assert(crate::order::ascending(ra)) by {
            assert forall|p: int, q: int| 0 <= p < q < ra.len() implies !crate::order::lex_less(
                #[trigger] ra[q],
                #[trigger] ra[p],
            ) by {
                assert(!crate::order::lex_less(a[q], a[p]));
            }
        }
        assert(crate::order::ascending(rb)) by {
            assert forall|p: int, q: int| 0 <= p < q < rb.len() implies !crate::order::lex_less(
                #[trigger] rb[q],
                #[trigger] rb[p],
            ) by {
                assert(!crate::order::lex_less(b[q], b[p]));
            }
        }
        lemma_ascending_determined(ra, rb);
    }
}

/// What running a confirmed plan came to.
#[derive(Debug)]
pub enum UpgradeRun {
    /// The plan is no longer the confirmed one; nothing ran.
    Changed(UpgradePlanDto),
    /// What the commands printed.
    Printed(String),
}

/// Run an upgrade as it was confirmed: `commands` is the plan derived afresh, `approved` the one
/// that was confirmed.
pub fn apply_mcp_upgrade<F: Fn(&String) -> Result<String, String>>(
    record: &McpServerRecord,
    commands: Vec<String>,
    approved: &Vec<String>,
    run: F,
) -> (r: Result<UpgradeRun, AppError>)
    requires
        same_plan(texts(commands@), texts(approved@)) ==> may_run(run, commands@),
    ensures
        match r {
            Ok(UpgradeRun::Changed(plan)) => !same_plan(texts(commands@), texts(approved@))
                && plan.commands == commands && plan.latest_version.deep_view()
                == record@.remote_version,
            Ok(UpgradeRun::Printed(output)) => same_plan(texts(commands@), texts(approved@))
                && exists|outputs: Seq<Result<Seq<char>, Seq<char>>>| #[trigger]
                ran(run, commands@, outputs) && run_outcome(outputs) == Ok::<Seq<char>, Seq<char>>(
                    output@,
                ),
            Err(e) => same_plan(texts(commands@), texts(approved@)) && exists|
                outputs: Seq<Result<Seq<char>, Seq<char>>>,
            | #[trigger]
                ran(run, commands@, outputs) && run_outcome(outputs) is Err && e@ == failure(
                    ErrorKind::Internal,
                    "MCP upgrade failed: "@ + run_outcome(outputs)->Err_0,
                ),
        },
{
    if !same_texts(&sort_texts(&commands), &sort_texts(approved)) {
        return Ok(UpgradeRun::Changed(get_mcp_upgrade_plan(record, commands)));
    }
    match run_commands(&commands, run) {
        Ok(output) => Ok(UpgradeRun::Printed(output)),
        Err(error) => {
            let mut m = "MCP upgrade failed: ".to_owned();
            m.append(error.as_str());
            Err(AppError::internal(m.as_str()))
        },
    }
}

/// What is said of the version check that follows an upgrade.
pub open spec fn check_note_of(outcome: Option<Checked>) -> Seq<char> {
    match outcome {
        None => "check skipped"@,
        Some(c) => match c.error {
            Some(e) => "check failed: "@ + e,
            None => match c.latest {
                Some(latest) => if c.behind {
                    "still behind latest "@ + latest
                } else {
                    "latest is "@ + latest
                },
                None => "checked, no remote version"@,
            },
        },
    }
}

pub fn check_note(outcome: Option<&CheckOutcome>) -> (r: String)
    ensures
        r@ == check_note_of(
            match outcome {
                Some(c) => Some(c@),
                None => None,
            },
        ),
{
    match outcome {
        None => "check skipped".to_owned(),
        Some(c) => match &c.error {
            Some(e) => {
                let mut m = "check failed: ".to_owned();
                m.append(e.as_str());
                m
            },
            None => match &c.latest {
                Some(latest) => {
                    let mut m = if c.behind {
                        "still behind latest ".to_owned()
                    } else {
                        "latest is ".to_owned()
                    };
                    m.append(latest.as_str());
                    m
                },
                None => "checked, no remote version".to_owned(),
            },
        },
    }
}

/// The state that a probe leaves a definition in.
pub open spec fn probe_state_of(outcome: Result<Info, Seq<char>>) -> (Seq<char>, Seq<char>) {
    match outcome {
        Err(message) => ("fail"@, message),
        Ok(info) => (
            "ok"@,
            match (info.server_name, info.server_version) {
                (Some(name), Some(version)) => name + " "@ + version,
                (Some(name), None) => name,
                (None, Some(version)) => version,
                (None, None) => "handshake ok"@,
            },
        ),
    }
}

/// The state to record and to show for the outcome of a probe.
pub fn probe_state(outcome: Result<ProbeInfo, String>) -> (r: ProbeStateDto)
    ensures
        r.probe_status@ == probe_state_of(probe_view(outcome)).0,
        r.probe_message.deep_view() == Some(probe_state_of(probe_view(outcome)).1),
{
    match outcome {
        Err(message) => ProbeStateDto {
            probe_status: "fail".to_owned(),
            probe_message: Some(message),
        },
        Ok(info) => {
            let described = match (info.server_name, info.server_version) {
                (Some(name), Some(version)) => {
                    let mut m = name;
                    m.append(" ");
                    m.append(version.as_str());
                    m
                },
                (Some(name), None) => name,
                (None, Some(version)) => version,
                (None, None) => "handshake ok".to_owned(),
            };
            ProbeStateDto { probe_status: "ok".to_owned(), probe_message: Some(described) }
        },
    }
}

pub open spec fn probe_note_of(status: Seq<char>, message: Option<Seq<char>>) -> Seq<char> {
    match message {
        Some(m) => "probe "@ + status + ": "@ + m,
        None => "probe "@ + status,
    }
}

pub fn probe_note(probe: &ProbeStateDto) -> (r: String)
    ensures
        r@ == probe_note_of(probe.probe_status@, probe.probe_message.deep_view()),
{
    let mut note = "probe ".to_owned();
    note.append(probe.probe_status.as_str());
    if let Some(m) = &probe.probe_message {
        note.append(": ");
        note.append(m.as_str());
    }
    note
}

/// What is reported of an upgrade that ran: what it printed, then the checks that followed.
pub fn upgrade_report(output: String, check: Option<&CheckOutcome>, probe: &ProbeStateDto) -> (r:
    ApplyUpgradeOutcome)
    ensures
        r matches ApplyUpgradeOutcome::Ran { output: text } && text@ == output@
            + "\n\nversion check: "@ + check_note_of(
            match check {
                Some(c) => Some(c@),
                None => None,
            },
        ) + "\nprobe: "@ + probe_note_of(probe.probe_status@, probe.probe_message.deep_view()),
{
    let mut text = output;
    text.append("\n\nversion check: ");
    text.append(check_note(check).as_str());
    text.append("\nprobe: ");
    text.append(probe_note(probe).as_str());
    ApplyUpgradeOutcome::Ran { output: text }
}

proof fn lemma_distinct<T>(s: Seq<T>, x: T)
    ensures
        distinct(s).contains(x) <==> s.contains(x),
        distinct(s).no_duplicates(),
    decreases s.len(),
{
    if s.len() > 0 {
        let rest = s.drop_last();
        let before = distinct(rest);
        let after = distinct(s);
        lemma_distinct(rest, x);
        lemma_distinct(rest, s.last());
        if s.contains(x) {
            let i = choose|i: int| 0 <= i < s.len() && s[i] == x;
            if i < rest.len() {
                assert(rest[i] == x);
                let k = choose|k: int| 0 <= k < before.len() && before[k] == x;
                assert(after[k] == x);
            } else if !before.contains(x) {
                assert(after[before.len() as int] == x);
            }
        }
        if after.contains(x) {
            let k = choose|k: int| 0 <= k < after.len() && after[k] == x;
            if k < before.len() {
                assert(before[k] == x);
                let i = choose|i: int| 0 <= i < rest.len() && rest[i] == x;
                assert(s[i] == x);
            } else {
                assert(s[s.len() - 1] == x);
            }
        }
        if !before.contains(s.last()) {
            assert forall|i: int, j: int| 0 <= i < after.len() && 0 <= j < after.len() && i
                != j implies after[i] != after[j] by {
                if i < before.len() {
                    assert(before.contains(before[i]));
                }
                if j < before.len() {
                    assert(before.contains(before[j]));
                }
            }
        }
    }
}

proof fn lemma_gathered(sources: Seq<Source>, dirs: Seq<Seq<Seq<char>>>, c: Seq<char>)
    ensures
        gathered(sources, dirs).0.contains(c) <==> exists|i: int|
            0 <= i < sources.len() && plan_has(#[trigger] sources[i], dirs[i], c),
    decreases sources.len(),
{
    if sources.len() > 0 {
        let n = sources.len() - 1;
        let rest = sources.drop_last();
        let before = gathered(rest, dirs).0;
        let after = gathered(sources, dirs).0;
        lemma_gathered(rest, dirs, c);
        if after.contains(c) {
            let k = choose|k: int| 0 <= k < after.len() && after[k] == c;
            if k < before.len() {
                assert(before[k] == c);
                let i = choose|i: int| 0 <= i < rest.len() && plan_has(#[trigger] rest[i], dirs[i], c);
                assert(plan_has(sources[i], dirs[i], c));
            } else {
                let more = upgrade_plan(sources[n], dirs[n])->Ok_0;
                assert(more[k - before.len()] == c);
                assert(plan_has(sources[n], dirs[n], c));
            }
        }
        if exists|i: int| 0 <= i < sources.len() && plan_has(#[trigger] sources[i], dirs[i], c) {
            let i = choose|i: int|
                0 <= i < sources.len() && plan_has(#[trigger] sources[i], dirs[i], c);
            if i < rest.len() {
                assert(plan_has(rest[i], dirs[i], c));
                let k = choose|k: int| 0 <= k < before.len() && before[k] == c;
                assert(after[k] == c);
            } else {
                let more = upgrade_plan(sources[n], dirs[n])->Ok_0;
                let k = choose|k: int| 0 <= k < more.len() && more[k] == c;
                assert(after[before.len() + k] == c);
            }
        }
    }
}

/// Whether a command is part of the upgrade of a source.
pub open spec fn plan_has(source: Source, npx_dirs: Seq<Seq<char>>, c: Seq<char>) -> bool {
    upgrade_plan(source, npx_dirs) matches Ok(commands) && commands.contains(c)
}

/// The plan has every command of every source that is installed, no other, and none twice.
pub proof fn law_plan_covers_every_source(
    sources: Seq<Source>,
    npx_dirs: Seq<Seq<Seq<char>>>,
    c: Seq<char>,
)
    ensures
        (exists|i: int|
            0 <= i < sources.len() && plan_has(#[trigger] sources[i], npx_dirs[i], c)) <==> (
        command_union(sources, npx_dirs) matches Ok(commands) && commands.contains(c)),
        command_union(sources, npx_dirs) matches Ok(commands) ==> commands.no_duplicates(),
{
    lemma_gathered(sources, npx_dirs, c);
    lemma_distinct(gathered(sources, npx_dirs).0, c);
}

} // verus!
