//! What a definition holds after it was added, edited, renamed or taken over, field by field, and
//! what is refused.

use vstd::prelude::*;
use crate::error::{ErrorKind, Failure};
use crate::json::JsonTree;
use crate::mcp_library::{
    entry_of, named_or_refused, scalars_checked, unsafe_fields, unsafe_text, Written,
};
use crate::mcp_library::runs::{
    addition_begun, addition_checked, deletion_begun, edit_begun, edit_checked, stepped, Fleet,
    Mode,
};
use crate::mcp_library::takeover::taken_over;
use crate::mcp_store::{named, valid, Library, Server};
use crate::mcp_upstream::{inferred_source, law_source_round_trip, source_of_json};
use crate::mcp_writers::{AgentWriter, EntryDef, McpWriter};
use crate::text::{join, trimmed};
use crate::text_laws::law_control;
use crate::trimming::all_space;

verus! {

// ── what is refused ──

/// A name is taken as it stands without white space round it, unless nothing is left or it has a
/// path separator in it.
pub proof fn law_name_is_trimmed_or_refused(raw: Seq<char>)
    ensures
        named_or_refused(raw) matches Ok(name) ==> name == trimmed(raw) && name.len() > 0
            && !name.contains('/') && !name.contains('\\'),
        named_or_refused(raw) is Err <==> trimmed(raw).len() == 0 || trimmed(raw).contains('/')
            || trimmed(raw).contains('\\'),
        named_or_refused(raw) matches Err(e) ==> e.kind == ErrorKind::InvalidInput,
{
}

/// Whether a text may stand in a config file: no control characters but tabs.
pub open spec fn safe(s: Seq<char>) -> bool {
    forall|i: int|
        0 <= i < s.len() ==> (#[trigger] s[i] as u32 == 9) || (32 <= (s[i] as u32) < 127) || 160
            <= (s[i] as u32)
}

proof fn lemma_safe_char(c: char)
    ensures
        (!crate::text::is_control(c) || c == '\t') <==> (c as u32 == 9 || 32 <= (c as u32) < 127 || 160
            <= (c as u32)),
{
    law_control(c);
}

proof fn lemma_safe(s: Seq<char>)
    ensures
        safe(s) == !unsafe_text(s),
{
    if unsafe_text(s) {
        let i = choose|i: int|
            0 <= i < s.len() && crate::text::is_control(#[trigger] s[i]) && s[i] != '\t';
        lemma_safe_char(s[i]);
    } else {
        assert forall|i: int| 0 <= i < s.len() implies (#[trigger] s[i] as u32 == 9) || (32 <= (
        s[i] as u32) < 127) || 160 <= (s[i] as u32) by {
            lemma_safe_char(s[i]);
            assert(!crate::text::is_control(s[i]) || s[i] == '\t');
        }
    }
}

/// A definition is accepted exactly if its transport is one of the three and none of its texts,
/// names and values of its environment among them, has a control character other than a tab.
pub proof fn law_definition_is_checked_in_every_field(e: EntryDef)
    ensures
        scalars_checked(e) is Ok <==> ({
            &&& e.transport == seq!['s', 't', 'd', 'i', 'o'] || e.transport == seq!['h', 't', 't', 'p']
                || e.transport == seq![
                's',
                't',
                'r',
                'e',
                'a',
                'm',
                'a',
                'b',
                'l',
                'e',
                '-',
                'h',
                't',
                't',
                'p',
            ]
            &&& safe(e.name)
            &&& (e.command matches Some(c) ==> safe(c))
            &&& (e.url matches Some(u) ==> safe(u))
            &&& forall|i: int| 0 <= i < e.args.len() ==> safe(#[trigger] e.args[i])
            &&& forall|i: int|
                0 <= i < e.env.len() ==> safe((#[trigger] e.env[i]).0) && safe(e.env[i].1)
        }),
        scalars_checked(e) matches Err(f) ==> f.kind == ErrorKind::InvalidInput,
{
    reveal_strlit("stdio");
    reveal_strlit("http");
    reveal_strlit("streamable-http");
    assert("stdio"@ =~= seq!['s', 't', 'd', 'i', 'o']);
    assert("http"@ =~= seq!['h', 't', 't', 'p']);
    assert("streamable-http"@ =~= seq![
        's',
        't',
        'r',
        'e',
        'a',
        'm',
        'a',
        'b',
        'l',
        'e',
        '-',
        'h',
        't',
        't',
        'p',
    ]);
    lemma_safe(e.name);
    if let Some(c) = e.command {
        lemma_safe(c);
    }
    if let Some(u) = e.url {
        lemma_safe(u);
    }
    assert forall|i: int| 0 <= i < e.args.len() implies safe(#[trigger] e.args[i]) == !unsafe_text(
        e.args[i],
    ) by {
        lemma_safe(e.args[i]);
    }
    assert forall|i: int| 0 <= i < e.env.len() implies safe((#[trigger] e.env[i]).0) == !unsafe_text(
        e.env[i].0,
    ) && safe(e.env[i].1) == !unsafe_text(e.env[i].1) by {
        lemma_safe(e.env[i].0);
        lemma_safe(e.env[i].1);
    }
    let bad_args = exists|i: int| 0 <= i < e.args.len() && unsafe_text(#[trigger] e.args[i]);
    let bad_env = exists|i: int|
        0 <= i < e.env.len() && (unsafe_text((#[trigger] e.env[i]).0) || unsafe_text(e.env[i].1));
    if bad_args {
        let i = choose|i: int| 0 <= i < e.args.len() && unsafe_text(#[trigger] e.args[i]);
        assert(!safe(e.args[i]));
    }
    if bad_env {
        let i = choose|i: int|
            0 <= i < e.env.len() && (unsafe_text((#[trigger] e.env[i]).0) || unsafe_text(e.env[i].1));
        assert(!safe(e.env[i].0) || !safe(e.env[i].1));
    }
    assert(unsafe_fields(e).len() == 0 <==> !unsafe_text(e.name) && !(e.command matches Some(c)
        && unsafe_text(c)) && !bad_args && !(e.url matches Some(u) && unsafe_text(u)) && !bad_env);
}

/// An addition is refused for a bad name, a name that is managed already, or a blank transport, and
/// for nothing else before its source is prepared.
pub proof fn law_addition_is_checked(l: Library, entry: EntryDef)
    ensures
        addition_checked(l, entry) is Ok <==> {
            let name = trimmed(entry.name);
            &&& name.len() > 0 && !name.contains('/') && !name.contains('\\')
            &&& forall|id: Seq<char>| !#[trigger] named(l, name, id)
            &&& !all_space(entry.transport)
        },
        addition_checked(l, entry) matches Ok(name) ==> name == trimmed(entry.name),
{
    crate::trimming::lemma_trimmed(entry.transport);
}

/// An edit is refused for an unknown definition, a bad name, or a name that another definition has.
pub proof fn law_edit_is_checked(l: Library, id: Seq<char>, entry: EntryDef)
    requires
        valid(l),
    ensures
        edit_checked(l, id, entry) is Ok <==> {
            let name = trimmed(entry.name);
            &&& l.servers.contains_key(id)
            &&& name.len() > 0 && !name.contains('/') && !name.contains('\\')
            &&& forall|other: Seq<char>| #[trigger] named(l, name, other) ==> other == id
        },
        edit_checked(l, id, entry) matches Ok(name) ==> name == trimmed(entry.name),
{
    let name = trimmed(entry.name);
    if l.servers.contains_key(id) {
        assert(named(l, l.servers[id].name, id));
        if name == l.servers[id].name {
            assert forall|other: Seq<char>| #[trigger] named(l, name, other) implies other == id by {
                assert(l.servers[other].name == l.servers[id].name);
            }
        } else if forall|other: Seq<char>| #[trigger] named(l, name, other) ==> other == id {
            assert(!named(l, name, id));
        }
    }
}

// ── what is recorded ──

/// A definition that was added is recorded with everything it was given, under the trimmed name and
/// the new id, with nothing known of it yet; everything else in the library is as it was.
pub proof fn law_addition_records_the_entry(
    l: Library,
    entry: EntryDef,
    name: Seq<char>,
    source: JsonTree,
    agents: Seq<Seq<char>>,
    id: Seq<char>,
    now: i64,
)
    ensures
        ({
            let (r, after) = addition_begun(l, entry, name, Ok(source), agents, id, now);
            match r {
                Ok(f) => {
                    let s = after.servers[id];
                    &&& after.servers.contains_key(id)
                    &&& s.id == id && s.name == name
                    &&& s.transport == entry.transport
                    &&& s.command == entry.command
                    &&& s.args == entry.args
                    &&& s.url == entry.url
                    &&& s.env == entry.env
                    &&& s.source == source
                    &&& s.created_at == now && s.updated_at == now
                    &&& s.remote_version is None && s.last_checked_at is None
                    &&& s.last_check_error is None && s.probe_message is None
                    &&& s.probe_checked_at is None
                    &&& s.update_status == "unknown"@ && s.probe_status == "pending"@
                    &&& f.record == s
                    &&& f.mode == Mode::Add
                    &&& f.agents == agents
                    &&& f.applied.len() == 0 && f.pending.len() == 0 && f.failures.len() == 0
                    &&& f.at == 0
                    &&& after.bindings == l.bindings
                    &&& after.servers.remove(id) == l.servers.remove(id)
                    &&& !l.servers.contains_key(id)
                },
                Err(_) => after == l,
            }
        }),
{
    let (r, after) = addition_begun(l, entry, name, Ok(source), agents, id, now);
    if r is Ok {
        assert(after.servers.remove(id) =~= l.servers.remove(id));
    }
}

/// An edit holds what it was given: the definition that it carries to the agents has every field of
/// the entry and the new name. Under the same name it is recorded so at once, at a new revision
/// exactly if something changed; nothing else in the library changes.
pub proof fn law_edit_holds_the_entry(
    l: Library,
    id: Seq<char>,
    entry: EntryDef,
    name: Seq<char>,
    source: JsonTree,
    agents: Seq<Seq<char>>,
    approved: Option<Seq<char>>,
    now: i64,
)
    requires
        valid(l),
        l.servers.contains_key(id),
        agents.len() > 0,
    ensures
        ({
            let before = l.servers[id];
            let (r, after) = edit_begun(l, id, entry, name, Ok(source), agents, approved, now);
            let changed = before.transport != entry.transport || before.command != entry.command
                || before.args != entry.args || before.url != entry.url || before.env != entry.env
                || before.source != source;
            match r {
                Ok(f) => {
                    &&& f.record.id == id
                    &&& f.record.name == name
                    &&& f.record.transport == entry.transport
                    &&& f.record.command == entry.command
                    &&& f.record.args == entry.args
                    &&& f.record.url == entry.url
                    &&& f.record.env == entry.env
                    &&& f.record.source == source
                    &&& f.record.created_at == before.created_at
                    &&& f.former == before
                    &&& f.agents == agents && f.at == 0 && f.approved == approved
                    &&& f.applied.len() == 0 && f.pending.len() == 0
                    &&& name == before.name ==> {
                        &&& f.mode == Mode::Edit
                        &&& after.servers[id] == f.record
                        &&& f.record.updated_at == if changed {
                            now
                        } else {
                            before.updated_at
                        }
                    }
                    &&& name != before.name ==> f.mode == Mode::Rename && f.gating && after == l
                    &&& after.bindings == l.bindings
                    &&& after.servers.contains_key(id)
                    &&& after.servers.remove(id) == l.servers.remove(id)
                },
                Err(_) => after == l,
            }
        }),
{
    let before = l.servers[id];
    let (r, after) = edit_begun(l, id, entry, name, Ok(source), agents, approved, now);
    let s = crate::mcp_library::runs::edited(before, name, entry, source);
    if name == before.name {
        if s.transport == before.transport && s.command == before.command && s.args == before.args
            && s.url == before.url && s.env == before.env && s.source == before.source {
            assert(s =~= before);
        }
    }
    if r is Ok {
        assert(after.servers.remove(id) =~= l.servers.remove(id));
        if name == before.name {
            assert(after.servers[id] =~= r->Ok_0.record);
        }
    }
}

/// A rename that every agent has taken is recorded: the definition then has the new name and the
/// new content, a new revision and its old date, and its bindings and all other definitions stay.
pub proof fn law_rename_is_recorded(f: Fleet, l: Library, outcome: Result<Written, Failure>, now: i64)
    requires
        f.mode == Mode::Rename,
        stepped(f, l, outcome, now).1 != l,
    ensures
        ({
            let (next, after) = stepped(f, l, outcome, now);
            let s = after.servers[f.record.id];
            &&& s.id == f.record.id
            &&& s.name == f.record.name
            &&& s.transport == f.record.transport
            &&& s.command == f.record.command
            &&& s.args == f.record.args
            &&& s.url == f.record.url
            &&& s.env == f.record.env
            &&& s.source == f.record.source
            &&& s.updated_at == now
            &&& s.created_at == l.servers[f.record.id].created_at
            &&& after.bindings == l.bindings
            &&& after.servers.remove(f.record.id) == l.servers.remove(f.record.id)
        }),
{
    let after = stepped(f, l, outcome, now).1;
    assert(after.servers.remove(f.record.id) =~= l.servers.remove(f.record.id));
}

/// A deletion begins with all agents of the definition and changes nothing until they are done.
pub proof fn law_deletion_begins(
    l: Library,
    id: Seq<char>,
    agents: Seq<Seq<char>>,
    approved: Option<Seq<char>>,
    now: i64,
)
    ensures
        ({
            let (r, after) = deletion_begun(l, id, agents, approved, now);
            match r {
                Ok(f) => {
                    &&& l.servers.contains_key(id)
                    &&& f.mode == Mode::Delete
                    &&& f.record == l.servers[id] && f.former == l.servers[id]
                    &&& f.agents == agents && f.approved == approved && f.at == 0
                    &&& agents.len() > 0 ==> after == l && f.over is None
                },
                Err(e) => !l.servers.contains_key(id) && e.kind == ErrorKind::NotFound && after == l,
            }
        }),
{
}

/// An entry that is taken over under a new name becomes a definition with every field of the entry
/// in the file, and the source that its command line shows.
pub proof fn law_takeover_records_the_entry(
    l: Library,
    agent_key: Seq<char>,
    writer: AgentWriter,
    server_name: Seq<char>,
    text: Seq<char>,
    id: Seq<char>,
    binding_id: Seq<char>,
    now: i64,
    entry: EntryDef,
)
    requires
        writer.entry_in(text, server_name) == Ok::<
            Option<EntryDef>,
            crate::mcp_writers::WriteError,
        >(Some(entry)),
        forall|other: Seq<char>| !#[trigger] named(l, server_name, other),
    ensures
        ({
            let (r, after) = taken_over(
                l,
                agent_key,
                writer,
                server_name,
                text,
                id,
                binding_id,
                now,
            );
            r matches Ok(server) ==> {
                let s = after.servers[id];
                let b = after.bindings[(id, agent_key)];
                &&& server == id
                &&& after.servers.contains_key(id)
                &&& s.id == id && s.name == entry.name
                &&& s.transport == entry.transport
                &&& s.command == entry.command
                &&& s.args == entry.args
                &&& s.url == entry.url
                &&& s.env == entry.env
                &&& source_of_json(s.source) == Some(inferred_source(entry.command, entry.args))
                &&& after.bindings.contains_key((id, agent_key))
                &&& b.id == binding_id && b.server_id == id && b.agent_key == agent_key
                    && b.written_at == now
                &&& after.servers.remove(id) == l.servers.remove(id)
            }
        }),
{
    let (r, after) = taken_over(l, agent_key, writer, server_name, text, id, binding_id, now);
    law_source_round_trip(inferred_source(entry.command, entry.args));
    if r is Ok {
        assert(after.servers.remove(id) =~= l.servers.remove(id));
    }
}

/// An entry that is taken over under a name that is managed is bound to that definition, which stays
/// as it is; it is refused where the agent is bound already.
pub proof fn law_takeover_claims_in_place(
    l: Library,
    agent_key: Seq<char>,
    writer: AgentWriter,
    server_name: Seq<char>,
    text: Seq<char>,
    id: Seq<char>,
    binding_id: Seq<char>,
    now: i64,
    holder: Seq<char>,
)
    requires
        valid(l),
        writer.entry_in(text, server_name) matches Ok(Some(_)),
        named(l, server_name, holder),
    ensures
        ({
            let (r, after) = taken_over(
                l,
                agent_key,
                writer,
                server_name,
                text,
                id,
                binding_id,
                now,
            );
            &&& after.servers == l.servers
            &&& l.bindings.contains_key((holder, agent_key)) <==> r is Err
            &&& r is Err ==> after == l
            &&& r matches Ok(server) ==> server == holder && after.bindings.contains_key(
                (holder, agent_key),
            ) && after.bindings[(holder, agent_key)].id == binding_id && after.bindings[(
                holder,
                agent_key,
            )].written_at == now
        }),
{
    let chosen = choose|other: Seq<char>| #[trigger] named(l, server_name, other);
    assert(named(l, server_name, chosen));
    assert(l.servers[chosen].name == l.servers[holder].name);
}

/// An entry that is not there cannot be taken over, and one that cannot be read cannot either.
pub proof fn law_takeover_needs_an_entry(
    l: Library,
    agent_key: Seq<char>,
    writer: AgentWriter,
    server_name: Seq<char>,
    text: Seq<char>,
    id: Seq<char>,
    binding_id: Seq<char>,
    now: i64,
)
    requires
        !(writer.entry_in(text, server_name) matches Ok(Some(_))),
    ensures
        taken_over(l, agent_key, writer, server_name, text, id, binding_id, now).0 is Err,
        taken_over(l, agent_key, writer, server_name, text, id, binding_id, now).1 == l,
        writer.entry_in(text, server_name) matches Ok(None) ==> taken_over(
            l,
            agent_key,
            writer,
            server_name,
            text,
            id,
            binding_id,
            now,
        ).0->Err_0.kind == ErrorKind::NotFound,
{
}

/// What the definition behind a record is: each of its fields.
pub proof fn law_definition_of_record(s: Server)
    ensures
        entry_of(s).name == s.name,
        entry_of(s).transport == s.transport,
        entry_of(s).command == s.command,
        entry_of(s).args == s.args,
        entry_of(s).url == s.url,
        entry_of(s).env == s.env,
{
}

/// A refused definition is told by the fields that are at fault, each by its name and in their order.
pub proof fn law_faulty_fields_are_named(e: EntryDef)
    requires
        e.transport == "stdio"@ || e.transport == "http"@ || e.transport == "streamable-http"@,
    ensures
        ({
            let name = seq!["name"@];
            let command = seq!["command"@];
            let args = seq!["args"@];
            let url = seq!["url"@];
            let env = seq!["env"@];
            let none = Seq::<Seq<char>>::empty();
            let fields = (if safe(e.name) {
                none
            } else {
                name
            }) + (if e.command is None || safe(e.command->Some_0) {
                none
            } else {
                command
            }) + (if forall|i: int| 0 <= i < e.args.len() ==> safe(#[trigger] e.args[i]) {
                none
            } else {
                args
            }) + (if e.url is None || safe(e.url->Some_0) {
                none
            } else {
                url
            }) + (if forall|i: int|
                0 <= i < e.env.len() ==> safe((#[trigger] e.env[i]).0) && safe(e.env[i].1) {
                none
            } else {
                env
            });
            scalars_checked(e) matches Err(f) ==> f.message == "MCP entry fields ("@ + join(
                fields,
                ", "@,
            ) + ") must not contain newlines or control characters"@
        }),
{
    lemma_safe(e.name);
    if let Some(c) = e.command {
        lemma_safe(c);
    }
    if let Some(u) = e.url {
        lemma_safe(u);
    }
    assert forall|i: int| 0 <= i < e.args.len() implies safe(#[trigger] e.args[i]) == !unsafe_text(
        e.args[i],
    ) by {
        lemma_safe(e.args[i]);
    }
    assert forall|i: int| 0 <= i < e.env.len() implies safe((#[trigger] e.env[i]).0) == !unsafe_text(
        e.env[i].0,
    ) && safe(e.env[i].1) == !unsafe_text(e.env[i].1) by {
        lemma_safe(e.env[i].0);
        lemma_safe(e.env[i].1);
    }
    if exists|i: int| 0 <= i < e.args.len() && unsafe_text(#[trigger] e.args[i]) {
        let i = choose|i: int| 0 <= i < e.args.len() && unsafe_text(#[trigger] e.args[i]);
        assert(!safe(e.args[i]));
    }
    if exists|i: int|
        0 <= i < e.env.len() && (unsafe_text((#[trigger] e.env[i]).0) || unsafe_text(e.env[i].1)) {
        let i = choose|i: int|
            0 <= i < e.env.len() && (unsafe_text((#[trigger] e.env[i]).0) || unsafe_text(e.env[i].1));
        assert(!(safe(e.env[i].0) && safe(e.env[i].1)));
    }
}

/// A definition that is not accepted is neither added, nor edited in, nor taken over, and nothing
/// changes.
pub proof fn law_refused_definition_is_never_stored(
    l: Library,
    id: Seq<char>,
    entry: EntryDef,
    name: Seq<char>,
    prepared: Result<JsonTree, Failure>,
    agents: Seq<Seq<char>>,
    approved: Option<Seq<char>>,
    now: i64,
)
    requires
        scalars_checked(EntryDef { name, ..entry }) is Err,
    ensures
        addition_begun(l, entry, name, prepared, agents, id, now).0 is Err,
        addition_begun(l, entry, name, prepared, agents, id, now).1 == l,
        l.servers.contains_key(id) ==> edit_begun(
            l,
            id,
            entry,
            name,
            prepared,
            agents,
            approved,
            now,
        ).0 is Err && edit_begun(l, id, entry, name, prepared, agents, approved, now).1 == l,
        prepared matches Ok(_) ==> (addition_begun(l, entry, name, prepared, agents, id, now).0
            matches Err(e) && Err::<(), Failure>(e) == scalars_checked(EntryDef { name, ..entry })),
{
    let kept = EntryDef { name, ..entry };
    if let Ok(source) = prepared {
        assert(entry_of(crate::mcp_library::runs::new_server(id, kept, source, now)) == kept);
        if l.servers.contains_key(id) {
            assert(entry_of(crate::mcp_library::runs::edited(l.servers[id], name, entry, source))
                == kept);
        }
    }
}

/// An entry that is not accepted is not taken over as a new definition, and nothing changes.
pub proof fn law_refused_entry_is_not_taken_over(
    l: Library,
    agent_key: Seq<char>,
    writer: AgentWriter,
    name: Seq<char>,
    text: Seq<char>,
    entry: EntryDef,
    id: Seq<char>,
    binding_id: Seq<char>,
    now: i64,
)
    requires
        writer.entry_in(text, name) matches Ok(Some(found)) && found == entry,
        scalars_checked(entry) is Err,
        forall|other: Seq<char>| !#[trigger] named(l, name, other),
    ensures
        taken_over(l, agent_key, writer, name, text, id, binding_id, now).0 is Err,
        taken_over(l, agent_key, writer, name, text, id, binding_id, now).1 == l,
{
    let source = crate::mcp_upstream::source_tree(inferred_source(entry.command, entry.args));
    assert(entry_of(crate::mcp_library::runs::new_server(id, entry, source, now)) == entry);
}

/// What is accepted goes through: a definition with a new id and a free name is added, one that is
/// there is edited under its own name or a free one, and it is then carried to every agent that it
/// is meant for.
pub proof fn law_accepted_definition_goes_through(
    l: Library,
    id: Seq<char>,
    entry: EntryDef,
    name: Seq<char>,
    source: JsonTree,
    agents: Seq<Seq<char>>,
    approved: Option<Seq<char>>,
    now: i64,
)
    requires
        valid(l),
        scalars_checked(EntryDef { name, ..entry }) is Ok,
        forall|other: Seq<char>| #[trigger] named(l, name, other) ==> other == id,
    ensures
        !l.servers.contains_key(id) ==> (addition_begun(
            l,
            entry,
            name,
            Ok(source),
            agents,
            id,
            now,
        ).0 matches Ok(f) && (agents.len() > 0 ==> f.over is None && f.at == 0)),
        l.servers.contains_key(id) ==> (edit_begun(
            l,
            id,
            entry,
            name,
            Ok(source),
            agents,
            approved,
            now,
        ).0 matches Ok(f) && f.agents == agents && f.approved == approved && (agents.len() > 0
            ==> f.over is None && f.at == 0) && f.mode == if name == l.servers[id].name {
            Mode::Edit
        } else {
            Mode::Rename
        }),
{
    let kept = EntryDef { name, ..entry };
    assert(entry_of(crate::mcp_library::runs::new_server(id, kept, source, now)) == kept);
    if l.servers.contains_key(id) {
        let s = crate::mcp_library::runs::edited(l.servers[id], name, entry, source);
        assert(entry_of(s) == kept);
        assert(l.servers[id].id == id);
    } else {
        assert forall|other: Seq<char>| !#[trigger] named(l, name, other) by {}
    }
}

/// An accepted entry is taken over: as a new definition where its name is free.
pub proof fn law_accepted_entry_is_taken_over(
    l: Library,
    agent_key: Seq<char>,
    writer: AgentWriter,
    name: Seq<char>,
    text: Seq<char>,
    entry: EntryDef,
    id: Seq<char>,
    binding_id: Seq<char>,
    now: i64,
)
    requires
        writer.entry_in(text, name) matches Ok(Some(found)) && found == entry,
        entry.name == name,
        scalars_checked(entry) is Ok,
        forall|other: Seq<char>| !#[trigger] named(l, name, other),
        !l.servers.contains_key(id),
    ensures
        taken_over(l, agent_key, writer, name, text, id, binding_id, now).0 == Ok::<
            Seq<char>,
            Failure,
        >(id),
{
    let source = crate::mcp_upstream::source_tree(inferred_source(entry.command, entry.args));
    assert(entry_of(crate::mcp_library::runs::new_server(id, entry, source, now)) == entry);
}

} // verus!
