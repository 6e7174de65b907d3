//! Taking over an entry that an agent's config already has.

use vstd::prelude::*;
use crate::error::{failure, invalid, AppError, ErrorKind, Failure};
use crate::mcp_library::{live_fingerprint, name_view, writer_err, writer_failure, McpEntryDefDto};
use crate::mcp_library::funnel::{find_binding, ledger_fingerprint};
use crate::mcp_library::runs::{new_record, new_server, store_record, stored};
use crate::mcp_store::{
    binding_upserted, name_taken, named, Binding, Library, McpBindingRecord, SkillStore,
};
use crate::mcp_upstream::{infer_source, inferred_source, source_to_json, source_tree};
use crate::mcp_writers::{
    entry_fingerprint, fingerprint, AgentWriter, EntryDef, McpEntryDef, McpWriter,
};

verus! {

/// The definition that a name is taken by.
pub open spec fn holder(l: Library, name: Seq<char>) -> Option<Seq<char>> {
    if name_taken(l, name) {
        Some(choose|id: Seq<char>| #[trigger] named(l, name, id))
    } else {
        None
    }
}

pub open spec fn no_entry(server_name: Seq<char>, agent_key: Seq<char>) -> Failure {
    failure(
        ErrorKind::NotFound,
        "no MCP entry \""@ + server_name + "\" in agent '"@ + agent_key + "' config"@,
    )
}

pub open spec fn already_managed(server_name: Seq<char>, agent_key: Seq<char>) -> Failure {
    invalid("\""@ + server_name + "\" is already managed in agent '"@ + agent_key + "'"@)
}

/// A binding made of what an agent's file has.
pub open spec fn adopted(
    l: Library,
    server_id: Seq<char>,
    agent_key: Seq<char>,
    entry: EntryDef,
    binding_id: Seq<char>,
    now: i64,
) -> (Result<Seq<char>, Failure>, Library) {
    let b = Binding {
        id: binding_id,
        server_id,
        agent_key,
        fingerprint: fingerprint(entry),
        written_at: now,
    };
    match binding_upserted(l, b) {
        (Ok(_), after) => (Ok(server_id), after),
        (Err(e), after) => (Err(e), after),
    }
}

/// What taking over an entry does to the library. Where the name is managed already, the copy
/// is claimed in place, whether or not it is the same as the definition.
pub open spec fn taken_over(
    l: Library,
    agent_key: Seq<char>,
    writer: AgentWriter,
    server_name: Seq<char>,
    text: Seq<char>,
    id: Seq<char>,
    binding_id: Seq<char>,
    now: i64,
) -> (Result<Seq<char>, Failure>, Library) {
    match writer.entry_in(text, server_name) {
        Err(e) => (Err(writer_failure(e)), l),
        Ok(None) => (Err(no_entry(server_name, agent_key)), l),
        Ok(Some(entry)) => match holder(l, server_name) {
            Some(existing) => if l.bindings.contains_key((existing, agent_key)) {
                (Err(already_managed(server_name, agent_key)), l)
            } else {
                adopted(l, existing, agent_key, entry, binding_id, now)
            },
            None => {
                let source = source_tree(inferred_source(entry.command, entry.args));
                match stored(l, new_server(id, entry, source, now)) {
                    (Err(e), after) => (Err(e), after),
                    (Ok(_), after) => adopted(after, id, agent_key, entry, binding_id, now),
                }
            },
        },
    }
}

fn adopt(
    store: &mut SkillStore,
    server_id: String,
    agent_key: &str,
    entry: &McpEntryDef,
    binding_id: String,
    now: i64,
) -> (r: Result<String, AppError>)
    ensures
        (name_view(r), final(store)@) == adopted(
            old(store)@,
            server_id@,
            agent_key@,
            entry@,
            binding_id@,
            now,
        ),
{
    let binding = McpBindingRecord {
        id: binding_id,
        server_id: server_id.clone(),
        agent_key: agent_key.to_owned(),
        fingerprint: entry_fingerprint(entry),
        written_at: now,
    };
    match store.upsert_mcp_binding(binding) {
        Ok(_) => Ok(server_id),
        Err(e) => Err(e),
    }
}

/// Adopt a foreign agent entry: store its full definition with an inferred upstream source, and
/// bind it at its current fingerprint. `text` is the agent's config, which stays as it is:
/// takeover mirrors reality into the ledger. `id` and `binding_id` are new ids.
///
/// When the name is already managed, another agent's copy is claimed in place — takeover is
/// consent to manage, not an install; a divergence from the definition shows as a variant.
pub fn takeover_mcp_entry(
    store: &mut SkillStore,
    agent_key: &str,
    writer: &AgentWriter,
    server_name: &str,
    text: &str,
    id: String,
    binding_id: String,
    now: i64,
) -> (r: Result<String, AppError>)
    ensures
        (name_view(r), final(store)@) == taken_over(
            old(store)@,
            agent_key@,
            *writer,
            server_name@,
            text@,
            id@,
            binding_id@,
            now,
        ),
{
    let entry = match writer.read_entry(text, server_name) {
        Err(e) => {
            return Err(writer_err(e));
        },
        Ok(None) => {
            let mut m = "no MCP entry \"".to_owned();
            m.append(server_name);
            m.append("\" in agent '");
            m.append(agent_key);
            m.append("' config");
            return Err(AppError::not_found(m.as_str()));
        },
        Ok(Some(entry)) => entry,
    };
    if let Some(existing) = store.get_mcp_server_by_name(server_name) {
        proof {
            let chosen = holder(store@, server_name@)->Some_0;
            assert(named(store@, server_name@, existing@.id));
            assert(named(store@, server_name@, chosen));
            assert(store@.servers[chosen].name == store@.servers[existing@.id].name);
        }
        if find_binding(store, existing.id.as_str(), agent_key).is_some() {
            let mut m = "\"".to_owned();
            m.append(server_name);
            m.append("\" is already managed in agent '");
            m.append(agent_key);
            m.append("'");
            return Err(AppError::invalid_input(m.as_str()));
        }
        return adopt(store, existing.id, agent_key, &entry, binding_id, now);
    }
    let command = match &entry.command {
        Some(c) => Some(c.as_str()),
        None => None,
    };
    let source = source_to_json(&infer_source(command, &entry.args));
    let copy = entry.clone();
    let dto = McpEntryDefDto {
        name: copy.name,
        transport: copy.transport,
        command: copy.command,
        args: copy.args,
        url: copy.url,
        env: copy.env,
    };
    assert(dto@ =~= entry@);
    let record = new_record(id, dto, source, now);
    if let Err(e) = store_record(store, &record) {
        return Err(e);
    }
    adopt(store, record.id, agent_key, &entry, binding_id, now)
}

/// An entry that was taken over is bound as the file has it: it shows no drift.
pub proof fn law_takeover_mirrors_the_file(
    l: Library,
    agent_key: Seq<char>,
    writer: AgentWriter,
    server_name: Seq<char>,
    text: Seq<char>,
    id: Seq<char>,
    binding_id: Seq<char>,
    now: i64,
)
    ensures
        taken_over(l, agent_key, writer, server_name, text, id, binding_id, now).0 matches Ok(server)
            ==> live_fingerprint(writer, text, server_name) is Some && ledger_fingerprint(
            taken_over(l, agent_key, writer, server_name, text, id, binding_id, now).1,
            server,
            agent_key,
        ) == live_fingerprint(writer, text, server_name),
{
}

} // verus!
