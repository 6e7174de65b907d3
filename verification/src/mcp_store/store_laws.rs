//! What every operation of the store leaves in it, field by field.

use vstd::prelude::*;
use crate::error::ErrorKind;
use crate::json::{json_document, JsonTree};
use crate::mcp_store::{
    binding_key, binding_upserted, check_recorded, deleted, inserted, lists_bindings, lists_servers,
    named, probe_recorded, server_key, updated, valid, without_binding, Binding, Library,
    McpBindingRecord, McpServerRecord, Server,
};
use crate::mcp_store::columns::{columns_value, json_string_map, json_strings};
use crate::mcp_upstream::checks::{all_recorded, Checked};
use crate::order::lex_less;
use crate::table::{lemma_found, lemma_row};

verus! {

/// A server is taken in with everything it holds unless its id or its name is there already, and no
/// other one changes.
pub proof fn law_insertion(l: Library, s: Server, other: Seq<char>)
    ensures
        inserted(l, s).0 is Ok <==> !l.servers.contains_key(s.id) && forall|id: Seq<char>|
            l.servers.contains_key(id) ==> (#[trigger] l.servers[id]).name != s.name,
        inserted(l, s).0 is Ok ==> inserted(l, s).1.servers.contains_key(s.id) && inserted(
            l,
            s,
        ).1.servers[s.id] == s,
        inserted(l, s).0 is Err ==> inserted(l, s).1 == l,
        inserted(l, s).1.bindings == l.bindings,
        other != s.id ==> (inserted(l, s).1.servers.contains_key(other) <==> l.servers.contains_key(
            other,
        )) && inserted(l, s).1.servers[other] == l.servers[other],
        !l.servers.contains_key(s.id) ==> (inserted(l, s).0 matches Err(e) ==> e.kind
            == ErrorKind::InvalidInput),
        l.servers.contains_key(s.id) ==> (inserted(l, s).0 matches Err(e) && e.kind
            == ErrorKind::Database),
{
    if forall|id: Seq<char>| l.servers.contains_key(id) ==> (#[trigger] l.servers[id]).name != s.name {
        assert forall|id: Seq<char>| !#[trigger] named(l, s.name, id) by {}
    } else {
        let id = choose|id: Seq<char>| l.servers.contains_key(id) && (#[trigger] l.servers[id]).name
            == s.name;
        assert(named(l, s.name, id));
    }
}

/// An update stores every field it is given but the time of creation, which stays; it is refused
/// where the server is missing or another one has the name, and then changes nothing.
pub proof fn law_update(l: Library, s: Server, other: Seq<char>)
    ensures
        updated(l, s).0 is Ok <==> l.servers.contains_key(s.id) && forall|id: Seq<char>|
            id != s.id && l.servers.contains_key(id) ==> (#[trigger] l.servers[id]).name != s.name,
        updated(l, s).0 is Err ==> updated(l, s).1 == l,
        updated(l, s).1.bindings == l.bindings,
        updated(l, s).0 is Ok ==> updated(l, s).1.servers.contains_key(s.id) && ({
            let t = updated(l, s).1.servers[s.id];
            &&& t.id == s.id && t.name == s.name && t.transport == s.transport && t.command
                == s.command && t.args == s.args && t.url == s.url && t.env == s.env
            &&& t.source == s.source && t.update_status == s.update_status && t.remote_version
                == s.remote_version && t.last_checked_at == s.last_checked_at && t.last_check_error
                == s.last_check_error
            &&& t.probe_status == s.probe_status && t.probe_message == s.probe_message
                && t.probe_checked_at == s.probe_checked_at
            &&& t.created_at == l.servers[s.id].created_at && t.updated_at == s.updated_at
        }),
        other != s.id ==> (updated(l, s).1.servers.contains_key(other) <==> l.servers.contains_key(
            other,
        )) && updated(l, s).1.servers[other] == l.servers[other],
        !l.servers.contains_key(s.id) ==> (updated(l, s).0 matches Err(e) && e.kind
            == ErrorKind::NotFound),
{
    if exists|id: Seq<char>| #[trigger] named(l, s.name, id) && id != s.id {
        let id = choose|id: Seq<char>| #[trigger] named(l, s.name, id) && id != s.id;
        assert(l.servers[id].name == s.name);
    } else {
        assert forall|id: Seq<char>| id != s.id && l.servers.contains_key(id) implies (
        #[trigger] l.servers[id]).name != s.name by {
            assert(!named(l, s.name, id) || id == s.id);
        }
    }
}

/// A check's result is kept with the time it was made, in place of the last one.
pub proof fn law_check_is_kept(
    l: Library,
    id: Seq<char>,
    status: Seq<char>,
    version: Option<Seq<char>>,
    error: Option<Seq<char>>,
    now: i64,
    other: Seq<char>,
)
    requires
        l.servers.contains_key(id) ==> l.servers[id].id == id,
    ensures
        ({
            let (r, after) = check_recorded(l, id, status, version, error, now);
            &&& r is Ok <==> l.servers.contains_key(id)
            &&& r is Err ==> after == l
            &&& r is Ok ==> after.servers.contains_key(id) && after.servers[id].update_status == status
                && after.servers[id].remote_version == version && after.servers[id].last_checked_at
                == Some(now) && after.servers[id].last_check_error == error
                && after.servers[id].probe_status == l.servers[id].probe_status
                && after.servers[id].probe_message == l.servers[id].probe_message
                && after.servers[id].probe_checked_at == l.servers[id].probe_checked_at
            &&& other != id ==> after.servers[other] == l.servers[other] && (
            after.servers.contains_key(other) <==> l.servers.contains_key(other))
        }),
{
}

/// A probe's result is kept with the time it was made, in place of the last one.
pub proof fn law_probe_is_kept(
    l: Library,
    id: Seq<char>,
    status: Seq<char>,
    message: Option<Seq<char>>,
    now: i64,
    other: Seq<char>,
)
    requires
        l.servers.contains_key(id) ==> l.servers[id].id == id,
    ensures
        ({
            let (r, after) = probe_recorded(l, id, status, message, now);
            &&& r is Ok <==> l.servers.contains_key(id)
            &&& r is Err ==> after == l
            &&& r is Ok ==> after.servers.contains_key(id) && after.servers[id].probe_status == status
                && after.servers[id].probe_message == message && after.servers[id].probe_checked_at
                == Some(now) && after.servers[id].update_status == l.servers[id].update_status
                && after.servers[id].remote_version == l.servers[id].remote_version
                && after.servers[id].last_checked_at == l.servers[id].last_checked_at
                && after.servers[id].last_check_error == l.servers[id].last_check_error
            &&& other != id ==> after.servers[other] == l.servers[other] && (
            after.servers.contains_key(other) <==> l.servers.contains_key(other))
        }),
{
}

/// A binding stands under its server and its agent with everything it holds; every other one whose
/// id it does not take stays.
pub proof fn law_binding(l: Library, b: Binding, k: (Seq<char>, Seq<char>))
    ensures
        binding_upserted(l, b).0 is Ok <==> l.servers.contains_key(b.server_id),
        binding_upserted(l, b).0 is Err ==> binding_upserted(l, b).1 == l,
        binding_upserted(l, b).1.servers == l.servers,
        binding_upserted(l, b).0 is Ok ==> binding_upserted(l, b).1.bindings.contains_key(
            (b.server_id, b.agent_key),
        ) && binding_upserted(l, b).1.bindings[(b.server_id, b.agent_key)] == b,
        binding_upserted(l, b).0 is Ok && k != (b.server_id, b.agent_key) ==> (binding_upserted(
            l,
            b,
        ).1.bindings.contains_key(k) <==> l.bindings.contains_key(k) && l.bindings[k].id != b.id),
        binding_upserted(l, b).1.bindings.contains_key(k) && k != (b.server_id, b.agent_key)
            ==> binding_upserted(l, b).1.bindings[k] == l.bindings[k],
{
}

/// Taking a binding out takes out that one alone.
pub proof fn law_unbinding(l: Library, id: Seq<char>, agent: Seq<char>, k: (Seq<char>, Seq<char>))
    ensures
        !without_binding(l, id, agent).bindings.contains_key((id, agent)),
        k != (id, agent) ==> (without_binding(l, id, agent).bindings.contains_key(k)
            <==> l.bindings.contains_key(k)) && without_binding(l, id, agent).bindings[k]
            == l.bindings[k],
        without_binding(l, id, agent).servers == l.servers,
{
}

/// Deleting a server that is not there is refused and changes nothing.
pub proof fn law_missing_server_is_not_deleted(l: Library, id: Seq<char>)
    requires
        !l.servers.contains_key(id),
    ensures
        deleted(l, id).1 == l,
        deleted(l, id).0 matches Err(e) && e.kind == ErrorKind::NotFound,
{
}

/// A record stands for the server with the same field in every place.
pub proof fn law_record_stands_for(r: McpServerRecord)
    ensures
        r@.id == r.id@,
        r@.name == r.name@,
        r@.transport == r.transport@,
        r@.command is Some <==> r.command is Some,
        r.command matches Some(c) ==> r@.command == Some(c@),
        r@.args.len() == r.args@.len(),
        forall|i: int| 0 <= i < r.args@.len() ==> #[trigger] r@.args[i] == r.args@[i]@,
        r@.url is Some <==> r.url is Some,
        r.url matches Some(u) ==> r@.url == Some(u@),
        r@.env == r.env@,
        r@.source == r.source@,
        r@.update_status == r.update_status@,
        r@.remote_version is Some <==> r.remote_version is Some,
        r.remote_version matches Some(v) ==> r@.remote_version == Some(v@),
        r@.last_checked_at == r.last_checked_at,
        r@.last_check_error is Some <==> r.last_check_error is Some,
        r.last_check_error matches Some(e) ==> r@.last_check_error == Some(e@),
        r@.probe_status == r.probe_status@,
        r@.probe_message is Some <==> r.probe_message is Some,
        r.probe_message matches Some(m) ==> r@.probe_message == Some(m@),
        r@.probe_checked_at == r.probe_checked_at,
        r@.created_at == r.created_at,
        r@.updated_at == r.updated_at,
{
}

/// A binding's row stands for the binding with the same field in every place.
pub proof fn law_row_stands_for(b: McpBindingRecord)
    ensures
        b@.id == b.id@,
        b@.server_id == b.server_id@,
        b@.agent_key == b.agent_key@,
        b@.fingerprint == b.fingerprint@,
        b@.written_at == b.written_at,
{
}

/// A listing has every server once, each as it is stored, and ascends by name.
pub proof fn law_listing(rows: Seq<Server>, l: Library, id: Seq<char>, i: int, j: int)
    requires
        lists_servers(rows, l),
    ensures
        0 <= i < rows.len() ==> l.servers.contains_key(rows[i].id) && l.servers[rows[i].id] == rows[i],
        0 <= i < j < rows.len() ==> rows[i].id != rows[j].id && lex_less(rows[i].name, rows[j].name),
        l.servers.contains_key(id) ==> exists|k: int|
            0 <= k < rows.len() && #[trigger] rows[k] == l.servers[id],
{
    if 0 <= i < rows.len() {
        lemma_row(rows, server_key(), i);
    }
    if 0 <= i < j < rows.len() {
        assert(server_key()(rows[i]) != server_key()(rows[j]));
    }
    if l.servers.contains_key(id) {
        lemma_found(rows, server_key(), id);
    }
}

/// A listing of bindings has every one once, each as it is stored, and ascends by server and agent.
pub proof fn law_binding_listing(
    rows: Seq<Binding>,
    l: Library,
    k: (Seq<char>, Seq<char>),
    i: int,
    j: int,
)
    requires
        lists_bindings(rows, l),
    ensures
        0 <= i < rows.len() ==> l.bindings.contains_key((rows[i].server_id, rows[i].agent_key))
            && l.bindings[(rows[i].server_id, rows[i].agent_key)] == rows[i],
        0 <= i < j < rows.len() ==> lex_less(rows[i].server_id, rows[j].server_id) || (
        rows[i].server_id == rows[j].server_id && lex_less(rows[i].agent_key, rows[j].agent_key)),
        l.bindings.contains_key(k) ==> exists|n: int|
            0 <= n < rows.len() && #[trigger] rows[n] == l.bindings[k],
{
    if 0 <= i < rows.len() {
        lemma_row(rows, binding_key(), i);
    }
    if l.bindings.contains_key(k) {
        lemma_found(rows, binding_key(), k);
    }
}

proof fn lemma_recorded_others(
    l: Library,
    results: Seq<(Seq<char>, Checked)>,
    now: i64,
    id: Seq<char>,
)
    requires
        valid(l),
        forall|k: int| 0 <= k < results.len() ==> (#[trigger] results[k]).0 != id,
    ensures
        all_recorded(l, results, now).servers.contains_key(id) == l.servers.contains_key(id),
        all_recorded(l, results, now).servers[id] == l.servers[id],
    decreases results.len(),
{
    if results.len() > 0 {
        let front = results.drop_last();
        assert forall|k: int| 0 <= k < front.len() implies (#[trigger] front[k]).0 != id by {
            assert(front[k] == results[k]);
        }
        lemma_recorded_others(l, front, now, id);
        lemma_recorded_ids(l, front, now);
        assert(results.last() == results[results.len() - 1]);
    }
}

proof fn lemma_recorded_ids(l: Library, results: Seq<(Seq<char>, Checked)>, now: i64)
    requires
        valid(l),
    ensures
        forall|id: Seq<char>| #[trigger]
            all_recorded(l, results, now).servers.contains_key(id) <==> l.servers.contains_key(id),
        forall|id: Seq<char>| #[trigger]
            all_recorded(l, results, now).servers.contains_key(id) ==> all_recorded(
                l,
                results,
                now,
            ).servers[id].id == id,
    decreases results.len(),
{
    if results.len() > 0 {
        lemma_recorded_ids(l, results.drop_last(), now);
    }
}

/// Every check of a round is kept for its server, the last one where it was checked twice.
pub proof fn law_round_is_kept(l: Library, results: Seq<(Seq<char>, Checked)>, now: i64, i: int)
    requires
        valid(l),
        0 <= i < results.len(),
        l.servers.contains_key(results[i].0),
        forall|k: int| i < k < results.len() ==> (#[trigger] results[k]).0 != results[i].0,
    ensures
        ({
            let s = all_recorded(l, results, now).servers[results[i].0];
            let c = results[i].1;
            &&& s.remote_version == c.latest
            &&& s.last_check_error == c.error
            &&& s.last_checked_at == Some(now)
            &&& s.update_status == if c.error is Some {
                "error"@
            } else if c.behind {
                "update_available"@
            } else {
                "up_to_date"@
            }
        }),
    decreases results.len(),
{
    let front = results.drop_last();
    let id = results[i].0;
    lemma_recorded_ids(l, front, now);
    assert(results.last() == results[results.len() - 1]);
    if i < front.len() {
        assert forall|k: int| i < k < front.len() implies (#[trigger] front[k]).0 != front[i].0 by {
            assert(front[k] == results[k]);
        }
        assert(results[results.len() - 1].0 != id);
        law_round_is_kept(l, front, now, i);
    }
}

/// A row's columns are read each by itself, and the first that cannot be read is named.
pub proof fn law_columns_are_read(args: Seq<char>, env: Seq<char>, source: Seq<char>)
    ensures
        columns_value(args, env, source) matches Ok((a, m, s)) ==> json_strings(args) == Ok::<
            Seq<Seq<char>>,
            Seq<char>,
        >(a) && json_string_map(env) == Ok::<Seq<(Seq<char>, Seq<char>)>, Seq<char>>(m)
            && json_document(source) == Ok::<JsonTree, Seq<char>>(s),
        json_strings(args) is Ok && json_string_map(env) is Ok && json_document(source) is Ok
            ==> columns_value(args, env, source) is Ok,
        json_strings(args) matches Err(e) ==> (columns_value(args, env, source) matches Err(message)
            && message == "column "@ + "mcp_servers.args"@ + ": "@ + e),
        json_strings(args) is Ok ==> (json_string_map(env) matches Err(e) ==> (columns_value(
            args,
            env,
            source,
        ) matches Err(message) && message == "column "@ + "mcp_servers.env"@ + ": "@ + e)),
        json_strings(args) is Ok && json_string_map(env) is Ok ==> (json_document(source) matches Err(e)
            ==> (columns_value(args, env, source) matches Err(message) && message == "column "@
            + "mcp_servers.source"@ + ": "@ + e)),
{
}

} // verus!
