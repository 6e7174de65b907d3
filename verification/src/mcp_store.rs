//! The MCP definition library and the per-agent deployment ledger.
//!
//! [`SkillStore`] holds the two tables: definitions, whose names are unique, and bindings, of
//! which there is at most one for a definition and an agent. Bindings belong to a definition
//! and go with it. [`columns`] says how a definition stands in columns of text.

pub mod columns;
pub mod store_laws;

use vstd::prelude::*;
use crate::env_map::EnvMap;
use crate::error::{failure, invalid, AppError, ErrorKind, Failure};
use crate::json::{copy_json, Json, JsonTree};
use crate::order::{
    lemma_lex_irreflexive, lemma_lex_total, lemma_lex_transitive, lex_less, text_less,
};
use crate::table::{
    has_row, keys_distinct, lemma_found, lemma_insert_row, lemma_remove_row, lemma_row,
    lemma_same_table, row_at, table,
};
use crate::text::{same, texts};
use crate::text_lists::{copy_text, copy_texts};

verus! {

/// One managed library entry; `name` is the identity.
///
/// `env` keeps its names in order so that serialization is deterministic — two otherwise
/// identical records produce byte-identical rows.
#[derive(Debug, PartialEq)]
pub struct McpServerRecord {
    pub id: String,
    pub name: String,
    /// "stdio" | "http" | "streamable-http" (the inventory's normalized set).
    pub transport: String,
    pub command: Option<String>,
    pub args: Vec<String>,
    pub url: Option<String>,
    pub env: EnvMap,
    /// Upstream source tag, e.g. `{"kind":"none"}`.
    pub source: Json,
    /// "unknown" | "up_to_date" | "update_available" | "error".
    pub update_status: String,
    pub remote_version: Option<String>,
    pub last_checked_at: Option<i64>,
    pub last_check_error: Option<String>,
    /// "pending" | "ok" | "fail".
    pub probe_status: String,
    pub probe_message: Option<String>,
    pub probe_checked_at: Option<i64>,
    pub created_at: i64,
    pub updated_at: i64,
}

/// What an [`McpServerRecord`] holds.
#[verifier::ext_equal]
pub ghost struct Server {
    pub id: Seq<char>,
    pub name: Seq<char>,
    pub transport: Seq<char>,
    pub command: Option<Seq<char>>,
    pub args: Seq<Seq<char>>,
    pub url: Option<Seq<char>>,
    pub env: Seq<(Seq<char>, Seq<char>)>,
    pub source: JsonTree,
    pub update_status: Seq<char>,
    pub remote_version: Option<Seq<char>>,
    pub last_checked_at: Option<i64>,
    pub last_check_error: Option<Seq<char>>,
    pub probe_status: Seq<char>,
    pub probe_message: Option<Seq<char>>,
    pub probe_checked_at: Option<i64>,
    pub created_at: i64,
    pub updated_at: i64,
}

impl View for McpServerRecord {
    type V = Server;

    open spec fn view(&self) -> Server {
        Server {
            id: self.id@,
            name: self.name@,
            transport: self.transport@,
            command: self.command.deep_view(),
            args: texts(self.args@),
            url: self.url.deep_view(),
            env: self.env@,
            source: self.source@,
            update_status: self.update_status@,
            remote_version: self.remote_version.deep_view(),
            last_checked_at: self.last_checked_at,
            last_check_error: self.last_check_error.deep_view(),
            probe_status: self.probe_status@,
            probe_message: self.probe_message.deep_view(),
            probe_checked_at: self.probe_checked_at,
            created_at: self.created_at,
            updated_at: self.updated_at,
        }
    }
}

impl Clone for McpServerRecord {
    fn clone(&self) -> (r: Self)
        ensures
            r@ == self@,
    {
        McpServerRecord {
            id: self.id.clone(),
            name: self.name.clone(),
            transport: self.transport.clone(),
            command: copy_text(&self.command),
            args: copy_texts(&self.args),
            url: copy_text(&self.url),
            env: self.env.clone(),
            source: copy_json(&self.source),
            update_status: self.update_status.clone(),
            remote_version: copy_text(&self.remote_version),
            last_checked_at: self.last_checked_at,
            last_check_error: copy_text(&self.last_check_error),
            probe_status: self.probe_status.clone(),
            probe_message: copy_text(&self.probe_message),
            probe_checked_at: self.probe_checked_at,
            created_at: self.created_at,
            updated_at: self.updated_at,
        }
    }
}

/// One (server, agent) deployment row: the entry exists in that agent's config and
/// `fingerprint` was true of it at `written_at`.
#[derive(Debug)]
pub struct McpBindingRecord {
    pub id: String,
    pub server_id: String,
    pub agent_key: String,
    pub fingerprint: String,
    pub written_at: i64,
}

/// What an [`McpBindingRecord`] holds.
#[verifier::ext_equal]
pub ghost struct Binding {
    pub id: Seq<char>,
    pub server_id: Seq<char>,
    pub agent_key: Seq<char>,
    pub fingerprint: Seq<char>,
    pub written_at: i64,
}

impl View for McpBindingRecord {
    type V = Binding;

    open spec fn view(&self) -> Binding {
        Binding {
            id: self.id@,
            server_id: self.server_id@,
            agent_key: self.agent_key@,
            fingerprint: self.fingerprint@,
            written_at: self.written_at,
        }
    }
}

impl Clone for McpBindingRecord {
    fn clone(&self) -> (r: Self)
        ensures
            r@ == self@,
    {
        McpBindingRecord {
            id: self.id.clone(),
            server_id: self.server_id.clone(),
            agent_key: self.agent_key.clone(),
            fingerprint: self.fingerprint.clone(),
            written_at: self.written_at,
        }
    }
}

/// What a [`SkillStore`] holds: definitions by id, and bindings by definition and agent.
#[verifier::ext_equal]
pub ghost struct Library {
    pub servers: Map<Seq<char>, Server>,
    pub bindings: Map<(Seq<char>, Seq<char>), Binding>,
}

/// Rows stand under their keys, no two definitions share a name, every binding belongs to a
/// definition, and no two bindings share an id.
pub open spec fn valid(l: Library) -> bool {
    &&& forall|id: Seq<char>| #[trigger]
        l.servers.contains_key(id) ==> l.servers[id].id == id
    &&& forall|a: Seq<char>, b: Seq<char>|
        l.servers.contains_key(a) && l.servers.contains_key(b) && (#[trigger] l.servers[a]).name == (
        #[trigger] l.servers[b]).name ==> a == b
    &&& forall|k: (Seq<char>, Seq<char>)| #[trigger]
        l.bindings.contains_key(k) ==> l.bindings[k].server_id == k.0 && l.bindings[k].agent_key
            == k.1 && l.servers.contains_key(k.0)
    &&& forall|j: (Seq<char>, Seq<char>), k: (Seq<char>, Seq<char>)|
        l.bindings.contains_key(j) && l.bindings.contains_key(k) && (#[trigger] l.bindings[j]).id
            == (#[trigger] l.bindings[k]).id ==> j == k
}

/// The definition of that name.
pub open spec fn named(l: Library, name: Seq<char>, id: Seq<char>) -> bool {
    l.servers.contains_key(id) && l.servers[id].name == name
}

pub open spec fn name_taken(l: Library, name: Seq<char>) -> bool {
    exists|id: Seq<char>| #[trigger] named(l, name, id)
}

pub open spec fn server_views(v: Seq<McpServerRecord>) -> Seq<Server> {
    Seq::new(v.len(), |i: int| v[i]@)
}

pub open spec fn binding_views(v: Seq<McpBindingRecord>) -> Seq<Binding> {
    Seq::new(v.len(), |i: int| v[i]@)
}

pub open spec fn server_key() -> spec_fn(Server) -> Seq<char> {
    |s: Server| s.id
}

pub open spec fn binding_key() -> spec_fn(Binding) -> (Seq<char>, Seq<char>) {
    |b: Binding| (b.server_id, b.agent_key)
}

pub open spec fn by_name(rows: Seq<Server>) -> bool {
    forall|i: int, j: int|
        0 <= i < j < rows.len() ==> lex_less((#[trigger] rows[i]).name, (#[trigger] rows[j]).name)
}

/// One pair comes before another: by the first text, and by the second where the first is the
/// same.
pub open spec fn pair_less(a: (Seq<char>, Seq<char>), b: (Seq<char>, Seq<char>)) -> bool {
    lex_less(a.0, b.0) || (a.0 == b.0 && lex_less(a.1, b.1))
}

pub open spec fn by_pair(rows: Seq<Binding>) -> bool {
    forall|i: int, j: int|
        0 <= i < j < rows.len() ==> pair_less(
            ((#[trigger] rows[i]).server_id, rows[i].agent_key),
            ((#[trigger] rows[j]).server_id, rows[j].agent_key),
        )
}

/// The list has the definitions of the library, each once, in the order of their names.
pub open spec fn lists_servers(rows: Seq<Server>, l: Library) -> bool {
    &&& by_name(rows)
    &&& keys_distinct(rows, server_key())
    &&& table(rows, server_key()) == l.servers
}

/// The list has the bindings of the library, each once, in the order of their definitions and
/// agents.
pub open spec fn lists_bindings(rows: Seq<Binding>, l: Library) -> bool {
    &&& by_pair(rows)
    &&& keys_distinct(rows, binding_key())
    &&& table(rows, binding_key()) == l.bindings
}

/// The list has the bindings of one definition, each once, in the order of their agents.
pub open spec fn lists_bindings_of(rows: Seq<Binding>, l: Library, server_id: Seq<char>) -> bool {
    &&& forall|i: int, j: int|
        0 <= i < j < rows.len() ==> lex_less(
            (#[trigger] rows[i]).agent_key,
            (#[trigger] rows[j]).agent_key,
        )
    &&& forall|i: int|
        0 <= i < rows.len() ==> (#[trigger] rows[i]).server_id == server_id
            && l.bindings.contains_key((server_id, rows[i].agent_key)) && l.bindings[(
            server_id,
            rows[i].agent_key,
        )] == rows[i]
    &&& forall|agent: Seq<char>| #[trigger]
        l.bindings.contains_key((server_id, agent)) ==> exists|i: int|
            0 <= i < rows.len() && (#[trigger] rows[i]).agent_key == agent
}

pub open spec fn unit_view(r: Result<(), AppError>) -> Result<(), Failure> {
    match r {
        Ok(_) => Ok(()),
        Err(e) => Err(e@),
    }
}

pub open spec fn server_missing(id: Seq<char>) -> Failure {
    failure(ErrorKind::NotFound, "MCP server "@ + id + " not found"@)
}

/// The answer for a definition that is not there.
pub fn no_such_server(id: &str) -> (r: AppError)
    ensures
        r@ == server_missing(id@),
{
    let mut m = "MCP server ".to_owned();
    m.append(id);
    m.append(" not found");
    AppError::not_found(m.as_str())
}

pub open spec fn name_clash(name: Seq<char>) -> Failure {
    invalid("MCP server name \""@ + name + "\" already exists"@)
}

fn name_exists(name: &str) -> (r: AppError)
    ensures
        r@ == name_clash(name@),
{
    let mut m = "MCP server name \"".to_owned();
    m.append(name);
    m.append("\" already exists");
    AppError::invalid_input(m.as_str())
}

/// What inserting a definition does.
pub open spec fn inserted(l: Library, s: Server) -> (Result<(), Failure>, Library) {
    if l.servers.contains_key(s.id) {
        (
            Err(failure(ErrorKind::Database, "UNIQUE constraint failed: mcp_servers.id"@)),
            l,
        )
    } else if name_taken(l, s.name) {
        (Err(name_clash(s.name)), l)
    } else {
        (Ok(()), Library { servers: l.servers.insert(s.id, s), ..l })
    }
}

/// What overwriting a definition does: `created_at` is owned by the insert and never moves.
pub open spec fn updated(l: Library, s: Server) -> (Result<(), Failure>, Library) {
    if !l.servers.contains_key(s.id) {
        (Err(server_missing(s.id)), l)
    } else if exists|id: Seq<char>| #[trigger] named(l, s.name, id) && id != s.id {
        (Err(name_clash(s.name)), l)
    } else {
        (
            Ok(()),
            Library {
                servers: l.servers.insert(
                    s.id,
                    Server { created_at: l.servers[s.id].created_at, ..s },
                ),
                ..l
            },
        )
    }
}

/// What is left without a definition: its bindings go with it.
pub open spec fn without_server(l: Library, id: Seq<char>) -> Library {
    Library {
        servers: l.servers.remove(id),
        bindings: Map::new(
            |k: (Seq<char>, Seq<char>)| l.bindings.contains_key(k) && k.0 != id,
            |k: (Seq<char>, Seq<char>)| l.bindings[k],
        ),
    }
}

pub open spec fn deleted(l: Library, id: Seq<char>) -> (Result<(), Failure>, Library) {
    if l.servers.contains_key(id) {
        (Ok(()), without_server(l, id))
    } else {
        (Err(server_missing(id)), l)
    }
}

pub open spec fn with_server(l: Library, s: Server) -> Library {
    Library { servers: l.servers.insert(s.id, s), ..l }
}

/// The result of an upstream check, recorded. `updated_at` stays: a check result is metadata
/// about the definition, not a change to it.
pub open spec fn check_recorded(
    l: Library,
    id: Seq<char>,
    status: Seq<char>,
    remote_version: Option<Seq<char>>,
    error: Option<Seq<char>>,
    now: i64,
) -> (Result<(), Failure>, Library) {
    if l.servers.contains_key(id) {
        (
            Ok(()),
            with_server(
                l,
                Server {
                    update_status: status,
                    remote_version,
                    last_checked_at: Some(now),
                    last_check_error: error,
                    ..l.servers[id]
                },
            ),
        )
    } else {
        (Err(server_missing(id)), l)
    }
}

/// The result of a liveness probe, recorded. `updated_at` stays.
pub open spec fn probe_recorded(
    l: Library,
    id: Seq<char>,
    status: Seq<char>,
    message: Option<Seq<char>>,
    now: i64,
) -> (Result<(), Failure>, Library) {
    if l.servers.contains_key(id) {
        (
            Ok(()),
            with_server(
                l,
                Server {
                    probe_status: status,
                    probe_message: message,
                    probe_checked_at: Some(now),
                    ..l.servers[id]
                },
            ),
        )
    } else {
        (Err(server_missing(id)), l)
    }
}

/// A binding recorded in place of every row with its definition and agent, or with its id.
pub open spec fn bound_to(l: Library, b: Binding) -> Library {
    Library {
        bindings: Map::new(
            |k: (Seq<char>, Seq<char>)| l.bindings.contains_key(k) && l.bindings[k].id != b.id,
            |k: (Seq<char>, Seq<char>)| l.bindings[k],
        ).insert((b.server_id, b.agent_key), b),
        ..l
    }
}

pub open spec fn binding_upserted(l: Library, b: Binding) -> (Result<(), Failure>, Library) {
    if l.servers.contains_key(b.server_id) {
        (Ok(()), bound_to(l, b))
    } else {
        (Err(failure(ErrorKind::Database, "FOREIGN KEY constraint failed"@)), l)
    }
}

pub open spec fn without_binding(l: Library, server_id: Seq<char>, agent_key: Seq<char>) -> Library {
    Library { bindings: l.bindings.remove((server_id, agent_key)), ..l }
}

/// Definitions and bindings, each row once.
pub struct SkillStore {
    servers: Vec<McpServerRecord>,
    bindings: Vec<McpBindingRecord>,
}

impl View for SkillStore {
    type V = Library;

    closed spec fn view(&self) -> Library {
        library_of(server_views(self.servers@), binding_views(self.bindings@))
    }
}

spec fn library_of(servers: Seq<Server>, bindings: Seq<Binding>) -> Library {
    Library {
        servers: table(servers, server_key()),
        bindings: table(bindings, binding_key()),
    }
}

spec fn ids_differ(rows: Seq<Binding>) -> bool {
    forall|i: int, j: int|
        0 <= i < j < rows.len() ==> (#[trigger] rows[i]).id != (#[trigger] rows[j]).id
}

// What the rows of a store keep to.
spec fn rows_fit(servers: Seq<Server>, bindings: Seq<Binding>) -> bool {
    &&& by_name(servers)
    &&& keys_distinct(servers, server_key())
    &&& by_pair(bindings)
    &&& keys_distinct(bindings, binding_key())
    &&& ids_differ(bindings)
    &&& forall|i: int|
        0 <= i < bindings.len() ==> has_row(
            servers,
            server_key(),
            (#[trigger] bindings[i]).server_id,
        )
}

proof fn lemma_rows_valid(servers: Seq<Server>, bindings: Seq<Binding>)
    requires
        rows_fit(servers, bindings),
    ensures
        valid(library_of(servers, bindings)),
{
    let l = library_of(servers, bindings);
    assert forall|id: Seq<char>| #[trigger] l.servers.contains_key(id) implies l.servers[id].id
        == id by {
        lemma_found(servers, server_key(), id);
    }
    assert forall|a: Seq<char>, b: Seq<char>|
        l.servers.contains_key(a) && l.servers.contains_key(b) && (#[trigger] l.servers[a]).name == (
        #[trigger] l.servers[b]).name implies a == b by {
        lemma_found(servers, server_key(), a);
        lemma_found(servers, server_key(), b);
        let i = row_at(servers, server_key(), a);
        let j = row_at(servers, server_key(), b);
        lemma_lex_irreflexive(servers[i].name);
        if i < j {
            assert(lex_less(servers[i].name, servers[j].name));
        }
        if j < i {
            assert(lex_less(servers[j].name, servers[i].name));
        }
    }
    assert forall|k: (Seq<char>, Seq<char>)| #[trigger] l.bindings.contains_key(k) implies l.bindings[k].server_id
        == k.0 && l.bindings[k].agent_key == k.1 && l.servers.contains_key(k.0) by {
        lemma_found(bindings, binding_key(), k);
        let i = row_at(bindings, binding_key(), k);
        assert(has_row(servers, server_key(), bindings[i].server_id));
    }
    assert forall|j: (Seq<char>, Seq<char>), k: (Seq<char>, Seq<char>)|
        l.bindings.contains_key(j) && l.bindings.contains_key(k) && (#[trigger] l.bindings[j]).id
            == (#[trigger] l.bindings[k]).id implies j == k by {
        lemma_found(bindings, binding_key(), j);
        lemma_found(bindings, binding_key(), k);
        let a = row_at(bindings, binding_key(), j);
        let b = row_at(bindings, binding_key(), k);
        if a < b {
            assert(bindings[a].id != bindings[b].id);
        }
        if b < a {
            assert(bindings[b].id != bindings[a].id);
        }
    }
}

fn find_server(servers: &Vec<McpServerRecord>, id: &str) -> (r: Option<usize>)
    ensures
        match r {
            Some(i) => i < servers@.len() && servers@[i as int].id@ == id@,
            None => !has_row(server_views(servers@), server_key(), id@),
        },
{
    let mut i: usize = 0;
    while i < servers.len()
        invariant
            i <= servers.len(),
            forall|k: int| 0 <= k < i ==> (#[trigger] servers@[k]).id@ != id@,
        decreases servers.len() - i,
    {
        if same(servers[i].id.as_str(), id) {
            return Some(i);
        }
        i = i + 1;
    }
    proof {
        let rows = server_views(servers@);
        assert forall|k: int| 0 <= k < rows.len() implies server_key()(#[trigger] rows[k]) != id@ by {
            assert(rows[k] == servers@[k]@);
        }
    }
    None
}

fn find_named(servers: &Vec<McpServerRecord>, name: &str) -> (r: Option<usize>)
    ensures
        match r {
            Some(i) => i < servers@.len() && servers@[i as int].name@ == name@,
            None => forall|k: int|
                0 <= k < servers@.len() ==> (#[trigger] server_views(servers@)[k]).name != name@,
        },
{
    let mut i: usize = 0;
    while i < servers.len()
        invariant
            i <= servers.len(),
            forall|k: int|
                0 <= k < i ==> (#[trigger] server_views(servers@)[k]).name != name@,
        decreases servers.len() - i,
    {
        if same(servers[i].name.as_str(), name) {
            return Some(i);
        }
        i = i + 1;
    }
    None
}

// A definition put in its place by name.
fn put_server(servers: &mut Vec<McpServerRecord>, record: McpServerRecord)
    requires
        by_name(server_views(old(servers)@)),
        keys_distinct(server_views(old(servers)@), server_key()),
        !has_row(server_views(old(servers)@), server_key(), record@.id),
        forall|k: int|
            0 <= k < old(servers)@.len() ==> (#[trigger] server_views(old(servers)@)[k]).name
                != record@.name,
    ensures
        by_name(server_views(final(servers)@)),
        keys_distinct(server_views(final(servers)@), server_key()),
        table(server_views(final(servers)@), server_key()) == table(
            server_views(old(servers)@),
            server_key(),
        ).insert(record@.id, record@),
{
    let ghost rows = server_views(servers@);
    let ghost row = record@;
    let mut p: usize = 0;
    while p < servers.len() && text_less(servers[p].name.as_str(), record.name.as_str())
        invariant
            p <= servers.len(),
            rows == server_views(servers@),
            row == record@,
            forall|k: int| 0 <= k < p ==> lex_less((#[trigger] rows[k]).name, row.name),
        decreases servers.len() - p,
    {
        assert(rows[p as int] == servers@[p as int]@);
        p = p + 1;
    }
    proof {
        assert forall|k: int| p <= k < rows.len() implies lex_less(row.name, (#[trigger] rows[k]).name) by {
            assert(rows[p as int] == servers@[p as int]@);
            assert(rows[p as int].name != row.name);
            lemma_lex_total(rows[p as int].name, row.name);
            if k > p {
                lemma_lex_transitive(row.name, rows[p as int].name, rows[k].name);
            }
        }
        lemma_insert_row(rows, server_key(), p as int, row);
    }
    servers.insert(p, record);
    proof {
        let all = rows.insert(p as int, row);
        assert(server_views(servers@) =~= all);
        assert forall|i: int, j: int| 0 <= i < j < all.len() implies lex_less(
            (#[trigger] all[i]).name,
            (#[trigger] all[j]).name,
        ) by {
            let a = if i < p {
                i
            } else {
                i - 1
            };
            let b = if j < p {
                j
            } else {
                j - 1
            };
            if i != p {
                assert(all[i] == rows[a]);
            }
            if j != p {
                assert(all[j] == rows[b]);
            }
        }
    }
}

// A definition taken out.
fn take_server(servers: &mut Vec<McpServerRecord>, p: usize) -> (r: McpServerRecord)
    requires
        p < old(servers)@.len(),
        by_name(server_views(old(servers)@)),
        keys_distinct(server_views(old(servers)@), server_key()),
    ensures
        r == old(servers)@[p as int],
        by_name(server_views(final(servers)@)),
        keys_distinct(server_views(final(servers)@), server_key()),
        server_views(final(servers)@) == server_views(old(servers)@).remove(p as int),
        table(server_views(final(servers)@), server_key()) == table(
            server_views(old(servers)@),
            server_key(),
        ).remove(r@.id),
        !has_row(server_views(final(servers)@), server_key(), r@.id),
{
    let ghost rows = server_views(servers@);
    proof {
        lemma_remove_row(rows, server_key(), p as int);
        assert(rows[p as int] == servers@[p as int]@);
    }
    let r = servers.remove(p);
    proof {
        let rest = rows.remove(p as int);
        assert(server_views(servers@) =~= rest);
        assert forall|i: int, j: int| 0 <= i < j < rest.len() implies lex_less(
            (#[trigger] rest[i]).name,
            (#[trigger] rest[j]).name,
        ) by {
            let a = if i < p {
                i
            } else {
                i + 1
            };
            let b = if j < p {
                j
            } else {
                j + 1
            };
            assert(rest[i] == rows[a] && rest[j] == rows[b]);
        }
    }
    r
}

proof fn lemma_name_taken(servers: Seq<Server>, bindings: Seq<Binding>, name: Seq<char>)
    requires
        rows_fit(servers, bindings),
    ensures
        name_taken(library_of(servers, bindings), name) <==> exists|k: int|
            0 <= k < servers.len() && (#[trigger] servers[k]).name == name,
        forall|id: Seq<char>|
            #[trigger] named(library_of(servers, bindings), name, id) ==> exists|k: int|
                0 <= k < servers.len() && (#[trigger] servers[k]).name == name && servers[k].id == id,
{
    let l = library_of(servers, bindings);
    assert forall|id: Seq<char>| #[trigger] named(l, name, id) implies exists|k: int|
        0 <= k < servers.len() && (#[trigger] servers[k]).name == name && servers[k].id == id by {
        lemma_found(servers, server_key(), id);
        let i = row_at(servers, server_key(), id);
        assert(servers[i].name == name && servers[i].id == id);
    }
    if exists|k: int| 0 <= k < servers.len() && (#[trigger] servers[k]).name == name {
        let k = choose|k: int| 0 <= k < servers.len() && (#[trigger] servers[k]).name == name;
        lemma_row(servers, server_key(), k);
        assert(named(l, name, servers[k].id));
    }
}

impl SkillStore {
    #[verifier::type_invariant]
    spec fn fits(self) -> bool {
        rows_fit(server_views(self.servers@), binding_views(self.bindings@))
    }

    pub fn new() -> (r: SkillStore)
        ensures
            r@.servers == Map::<Seq<char>, Server>::empty(),
            r@.bindings == Map::<(Seq<char>, Seq<char>), Binding>::empty(),
    {
        let r = SkillStore { servers: Vec::new(), bindings: Vec::new() };
        assert(r@.servers =~= Map::<Seq<char>, Server>::empty());
        assert(r@.bindings =~= Map::<(Seq<char>, Seq<char>), Binding>::empty());
        r
    }

    /// Insert a definition. Its name is its identity: a name that is taken is refused.
    pub fn insert_mcp_server(&mut self, record: McpServerRecord) -> (r: Result<(), AppError>)
        ensures
            (unit_view(r), final(self)@) == inserted(old(self)@, record@),
            valid(final(self)@),
    {
        proof {
            use_type_invariant(&*self);
            lemma_rows_valid(server_views(self.servers@), binding_views(self.bindings@));
            lemma_name_taken(
                server_views(self.servers@),
                binding_views(self.bindings@),
                record@.name,
            );
        }
        if let Some(i) = find_server(&self.servers, record.id.as_str()) {
            proof {
                lemma_row(server_views(self.servers@), server_key(), i as int);
            }
            return Err(AppError::db("UNIQUE constraint failed: mcp_servers.id"));
        }
        if let Some(i) = find_named(&self.servers, record.name.as_str()) {
            assert(server_views(self.servers@)[i as int].name == record@.name);
            return Err(name_exists(record.name.as_str()));
        }
        let ghost before = self@;
        let mut bindings: Vec<McpBindingRecord> = Vec::new();
        let mut servers: Vec<McpServerRecord> = Vec::new();
        std::mem::swap(&mut bindings, &mut self.bindings);
        std::mem::swap(&mut servers, &mut self.servers);
        let ghost rows = server_views(servers@);
        let ghost row = record@;
        put_server(&mut servers, record);
        proof {
            lemma_links_kept(rows, server_views(servers@), binding_views(bindings@), row);
        }
        *self = SkillStore { servers, bindings };
        proof {
            lemma_rows_valid(server_views(self.servers@), binding_views(self.bindings@));
        }
        Ok(())
    }

    pub fn get_mcp_server_by_id(&self, id: &str) -> (r: Option<McpServerRecord>)
        ensures
            valid(self@),
            match r {
                Some(s) => self@.servers.contains_key(id@) && self@.servers[id@] == s@,
                None => !self@.servers.contains_key(id@),
            },
    {
        proof {
            use_type_invariant(self);
            lemma_rows_valid(server_views(self.servers@), binding_views(self.bindings@));
        }
        match find_server(&self.servers, id) {
            Some(i) => {
                proof {
                    lemma_row(server_views(self.servers@), server_key(), i as int);
                }
                Some(self.servers[i].clone())
            },
            None => None,
        }
    }

    /// Name lookup doubles as the pre-check for add/edit dialogs; at most one definition can
    /// match.
    pub fn get_mcp_server_by_name(&self, name: &str) -> (r: Option<McpServerRecord>)
        ensures
            valid(self@),
            match r {
                Some(s) => named(self@, name@, s@.id) && self@.servers[s@.id] == s@,
                None => !name_taken(self@, name@),
            },
    {
        proof {
            use_type_invariant(self);
            lemma_rows_valid(server_views(self.servers@), binding_views(self.bindings@));
            lemma_name_taken(server_views(self.servers@), binding_views(self.bindings@), name@);
        }
        match find_named(&self.servers, name) {
            Some(i) => {
                proof {
                    lemma_row(server_views(self.servers@), server_key(), i as int);
                }
                Some(self.servers[i].clone())
            },
            None => None,
        }
    }

    /// Every definition, by name.
    pub fn get_all_mcp_servers(&self) -> (r: Vec<McpServerRecord>)
        ensures
            valid(self@),
            lists_servers(server_views(r@), self@),
    {
        proof {
            use_type_invariant(self);
            lemma_rows_valid(server_views(self.servers@), binding_views(self.bindings@));
        }
        let mut r: Vec<McpServerRecord> = Vec::new();
        let mut i: usize = 0;
        while i < self.servers.len()
            invariant
                i <= self.servers.len(),
                r@.len() == i,
                forall|k: int| 0 <= k < i ==> (#[trigger] r@[k])@ == self.servers@[k]@,
            decreases self.servers.len() - i,
        {
            r.push(self.servers[i].clone());
            i = i + 1;
        }
        assert(server_views(r@) =~= server_views(self.servers@));
        r
    }

    // A definition put in place of the one with its id.
    fn set_server(&mut self, p: usize, record: McpServerRecord)
        requires
            p < old(self).servers@.len(),
            record@.id == old(self).servers@[p as int].id@,
            forall|k: int|
                0 <= k < old(self).servers@.len() && k != p ==> (#[trigger] old(
                    self,
                ).servers@[k]).name@ != record@.name,
        ensures
            final(self)@ == with_server(old(self)@, record@),
            valid(final(self)@),
    {
        proof {
            use_type_invariant(&*self);
        }
        let ghost before = self@;
        let mut bindings: Vec<McpBindingRecord> = Vec::new();
        let mut servers: Vec<McpServerRecord> = Vec::new();
        std::mem::swap(&mut bindings, &mut self.bindings);
        std::mem::swap(&mut servers, &mut self.servers);
        let ghost rows = server_views(servers@);
        let ghost row = record@;
        take_server(&mut servers, p);
        proof {
            let rest = server_views(servers@);
            assert forall|k: int| 0 <= k < rest.len() implies (#[trigger] rest[k]).name
                != row.name by {
                let a = if k < p {
                    k
                } else {
                    k + 1
                };
                assert(rest[k] == rows[a]);
            }
        }
        put_server(&mut servers, record);
        proof {
            assert(table(rows, server_key()).remove(row.id).insert(row.id, row) =~= table(
                rows,
                server_key(),
            ).insert(row.id, row));
            lemma_links_kept(rows, server_views(servers@), binding_views(bindings@), row);
        }
        *self = SkillStore { servers, bindings };
        proof {
            lemma_rows_valid(server_views(self.servers@), binding_views(self.bindings@));
        }
    }

    // No other definition has the name of one.
    proof fn lemma_other_names(&self, p: int)
        requires
            rows_fit(server_views(self.servers@), binding_views(self.bindings@)),
            0 <= p < self.servers@.len(),
        ensures
            forall|k: int|
                0 <= k < self.servers@.len() && k != p ==> (#[trigger] self.servers@[k]).name@
                    != self.servers@[p].name@,
    {
        let rows = server_views(self.servers@);
        assert forall|k: int| 0 <= k < self.servers@.len() && k != p implies (
        #[trigger] self.servers@[k]).name@ != self.servers@[p].name@ by {
            lemma_lex_irreflexive(rows[p].name);
            if k < p {
                assert(lex_less(rows[k].name, rows[p].name));
            } else {
                assert(lex_less(rows[p].name, rows[k].name));
            }
        }
    }

    /// Overwrite the mutable columns of a definition by id. `created_at` is owned by the insert
    /// and never moves; `updated_at` travels with the record so the caller controls the version
    /// stamp.
    pub fn update_mcp_server(&mut self, record: McpServerRecord) -> (r: Result<(), AppError>)
        ensures
            (unit_view(r), final(self)@) == updated(old(self)@, record@),
            valid(final(self)@),
    {
        proof {
            use_type_invariant(&*self);
            lemma_rows_valid(server_views(self.servers@), binding_views(self.bindings@));
            lemma_name_taken(
                server_views(self.servers@),
                binding_views(self.bindings@),
                record@.name,
            );
        }
        let p: usize = match find_server(&self.servers, record.id.as_str()) {
            Some(p) => p,
            None => {
                return Err(no_such_server(record.id.as_str()));
            },
        };
        let ghost rows = server_views(self.servers@);
        proof {
            lemma_row(rows, server_key(), p as int);
            self.lemma_other_names(p as int);
        }
        if let Some(q) = find_named(&self.servers, record.name.as_str()) {
            proof {
                lemma_row(rows, server_key(), q as int);
                self.lemma_other_names(q as int);
                assert(named(self@, record@.name, rows[q as int].id));
            }
            if q != p {
                assert(rows[q as int].id != record@.id);
                return Err(name_exists(record.name.as_str()));
            }
        }
        proof {
            assert forall|k: int| 0 <= k < self.servers@.len() && k != p implies (
            #[trigger] self.servers@[k]).name@ != record@.name by {
                assert(rows[k].name == self.servers@[k].name@);
            }
            assert forall|id: Seq<char>| #[trigger] named(self@, record@.name, id) implies id
                == record@.id by {
                let k = choose|k: int|
                    0 <= k < rows.len() && (#[trigger] rows[k]).name == record@.name && rows[k].id
                        == id;
                assert(self.servers@[k].name@ == record@.name);
            }
        }
        let created_at: i64 = self.servers[p].created_at;
        let kept = McpServerRecord { created_at, ..record };
        self.set_server(p, kept);
        Ok(())
    }

    /// Delete a definition; its bindings go with it. Agent config files are not touched here —
    /// callers must write them back first.
    pub fn delete_mcp_server(&mut self, id: &str) -> (r: Result<(), AppError>)
        ensures
            (unit_view(r), final(self)@) == deleted(old(self)@, id@),
            valid(final(self)@),
    {
        proof {
            use_type_invariant(&*self);
            lemma_rows_valid(server_views(self.servers@), binding_views(self.bindings@));
        }
        let p: usize = match find_server(&self.servers, id) {
            Some(p) => p,
            None => {
                return Err(no_such_server(id));
            },
        };
        let ghost before = self@;
        let ghost rows = server_views(self.servers@);
        let ghost links = binding_views(self.bindings@);
        proof {
            lemma_row(rows, server_key(), p as int);
        }
        let mut bindings: Vec<McpBindingRecord> = Vec::new();
        let mut servers: Vec<McpServerRecord> = Vec::new();
        std::mem::swap(&mut bindings, &mut self.bindings);
        std::mem::swap(&mut servers, &mut self.servers);
        take_server(&mut servers, p);
        let kept = keep_bindings(bindings, id, "", true);
        proof {
            let ks = binding_views(kept@);
            assert forall|i: int| 0 <= i < ks.len() implies has_row(
                server_views(servers@),
                server_key(),
                (#[trigger] ks[i]).server_id,
            ) by {
                lemma_row(ks, binding_key(), i);
                assert(table(ks, binding_key()).contains_key(binding_key()(ks[i])));
                let k = binding_key()(ks[i]);
                lemma_found(links, binding_key(), k);
                let j = row_at(links, binding_key(), k);
                assert(has_row(rows, server_key(), links[j].server_id));
                assert(table(rows, server_key()).contains_key(links[j].server_id));
                assert(table(server_views(servers@), server_key()).contains_key(ks[i].server_id));
            }
        }
        *self = SkillStore { servers, bindings: kept };
        proof {
            lemma_rows_valid(server_views(self.servers@), binding_views(self.bindings@));
            assert(self@.bindings =~= without_server(before, id@).bindings);
        }
        Ok(())
    }

    /// Record the result of an upstream version check, made at `now`. The version stamp stays:
    /// bumping it here would churn every drift token derived from it.
    pub fn set_mcp_check_state(
        &mut self,
        id: &str,
        update_status: &str,
        remote_version: Option<String>,
        error: Option<String>,
        now: i64,
    ) -> (r: Result<(), AppError>)
        ensures
            (unit_view(r), final(self)@) == check_recorded(
                old(self)@,
                id@,
                update_status@,
                remote_version.deep_view(),
                error.deep_view(),
                now,
            ),
            valid(final(self)@),
    {
        proof {
            use_type_invariant(&*self);
            lemma_rows_valid(server_views(self.servers@), binding_views(self.bindings@));
        }
        let p: usize = match find_server(&self.servers, id) {
            Some(p) => p,
            None => {
                return Err(no_such_server(id));
            },
        };
        proof {
            lemma_row(server_views(self.servers@), server_key(), p as int);
            self.lemma_other_names(p as int);
        }
        let record = self.servers[p].clone();
        let checked = McpServerRecord {
            update_status: update_status.to_owned(),
            remote_version,
            last_checked_at: Some(now),
            last_check_error: error,
            ..record
        };
        self.set_server(p, checked);
        Ok(())
    }

    /// Record the result of a liveness probe, made at `now`. The version stamp stays.
    pub fn set_mcp_probe_state(
        &mut self,
        id: &str,
        status: &str,
        message: Option<String>,
        now: i64,
    ) -> (r: Result<(), AppError>)
        ensures
            (unit_view(r), final(self)@) == probe_recorded(
                old(self)@,
                id@,
                status@,
                message.deep_view(),
                now,
            ),
            valid(final(self)@),
    {
        proof {
            use_type_invariant(&*self);
            lemma_rows_valid(server_views(self.servers@), binding_views(self.bindings@));
        }
        let p: usize = match find_server(&self.servers, id) {
            Some(p) => p,
            None => {
                return Err(no_such_server(id));
            },
        };
        proof {
            lemma_row(server_views(self.servers@), server_key(), p as int);
            self.lemma_other_names(p as int);
        }
        let record = self.servers[p].clone();
        let probed = McpServerRecord {
            probe_status: status.to_owned(),
            probe_message: message,
            probe_checked_at: Some(now),
            ..record
        };
        self.set_server(p, probed);
        Ok(())
    }

    /// Insert-or-replace keyed on (server_id, agent_key): the ledger holds the *current*
    /// deployment per agent, so a resync overwrites the row in place.
    pub fn upsert_mcp_binding(&mut self, record: McpBindingRecord) -> (r: Result<(), AppError>)
        ensures
            (unit_view(r), final(self)@) == binding_upserted(old(self)@, record@),
            valid(final(self)@),
    {
        proof {
            use_type_invariant(&*self);
            lemma_rows_valid(server_views(self.servers@), binding_views(self.bindings@));
        }
        let p: usize = match find_server(&self.servers, record.server_id.as_str()) {
            Some(p) => p,
            None => {
                return Err(AppError::db("FOREIGN KEY constraint failed"));
            },
        };
        let ghost before = self@;
        let ghost rows = server_views(self.servers@);
        let ghost links = binding_views(self.bindings@);
        let ghost row = record@;
        proof {
            lemma_row(rows, server_key(), p as int);
        }
        let mut bindings: Vec<McpBindingRecord> = Vec::new();
        std::mem::swap(&mut bindings, &mut self.bindings);
        let others = drop_binding_id(bindings, record.id.as_str());
        let mut kept = keep_bindings(
            others,
            record.server_id.as_str(),
            record.agent_key.as_str(),
            false,
        );
        let ghost ks = binding_views(kept@);
        proof {
            assert forall|i: int| 0 <= i < ks.len() implies (#[trigger] ks[i]).id != row.id by {
                lemma_row(ks, binding_key(), i);
            }
        }
        put_binding(&mut kept, record);
        proof {
            let all = binding_views(kept@);
            assert forall|i: int| 0 <= i < all.len() implies has_row(
                rows,
                server_key(),
                (#[trigger] all[i]).server_id,
            ) by {
                let k = binding_key()(all[i]);
                lemma_row(all, binding_key(), i);
                if k != binding_key()(row) {
                    assert(table(ks, binding_key()).contains_key(k));
                    lemma_found(links, binding_key(), k);
                    let j = row_at(links, binding_key(), k);
                    assert(has_row(rows, server_key(), links[j].server_id));
                } else {
                    assert(rows[p as int].id == row.server_id);
                    assert(has_row(rows, server_key(), row.server_id));
                }
            }
        }
        let mut servers: Vec<McpServerRecord> = Vec::new();
        std::mem::swap(&mut servers, &mut self.servers);
        *self = SkillStore { servers, bindings: kept };
        proof {
            lemma_rows_valid(server_views(self.servers@), binding_views(self.bindings@));
            assert(self@.bindings =~= bound_to(before, row).bindings);
        }
        Ok(())
    }

    pub fn delete_mcp_binding(&mut self, server_id: &str, agent_key: &str)
        ensures
            final(self)@ == without_binding(old(self)@, server_id@, agent_key@),
            valid(final(self)@),
    {
        proof {
            use_type_invariant(&*self);
        }
        let ghost before = self@;
        let ghost rows = server_views(self.servers@);
        let ghost links = binding_views(self.bindings@);
        let mut bindings: Vec<McpBindingRecord> = Vec::new();
        std::mem::swap(&mut bindings, &mut self.bindings);
        let kept = keep_bindings(bindings, server_id, agent_key, false);
        proof {
            let ks = binding_views(kept@);
            assert forall|i: int| 0 <= i < ks.len() implies has_row(
                rows,
                server_key(),
                (#[trigger] ks[i]).server_id,
            ) by {
                let k = binding_key()(ks[i]);
                lemma_row(ks, binding_key(), i);
                lemma_found(links, binding_key(), k);
                let j = row_at(links, binding_key(), k);
                assert(has_row(rows, server_key(), links[j].server_id));
            }
        }
        let mut servers: Vec<McpServerRecord> = Vec::new();
        std::mem::swap(&mut servers, &mut self.servers);
        *self = SkillStore { servers, bindings: kept };
        proof {
            lemma_rows_valid(server_views(self.servers@), binding_views(self.bindings@));
            assert(self@.bindings =~= without_binding(before, server_id@, agent_key@).bindings);
        }
    }

    /// The bindings of one definition, by agent.
    pub fn get_mcp_bindings_for_server(&self, server_id: &str) -> (r: Vec<McpBindingRecord>)
        ensures
            valid(self@),
            lists_bindings_of(binding_views(r@), self@, server_id@),
    {
        proof {
            use_type_invariant(self);
            lemma_rows_valid(server_views(self.servers@), binding_views(self.bindings@));
        }
        let ghost links = binding_views(self.bindings@);
        let ghost mut places: Seq<int> = Seq::empty();
        let mut r: Vec<McpBindingRecord> = Vec::new();
        let mut i: usize = 0;
        while i < self.bindings.len()
            invariant
                i <= self.bindings.len(),
                links == binding_views(self.bindings@),
                places.len() == r@.len(),
                forall|a: int, b: int|
                    0 <= a < b < places.len() ==> #[trigger] places[a] < #[trigger] places[b],
                forall|a: int|
                    0 <= a < places.len() ==> 0 <= #[trigger] places[a] < i && r@[a]@
                        == links[places[a]] && r@[a]@.server_id == server_id@,
                forall|k: int|
                    0 <= k < i && (#[trigger] links[k]).server_id == server_id@ ==> exists|a: int|
                        0 <= a < places.len() && #[trigger] places[a] == k,
            decreases self.bindings.len() - i,
        {
            let binding = &self.bindings[i];
            assert(links[i as int] == binding@);
            if same(binding.server_id.as_str(), server_id) {
                let ghost before = places;
                r.push(binding.clone());
                proof {
                    places = places.push(i as int);
                    assert(places[before.len() as int] == i);
                    assert forall|k: int|
                        0 <= k < i + 1 && (#[trigger] links[k]).server_id
                            == server_id@ implies exists|a: int|
                        0 <= a < places.len() && #[trigger] places[a] == k by {
                        if k < i {
                            let a = choose|a: int|
                                0 <= a < before.len() && #[trigger] before[a] == k;
                            assert(places[a] == k);
                        }
                    }
                }
            }
            i = i + 1;
        }
        proof {
            let rows = binding_views(r@);
            assert forall|a: int, b: int| 0 <= a < b < rows.len() implies lex_less(
                (#[trigger] rows[a]).agent_key,
                (#[trigger] rows[b]).agent_key,
            ) by {
                assert(places[a] < places[b]);
                let x = links[places[a]];
                let y = links[places[b]];
                assert(pair_less((x.server_id, x.agent_key), (y.server_id, y.agent_key)));
                lemma_lex_irreflexive(server_id@);
            }
            assert forall|a: int| 0 <= a < rows.len() implies (#[trigger] rows[a]).server_id
                == server_id@ && self@.bindings.contains_key((server_id@, rows[a].agent_key))
                && self@.bindings[(server_id@, rows[a].agent_key)] == rows[a] by {
                lemma_row(links, binding_key(), places[a]);
            }
            assert forall|agent: Seq<char>| #[trigger]
                self@.bindings.contains_key((server_id@, agent)) implies exists|a: int|
                0 <= a < rows.len() && (#[trigger] rows[a]).agent_key == agent by {
                let k = (server_id@, agent);
                lemma_found(links, binding_key(), k);
                let j = row_at(links, binding_key(), k);
                assert(links[j].server_id == server_id@);
                let a = choose|a: int| 0 <= a < places.len() && #[trigger] places[a] == j;
                assert(rows[a].agent_key == agent);
            }
        }
        r
    }

    /// Ordered deterministically (server, then agent) so callers can diff or render without
    /// re-sorting.
    pub fn get_all_mcp_bindings(&self) -> (r: Vec<McpBindingRecord>)
        ensures
            valid(self@),
            lists_bindings(binding_views(r@), self@),
    {
        proof {
            use_type_invariant(self);
            lemma_rows_valid(server_views(self.servers@), binding_views(self.bindings@));
        }
        let mut r: Vec<McpBindingRecord> = Vec::new();
        let mut i: usize = 0;
        while i < self.bindings.len()
            invariant
                i <= self.bindings.len(),
                r@.len() == i,
                forall|k: int| 0 <= k < i ==> (#[trigger] r@[k])@ == self.bindings@[k]@,
            decreases self.bindings.len() - i,
        {
            r.push(self.bindings[i].clone());
            i = i + 1;
        }
        assert(binding_views(r@) =~= binding_views(self.bindings@));
        r
    }
}

// Every binding still has its definition when one is added.
proof fn lemma_links_kept(
    rows: Seq<Server>,
    all: Seq<Server>,
    bindings: Seq<Binding>,
    row: Server,
)
    requires
        table(all, server_key()) == table(rows, server_key()).insert(row.id, row),
        forall|i: int|
            0 <= i < bindings.len() ==> has_row(
                rows,
                server_key(),
                (#[trigger] bindings[i]).server_id,
            ),
    ensures
        forall|i: int|
            0 <= i < bindings.len() ==> has_row(
                all,
                server_key(),
                (#[trigger] bindings[i]).server_id,
            ),
{
    assert forall|i: int| 0 <= i < bindings.len() implies has_row(
        all,
        server_key(),
        (#[trigger] bindings[i]).server_id,
    ) by {
        assert(table(rows, server_key()).contains_key(bindings[i].server_id));
        assert(table(all, server_key()).contains_key(bindings[i].server_id));
    }
}

pub open spec fn dropped_pair(
    k: (Seq<char>, Seq<char>),
    server_id: Seq<char>,
    agent_key: Seq<char>,
    every_agent: bool,
) -> bool {
    k.0 == server_id && (every_agent || k.1 == agent_key)
}

// A list of some of the rows, in their order, makes the table of those rows.
proof fn lemma_some_rows(
    rows: Seq<Binding>,
    some: Seq<Binding>,
    places: Seq<int>,
    wanted: spec_fn(Binding) -> bool,
)
    requires
        by_pair(rows),
        keys_distinct(rows, binding_key()),
        ids_differ(rows),
        places.len() == some.len(),
        forall|a: int, b: int|
            0 <= a < b < places.len() ==> #[trigger] places[a] < #[trigger] places[b],
        forall|a: int|
            0 <= a < places.len() ==> 0 <= #[trigger] places[a] < rows.len() && some[a]
                == rows[places[a]] && wanted(some[a]),
        forall|k: int|
            0 <= k < rows.len() && wanted(#[trigger] rows[k]) ==> exists|a: int|
                0 <= a < places.len() && #[trigger] places[a] == k,
    ensures
        by_pair(some),
        keys_distinct(some, binding_key()),
        ids_differ(some),
        table(some, binding_key()) == Map::new(
            |k: (Seq<char>, Seq<char>)|
                table(rows, binding_key()).contains_key(k) && wanted(
                    table(rows, binding_key())[k],
                ),
            |k: (Seq<char>, Seq<char>)| table(rows, binding_key())[k],
        ),
{
    let all = table(rows, binding_key());
    let m = Map::new(
        |k: (Seq<char>, Seq<char>)| all.contains_key(k) && wanted(all[k]),
        |k: (Seq<char>, Seq<char>)| all[k],
    );
    assert forall|a: int, b: int| 0 <= a < b < some.len() implies pair_less(
        ((#[trigger] some[a]).server_id, some[a].agent_key),
        ((#[trigger] some[b]).server_id, some[b].agent_key),
    ) && binding_key()(some[a]) != binding_key()(some[b]) && some[a].id != some[b].id by {
        assert(places[a] < places[b]);
        assert(some[a] == rows[places[a]] && some[b] == rows[places[b]]);
    }
    assert forall|a: int| 0 <= a < some.len() implies m.contains_key(
        binding_key()(#[trigger] some[a]),
    ) && m[binding_key()(some[a])] == some[a] by {
        assert(some[a] == rows[places[a]]);
        lemma_row(rows, binding_key(), places[a]);
    }
    assert forall|k: (Seq<char>, Seq<char>)| #[trigger] m.contains_key(k) implies has_row(
        some,
        binding_key(),
        k,
    ) by {
        lemma_found(rows, binding_key(), k);
        let j = row_at(rows, binding_key(), k);
        assert(wanted(rows[j]));
        let a = choose|a: int| 0 <= a < places.len() && #[trigger] places[a] == j;
        assert(some[a] == rows[j]);
    }
    lemma_same_table(some, m, binding_key());
}

// The bindings but for that of a definition and an agent, or for all of a definition.
fn keep_bindings(
    bindings: Vec<McpBindingRecord>,
    server_id: &str,
    agent_key: &str,
    every_agent: bool,
) -> (r: Vec<McpBindingRecord>)
    requires
        by_pair(binding_views(bindings@)),
        keys_distinct(binding_views(bindings@), binding_key()),
        ids_differ(binding_views(bindings@)),
    ensures
        by_pair(binding_views(r@)),
        keys_distinct(binding_views(r@), binding_key()),
        ids_differ(binding_views(r@)),
        forall|k: (Seq<char>, Seq<char>)| #[trigger]
            table(binding_views(r@), binding_key()).contains_key(k) <==> table(
                binding_views(bindings@),
                binding_key(),
            ).contains_key(k) && !dropped_pair(k, server_id@, agent_key@, every_agent),
        forall|k: (Seq<char>, Seq<char>)| #[trigger]
            table(binding_views(r@), binding_key()).contains_key(k) ==> table(
                binding_views(r@),
                binding_key(),
            )[k] == table(binding_views(bindings@), binding_key())[k],
{
    let ghost rows = binding_views(bindings@);
    let ghost wanted = |b: Binding|
        !dropped_pair(binding_key()(b), server_id@, agent_key@, every_agent);
    let ghost mut places: Seq<int> = Seq::empty();
    let mut r: Vec<McpBindingRecord> = Vec::new();
    let mut i: usize = 0;
    while i < bindings.len()
        invariant
            i <= bindings.len(),
            rows == binding_views(bindings@),
            wanted == (|b: Binding|
                !dropped_pair(binding_key()(b), server_id@, agent_key@, every_agent)),
            places.len() == r@.len(),
            forall|a: int, b: int|
                0 <= a < b < places.len() ==> #[trigger] places[a] < #[trigger] places[b],
            forall|a: int|
                0 <= a < places.len() ==> 0 <= #[trigger] places[a] < i && r@[a]@
                    == rows[places[a]] && wanted(r@[a]@),
            forall|k: int|
                0 <= k < i && wanted(#[trigger] rows[k]) ==> exists|a: int|
                    0 <= a < places.len() && #[trigger] places[a] == k,
        decreases bindings.len() - i,
    {
        let binding = &bindings[i];
        assert(rows[i as int] == binding@);
        let dropped = same(binding.server_id.as_str(), server_id) && (every_agent || same(
            binding.agent_key.as_str(),
            agent_key,
        ));
        if !dropped {
            let ghost before = places;
            r.push(binding.clone());
            proof {
                places = places.push(i as int);
                assert(places[before.len() as int] == i);
                assert forall|k: int| 0 <= k < i + 1 && wanted(#[trigger] rows[k]) implies exists|
                    a: int,
                |
                    0 <= a < places.len() && #[trigger] places[a] == k by {
                    if k < i {
                        let a = choose|a: int| 0 <= a < before.len() && #[trigger] before[a] == k;
                        assert(places[a] == k);
                    }
                }
            }
        }
        i = i + 1;
    }
    proof {
        lemma_some_rows(rows, binding_views(r@), places, wanted);
        assert forall|k: (Seq<char>, Seq<char>)| #[trigger]
            table(rows, binding_key()).contains_key(k) implies binding_key()(
            table(rows, binding_key())[k],
        ) == k by {
            lemma_found(rows, binding_key(), k);
        }
    }
    r
}

// The bindings but for those with an id.
fn drop_binding_id(bindings: Vec<McpBindingRecord>, id: &str) -> (r: Vec<McpBindingRecord>)
    requires
        by_pair(binding_views(bindings@)),
        keys_distinct(binding_views(bindings@), binding_key()),
        ids_differ(binding_views(bindings@)),
    ensures
        by_pair(binding_views(r@)),
        keys_distinct(binding_views(r@), binding_key()),
        ids_differ(binding_views(r@)),
        table(binding_views(r@), binding_key()) == Map::new(
            |k: (Seq<char>, Seq<char>)|
                table(binding_views(bindings@), binding_key()).contains_key(k) && table(
                    binding_views(bindings@),
                    binding_key(),
                )[k].id != id@,
            |k: (Seq<char>, Seq<char>)| table(binding_views(bindings@), binding_key())[k],
        ),
{
    let ghost rows = binding_views(bindings@);
    let ghost wanted = |b: Binding| b.id != id@;
    let ghost mut places: Seq<int> = Seq::empty();
    let mut r: Vec<McpBindingRecord> = Vec::new();
    let mut i: usize = 0;
    while i < bindings.len()
        invariant
            i <= bindings.len(),
            rows == binding_views(bindings@),
            wanted == (|b: Binding| b.id != id@),
            places.len() == r@.len(),
            forall|a: int, b: int|
                0 <= a < b < places.len() ==> #[trigger] places[a] < #[trigger] places[b],
            forall|a: int|
                0 <= a < places.len() ==> 0 <= #[trigger] places[a] < i && r@[a]@
                    == rows[places[a]] && wanted(r@[a]@),
            forall|k: int|
                0 <= k < i && wanted(#[trigger] rows[k]) ==> exists|a: int|
                    0 <= a < places.len() && #[trigger] places[a] == k,
        decreases bindings.len() - i,
    {
        let binding = &bindings[i];
        assert(rows[i as int] == binding@);
        if !same(binding.id.as_str(), id) {
            let ghost before = places;
            r.push(binding.clone());
            proof {
                places = places.push(i as int);
                assert(places[before.len() as int] == i);
                assert forall|k: int| 0 <= k < i + 1 && wanted(#[trigger] rows[k]) implies exists|
                    a: int,
                |
                    0 <= a < places.len() && #[trigger] places[a] == k by {
                    if k < i {
                        let a = choose|a: int| 0 <= a < before.len() && #[trigger] before[a] == k;
                        assert(places[a] == k);
                    }
                }
            }
        }
        i = i + 1;
    }
    proof {
        lemma_some_rows(rows, binding_views(r@), places, wanted);
        assert(table(binding_views(r@), binding_key()) =~= Map::new(
            |k: (Seq<char>, Seq<char>)|
                table(rows, binding_key()).contains_key(k) && table(rows, binding_key())[k].id
                    != id@,
            |k: (Seq<char>, Seq<char>)| table(rows, binding_key())[k],
        ));
    }
    r
}

proof fn lemma_pair_order(a: (Seq<char>, Seq<char>), b: (Seq<char>, Seq<char>), c: (Seq<char>, Seq<char>))
    ensures
        a != b && !pair_less(a, b) ==> pair_less(b, a),
        pair_less(a, b) && pair_less(b, c) ==> pair_less(a, c),
{
    lemma_lex_total(a.0, b.0);
    lemma_lex_total(a.1, b.1);
    if pair_less(a, b) && pair_less(b, c) {
        if lex_less(a.0, b.0) && lex_less(b.0, c.0) {
            lemma_lex_transitive(a.0, b.0, c.0);
        }
        if a.0 == b.0 && b.0 == c.0 {
            lemma_lex_irreflexive(a.0);
            lemma_lex_transitive(a.1, b.1, c.1);
        }
    }
}

// A binding put in its place by definition and agent.
fn put_binding(bindings: &mut Vec<McpBindingRecord>, record: McpBindingRecord)
    requires
        by_pair(binding_views(old(bindings)@)),
        keys_distinct(binding_views(old(bindings)@), binding_key()),
        ids_differ(binding_views(old(bindings)@)),
        !table(binding_views(old(bindings)@), binding_key()).contains_key(
            (record@.server_id, record@.agent_key),
        ),
        forall|k: int|
            0 <= k < old(bindings)@.len() ==> (#[trigger] binding_views(old(bindings)@)[k]).id
                != record@.id,
    ensures
        by_pair(binding_views(final(bindings)@)),
        keys_distinct(binding_views(final(bindings)@), binding_key()),
        ids_differ(binding_views(final(bindings)@)),
        table(binding_views(final(bindings)@), binding_key()) == table(
            binding_views(old(bindings)@),
            binding_key(),
        ).insert((record@.server_id, record@.agent_key), record@),
{
    let ghost rows = binding_views(bindings@);
    let ghost row = record@;
    let ghost pair = (row.server_id, row.agent_key);
    let mut p: usize = 0;
    while p < bindings.len() && pair_before(&bindings[p], &record)
        invariant
            p <= bindings.len(),
            rows == binding_views(bindings@),
            row == record@,
            pair == (row.server_id, row.agent_key),
            forall|k: int|
                0 <= k < p ==> pair_less(
                    ((#[trigger] rows[k]).server_id, rows[k].agent_key),
                    pair,
                ),
        decreases bindings.len() - p,
    {
        assert(rows[p as int] == bindings@[p as int]@);
        p = p + 1;
    }
    proof {
        assert(!has_row(rows, binding_key(), pair));
        assert forall|k: int| p <= k < rows.len() implies pair_less(
            pair,
            ((#[trigger] rows[k]).server_id, rows[k].agent_key),
        ) by {
            assert(rows[p as int] == bindings@[p as int]@);
            let at = (rows[p as int].server_id, rows[p as int].agent_key);
            assert(binding_key()(rows[p as int]) != pair);
            lemma_pair_order(at, pair, pair);
            if k > p {
                lemma_pair_order(pair, at, (rows[k].server_id, rows[k].agent_key));
            }
        }
        lemma_insert_row(rows, binding_key(), p as int, row);
    }
    bindings.insert(p, record);
    proof {
        let all = rows.insert(p as int, row);
        assert(binding_views(bindings@) =~= all);
        assert forall|i: int, j: int| 0 <= i < j < all.len() implies pair_less(
            ((#[trigger] all[i]).server_id, all[i].agent_key),
            ((#[trigger] all[j]).server_id, all[j].agent_key),
        ) && all[i].id != all[j].id by {
            let a = if i < p {
                i
            } else {
                i - 1
            };
            let b = if j < p {
                j
            } else {
                j - 1
            };
            if i != p {
                assert(all[i] == rows[a]);
            }
            if j != p {
                assert(all[j] == rows[b]);
            }
        }
    }
}

fn pair_before(a: &McpBindingRecord, b: &McpBindingRecord) -> (r: bool)
    ensures
        r == pair_less((a@.server_id, a@.agent_key), (b@.server_id, b@.agent_key)),
{
    if text_less(a.server_id.as_str(), b.server_id.as_str()) {
        return true;
    }
    same(a.server_id.as_str(), b.server_id.as_str()) && text_less(
        a.agent_key.as_str(),
        b.agent_key.as_str(),
    )
}

/// Deleting a definition takes its bindings with it and leaves everything else.
pub proof fn law_delete_cascades(l: Library, id: Seq<char>, other: Seq<char>, agent: Seq<char>)
    requires
        l.servers.contains_key(id),
        other != id,
    ensures
        deleted(l, id).0 is Ok,
        !deleted(l, id).1.servers.contains_key(id),
        !deleted(l, id).1.bindings.contains_key((id, agent)),
        deleted(l, id).1.servers.contains_key(other) <==> l.servers.contains_key(other),
        l.servers.contains_key(other) ==> deleted(l, id).1.servers[other] == l.servers[other],
        deleted(l, id).1.bindings.contains_key((other, agent)) <==> l.bindings.contains_key(
            (other, agent),
        ),
        l.bindings.contains_key((other, agent)) ==> deleted(l, id).1.bindings[(other, agent)]
            == l.bindings[(other, agent)],
{
}

/// Recording a check or a probe changes neither the definition nor its version stamp, and
/// touches no binding.
pub proof fn law_results_keep_the_definition(
    l: Library,
    id: Seq<char>,
    status: Seq<char>,
    version: Option<Seq<char>>,
    message: Option<Seq<char>>,
    now: i64,
)
    requires
        valid(l),
        l.servers.contains_key(id),
    ensures
        ({
            let checked = check_recorded(l, id, status, version, message, now).1;
            let probed = probe_recorded(l, id, status, message, now).1;
            &&& same_definition(checked.servers[id], l.servers[id])
            &&& same_definition(probed.servers[id], l.servers[id])
            &&& checked.bindings == l.bindings && probed.bindings == l.bindings
        }),
{
}

/// Two rows that hold the same definition at the same version.
pub open spec fn same_definition(a: Server, b: Server) -> bool {
    &&& a.id == b.id && a.name == b.name && a.transport == b.transport
    &&& a.command == b.command && a.args == b.args && a.url == b.url && a.env == b.env
    &&& a.source == b.source && a.created_at == b.created_at && a.updated_at == b.updated_at
}

/// Binding an agent again replaces its row in place and collapses no other agent's.
pub proof fn law_rebinding_replaces(l: Library, first: Binding, second: Binding, other: Seq<char>)
    requires
        first.server_id == second.server_id,
        first.agent_key == second.agent_key,
        other != first.agent_key,
        l.bindings.contains_key((first.server_id, other)),
        l.bindings[(first.server_id, other)].id != first.id,
        l.bindings[(first.server_id, other)].id != second.id,
    ensures
        ({
            let after = bound_to(bound_to(l, first), second);
            &&& after.bindings[(first.server_id, first.agent_key)] == second
            &&& after.bindings.contains_key((first.server_id, other))
            &&& after.bindings[(first.server_id, other)] == l.bindings[(first.server_id, other)]
        }),
{
}

/// A definition that was inserted is found as it was, by its id and by its name.
pub proof fn law_insert_then_find(l: Library, s: Server)
    requires
        valid(l),
        inserted(l, s).0 is Ok,
    ensures
        inserted(l, s).1.servers.contains_key(s.id),
        inserted(l, s).1.servers[s.id] == s,
        forall|id: Seq<char>| #[trigger] named(inserted(l, s).1, s.name, id) <==> id == s.id,
{
    let after = inserted(l, s).1;
    assert forall|id: Seq<char>| #[trigger] named(after, s.name, id) implies id == s.id by {
        if id != s.id {
            assert(named(l, s.name, id));
        }
    }
}

} // verus!
