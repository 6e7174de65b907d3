//! The columns of a definition that hold JSON text: arguments, environment and source. Every
//! consumer wants them whole, so they are written and read once per row.

use vstd::prelude::*;
use crate::env_map::{bind_all, keys_ascend, pairs, EnvMap};
use crate::json::{compact, json_document, json_text, ordered, parse_json, whole, Json, JsonTree};
use crate::json_order::{arranged, law_ordered_is_arranged};
use crate::mcp_store::McpServerRecord;
use crate::mcp_writers::opencode_json::{env_tree, text_trees};
use crate::mcp_writers::opencode_laws::lemma_bind_all_ascending;
use crate::text::texts;

verus! {

/// The JSON text columns of a definition.
#[derive(Debug)]
pub struct JsonColumns {
    pub args: String,
    pub env: String,
    pub source: String,
}

/// The fields that the JSON text columns hold.
pub struct JsonFields {
    pub args: Vec<String>,
    pub env: EnvMap,
    pub source: Json,
}

/// What `serde_json::from_str` makes of a text as a `Vec<String>`: the strings, or the message of
/// the error.
pub uninterp spec fn json_strings(text: Seq<char>) -> Result<Seq<Seq<char>>, Seq<char>>;

/// What `serde_json::from_str` makes of a text as a `BTreeMap<String, String>`: the names and
/// values in the order of the names, or the message of the error.
pub uninterp spec fn json_string_map(text: Seq<char>) -> Result<
    Seq<(Seq<char>, Seq<char>)>,
    Seq<char>,
>;

/// `serde_json::from_str` for a `Vec<String>`. Claimed: the outcome is a function of the text.
#[verifier::external_body]
fn strings_from_json(text: &str) -> (r: Result<Vec<String>, String>)
    ensures
        match r {
            Ok(list) => json_strings(text@) == Ok::<Seq<Seq<char>>, Seq<char>>(texts(list@)),
            Err(message) => json_strings(text@) == Err::<Seq<Seq<char>>, Seq<char>>(message@),
        },
{
    serde_json::from_str::<Vec<String>>(text).map_err(|e| e.to_string())
}

/// `serde_json::to_string` for a `Vec<String>`. Claimed: it writes the compact text of the list,
/// and `serde_json::from_str` reads the list back from it.
#[verifier::external_body]
fn strings_to_json(list: &Vec<String>) -> (r: Result<String, String>)
    ensures
        match r {
            Ok(text) => text@ == compact(JsonTree::List(text_trees(texts(list@)))) && json_strings(
                text@,
            ) == Ok::<Seq<Seq<char>>, Seq<char>>(texts(list@)),
            Err(_) => false,
        },
{
    serde_json::to_string(list).map_err(|e| e.to_string())
}

/// `serde_json::from_str` for a `BTreeMap<String, String>`, whose entries come out in the order
/// of their names. Claimed: that, and that the outcome is a function of the text.
#[verifier::external_body]
fn string_map_from_json(text: &str) -> (r: Result<Vec<(String, String)>, String>)
    ensures
        match r {
            Ok(list) => json_string_map(text@) == Ok::<
                Seq<(Seq<char>, Seq<char>)>,
                Seq<char>,
            >(pairs(list@)) && keys_ascend(pairs(list@)),
            Err(message) => json_string_map(text@) == Err::<
                Seq<(Seq<char>, Seq<char>)>,
                Seq<char>,
            >(message@),
        },
{
    serde_json::from_str::<std::collections::BTreeMap<String, String>>(text)
        .map(|map| map.into_iter().collect())
        .map_err(|e| e.to_string())
}

/// `serde_json::to_string` for a `BTreeMap<String, String>`, which keeps its entries in the order
/// of their names. Claimed: it writes the compact text of an object with the entries as members,
/// and `serde_json::from_str` reads them back from it.
#[verifier::external_body]
fn string_map_to_json(list: &Vec<(String, String)>) -> (r: Result<String, String>)
    requires
        keys_ascend(pairs(list@)),
    ensures
        match r {
            Ok(text) => text@ == compact(env_tree(pairs(list@))) && json_string_map(text@) == Ok::<
                Seq<(Seq<char>, Seq<char>)>,
                Seq<char>,
            >(pairs(list@)),
            Err(_) => false,
        },
{
    let map: std::collections::BTreeMap<&String, &String> =
        list.iter().map(|(key, value)| (key, value)).collect();
    serde_json::to_string(&map).map_err(|e| e.to_string())
}

/// What is said of a column that does not hold what it promises.
pub open spec fn column_error(column: Seq<char>, detail: Seq<char>) -> Seq<char> {
    "column "@ + column + ": "@ + detail
}

/// The arguments that a column holds.
pub open spec fn args_column_value(text: Seq<char>) -> Result<Seq<Seq<char>>, Seq<char>> {
    match json_strings(text) {
        Ok(args) => Ok(args),
        Err(e) => Err(column_error("mcp_servers.args"@, e)),
    }
}

/// The environment that a column holds.
pub open spec fn env_column_value(text: Seq<char>) -> Result<
    Seq<(Seq<char>, Seq<char>)>,
    Seq<char>,
> {
    match json_string_map(text) {
        Ok(env) => Ok(env),
        Err(e) => Err(column_error("mcp_servers.env"@, e)),
    }
}

/// The source that a column holds.
pub open spec fn source_column_value(text: Seq<char>) -> Result<JsonTree, Seq<char>> {
    match json_document(text) {
        Ok(v) => Ok(v),
        Err(e) => Err(column_error("mcp_servers.source"@, e)),
    }
}

/// What the columns hold, or the first of them that does not hold what it promises.
pub open spec fn columns_value(args: Seq<char>, env: Seq<char>, source: Seq<char>) -> Result<
    (Seq<Seq<char>>, Seq<(Seq<char>, Seq<char>)>, JsonTree),
    Seq<char>,
> {
    match args_column_value(args) {
        Err(e) => Err(e),
        Ok(a) => match env_column_value(env) {
            Err(e) => Err(e),
            Ok(m) => match source_column_value(source) {
                Err(e) => Err(e),
                Ok(s) => Ok((a, m, s)),
            },
        },
    }
}

pub open spec fn fields_view(r: Result<JsonFields, String>) -> Result<
    (Seq<Seq<char>>, Seq<(Seq<char>, Seq<char>)>, JsonTree),
    Seq<char>,
> {
    match r {
        Ok(f) => Ok((texts(f.args@), f.env@, f.source@)),
        Err(e) => Err(e@),
    }
}

fn bad_column(column: &str, detail: &str) -> (r: String)
    ensures
        r@ == column_error(column@, detail@),
{
    let mut m = "column ".to_owned();
    m.append(column);
    m.append(": ");
    m.append(detail);
    m
}

fn env_pairs_of(env: &EnvMap) -> (r: Vec<(String, String)>)
    ensures
        pairs(r@) == env@,
        keys_ascend(env@),
{
    let mut r: Vec<(String, String)> = Vec::new();
    let n: usize = env.len();
    let mut i: usize = 0;
    while i < n
        invariant
            i <= n,
            n == env@.len(),
            r@.len() == i,
            forall|k: int|
                0 <= k < i ==> (#[trigger] r@[k]).0@ == env@[k].0 && r@[k].1@ == env@[k].1,
        decreases n - i,
    {
        r.push((env.key_at(i).clone(), env.value_at(i).clone()));
        i = i + 1;
    }
    assert(pairs(r@) =~= env@);
    r
}

fn env_of_pairs(list: Vec<(String, String)>) -> (r: EnvMap)
    requires
        keys_ascend(pairs(list@)),
    ensures
        r@ == pairs(list@),
{
    let ghost all = pairs(list@);
    let mut env = EnvMap::new();
    let mut i: usize = 0;
    assert(all.take(0) =~= Seq::<(Seq<char>, Seq<char>)>::empty());
    while i < list.len()
        invariant
            i <= list.len(),
            all == pairs(list@),
            env@ == bind_all(all.take(i as int)),
        decreases list.len() - i,
    {
        proof {
            assert(all.take(i + 1).drop_last() =~= all.take(i as int));
            assert(all.take(i + 1).last() == all[i as int]);
        }
        env.insert(list[i].0.clone(), list[i].1.clone());
        i = i + 1;
    }
    proof {
        assert(all.take(i as int) =~= all);
        lemma_bind_all_ascending(all);
    }
    env
}

fn text_or_message(r: Result<String, String>) -> (text: String)
    ensures
        text@ == match r {
            Ok(s) => s@,
            Err(message) => message@,
        },
{
    match r {
        Ok(s) => s,
        Err(message) => message,
    }
}

/// The JSON text columns of a definition. What they hold reads back as it was, the source with
/// its members in the order of their keys, where its numbers are 64-bit integers and it nests no
/// deeper than a hundred levels.
pub fn json_columns(record: &McpServerRecord) -> (r: JsonColumns)
    ensures
        r.args@ == compact(JsonTree::List(text_trees(record@.args))),
        r.env@ == compact(env_tree(record@.env)),
        r.source@ == compact(arranged(record@.source)),
        whole(arranged(record@.source), 100) ==> columns_value(r.args@, r.env@, r.source@) == Ok::<
            (Seq<Seq<char>>, Seq<(Seq<char>, Seq<char>)>, JsonTree),
            Seq<char>,
        >((record@.args, record@.env, arranged(record@.source))),
        ordered(record@.source) ==> arranged(record@.source) == record@.source,
{
    proof {
        if ordered(record@.source) {
            law_ordered_is_arranged(record@.source);
        }
    }
    let args = text_or_message(strings_to_json(&record.args));
    let env = text_or_message(string_map_to_json(&env_pairs_of(&record.env)));
    let source = json_text(&record.source);
    JsonColumns { args, env, source }
}

/// What the JSON text columns of a row hold. A corrupt column is an error: silently hiding a
/// definition would make it look deleted.
pub fn read_columns(columns: &JsonColumns) -> (r: Result<JsonFields, String>)
    ensures
        fields_view(r) == columns_value(columns.args@, columns.env@, columns.source@),
        r matches Ok(f) ==> ordered(f.source@),
{
    let args = match strings_from_json(columns.args.as_str()) {
        Ok(args) => args,
        Err(e) => {
            return Err(bad_column("mcp_servers.args", e.as_str()));
        },
    };
    let env = match string_map_from_json(columns.env.as_str()) {
        Ok(list) => env_of_pairs(list),
        Err(e) => {
            return Err(bad_column("mcp_servers.env", e.as_str()));
        },
    };
    match parse_json(columns.source.as_str()) {
        Ok(source) => Ok(JsonFields { args, env, source }),
        Err(e) => Err(bad_column("mcp_servers.source", e.as_str())),
    }
}

} // verus!
