//! What an inventory report keeps of what was scanned.

use vstd::prelude::*;
use crate::mcp_inventory::{
    all_env_keys, named_occurrences, occurrence_names, occurrence_of, occurrences_of, report_of,
    summaries, transport_of, Occurrence, Scan,
};
use crate::order::{distinct_sorted, law_distinct_sorted, strictly_ascending};
use crate::text::{ascii_lowered, is_space, trimmed};
use crate::trimming::{
    all_space, lemma_trimmed, lemma_trimmed_between, lemma_trimmed_blank, lemma_trimmed_lowered,
    lemma_trimmed_padded,
};

verus! {

/// The report has one server for each name, in the order of the names.
pub proof fn law_one_server_per_name(scans: Seq<Scan>, at: u64)
    ensures
        strictly_ascending(
            Seq::new(report_of(scans, at).servers.len(), |i: int| report_of(scans, at).servers[i].name),
        ),
{
    let names = distinct_sorted(occurrence_names(named_occurrences(scans)));
    law_distinct_sorted(occurrence_names(named_occurrences(scans)), Seq::empty());
    assert(Seq::new(
        report_of(scans, at).servers.len(),
        |i: int| report_of(scans, at).servers[i].name,
    ) =~= names);
}

// What is scanned is among all occurrences.
proof fn lemma_collected(scans: Seq<Scan>, i: int, j: int)
    requires
        0 <= i < scans.len(),
        0 <= j < scans[i].entries.len(),
    ensures
        named_occurrences(scans).contains(
            (scans[i].entries[j].name, occurrence_of(scans[i].status, scans[i].entries[j])),
        ),
    decreases scans.len(),
{
    let before = named_occurrences(scans.drop_last());
    let scan = scans.last();
    let more = Seq::new(
        scan.entries.len(),
        |k: int| (scan.entries[k].name, occurrence_of(scan.status, scan.entries[k])),
    );
    if i == scans.len() - 1 {
        assert((before + more)[before.len() + j] == more[j]);
    } else {
        lemma_collected(scans.drop_last(), i, j);
        let pair = (scans[i].entries[j].name, occurrence_of(scans[i].status, scans[i].entries[j]));
        let k = choose|k: int| 0 <= k < before.len() && before[k] == pair;
        assert((before + more)[k] == pair);
    }
}

// All occurrences were scanned.
proof fn lemma_collected_from(scans: Seq<Scan>, k: int)
    requires
        0 <= k < named_occurrences(scans).len(),
    ensures
        exists|i: int, j: int|
            0 <= i < scans.len() && 0 <= j < scans[i].entries.len() && named_occurrences(scans)[k] == (
                (#[trigger] scans[i].entries[j]).name,
                occurrence_of(scans[i].status, scans[i].entries[j]),
            ),
    decreases scans.len(),
{
    let rest = scans.drop_last();
    let before = named_occurrences(rest);
    let scan = scans.last();
    if k < before.len() {
        lemma_collected_from(rest, k);
        let (i, j) = choose|i: int, j: int|
            0 <= i < rest.len() && 0 <= j < rest[i].entries.len() && before[k] == (
                (#[trigger] rest[i].entries[j]).name,
                occurrence_of(rest[i].status, rest[i].entries[j]),
            );
        assert(scans[i].entries[j] == rest[i].entries[j]);
        assert(named_occurrences(scans)[k] == before[k]);
    } else {
        let j = k - before.len();
        assert(scans[scans.len() - 1].entries[j] == scan.entries[j]);
    }
}

// The occurrences of a name are those with the name.
proof fn lemma_occurrences(all: Seq<(Seq<char>, Occurrence)>, name: Seq<char>, o: Occurrence)
    ensures
        occurrences_of(all, name).contains(o) <==> all.contains((name, o)),
    decreases all.len(),
{
    if all.len() > 0 {
        let rest = all.drop_last();
        let before = occurrences_of(rest, name);
        let after = occurrences_of(all, name);
        lemma_occurrences(rest, name, o);
        if after.contains(o) {
            let i = choose|i: int| 0 <= i < after.len() && after[i] == o;
            if i < before.len() {
                assert(before[i] == o);
                let k = choose|k: int| 0 <= k < rest.len() && rest[k] == (name, o);
                assert(all[k] == (name, o));
            } else {
                assert(all[all.len() - 1] == (name, o));
            }
        }
        if all.contains((name, o)) {
            let k = choose|k: int| 0 <= k < all.len() && all[k] == (name, o);
            if k < rest.len() {
                assert(rest[k] == (name, o));
                let i = choose|i: int| 0 <= i < before.len() && before[i] == o;
                assert(after[i] == o);
            } else {
                assert(after[before.len() as int] == o);
            }
        }
    }
}

/// Every entry of every agent that could be read is in the report: under its name, with its
/// agent. A config that cannot be read hides no other agent's entries.
pub proof fn law_every_entry_is_reported(scans: Seq<Scan>, at: u64, i: int, j: int)
    requires
        0 <= i < scans.len(),
        0 <= j < scans[i].entries.len(),
    ensures
        exists|k: int|
            0 <= k < report_of(scans, at).servers.len() && (#[trigger] report_of(
                scans,
                at,
            ).servers[k]).name == scans[i].entries[j].name && report_of(
                scans,
                at,
            ).servers[k].agents.contains(occurrence_of(scans[i].status, scans[i].entries[j])),
{
    let all = named_occurrences(scans);
    let name = scans[i].entries[j].name;
    let o = occurrence_of(scans[i].status, scans[i].entries[j]);
    lemma_collected(scans, i, j);
    lemma_occurrences(all, name, o);
    let p = choose|p: int| 0 <= p < all.len() && all[p] == (name, o);
    let names = occurrence_names(all);
    assert(names[p] == name);
    assert(names.contains(name));
    law_distinct_sorted(names, name);
    let sorted_names = distinct_sorted(names);
    let k = choose|k: int| 0 <= k < sorted_names.len() && sorted_names[k] == name;
    assert(summaries(all)[k].name == name);
    assert(report_of(scans, at).servers[k].agents == occurrences_of(all, name));
}

/// The report invents nothing: what it lists was scanned, under that name, in that agent.
pub proof fn law_nothing_else_is_reported(scans: Seq<Scan>, at: u64, k: int, o: Occurrence)
    requires
        0 <= k < report_of(scans, at).servers.len(),
        report_of(scans, at).servers[k].agents.contains(o),
    ensures
        exists|i: int, j: int|
            0 <= i < scans.len() && 0 <= j < scans[i].entries.len() && (
            #[trigger] scans[i].entries[j]).name == report_of(scans, at).servers[k].name && o
                == occurrence_of(scans[i].status, scans[i].entries[j]),
{
    let all = named_occurrences(scans);
    let name = report_of(scans, at).servers[k].name;
    lemma_occurrences(all, name, o);
    let p = choose|p: int| 0 <= p < all.len() && all[p] == (name, o);
    lemma_collected_from(scans, p);
}

proof fn lemma_env_keys(agents: Seq<Occurrence>, key: Seq<char>)
    ensures
        all_env_keys(agents).contains(key) <==> exists|i: int|
            0 <= i < agents.len() && (#[trigger] agents[i]).env_keys.contains(key),
    decreases agents.len(),
{
    if agents.len() > 0 {
        let rest = agents.drop_last();
        let before = all_env_keys(rest);
        let last = agents.last().env_keys;
        lemma_env_keys(rest, key);
        if all_env_keys(agents).contains(key) {
            let p = choose|p: int| 0 <= p < (before + last).len() && (before + last)[p] == key;
            if p < before.len() {
                assert(before[p] == key);
                let i = choose|i: int| 0 <= i < rest.len() && (#[trigger] rest[i]).env_keys.contains(key);
                assert(agents[i].env_keys.contains(key));
            } else {
                assert(last[p - before.len()] == key);
                assert(agents[agents.len() - 1].env_keys.contains(key));
            }
        }
        if exists|i: int| 0 <= i < agents.len() && (#[trigger] agents[i]).env_keys.contains(key) {
            let i = choose|i: int| 0 <= i < agents.len() && (#[trigger] agents[i]).env_keys.contains(key);
            if i < rest.len() {
                assert(rest[i].env_keys.contains(key));
                let p = choose|p: int| 0 <= p < before.len() && before[p] == key;
                assert((before + last)[p] == key);
            } else {
                let p = choose|p: int| 0 <= p < last.len() && last[p] == key;
                assert((before + last)[before.len() + p] == key);
            }
        }
    }
}

/// A server's environment keys are those of its occurrences.
pub proof fn law_env_keys_are_the_union(scans: Seq<Scan>, at: u64, k: int, key: Seq<char>)
    requires
        0 <= k < report_of(scans, at).servers.len(),
    ensures
        report_of(scans, at).servers[k].env_keys.contains(key) <==> exists|i: int|
            0 <= i < report_of(scans, at).servers[k].agents.len() && (#[trigger] report_of(
                scans,
                at,
            ).servers[k].agents[i]).env_keys.contains(key),
{
    let agents = report_of(scans, at).servers[k].agents;
    lemma_env_keys(agents, key);
    law_distinct_sorted(all_env_keys(agents), key);
}

/// A transport that was made out stays what it is, whatever fields stand beside it.
pub proof fn law_transport_is_stable(
    raw: Option<Seq<char>>,
    has_url: bool,
    has_command: bool,
    url: bool,
    command: bool,
)
    ensures
        ({
            let transport = transport_of(raw, has_url, has_command);
            transport_of(Some(transport), url, command) == transport
        }),
{
    let transport = transport_of(raw, has_url, has_command);
    if let Some(word) = raw {
        lemma_trimmed_lowered(trimmed(word));
        lemma_trimmed(word);
        lemma_trimmed_lowered(word);
    }
    lemma_vocabulary();
    assert(ascii_lowered(trimmed(transport)) == transport);
}

// The words of the vocabulary are written as they are meant.
proof fn lemma_vocabulary()
    ensures
        ascii_lowered(trimmed("stdio"@)) == "stdio"@,
        ascii_lowered(trimmed("streamable-http"@)) == "streamable-http"@,
        ascii_lowered(trimmed("http"@)) == "http"@,
        ascii_lowered(trimmed("unknown"@)) == "unknown"@,
        "unknown"@.len() > 0,
        "unknown"@ != "local"@ && "unknown"@ != "stdio"@ && "unknown"@ != "streamable-http"@
            && "unknown"@ != "remote"@ && "unknown"@ != "http"@ && "unknown"@ != "sse"@,
        "http"@ != "local"@ && "http"@ != "stdio"@ && "http"@ != "streamable-http"@,
        "streamable-http"@ != "local"@ && "streamable-http"@ != "stdio"@,
{
    reveal_strlit("stdio");
    reveal_strlit("streamable-http");
    reveal_strlit("http");
    reveal_strlit("unknown");
    reveal_strlit("local");
    reveal_strlit("remote");
    reveal_strlit("sse");
    assert("unknown"@.len() == 7 && "stdio"@.len() == 5 && "http"@.len() == 4 && "streamable-http"@.len()
        == 15 && "local"@.len() == 5 && "remote"@.len() == 6 && "sse"@.len() == 3);
    lemma_plain_word("stdio"@);
    lemma_plain_word("streamable-http"@);
    lemma_plain_word("http"@);
    lemma_plain_word("unknown"@);
}

proof fn lemma_plain_word(word: Seq<char>)
    requires
        word.len() > 0,
        forall|i: int| 0 <= i < word.len() ==> 'a' <= #[trigger] word[i] <= 'z' || word[i] == '-',
    ensures
        ascii_lowered(trimmed(word)) == word,
{
    let n = word.len() as int;
    assert(!is_space(word[0]) && !is_space(word[n - 1]));
    lemma_trimmed_between(word, 0, n);
    assert(word.subrange(0, n) =~= word);
    assert(ascii_lowered(word) =~= word);
}

/// A word for the transport counts whatever fields stand beside it, in any case of its letters
/// and with any white space round it.
pub proof fn law_transport_word(
    front: Seq<char>,
    word: Seq<char>,
    back: Seq<char>,
    spelled: Seq<char>,
    has_url: bool,
    has_command: bool,
    url: bool,
    command: bool,
)
    requires
        !all_space(word),
        all_space(front),
        all_space(back),
        ascii_lowered(spelled) == ascii_lowered(word),
    ensures
        transport_of(Some(front + spelled + back), url, command) == transport_of(
            Some(word),
            has_url,
            has_command,
        ),
{
    lemma_trimmed_padded(front, spelled, back);
    lemma_trimmed_lowered(spelled);
    lemma_trimmed_lowered(word);
    lemma_trimmed(word);
}

/// Without a word, or with a blank one, the transport follows from the fields: an address means
/// `http`, else a command means `stdio`, else it is not known.
pub proof fn law_transport_without_word(blank: Seq<char>, has_url: bool, has_command: bool)
    requires
        all_space(blank),
    ensures
        transport_of(Some(blank), has_url, has_command) == transport_of(None, has_url, has_command),
        transport_of(None, has_url, has_command) == if has_url {
            "http"@
        } else if has_command {
            "stdio"@
        } else {
            "unknown"@
        },
{
    lemma_trimmed_blank(blank);
    reveal_strlit("local");
    reveal_strlit("stdio");
    reveal_strlit("streamable-http");
    reveal_strlit("remote");
    reveal_strlit("http");
    reveal_strlit("sse");
    assert(ascii_lowered(trimmed(blank)) =~= Seq::<char>::empty());
}

} // verus!
