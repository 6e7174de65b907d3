//! Best-effort GitHub repository description lookup for Skill Sources.
//!
//! A Skill Source carries a description so the group header alone tells you what the skills
//! inside are for. It is taken from the GitHub repository when possible and stays user-editable.

use vstd::prelude::*;
use crate::json::{text_member, Json, JsonTree};
use crate::text::{
    find_char, lemma_find_char_meaning, position_of, skip_chars, starts_with, take_chars, trim,
    trimmed, without_prefix,
};

verus! {

/// Where GitHub describes the repository of a key; nowhere for other hosts and malformed keys.
pub open spec fn description_address(repo_key: Seq<char>) -> Option<Seq<char>> {
    if !starts_with(repo_key, "github.com/"@) {
        None
    } else {
        let rest = repo_key.skip("github.com/"@.len() as int);
        match find_char(rest, '/') {
            Some(i) => if i == 0 || i + 1 >= rest.len() {
                None
            } else {
                Some(
                    "https://api.github.com/repos/"@ + rest.take(i) + "/"@ + rest.skip(i + 1),
                )
            },
            None => None,
        }
    }
}

/// The address to ask for the description of a repository, by its canonical key.
pub fn description_url(repo_key: &str) -> (r: Option<String>)
    ensures
        r.deep_view() == description_address(repo_key@),
{
    let rest = match without_prefix(repo_key, "github.com/") {
        Some(rest) => rest,
        None => {
            return None;
        },
    };
    let n: usize = crate::text::char_count(rest.as_str());
    match position_of(rest.as_str(), '/') {
        Some(i) => {
            proof {
                lemma_find_char_meaning(rest@, '/');
            }
            if i == 0 || i + 1 >= n {
                return None;
            }
            let owner = take_chars(rest.as_str(), i);
            let repo = skip_chars(rest.as_str(), i + 1);
            let mut url = "https://api.github.com/repos/".to_owned();
            url.append(owner.as_str());
            url.append("/");
            url.append(repo.as_str());
            Some(url)
        },
        None => None,
    }
}

/// The description in GitHub's answer; none where it is missing or blank.
pub open spec fn described(body: JsonTree) -> Option<Seq<char>> {
    match text_member(body, "description"@) {
        Some(text) => if trimmed(text).len() == 0 {
            None
        } else {
            Some(trimmed(text))
        },
        None => None,
    }
}

pub fn description_in(body: &Json) -> (r: Option<String>)
    ensures
        r.deep_view() == described(body@),
{
    match body.get("description") {
        Some(v) => match v.as_str() {
            Some(s) => {
                let text = trim(s.as_str());
                if text.as_str().is_empty() {
                    None
                } else {
                    Some(text)
                }
            },
            None => None,
        },
        None => None,
    }
}

/// Fetch the GitHub repository description for a canonical repo key, with the one request made by
/// `get`. `None` for non-GitHub hosts, which are not asked, and for any failure of the lookup.
pub fn fetch_github_description<G: FnOnce(&String) -> Option<Json>>(repo_key: &str, get: G) -> (r:
    Option<String>)
    requires
        forall|url: &String|
            description_address(repo_key@) == Some(url@) ==> #[trigger] call_requires(get, (url,)),
    ensures
        match description_address(repo_key@) {
            None => r is None,
            Some(address) => exists|url: String, reply: Option<Json>|
                url@ == address && #[trigger] call_ensures(get, (&url,), reply) && r.deep_view()
                    == (match reply {
                    Some(body) => described(body@),
                    None => None,
                }),
        },
{
    match description_url(repo_key) {
        None => None,
        Some(url) => match get(&url) {
            Some(body) => description_in(&body),
            None => None,
        },
    }
}

} // verus!
