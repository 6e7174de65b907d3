//! Skill Sources: the repositories that installed skills come from, as parents in the management
//! view. [`refresh`] leads the refresh of a whole source.

pub mod refresh;
pub mod refresh_laws;

use vstd::prelude::*;
use crate::text::{same, trim, trimmed};

verus! {

/// A source as it is stored.
#[derive(Debug)]
pub struct SkillSourceRecord {
    pub id: String,
    pub repo_key: String,
    pub display_url: String,
    pub branch: Option<String>,
    pub description: Option<String>,
    /// `none` | `github` | `user`
    pub description_source: String,
}

/// A source as it is shown.
#[derive(Debug)]
pub struct SkillSourceDto {
    pub id: String,
    pub repo_key: String,
    pub display_url: String,
    pub branch: Option<String>,
    pub description: Option<String>,
    /// `none` | `github` | `user`
    pub description_source: String,
    pub skill_count: i64,
}

/// What a [`SkillSourceDto`] holds.
#[verifier::ext_equal]
pub ghost struct SourceView {
    pub id: Seq<char>,
    pub repo_key: Seq<char>,
    pub display_url: Seq<char>,
    pub branch: Option<Seq<char>>,
    pub description: Option<Seq<char>>,
    pub description_source: Seq<char>,
    pub skill_count: int,
}

impl View for SkillSourceDto {
    type V = SourceView;

    open spec fn view(&self) -> SourceView {
        SourceView {
            id: self.id@,
            repo_key: self.repo_key@,
            display_url: self.display_url@,
            branch: self.branch.deep_view(),
            description: self.description.deep_view(),
            description_source: self.description_source@,
            skill_count: self.skill_count as int,
        }
    }
}

/// A stored source with a count of skills.
pub open spec fn counted(s: SkillSourceRecord, count: int) -> SourceView {
    SourceView {
        id: s.id@,
        repo_key: s.repo_key@,
        display_url: s.display_url@,
        branch: s.branch.deep_view(),
        description: s.description.deep_view(),
        description_source: s.description_source@,
        skill_count: count,
    }
}

/// How many of the skills' links lead to a source.
pub open spec fn links_to(links: Seq<Option<String>>, id: Seq<char>) -> int
    decreases links.len(),
{
    if links.len() == 0 {
        0
    } else {
        links_to(links.drop_last(), id) + (if links.last().deep_view() == Some(id) {
            1int
        } else {
            0int
        })
    }
}

/// How many skills come from a source. `links` has the source of each skill that has one.
pub fn source_count(links: &Vec<Option<String>>, id: &str) -> (r: i64)
    requires
        links@.len() <= i64::MAX,
    ensures
        r == links_to(links@, id@),
{
    let mut count: i64 = 0;
    let mut i: usize = 0;
    assert(links@.take(0) =~= Seq::<Option<String>>::empty());
    while i < links.len()
        invariant
            i <= links.len(),
            links@.len() <= i64::MAX,
            0 <= count <= i,
            count == links_to(links@.take(i as int), id@),
        decreases links.len() - i,
    {
        proof {
            assert(links@.take(i + 1).drop_last() =~= links@.take(i as int));
            assert(links@.take(i + 1).last() == links@[i as int]);
        }
        if let Some(source) = &links[i] {
            if same(source.as_str(), id) {
                count = count + 1;
            }
        }
        i = i + 1;
    }
    assert(links@.take(i as int) =~= links@);
    count
}

pub fn source_to_dto(source: SkillSourceRecord, count: i64) -> (r: SkillSourceDto)
    ensures
        r@ == counted(source, count as int),
{
    SkillSourceDto {
        id: source.id,
        repo_key: source.repo_key,
        display_url: source.display_url,
        branch: source.branch,
        description: source.description,
        description_source: source.description_source,
        skill_count: count,
    }
}

/// Every source with the number of its skills.
pub fn get_skill_sources(sources: Vec<SkillSourceRecord>, links: &Vec<Option<String>>) -> (r: Vec<
    SkillSourceDto,
>)
    requires
        links@.len() <= i64::MAX,
    ensures
        r@.len() == sources@.len(),
        forall|i: int|
            0 <= i < r@.len() ==> (#[trigger] r@[i])@ == counted(
                sources@[i],
                links_to(links@, sources@[i].id@),
            ),
{
    let ghost all = sources@;
    let mut rest = sources;
    let mut r: Vec<SkillSourceDto> = Vec::new();
    let ghost mut done: int = 0;
    while rest.len() > 0
        invariant
            links@.len() <= i64::MAX,
            0 <= done <= all.len(),
            done == r@.len(),
            rest@ == all.skip(done),
            forall|i: int|
                0 <= i < done ==> (#[trigger] r@[i])@ == counted(
                    all[i],
                    links_to(links@, all[i].id@),
                ),
        decreases rest.len(),
    {
        let source = rest.remove(0);
        let count = source_count(links, source.id.as_str());
        r.push(source_to_dto(source, count));
        proof {
            assert(all.skip(done).remove(0) =~= all.skip(done + 1));
            done = done + 1;
        }
    }
    r
}

/// What a fetched description changes: the description and who wrote it. One that the user wrote
/// always wins over a re-fetch.
pub open spec fn refetched(source: SkillSourceRecord, fetched: Option<Seq<char>>) -> Option<
    (Option<Seq<char>>, Seq<char>),
> {
    if source.description_source@ == "user"@ {
        None
    } else {
        Some(
            (
                fetched,
                match fetched {
                    Some(_) => "github"@,
                    None => "none"@,
                },
            ),
        )
    }
}

/// Whether a re-fetch of the description is wanted at all.
pub fn wants_description(source: &SkillSourceRecord) -> (r: bool)
    ensures
        r == (source.description_source@ != "user"@),
{
    !same(source.description_source.as_str(), "user")
}

/// The source with a fetched description.
pub fn with_fetched_description(source: SkillSourceRecord, fetched: Option<String>) -> (r:
    SkillSourceRecord)
    ensures
        match refetched(source, fetched.deep_view()) {
            None => r == source,
            Some((description, kind)) => r.description.deep_view() == description
                && r.description_source@ == kind && r.id == source.id && r.repo_key
                == source.repo_key && r.display_url == source.display_url && r.branch
                == source.branch,
        },
{
    if !wants_description(&source) {
        return source;
    }
    let kind = match &fetched {
        Some(_) => "github",
        None => "none",
    };
    SkillSourceRecord { description: fetched, description_source: kind.to_owned(), ..source }
}

/// What the user's own words come to: a blank text takes the description away.
pub open spec fn user_words(description: Option<Seq<char>>) -> (Option<Seq<char>>, Seq<char>) {
    match description {
        Some(text) => if trimmed(text).len() > 0 {
            (Some(trimmed(text)), "user"@)
        } else {
            (None, "none"@)
        },
        None => (None, "none"@),
    }
}

/// The source with the user's description.
pub fn with_user_description(source: SkillSourceRecord, description: Option<String>) -> (r:
    SkillSourceRecord)
    ensures
        (r.description.deep_view(), r.description_source@) == user_words(description.deep_view()),
        r.id == source.id,
        r.repo_key == source.repo_key,
        r.display_url == source.display_url,
        r.branch == source.branch,
{
    let words = match description {
        Some(text) => {
            let t = trim(text.as_str());
            if t.as_str().is_empty() {
                None
            } else {
                Some(t)
            }
        },
        None => None,
    };
    let kind = match &words {
        Some(_) => "user",
        None => "none",
    };
    SkillSourceRecord { description: words, description_source: kind.to_owned(), ..source }
}

/// What the user wrote outlives every later re-fetch.
pub proof fn law_user_description_wins(
    source: SkillSourceRecord,
    written: Seq<char>,
    fetched: Option<Seq<char>>,
)
    requires
        trimmed(written).len() > 0,
        (source.description.deep_view(), source.description_source@) == user_words(Some(written)),
    ensures
        refetched(source, fetched) is None,
        source.description.deep_view() == Some(trimmed(written)),
{
}

} // verus!
