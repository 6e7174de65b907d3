//! What a refresh does with every skill, whatever its repository and the network say.

use vstd::prelude::*;
use crate::json::{text_member, JsonTree};
use crate::skill_sources::{counted, links_to, refetched, user_words, SkillSourceRecord};
use crate::skill_sources::refresh::{
    all_named, all_noticed, clone_url_of, entered, failing, grouped, led_on, not_from_git, noticed,
    refresh_begun, FoundSkill, Group, NewSkill, Phase, RefreshEvent, Refreshing, Skill,
    UpdateOutcome,
};
use crate::source_description::{described, description_address};
use crate::text::{find_char, starts_with, trimmed};
use crate::text_laws::without;
use crate::trimming::{all_space, lemma_trimmed};

verus! {

// ── where skills go ──

/// Every skill that comes from git stands in the group of its branch, and only there.
pub proof fn law_git_skills_are_grouped(skills: Seq<Skill>, i: int) -> (at: (int, int))
    requires
        0 <= i < skills.len(),
        skills[i].source_type == "git"@ || skills[i].source_type == "skillssh"@,
    ensures
        0 <= at.0 < grouped(skills).len(),
        grouped(skills)[at.0].branch == skills[i].source_branch,
        0 <= at.1 < grouped(skills)[at.0].skills.len(),
        grouped(skills)[at.0].skills[at.1] == skills[i],
    decreases skills.len(),
{
    let front = skills.drop_last();
    let last = skills.last();
    let before = grouped(front);
    if i == skills.len() - 1 {
        lemma_group_at(before, last.source_branch);
        let g = crate::skill_sources::refresh::group_at(before, last.source_branch);
        if g < before.len() {
            (g, before[g].skills.len() as int)
        } else {
            (before.len() as int, 0)
        }
    } else {
        assert(front[i] == skills[i]);
        let at = law_git_skills_are_grouped(front, i);
        if last.source_type == "git"@ || last.source_type == "skillssh"@ {
            lemma_group_at(before, last.source_branch);
            let g = crate::skill_sources::refresh::group_at(before, last.source_branch);
            if g < before.len() && g == at.0 {
                assert(grouped(skills)[at.0].skills[at.1] == before[at.0].skills[at.1]);
            } else {
                assert(grouped(skills)[at.0] == before[at.0]);
            }
        }
        at
    }
}

proof fn lemma_group_at(groups: Seq<Group>, branch: Option<Seq<char>>)
    ensures
        0 <= crate::skill_sources::refresh::group_at(groups, branch) <= groups.len(),
        crate::skill_sources::refresh::group_at(groups, branch) < groups.len()
            ==> groups[crate::skill_sources::refresh::group_at(groups, branch)].branch == branch,
    decreases groups.len(),
{
    if groups.len() > 0 && groups[0].branch != branch {
        lemma_group_at(groups.skip(1), branch);
    }
}

proof fn lemma_not_from_git(skills: Seq<Skill>, i: int)
    requires
        0 <= i < skills.len(),
        skills[i].source_type != "git"@,
        skills[i].source_type != "skillssh"@,
    ensures
        not_from_git(skills).contains(skills[i].name + ": not a git-sourced skill"@),
    decreases skills.len(),
{
    let front = skills.drop_last();
    let before = not_from_git(front);
    let all = not_from_git(skills);
    let line = skills[i].name + ": not a git-sourced skill"@;
    if i == skills.len() - 1 {
        assert(all[before.len() as int] == line);
    } else {
        assert(front[i] == skills[i]);
        lemma_not_from_git(front, i);
        let p = choose|p: int| 0 <= p < before.len() && before[p] == line;
        assert(all[p] == line);
    }
}

proof fn lemma_entered_keeps(r: Refreshing, line: Seq<char>)
    requires
        r.result.failed.contains(line),
    ensures
        crate::skill_sources::refresh::entered(r).result.failed.contains(line),
    decreases r.groups.len() - r.group,
{
    if 0 <= r.group < r.groups.len() && clone_url_of(r.groups[r.group].skills) is None {
        let more = all_named(r.groups[r.group].skills, "cannot resolve clone URL"@);
        let next = Refreshing {
            group: r.group + 1,
            result: crate::skill_sources::refresh::failing(r.result, more),
            ..r
        };
        let p = choose|p: int| 0 <= p < r.result.failed.len() && r.result.failed[p] == line;
        assert(next.result.failed[p] == line);
        lemma_entered_keeps(next, line);
    }
}

/// Every skill that does not come from git is reported as failed, by its name.
pub proof fn law_other_skills_fail(skills: Seq<Skill>, i: int)
    requires
        0 <= i < skills.len(),
        skills[i].source_type != "git"@,
        skills[i].source_type != "skillssh"@,
    ensures
        refresh_begun(skills).result.failed.contains(
            skills[i].name + ": not a git-sourced skill"@,
        ),
{
    lemma_not_from_git(skills, i);
    let line = skills[i].name + ": not a git-sourced skill"@;
    lemma_entered_keeps(
        Refreshing {
            groups: grouped(skills),
            group: 0,
            skill: 0,
            phase: Phase::Done,
            revision: Seq::empty(),
            result: crate::skill_sources::refresh::Refreshed {
                failed: not_from_git(skills),
                ..crate::skill_sources::refresh::nothing_refreshed()
            },
            check_errors: Seq::empty(),
            seen: Seq::empty(),
        },
        line,
    );
}

/// A group is cloned from the first address that any of its skills has.
pub proof fn law_clone_address(skills: Seq<Skill>, i: int)
    ensures
        0 <= i < skills.len() && skills[i].clone_url is Some && (forall|j: int|
            0 <= j < i ==> (#[trigger] skills[j]).clone_url is None) ==> clone_url_of(skills)
            == skills[i].clone_url,
        (forall|j: int| 0 <= j < skills.len() ==> (#[trigger] skills[j]).clone_url is None)
            ==> clone_url_of(skills) is None,
    decreases skills.len(),
{
    if skills.len() > 0 {
        let rest = skills.skip(1);
        law_clone_address(rest, i - 1);
        assert(forall|j: int| 0 <= j < rest.len() ==> #[trigger] rest[j] == skills[j + 1]);
    }
}

/// A group without an address fails each of its skills by name, and the next group is gone on with.
pub proof fn law_skills_without_address_fail(r: Refreshing, i: int)
    requires
        0 <= r.group < r.groups.len(),
        0 <= i < r.groups[r.group].skills.len(),
        forall|j: int|
            0 <= j < r.groups[r.group].skills.len() ==> (
            #[trigger] r.groups[r.group].skills[j]).clone_url is None,
    ensures
        entered(r).result.failed.contains(
            r.groups[r.group].skills[i].name + ": cannot resolve clone URL"@,
        ),
        entered(r).group > r.group,
{
    let skills = r.groups[r.group].skills;
    law_clone_address(skills, 0);
    let more = all_named(skills, "cannot resolve clone URL"@);
    let next = Refreshing { group: r.group + 1, result: failing(r.result, more), ..r };
    let line = skills[i].name + ": cannot resolve clone URL"@;
    reveal_strlit(": ");
    reveal_strlit("cannot resolve clone URL");
    reveal_strlit(": cannot resolve clone URL");
    assert(": "@ + "cannot resolve clone URL"@ =~= ": cannot resolve clone URL"@);
    assert(skills[i].name + ": "@ + "cannot resolve clone URL"@ =~= line);
    assert(next.result.failed[r.result.failed.len() + i] == line);
    lemma_entered_keeps(next, line);
    lemma_entered_goes_on(next);
    assert(entered(r) == entered(next));
}

proof fn lemma_entered_goes_on(r: Refreshing)
    ensures
        entered(r).group >= r.group,
    decreases r.groups.len() - r.group,
{
    if 0 <= r.group < r.groups.len() && clone_url_of(r.groups[r.group].skills) is None {
        lemma_entered_goes_on(
            Refreshing {
                group: r.group + 1,
                result: failing(
                    r.result,
                    all_named(r.groups[r.group].skills, "cannot resolve clone URL"@),
                ),
                ..r
            },
        );
    }
}

// ── what is made of each skill ──

/// A repository that cannot be asked or cloned fails each of its skills by name with the reason,
/// and each of them is told as unchecked.
pub proof fn law_unreachable_repository_fails_its_skills(
    r: Refreshing,
    event: RefreshEvent,
    message: Seq<char>,
    i: int,
)
    requires
        0 <= r.group < r.groups.len(),
        0 <= i < r.groups[r.group].skills.len(),
        (r.phase == Phase::Revision && (event matches RefreshEvent::Revision(Err(m)) && m@ == message))
            || (r.phase == Phase::Checkout && (event matches RefreshEvent::Checkout(Err(m)) && m@
            == message)),
    ensures
        ({
            let s = r.groups[r.group].skills[i];
            let after = led_on(r, event);
            &&& after.result.failed.contains(s.name + ": "@ + message)
            &&& exists|k: int|
                0 <= k < after.check_errors.len() && (#[trigger] after.check_errors[k]).skill_id == s.id
                    && after.check_errors[k].remote_revision == s.remote_revision
                    && after.check_errors[k].message == message
        }),
{
    let skills = r.groups[r.group].skills;
    let s = skills[i];
    let more = all_named(skills, message);
    let errors = r.check_errors + crate::skill_sources::refresh::all_unchecked(skills, message);
    let next = Refreshing {
        group: r.group + 1,
        result: crate::skill_sources::refresh::failing(r.result, more),
        check_errors: errors,
        ..r
    };
    assert(next.result.failed[r.result.failed.len() + i] == s.name + ": "@ + message);
    lemma_entered_keeps(next, s.name + ": "@ + message);
    lemma_entered_errors(next);
    assert(led_on(r, event) == crate::skill_sources::refresh::entered(next));
    let k = r.check_errors.len() + i;
    assert(led_on(r, event).check_errors[k].skill_id == s.id);
}

proof fn lemma_entered_errors(r: Refreshing)
    ensures
        crate::skill_sources::refresh::entered(r).check_errors == r.check_errors,
        crate::skill_sources::refresh::entered(r).seen == r.seen,
        crate::skill_sources::refresh::entered(r).result.new_skills == r.result.new_skills,
        crate::skill_sources::refresh::entered(r).result.refreshed == r.result.refreshed,
        crate::skill_sources::refresh::entered(r).result.unchanged == r.result.unchanged,
        crate::skill_sources::refresh::entered(r).result.held_back == r.result.held_back,
        crate::skill_sources::refresh::entered(r).result.upstream_deleted
            == r.result.upstream_deleted,
    decreases r.groups.len() - r.group,
{
    if 0 <= r.group < r.groups.len() && clone_url_of(r.groups[r.group].skills) is None {
        let more = all_named(r.groups[r.group].skills, "cannot resolve clone URL"@);
        lemma_entered_errors(
            Refreshing {
                group: r.group + 1,
                result: crate::skill_sources::refresh::failing(r.result, more),
                ..r
            },
        );
    }
}

/// A skill whose path has gone is marked as deleted, one with the content it was installed with is
/// left alone, and every other one is updated.
pub proof fn law_only_changed_skills_are_updated(r: Refreshing, fresh: String, message: String)
    requires
        r.phase == Phase::Look,
    ensures
        ({
            let s = r.groups[r.group].skills[r.skill];
            let gone = led_on(r, RefreshEvent::Looked { valid: false, hash: Ok(fresh) });
            let there = led_on(r, RefreshEvent::Looked { valid: true, hash: Ok(fresh) });
            let unread = led_on(r, RefreshEvent::Looked { valid: true, hash: Err(message) });
            &&& gone.phase == Phase::MarkDeleted
            &&& s.content_hash == Some(fresh@) ==> there.phase == Phase::MarkPresent
            &&& s.content_hash != Some(fresh@) ==> there.phase == Phase::Update
            &&& gone.result == r.result && there.result == r.result
            &&& unread.phase == Phase::Scan && unread.result.failed == r.result.failed.push(message@)
        }),
{
    assert(r.result.failed + seq![message@] =~= r.result.failed.push(message@));
}

/// What becomes of a skill is reported under its name, in the one list for it, and the others stay
/// as they are.
pub proof fn law_skill_is_reported_by_name(r: Refreshing, event: RefreshEvent)
    requires
        0 <= r.group < r.groups.len(),
        0 <= r.skill < r.groups[r.group].skills.len(),
    ensures
        ({
            let s = r.groups[r.group].skills[r.skill];
            let a = led_on(r, event).result;
            let b = r.result;
            &&& r.phase == Phase::MarkDeleted && (event matches RefreshEvent::Marked(Ok(_)))
                ==> a.upstream_deleted == b.upstream_deleted.push(s.name) && a.refreshed == b.refreshed
                && a.unchanged == b.unchanged && a.held_back == b.held_back && a.failed == b.failed
            &&& r.phase == Phase::MarkPresent && event is Marked ==> a.unchanged == b.unchanged.push(
                s.name,
            ) && a.upstream_deleted == b.upstream_deleted && a.refreshed == b.refreshed && a.held_back
                == b.held_back && a.failed == b.failed
            &&& r.phase == Phase::Update ==> (event matches RefreshEvent::Updated(outcome)
                ==> a.upstream_deleted == b.upstream_deleted && match outcome {
                UpdateOutcome::Applied { content_changed: true } => a.refreshed == b.refreshed.push(
                    s.name,
                ) && a.unchanged == b.unchanged && a.held_back == b.held_back && a.failed == b.failed,
                UpdateOutcome::Applied { content_changed: false } => a.unchanged == b.unchanged.push(
                    s.name,
                ) && a.refreshed == b.refreshed && a.held_back == b.held_back && a.failed == b.failed,
                UpdateOutcome::Held => a.held_back == b.held_back.push(s.name) && a.refreshed
                    == b.refreshed && a.unchanged == b.unchanged && a.failed == b.failed,
                UpdateOutcome::Failed(message) => a.failed == b.failed.push(
                    s.name + ": "@ + message@,
                ) && a.refreshed == b.refreshed && a.unchanged == b.unchanged && a.held_back
                    == b.held_back,
            })
        }),
{
    let s = r.groups[r.group].skills[r.skill];
    if let RefreshEvent::Updated(UpdateOutcome::Failed(message)) = event {
        let line = s.name + ": "@ + message@;
        assert(r.result.failed + seq![line] =~= r.result.failed.push(line));
    }
}

/// After a skill comes the next one of its group, and after the last the scan of the checkout: none
/// is passed over.
pub proof fn law_no_skill_is_passed_over(r: Refreshing, event: RefreshEvent)
    requires
        0 <= r.group < r.groups.len(),
        0 <= r.skill < r.groups[r.group].skills.len(),
        (r.phase == Phase::MarkPresent && event is Marked) || (r.phase == Phase::Update
            && event is Updated) || (r.phase == Phase::MarkDeleted && (event matches RefreshEvent::Marked(
            Ok(_),
        ))),
    ensures
        ({
            let after = led_on(r, event);
            let n = r.groups[r.group].skills.len();
            &&& after.groups == r.groups && after.group == r.group
            &&& r.skill + 1 < n ==> after.skill == r.skill + 1 && after.phase == Phase::Look
            &&& r.skill + 1 == n ==> after.phase == Phase::Scan
        }),
{
}

// ── what is new ──

/// A skill that is found, not installed and not seen before is told as new, by its path, its
/// description and its own name, or by its directory's where it has none.
pub proof fn law_new_skill_is_told(
    seen: Seq<Seq<char>>,
    out: Seq<NewSkill>,
    found: FoundSkill,
)
    requires
        !found.installed,
        found.rel_path matches Some(p) ==> !seen.contains(p@),
    ensures
        ({
            let (now, told) = noticed(seen, out, found);
            let s = told.last();
            &&& told.len() == out.len() + 1 && told.drop_last() == out
            &&& s.rel_path == match found.rel_path {
                Some(p) => p@,
                None => Seq::empty(),
            }
            &&& s.name == match found.name {
                Some(n) => if all_space(n@) {
                    found.dir_name@
                } else {
                    n@
                },
                None => found.dir_name@,
            }
            &&& found.description is None ==> s.description is None
            &&& found.description matches Some(d) ==> s.description == Some(d@)
            &&& found.rel_path matches Some(p) ==> now.contains(p@)
        }),
{
    let (now, told) = noticed(seen, out, found);
    assert(told.drop_last() =~= out);
    if let Some(n) = found.name {
        lemma_trimmed(n@);
    }
    if let Some(p) = found.rel_path {
        assert(now[seen.len() as int] == p@);
    }
}

/// A path is told as new at most once.
pub proof fn law_seen_path_is_not_told_again(
    seen: Seq<Seq<char>>,
    out: Seq<NewSkill>,
    first: FoundSkill,
    second: FoundSkill,
)
    requires
        first.rel_path matches Some(p) && second.rel_path matches Some(q) && p@ == q@,
    ensures
        ({
            let (now, told) = noticed(seen, out, first);
            noticed(now, told, second).1 == told
        }),
        all_noticed(seen, out, seq![first, second]).1 == noticed(seen, out, first).1,
{
    let p = first.rel_path->Some_0@;
    let (now, told) = noticed(seen, out, first);
    if !seen.contains(p) {
        assert(now[seen.len() as int] == p);
    }
    let both = seq![first, second];
    assert(both.drop_last() =~= seq![first]);
    assert(seq![first].drop_last() =~= Seq::<FoundSkill>::empty());
    reveal_with_fuel(all_noticed, 3);
}

/// A scan tells what it finds and goes on to the next repository.
pub proof fn law_scan_is_told(r: Refreshing, found: Vec<FoundSkill>)
    requires
        r.phase == Phase::Scan,
    ensures
        led_on(r, RefreshEvent::Scanned(found)).result.new_skills == all_noticed(
            r.seen,
            r.result.new_skills,
            found@,
        ).1,
        led_on(r, RefreshEvent::Scanned(found)).seen == all_noticed(
            r.seen,
            r.result.new_skills,
            found@,
        ).0,
{
    let (seen, new_skills) = all_noticed(r.seen, r.result.new_skills, found@);
    lemma_entered_errors(
        Refreshing {
            group: r.group + 1,
            result: crate::skill_sources::refresh::Refreshed { new_skills, ..r.result },
            seen,
            ..r
        },
    );
}

// ── sources ──

/// A source is shown with what is stored of it and the number of its skills.
pub proof fn law_source_is_shown(s: SkillSourceRecord, count: int)
    ensures
        counted(s, count).id == s.id@,
        counted(s, count).repo_key == s.repo_key@,
        counted(s, count).display_url == s.display_url@,
        s.branch is None ==> counted(s, count).branch is None,
        s.branch matches Some(b) ==> counted(s, count).branch == Some(b@),
        s.description is None ==> counted(s, count).description is None,
        s.description matches Some(d) ==> counted(s, count).description == Some(d@),
        counted(s, count).description_source == s.description_source@,
        counted(s, count).skill_count == count,
{
}

/// Each link to a source counts once, and no other does.
pub proof fn law_links_are_counted(links: Seq<Option<String>>, link: Option<String>, id: Seq<char>)
    ensures
        links_to(Seq::empty(), id) == 0,
        link is None ==> links_to(links.push(link), id) == links_to(links, id),
        link matches Some(to) ==> links_to(links.push(link), id) == links_to(links, id) + if to@ == id {
            1int
        } else {
            0int
        },
{
    assert(links.push(link).drop_last() =~= links);
}

/// A user's words stay; otherwise what was fetched is taken, and nothing where nothing was.
pub proof fn law_description_is_taken(s: SkillSourceRecord, text: Seq<char>)
    ensures
        s.description_source@ == "user"@ ==> refetched(s, Some(text)) is None && refetched(s, None)
            is None,
        s.description_source@ != "user"@ ==> refetched(s, Some(text)) == Some(
            (Some(text), "github"@),
        ) && refetched(s, None) == Some((None::<Seq<char>>, "none"@)),
        !all_space(text) ==> user_words(Some(text)) == (Some(trimmed(text)), "user"@),
        all_space(text) ==> user_words(Some(text)) == (None::<Seq<char>>, "none"@),
        user_words(None) == (None::<Seq<char>>, "none"@),
{
    lemma_trimmed(text);
}

/// A repository of GitHub is asked for by its owner and the rest of its path; any other is not.
pub proof fn law_description_is_asked(owner: Seq<char>, rest: Seq<char>, key: Seq<char>)
    requires
        without(owner, '/'),
    ensures
        owner.len() > 0 && rest.len() > 0 ==> description_address(
            "github.com/"@ + owner + "/"@ + rest,
        ) == Some("https://api.github.com/repos/"@ + owner + "/"@ + rest),
        !starts_with(key, "github.com/"@) ==> description_address(key) is None,
        description_address("github.com/"@ + owner) is None,
{
    reveal_strlit("/");
    let head = "github.com/"@;
    let n = head.len() as int;
    let whole = head + owner + "/"@ + rest;
    assert(whole.take(n) =~= head);
    let tail = owner + "/"@ + rest;
    assert(whole.skip(n) =~= tail);
    lemma_first_slash(owner, rest);
    assert(tail.take(owner.len() as int) =~= owner);
    assert(tail.skip(owner.len() as int + 1) =~= rest);
    let short = head + owner;
    assert(short.take(n) =~= head);
    assert(short.skip(n) =~= owner);
    crate::text::lemma_find_char(owner, '/', owner.len() as int);
}

proof fn lemma_first_slash(owner: Seq<char>, rest: Seq<char>)
    requires
        without(owner, '/'),
    ensures
        find_char(owner + "/"@ + rest, '/') == Some(owner.len() as int),
{
    reveal_strlit("/");
    let s = owner + "/"@ + rest;
    assert(s[owner.len() as int] == '/');
    assert forall|i: int| 0 <= i < owner.len() implies s[i] != '/' by {
        assert(s[i] == owner[i]);
    }
    crate::text::lemma_find_char(s, '/', owner.len() as int);
}

/// A description is taken without white space round it, and none where nothing is left of it.
pub proof fn law_description_is_read(body: JsonTree, text: Seq<char>)
    ensures
        text_member(body, "description"@) == Some(text) && !all_space(text) ==> described(body) == Some(
            trimmed(text),
        ),
        text_member(body, "description"@) == Some(text) && all_space(text) ==> described(body) is None,
        text_member(body, "description"@) is None ==> described(body) is None,
{
    lemma_trimmed(text);
}

} // verus!
