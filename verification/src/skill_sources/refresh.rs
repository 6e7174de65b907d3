//! The refresh of a whole source: one clone per distinct branch among its skills; every installed
//! skill is held against the fresh checkout and updated in place.
//!
//! A [`RefreshRun`] names what is to be done next; what came of it leads the run on. New upstream
//! skills are *reported*, not installed; skills missing upstream are kept and marked.

use vstd::prelude::*;
use crate::order::has_text;
use crate::text::{is_blank, same, texts, trimmed};
use crate::text_lists::{as_ref, copy_text, same_option, text_ref};

verus! {

/// An installed skill.
#[derive(Debug)]
pub struct SkillRecord {
    pub id: String,
    pub name: String,
    /// `git` | `skillssh` | `local` | `import`
    pub source_type: String,
    pub source_branch: Option<String>,
    pub source_subpath: Option<String>,
    pub content_hash: Option<String>,
    pub remote_revision: Option<String>,
    /// Where its repository can be cloned from, where that can be told.
    pub clone_url: Option<String>,
}

/// What a [`SkillRecord`] holds.
#[verifier::ext_equal]
pub ghost struct Skill {
    pub id: Seq<char>,
    pub name: Seq<char>,
    pub source_type: Seq<char>,
    pub source_branch: Option<Seq<char>>,
    pub source_subpath: Option<Seq<char>>,
    pub content_hash: Option<Seq<char>>,
    pub remote_revision: Option<Seq<char>>,
    pub clone_url: Option<Seq<char>>,
}

impl View for SkillRecord {
    type V = Skill;

    open spec fn view(&self) -> Skill {
        Skill {
            id: self.id@,
            name: self.name@,
            source_type: self.source_type@,
            source_branch: self.source_branch.deep_view(),
            source_subpath: self.source_subpath.deep_view(),
            content_hash: self.content_hash.deep_view(),
            remote_revision: self.remote_revision.deep_view(),
            clone_url: self.clone_url.deep_view(),
        }
    }
}

pub open spec fn skill_views(v: Seq<SkillRecord>) -> Seq<Skill> {
    Seq::new(v.len(), |i: int| v[i]@)
}

/// One upstream skill found during a source refresh that is not installed.
#[derive(Debug)]
pub struct SourceRefreshNewSkill {
    pub rel_path: String,
    pub name: String,
    pub description: Option<String>,
}

/// What a [`SourceRefreshNewSkill`] holds.
#[verifier::ext_equal]
pub ghost struct NewSkill {
    pub rel_path: Seq<char>,
    pub name: Seq<char>,
    pub description: Option<Seq<char>>,
}

impl View for SourceRefreshNewSkill {
    type V = NewSkill;

    open spec fn view(&self) -> NewSkill {
        NewSkill {
            rel_path: self.rel_path@,
            name: self.name@,
            description: self.description.deep_view(),
        }
    }
}

pub open spec fn new_skill_views(v: Seq<SourceRefreshNewSkill>) -> Seq<NewSkill> {
    Seq::new(v.len(), |i: int| v[i]@)
}

#[derive(Debug)]
pub struct SourceRefreshResult {
    /// Skills whose content actually changed and was applied.
    pub refreshed: Vec<String>,
    /// Skills already matching their upstream content.
    pub unchanged: Vec<String>,
    /// Updates held back because they would remove files and a batch has nobody to ask.
    pub held_back: Vec<String>,
    pub failed: Vec<String>,
    /// Skills whose upstream path vanished; kept locally, marked.
    pub upstream_deleted: Vec<String>,
    /// Upstream skills present in the repo but not installed.
    pub new_skills: Vec<SourceRefreshNewSkill>,
}

/// What a [`SourceRefreshResult`] holds.
#[verifier::ext_equal]
pub ghost struct Refreshed {
    pub refreshed: Seq<Seq<char>>,
    pub unchanged: Seq<Seq<char>>,
    pub held_back: Seq<Seq<char>>,
    pub failed: Seq<Seq<char>>,
    pub upstream_deleted: Seq<Seq<char>>,
    pub new_skills: Seq<NewSkill>,
}

impl View for SourceRefreshResult {
    type V = Refreshed;

    open spec fn view(&self) -> Refreshed {
        Refreshed {
            refreshed: texts(self.refreshed@),
            unchanged: texts(self.unchanged@),
            held_back: texts(self.held_back@),
            failed: texts(self.failed@),
            upstream_deleted: texts(self.upstream_deleted@),
            new_skills: new_skill_views(self.new_skills@),
        }
    }
}

pub open spec fn nothing_refreshed() -> Refreshed {
    Refreshed {
        refreshed: Seq::empty(),
        unchanged: Seq::empty(),
        held_back: Seq::empty(),
        failed: Seq::empty(),
        upstream_deleted: Seq::empty(),
        new_skills: Seq::empty(),
    }
}

impl Default for SourceRefreshResult {
    fn default() -> (r: Self)
        ensures
            r@ == nothing_refreshed(),
    {
        let r = SourceRefreshResult {
            refreshed: Vec::new(),
            unchanged: Vec::new(),
            held_back: Vec::new(),
            failed: Vec::new(),
            upstream_deleted: Vec::new(),
            new_skills: Vec::new(),
        };
        assert(r@ =~= nothing_refreshed());
        r
    }
}

// ── groups by branch ──

/// The skills of a source that share a branch.
#[derive(Debug)]
pub struct BranchGroup {
    pub branch: Option<String>,
    pub skills: Vec<SkillRecord>,
}

/// What a [`BranchGroup`] holds.
#[verifier::ext_equal]
pub ghost struct Group {
    pub branch: Option<Seq<char>>,
    pub skills: Seq<Skill>,
}

impl View for BranchGroup {
    type V = Group;

    open spec fn view(&self) -> Group {
        Group { branch: self.branch.deep_view(), skills: skill_views(self.skills@) }
    }
}

pub open spec fn group_views(v: Seq<BranchGroup>) -> Seq<Group> {
    Seq::new(v.len(), |i: int| v[i]@)
}

pub open spec fn from_git(s: Skill) -> bool {
    s.source_type == "git"@ || s.source_type == "skillssh"@
}

/// The place of the group of a branch; behind all groups where there is none.
pub open spec fn group_at(groups: Seq<Group>, branch: Option<Seq<char>>) -> int
    decreases groups.len(),
{
    if groups.len() == 0 || groups[0].branch == branch {
        0
    } else {
        1 + group_at(groups.skip(1), branch)
    }
}

/// The groups with one more skill in the group of its branch.
pub open spec fn with_skill(groups: Seq<Group>, s: Skill) -> Seq<Group> {
    let i = group_at(groups, s.source_branch);
    if i < groups.len() {
        groups.update(i, Group { branch: s.source_branch, skills: groups[i].skills.push(s) })
    } else {
        groups.push(Group { branch: s.source_branch, skills: seq![s] })
    }
}

/// The groups of the skills that come from a repository.
pub open spec fn grouped(skills: Seq<Skill>) -> Seq<Group>
    decreases skills.len(),
{
    if skills.len() == 0 {
        Seq::empty()
    } else if from_git(skills.last()) {
        with_skill(grouped(skills.drop_last()), skills.last())
    } else {
        grouped(skills.drop_last())
    }
}

/// What is said of the skills that do not.
pub open spec fn not_from_git(skills: Seq<Skill>) -> Seq<Seq<char>>
    decreases skills.len(),
{
    if skills.len() == 0 {
        Seq::empty()
    } else if from_git(skills.last()) {
        not_from_git(skills.drop_last())
    } else {
        not_from_git(skills.drop_last()).push(skills.last().name + ": not a git-sourced skill"@)
    }
}

fn find_group(groups: &Vec<BranchGroup>, branch: &Option<String>) -> (r: usize)
    ensures
        r <= groups@.len(),
        r == group_at(group_views(groups@), branch.deep_view()),
{
    let ghost all = group_views(groups@);
    assert(all.skip(0) =~= all);
    let mut i: usize = 0;
    while i < groups.len()
        invariant
            i <= groups.len(),
            all == group_views(groups@),
            group_at(all, branch.deep_view()) == i + group_at(
                all.skip(i as int),
                branch.deep_view(),
            ),
        decreases groups.len() - i,
    {
        assert(all.skip(i as int)[0] == groups@[i as int]@);
        if same_option(as_ref(&groups[i].branch), as_ref(branch)) {
            return i;
        }
        assert(all.skip(i as int).skip(1) =~= all.skip(i + 1));
        i = i + 1;
    }
    i
}

fn add_to_group(groups: &mut Vec<BranchGroup>, skill: SkillRecord)
    ensures
        group_views(final(groups)@) == with_skill(group_views(old(groups)@), skill@),
{
    let ghost before = group_views(groups@);
    let ghost s = skill@;
    let i: usize = find_group(groups, &skill.source_branch);
    let branch = copy_text(&skill.source_branch);
    if i < groups.len() {
        let ghost kept = before[i as int].skills;
        let group = groups.remove(i);
        let mut skills = group.skills;
        skills.push(skill);
        assert(skill_views(skills@) =~= kept.push(s));
        groups.insert(i, BranchGroup { branch, skills });
        assert(group_views(groups@) =~= with_skill(before, s));
    } else {
        let mut skills: Vec<SkillRecord> = Vec::new();
        skills.push(skill);
        assert(skill_views(skills@) =~= seq![s]);
        groups.push(BranchGroup { branch, skills });
        assert(group_views(groups@) =~= with_skill(before, s));
    }
}

// ── the run ──

/// What a refresh is waiting for.
#[derive(Debug, Clone, Copy, PartialEq, Eq, Structural)]
pub enum Phase {
    /// The revision that the group's branch has upstream.
    Revision,
    /// The clone of the group's repository.
    Checkout,
    /// A look at the next skill in the checkout.
    Look,
    /// The mark that the skill has gone upstream.
    MarkDeleted,
    /// The mark that it is there.
    MarkPresent,
    /// The update of the skill.
    Update,
    /// The skills that the checkout has.
    Scan,
    Done,
}

/// A failed check that is to be recorded with a skill.
#[derive(Debug)]
pub struct CheckError {
    pub skill_id: String,
    pub remote_revision: Option<String>,
    pub message: String,
}

/// What a [`CheckError`] holds.
#[verifier::ext_equal]
pub ghost struct Unchecked {
    pub skill_id: Seq<char>,
    pub remote_revision: Option<Seq<char>>,
    pub message: Seq<char>,
}

impl View for CheckError {
    type V = Unchecked;

    open spec fn view(&self) -> Unchecked {
        Unchecked {
            skill_id: self.skill_id@,
            remote_revision: self.remote_revision.deep_view(),
            message: self.message@,
        }
    }
}

pub open spec fn check_error_views(v: Seq<CheckError>) -> Seq<Unchecked> {
    Seq::new(v.len(), |i: int| v[i]@)
}

/// A skill found in a checkout.
#[derive(Debug)]
pub struct FoundSkill {
    /// Its path in the repository; none for a repository that is itself a skill.
    pub rel_path: Option<String>,
    /// Whether it is installed from this repository and path.
    pub installed: bool,
    /// The name that its description file gives it.
    pub name: Option<String>,
    /// The name of its directory.
    pub dir_name: String,
    pub description: Option<String>,
}

/// What came of an update.
#[derive(Debug)]
pub enum UpdateOutcome {
    Applied { content_changed: bool },
    /// It would remove files, and nobody is there to ask.
    Held,
    Failed(String),
}

/// What came of what a run was waiting for.
#[derive(Debug)]
pub enum RefreshEvent {
    Revision(Result<String, String>),
    Checkout(Result<(), String>),
    /// Whether the skill's path holds a skill, and the hash of its content.
    Looked { valid: bool, hash: Result<String, String> },
    Marked(Result<(), String>),
    Updated(UpdateOutcome),
    Scanned(Vec<FoundSkill>),
}

/// A refresh under way.
#[derive(Debug)]
pub struct RefreshRun {
    groups: Vec<BranchGroup>,
    group: usize,
    skill: usize,
    phase: Phase,
    revision: String,
    result: SourceRefreshResult,
    check_errors: Vec<CheckError>,
    seen: Vec<String>,
}

/// What a [`RefreshRun`] holds.
#[verifier::ext_equal]
pub ghost struct Refreshing {
    pub groups: Seq<Group>,
    /// The group whose turn it is.
    pub group: int,
    /// The skill of the group whose turn it is.
    pub skill: int,
    pub phase: Phase,
    /// The upstream revision of the group's branch.
    pub revision: Seq<char>,
    pub result: Refreshed,
    pub check_errors: Seq<Unchecked>,
    /// The upstream paths that were looked at for new skills.
    pub seen: Seq<Seq<char>>,
}

impl View for RefreshRun {
    type V = Refreshing;

    closed spec fn view(&self) -> Refreshing {
        Refreshing {
            groups: group_views(self.groups@),
            group: self.group as int,
            skill: self.skill as int,
            phase: self.phase,
            revision: self.revision@,
            result: self.result@,
            check_errors: check_error_views(self.check_errors@),
            seen: texts(self.seen@),
        }
    }
}

/// The first of the skills that tells where to clone from: any member of a group resolves to the
/// same repository.
pub open spec fn clone_url_of(skills: Seq<Skill>) -> Option<Seq<char>>
    decreases skills.len(),
{
    if skills.len() == 0 {
        None
    } else if skills[0].clone_url is Some {
        skills[0].clone_url
    } else {
        clone_url_of(skills.skip(1))
    }
}

pub open spec fn all_named(skills: Seq<Skill>, message: Seq<char>) -> Seq<Seq<char>> {
    Seq::new(skills.len(), |i: int| skills[i].name + ": "@ + message)
}

pub open spec fn all_unchecked(skills: Seq<Skill>, message: Seq<char>) -> Seq<Unchecked> {
    Seq::new(
        skills.len(),
        |i: int|
            Unchecked {
                skill_id: skills[i].id,
                remote_revision: skills[i].remote_revision,
                message,
            },
    )
}

pub open spec fn failing(r: Refreshed, more: Seq<Seq<char>>) -> Refreshed {
    Refreshed { failed: r.failed + more, ..r }
}

/// The run turned to the next group that can be cloned, from the given one on.
pub open spec fn entered(r: Refreshing) -> Refreshing
    decreases r.groups.len() - r.group,
{
    if !(0 <= r.group < r.groups.len()) {
        Refreshing { phase: Phase::Done, ..r }
    } else {
        let skills = r.groups[r.group].skills;
        if clone_url_of(skills) is None {
            entered(
                Refreshing {
                    group: r.group + 1,
                    result: failing(r.result, all_named(skills, "cannot resolve clone URL"@)),
                    ..r
                },
            )
        } else {
            Refreshing { phase: Phase::Revision, skill: 0, ..r }
        }
    }
}

/// A group given up, with the failure noted of each of its skills.
pub open spec fn given_up(r: Refreshing, message: Seq<char>) -> Refreshing {
    let skills = r.groups[r.group].skills;
    entered(
        Refreshing {
            group: r.group + 1,
            result: failing(r.result, all_named(skills, message)),
            check_errors: r.check_errors + all_unchecked(skills, message),
            ..r
        },
    )
}

/// The run turned to the next skill of the group, or to the checkout's other skills.
pub open spec fn next_skill(r: Refreshing) -> Refreshing {
    if r.skill + 1 < r.groups[r.group].skills.len() {
        Refreshing { skill: r.skill + 1, phase: Phase::Look, ..r }
    } else {
        Refreshing { phase: Phase::Scan, ..r }
    }
}

/// A skill that is found upstream: skipped where its path was seen before or it is installed,
/// else reported, under the name that it gives itself or that of its directory.
pub open spec fn noticed(
    seen: Seq<Seq<char>>,
    out: Seq<NewSkill>,
    found: FoundSkill,
) -> (Seq<Seq<char>>, Seq<NewSkill>) {
    let known = match found.rel_path {
        Some(p) => seen.contains(p@),
        None => false,
    };
    if known {
        (seen, out)
    } else {
        let now = match found.rel_path {
            Some(p) => seen.push(p@),
            None => seen,
        };
        if found.installed {
            (now, out)
        } else {
            (
                now,
                out.push(
                    NewSkill {
                        rel_path: match found.rel_path {
                            Some(p) => p@,
                            None => Seq::empty(),
                        },
                        name: match found.name {
                            Some(n) => if trimmed(n@).len() > 0 {
                                n@
                            } else {
                                found.dir_name@
                            },
                            None => found.dir_name@,
                        },
                        description: found.description.deep_view(),
                    },
                ),
            )
        }
    }
}

pub open spec fn all_noticed(
    seen: Seq<Seq<char>>,
    out: Seq<NewSkill>,
    found: Seq<FoundSkill>,
) -> (Seq<Seq<char>>, Seq<NewSkill>)
    decreases found.len(),
{
    if found.len() == 0 {
        (seen, out)
    } else {
        let (s, o) = all_noticed(seen, out, found.drop_last());
        noticed(s, o, found.last())
    }
}

/// The run after what it was waiting for. What it was not waiting for changes nothing.
pub open spec fn led_on(r: Refreshing, event: RefreshEvent) -> Refreshing {
    let skill = r.groups[r.group].skills[r.skill];
    match (r.phase, event) {
        (Phase::Revision, RefreshEvent::Revision(Ok(revision))) => Refreshing {
            phase: Phase::Checkout,
            revision: revision@,
            ..r
        },
        (Phase::Revision, RefreshEvent::Revision(Err(message))) => given_up(r, message@),
        (Phase::Checkout, RefreshEvent::Checkout(Ok(_))) => Refreshing { phase: Phase::Look, ..r },
        (Phase::Checkout, RefreshEvent::Checkout(Err(message))) => given_up(r, message@),
        (Phase::Look, RefreshEvent::Looked { valid, hash }) => if !valid {
            Refreshing { phase: Phase::MarkDeleted, ..r }
        } else {
            match hash {
                Err(message) => Refreshing {
                    phase: Phase::Scan,
                    result: failing(r.result, seq![message@]),
                    ..r
                },
                Ok(fresh) => if skill.content_hash == Some(fresh@) {
                    Refreshing { phase: Phase::MarkPresent, ..r }
                } else {
                    Refreshing { phase: Phase::Update, ..r }
                },
            }
        },
        (Phase::MarkDeleted, RefreshEvent::Marked(Ok(_))) => next_skill(
            Refreshing {
                result: Refreshed {
                    upstream_deleted: r.result.upstream_deleted.push(skill.name),
                    ..r.result
                },
                ..r
            },
        ),
        (Phase::MarkDeleted, RefreshEvent::Marked(Err(message))) => Refreshing {
            phase: Phase::Scan,
            result: failing(r.result, seq![message@]),
            ..r
        },
        (Phase::MarkPresent, RefreshEvent::Marked(_)) => next_skill(
            Refreshing {
                result: Refreshed {
                    unchanged: r.result.unchanged.push(skill.name),
                    ..r.result
                },
                ..r
            },
        ),
        (Phase::Update, RefreshEvent::Updated(outcome)) => match outcome {
            UpdateOutcome::Applied { content_changed } => if content_changed {
                next_skill(
                    Refreshing {
                        result: Refreshed {
                            refreshed: r.result.refreshed.push(skill.name),
                            ..r.result
                        },
                        ..r
                    },
                )
            } else {
                next_skill(
                    Refreshing {
                        result: Refreshed {
                            unchanged: r.result.unchanged.push(skill.name),
                            ..r.result
                        },
                        ..r
                    },
                )
            },
            UpdateOutcome::Held => next_skill(
                Refreshing {
                    result: Refreshed {
                        held_back: r.result.held_back.push(skill.name),
                        ..r.result
                    },
                    ..r
                },
            ),
            UpdateOutcome::Failed(message) => next_skill(
                Refreshing {
                    result: failing(r.result, seq![skill.name + ": "@ + message@]),
                    check_errors: r.check_errors.push(
                        Unchecked {
                            skill_id: skill.id,
                            remote_revision: skill.remote_revision,
                            message: message@,
                        },
                    ),
                    ..r
                },
            ),
        },
        (Phase::Scan, RefreshEvent::Scanned(found)) => {
            let (seen, new_skills) = all_noticed(r.seen, r.result.new_skills, found@);
            entered(
                Refreshing {
                    group: r.group + 1,
                    result: Refreshed { new_skills, ..r.result },
                    seen,
                    ..r
                },
            )
        },
        _ => r,
    }
}

/// How a refresh begins.
pub open spec fn refresh_begun(skills: Seq<Skill>) -> Refreshing {
    entered(
        Refreshing {
            groups: grouped(skills),
            group: 0,
            skill: 0,
            phase: Phase::Done,
            revision: Seq::empty(),
            result: Refreshed { failed: not_from_git(skills), ..nothing_refreshed() },
            check_errors: Seq::empty(),
            seen: Seq::empty(),
        },
    )
}

impl RefreshRun {
    #[verifier::type_invariant]
    spec fn in_place(self) -> bool {
        self.phase != Phase::Done ==> self.group < self.groups@.len() && self.skill
            < self.groups@[self.group as int].skills@.len()
    }

    /// Begin to refresh the skills of a source.
    pub fn begin(skills: Vec<SkillRecord>) -> (r: RefreshRun)
        ensures
            r@ == refresh_begun(skill_views(skills@)),
    {
        let ghost all = skill_views(skills@);
        let mut rest = skills;
        let mut groups: Vec<BranchGroup> = Vec::new();
        let mut result = SourceRefreshResult::default();
        let ghost mut done: int = 0;
        proof {
            assert(all.take(0) =~= Seq::<Skill>::empty());
            assert(group_views(groups@) =~= Seq::<Group>::empty());
            assert(skill_views(rest@) =~= all.skip(0));
        }
        while rest.len() > 0
            invariant
                0 <= done <= all.len(),
                skill_views(rest@) == all.skip(done),
                group_views(groups@) == grouped(all.take(done)),
                result@ == (Refreshed {
                    failed: not_from_git(all.take(done)),
                    ..nothing_refreshed()
                }),
            decreases rest.len(),
        {
            let ghost before = rest@;
            let skill = rest.remove(0);
            proof {
                assert(skill@ == skill_views(before)[0]);
                assert(all.skip(done).len() == before.len());
                assert(all.skip(done)[0] == all[done]);
                assert(skill_views(rest@) =~= skill_views(before).skip(1));
                assert(all.skip(done).skip(1) =~= all.skip(done + 1));
                assert(all.take(done + 1).drop_last() =~= all.take(done));
                assert(all.take(done + 1).last() == skill@);
            }
            if same(skill.source_type.as_str(), "git") || same(
                skill.source_type.as_str(),
                "skillssh",
            ) {
                add_to_group(&mut groups, skill);
            } else {
                let ghost failed = texts(result.failed@);
                let mut m = skill.name;
                m.append(": not a git-sourced skill");
                let ghost text = m@;
                result.failed.push(m);
                assert(texts(result.failed@) =~= failed.push(text));
            }
            proof {
                done = done + 1;
            }
        }
        proof {
            assert(all.take(done) =~= all);
        }
        let work = Work {
            groups,
            group: 0,
            skill: 0,
            phase: Phase::Done,
            revision: String::new(),
            result,
            check_errors: Vec::new(),
            seen: Vec::new(),
        };
        proof {
            assert(work@.check_errors =~= Seq::<Unchecked>::empty());
            assert(work@.seen =~= Seq::<Seq<char>>::empty());
            assert(work@.revision =~= Seq::<char>::empty());
        }
        work.enter()
    }

    /// What the refresh is waiting for.
    pub fn phase(&self) -> (r: Phase)
        ensures
            r == self@.phase,
    {
        self.phase
    }

    /// The branch of the group whose turn it is.
    pub fn branch(&self) -> (r: Option<&String>)
        requires
            self@.phase != Phase::Done,
        ensures
            text_ref(r) == self@.groups[self@.group].branch,
    {
        proof {
            use_type_invariant(self);
        }
        as_ref(&self.groups[self.group].branch)
    }

    /// Where the group's repository is cloned from.
    pub fn clone_url(&self) -> (r: Option<String>)
        requires
            self@.phase != Phase::Done,
        ensures
            r.deep_view() == clone_url_of(self@.groups[self@.group].skills),
    {
        proof {
            use_type_invariant(self);
        }
        first_clone_url(&self.groups[self.group].skills)
    }

    /// The upstream revision of the group's branch.
    pub fn revision(&self) -> (r: &String)
        ensures
            r@ == self@.revision,
    {
        &self.revision
    }

    /// The skill whose turn it is.
    pub fn skill(&self) -> (r: &SkillRecord)
        requires
            self@.phase != Phase::Done,
        ensures
            r@ == self@.groups[self@.group].skills[self@.skill],
    {
        proof {
            use_type_invariant(self);
        }
        &self.groups[self.group].skills[self.skill]
    }

    /// The failed checks that are to be recorded.
    pub fn check_errors(&self) -> (r: &Vec<CheckError>)
        ensures
            check_error_views(r@) == self@.check_errors,
    {
        &self.check_errors
    }

    /// What the refresh has come to.
    pub fn result(self) -> (r: SourceRefreshResult)
        ensures
            r@ == self@.result,
    {
        self.result
    }

    /// Lead the refresh on by what came of what it was waiting for.
    pub fn step(self, event: RefreshEvent) -> (r: RefreshRun)
        ensures
            r@ == led_on(self@, event),
    {
        proof {
            use_type_invariant(&self);
        }
        match (self.phase, event) {
            (Phase::Revision, RefreshEvent::Revision(Ok(revision))) => {
                let mut work = self.work();
                work.phase = Phase::Checkout;
                work.revision = revision;
                work.go()
            },
            (Phase::Revision, RefreshEvent::Revision(Err(message))) => self.work().give_up(
                message.as_str(),
            ),
            (Phase::Checkout, RefreshEvent::Checkout(Ok(_))) => {
                let mut work = self.work();
                work.phase = Phase::Look;
                work.go()
            },
            (Phase::Checkout, RefreshEvent::Checkout(Err(message))) => self.work().give_up(
                message.as_str(),
            ),
            (Phase::Look, RefreshEvent::Looked { valid, hash }) => {
                let mut work = self.work();
                if !valid {
                    work.phase = Phase::MarkDeleted;
                    return work.go();
                }
                match hash {
                    Err(message) => work.stop(message),
                    Ok(fresh) => {
                        let known = same_option(
                            as_ref(&work.groups[work.group].skills[work.skill].content_hash),
                            Some(&fresh),
                        );
                        if known {
                            work.phase = Phase::MarkPresent;
                        } else {
                            work.phase = Phase::Update;
                        }
                        work.go()
                    },
                }
            },
            (Phase::MarkDeleted, RefreshEvent::Marked(Ok(_))) => {
                let mut work = self.work();
                let ghost before = work@;
                let name = work.groups[work.group].skills[work.skill].name.clone();
                work.result.upstream_deleted.push(name);
                assert(work@.result.upstream_deleted =~= before.result.upstream_deleted.push(name@));
                work.next_skill()
            },
            (Phase::MarkDeleted, RefreshEvent::Marked(Err(message))) => self.work().stop(message),
            (Phase::MarkPresent, RefreshEvent::Marked(_)) => {
                let mut work = self.work();
                let ghost before = work@;
                let name = work.groups[work.group].skills[work.skill].name.clone();
                work.result.unchanged.push(name);
                assert(work@.result.unchanged =~= before.result.unchanged.push(name@));
                work.next_skill()
            },
            (Phase::Update, RefreshEvent::Updated(outcome)) => {
                let mut work = self.work();
                let ghost before = work@;
                let skill = &work.groups[work.group].skills[work.skill];
                let name = skill.name.clone();
                match outcome {
                    UpdateOutcome::Applied { content_changed } => {
                        if content_changed {
                            work.result.refreshed.push(name);
                            assert(work@.result.refreshed =~= before.result.refreshed.push(name@));
                        } else {
                            work.result.unchanged.push(name);
                            assert(work@.result.unchanged =~= before.result.unchanged.push(name@));
                        }
                    },
                    UpdateOutcome::Held => {
                        work.result.held_back.push(name);
                        assert(work@.result.held_back =~= before.result.held_back.push(name@));
                    },
                    UpdateOutcome::Failed(message) => {
                        let error = CheckError {
                            skill_id: skill.id.clone(),
                            remote_revision: copy_text(&skill.remote_revision),
                            message: message.clone(),
                        };
                        let ghost e = error@;
                        let mut m = name;
                        m.append(": ");
                        m.append(message.as_str());
                        let ghost text = m@;
                        work.result.failed.push(m);
                        work.check_errors.push(error);
                        assert(work@.result.failed =~= before.result.failed + seq![text]);
                        assert(work@.check_errors =~= before.check_errors.push(e));
                    },
                }
                work.next_skill()
            },
            (Phase::Scan, RefreshEvent::Scanned(found)) => self.work().scan(found),
            (_, _) => self,
        }
    }

    fn work(self) -> (r: Work)
        ensures
            r@ == self@,
            r.phase == self.phase,
            self.phase != Phase::Done ==> r.group < r.groups@.len() && r.skill
                < r.groups@[r.group as int].skills@.len(),
    {
        proof {
            use_type_invariant(&self);
        }
        Work {
            groups: self.groups,
            group: self.group,
            skill: self.skill,
            phase: self.phase,
            revision: self.revision,
            result: self.result,
            check_errors: self.check_errors,
            seen: self.seen,
        }
    }
}

// A run between two of its states.
struct Work {
    groups: Vec<BranchGroup>,
    group: usize,
    skill: usize,
    phase: Phase,
    revision: String,
    result: SourceRefreshResult,
    check_errors: Vec<CheckError>,
    seen: Vec<String>,
}

impl View for Work {
    type V = Refreshing;

    closed spec fn view(&self) -> Refreshing {
        Refreshing {
            groups: group_views(self.groups@),
            group: self.group as int,
            skill: self.skill as int,
            phase: self.phase,
            revision: self.revision@,
            result: self.result@,
            check_errors: check_error_views(self.check_errors@),
            seen: texts(self.seen@),
        }
    }
}

fn first_clone_url(skills: &Vec<SkillRecord>) -> (r: Option<String>)
    ensures
        r.deep_view() == clone_url_of(skill_views(skills@)),
        r is Some ==> skills@.len() > 0,
{
    let ghost all = skill_views(skills@);
    assert(all.skip(0) =~= all);
    let mut i: usize = 0;
    while i < skills.len()
        invariant
            i <= skills.len(),
            all == skill_views(skills@),
            clone_url_of(all) == clone_url_of(all.skip(i as int)),
        decreases skills.len() - i,
    {
        assert(all.skip(i as int)[0] == skills@[i as int]@);
        if skills[i].clone_url.is_some() {
            return copy_text(&skills[i].clone_url);
        }
        assert(all.skip(i as int).skip(1) =~= all.skip(i + 1));
        i = i + 1;
    }
    None
}

// The failure noted of each skill.
fn note_all(failed: &mut Vec<String>, skills: &Vec<SkillRecord>, message: &str)
    ensures
        texts(final(failed)@) == texts(old(failed)@) + all_named(skill_views(skills@), message@),
{
    let ghost before = texts(failed@);
    let ghost notes = all_named(skill_views(skills@), message@);
    let mut i: usize = 0;
    assert(before + notes.take(0) =~= before);
    while i < skills.len()
        invariant
            i <= skills.len(),
            notes == all_named(skill_views(skills@), message@),
            texts(failed@) == before + notes.take(i as int),
        decreases skills.len() - i,
    {
        let ghost now = texts(failed@);
        let mut m = skills[i].name.clone();
        m.append(": ");
        m.append(message);
        let ghost text = m@;
        failed.push(m);
        proof {
            assert(texts(failed@) =~= now.push(text));
            assert(notes[i as int] == text);
            assert(notes.take(i + 1) =~= notes.take(i as int).push(text));
            assert(before + notes.take(i as int).push(text) =~= (before + notes.take(
                i as int,
            )).push(text));
        }
        i = i + 1;
    }
    assert(notes.take(i as int) =~= notes);
}

fn uncheck_all(errors: &mut Vec<CheckError>, skills: &Vec<SkillRecord>, message: &str)
    ensures
        check_error_views(final(errors)@) == check_error_views(old(errors)@) + all_unchecked(
            skill_views(skills@),
            message@,
        ),
{
    let ghost before = check_error_views(errors@);
    let ghost notes = all_unchecked(skill_views(skills@), message@);
    let mut i: usize = 0;
    assert(before + notes.take(0) =~= before);
    while i < skills.len()
        invariant
            i <= skills.len(),
            notes == all_unchecked(skill_views(skills@), message@),
            check_error_views(errors@) == before + notes.take(i as int),
        decreases skills.len() - i,
    {
        let ghost now = check_error_views(errors@);
        let error = CheckError {
            skill_id: skills[i].id.clone(),
            remote_revision: copy_text(&skills[i].remote_revision),
            message: message.to_owned(),
        };
        let ghost e = error@;
        errors.push(error);
        proof {
            assert(check_error_views(errors@) =~= now.push(e));
            assert(notes[i as int] == e);
            assert(notes.take(i + 1) =~= notes.take(i as int).push(e));
            assert(before + notes.take(i as int).push(e) =~= (before + notes.take(
                i as int,
            )).push(e));
        }
        i = i + 1;
    }
    assert(notes.take(i as int) =~= notes);
}

// A skill found upstream, reported or skipped.
fn notice(seen: &mut Vec<String>, out: &mut Vec<SourceRefreshNewSkill>, found: &FoundSkill)
    ensures
        (texts(final(seen)@), new_skill_views(final(out)@)) == noticed(
            texts(old(seen)@),
            new_skill_views(old(out)@),
            *found,
        ),
{
    if let Some(p) = &found.rel_path {
        if has_text(seen, p.as_str()) {
            return;
        }
        let ghost before = texts(seen@);
        seen.push(p.clone());
        assert(texts(seen@) =~= before.push(p@));
    }
    if found.installed {
        return;
    }
    let rel_path = match &found.rel_path {
        Some(p) => p.clone(),
        None => String::new(),
    };
    assert(found.rel_path is None ==> rel_path@ =~= Seq::<char>::empty());
    let name = match &found.name {
        Some(n) => if is_blank(n.as_str()) {
            found.dir_name.clone()
        } else {
            n.clone()
        },
        None => found.dir_name.clone(),
    };
    let skill = SourceRefreshNewSkill {
        rel_path,
        name,
        description: copy_text(&found.description),
    };
    let ghost s = skill@;
    let ghost before = new_skill_views(out@);
    out.push(skill);
    assert(new_skill_views(out@) =~= before.push(s));
}

/// Report upstream skills that are not installed, each path once.
pub fn scan_new_skills(
    seen: &mut Vec<String>,
    out: &mut Vec<SourceRefreshNewSkill>,
    found: &Vec<FoundSkill>,
)
    ensures
        (texts(final(seen)@), new_skill_views(final(out)@)) == all_noticed(
            texts(old(seen)@),
            new_skill_views(old(out)@),
            found@,
        ),
{
    let ghost s = texts(seen@);
    let ghost o = new_skill_views(out@);
    let mut i: usize = 0;
    assert(found@.take(0) =~= Seq::<FoundSkill>::empty());
    while i < found.len()
        invariant
            i <= found.len(),
            (texts(seen@), new_skill_views(out@)) == all_noticed(s, o, found@.take(i as int)),
        decreases found.len() - i,
    {
        proof {
            assert(found@.take(i + 1).drop_last() =~= found@.take(i as int));
            assert(found@.take(i + 1).last() == found@[i as int]);
        }
        notice(seen, out, &found[i]);
        i = i + 1;
    }
    assert(found@.take(i as int) =~= found@);
}

impl Work {
    fn go(self) -> (r: RefreshRun)
        requires
            self.phase != Phase::Done ==> self.group < self.groups@.len() && self.skill
                < self.groups@[self.group as int].skills@.len(),
        ensures
            r@ == self@,
    {
        RefreshRun {
            groups: self.groups,
            group: self.group,
            skill: self.skill,
            phase: self.phase,
            revision: self.revision,
            result: self.result,
            check_errors: self.check_errors,
            seen: self.seen,
        }
    }

    fn enter(self) -> (r: RefreshRun)
        ensures
            r@ == entered(self@),
    {
        let mut work = self;
        while work.group < work.groups.len()
            invariant
                entered(work@) == entered(self@),
            decreases work.groups.len() - work.group,
        {
            let ghost before = work@;
            let group = work.group;
            assert(before.groups[before.group] == work.groups@[group as int]@);
            if first_clone_url(&work.groups[group].skills).is_some() {
                work.phase = Phase::Revision;
                work.skill = 0;
                assert(work@ =~= (Refreshing { phase: Phase::Revision, skill: 0, ..before }));
                return work.go();
            }
            note_all(&mut work.result.failed, &work.groups[group].skills, "cannot resolve clone URL");
            work.group = group + 1;
            proof {
                let skills = before.groups[before.group].skills;
                assert(work@ =~= (Refreshing {
                    group: before.group + 1,
                    result: failing(
                        before.result,
                        all_named(skills, "cannot resolve clone URL"@),
                    ),
                    ..before
                }));
            }
        }
        let ghost before = work@;
        work.phase = Phase::Done;
        assert(work@ =~= (Refreshing { phase: Phase::Done, ..before }));
        work.go()
    }

    fn give_up(self, message: &str) -> (r: RefreshRun)
        requires
            self.group < self.groups@.len(),
        ensures
            r@ == given_up(self@, message@),
    {
        let mut work = self;
        let ghost before = work@;
        let group = work.group;
        assert(before.groups[before.group] == work.groups@[group as int]@);
        note_all(&mut work.result.failed, &work.groups[group].skills, message);
        uncheck_all(&mut work.check_errors, &work.groups[group].skills, message);
        let n: usize = work.groups.len();
        assert(group < n);
        work.group = group + 1;
        proof {
            let skills = before.groups[before.group].skills;
            assert(work@ =~= (Refreshing {
                group: before.group + 1,
                result: failing(before.result, all_named(skills, message@)),
                check_errors: before.check_errors + all_unchecked(skills, message@),
                ..before
            }));
        }
        work.enter()
    }

    fn stop(self, message: String) -> (r: RefreshRun)
        requires
            self.group < self.groups@.len(),
            self.skill < self.groups@[self.group as int].skills@.len(),
        ensures
            r@ == (Refreshing {
                phase: Phase::Scan,
                result: failing(self@.result, seq![message@]),
                ..self@
            }),
    {
        let mut work = self;
        let ghost before = work@;
        let ghost m = message@;
        work.result.failed.push(message);
        work.phase = Phase::Scan;
        assert(work@.result.failed =~= before.result.failed + seq![m]);
        work.go()
    }

    fn next_skill(self) -> (r: RefreshRun)
        requires
            self.group < self.groups@.len(),
            self.skill < self.groups@[self.group as int].skills@.len(),
        ensures
            r@ == next_skill(self@),
    {
        let mut work = self;
        let ghost before = work@;
        let n: usize = work.groups[work.group].skills.len();
        if work.skill < n - 1 {
            work.skill = work.skill + 1;
            work.phase = Phase::Look;
        } else {
            work.phase = Phase::Scan;
        }
        work.go()
    }

    fn scan(self, found: Vec<FoundSkill>) -> (r: RefreshRun)
        requires
            self.group < self.groups@.len(),
        ensures
            r@ == ({
                let (seen, new_skills) = all_noticed(self@.seen, self@.result.new_skills, found@);
                entered(
                    Refreshing {
                        group: self@.group + 1,
                        result: Refreshed { new_skills, ..self@.result },
                        seen,
                        ..self@
                    },
                )
            }),
    {
        let mut work = self;
        scan_new_skills(&mut work.seen, &mut work.result.new_skills, &found);
        let n: usize = work.groups.len();
        assert(work.group < n);
        work.group = work.group + 1;
        work.enter()
    }
}

// ── laws ──

/// How many skills the result speaks of, but for new ones.
pub open spec fn reported(r: Refreshed) -> int {
    r.refreshed.len() + r.unchanged.len() + r.held_back.len() + r.failed.len()
        + r.upstream_deleted.len() as int
}

/// Each skill that a checkout is held against is reported exactly once: whatever ends its turn
/// adds one to the result.
pub proof fn law_each_skill_is_reported_once(r: Refreshing, event: RefreshEvent)
    requires
        (r.phase == Phase::MarkDeleted || r.phase == Phase::MarkPresent) && event is Marked
            || r.phase == Phase::Update && event is Updated,
        0 <= r.group < r.groups.len(),
        0 <= r.skill < r.groups[r.group].skills.len(),
    ensures
        reported(led_on(r, event).result) == reported(r.result) + 1,
{
}

/// A skill that has gone upstream is kept: it is marked, and no update of it is asked for.
pub proof fn law_vanished_skills_are_kept(r: Refreshing, hash: Result<String, String>)
    requires
        r.phase == Phase::Look,
    ensures
        led_on(r, RefreshEvent::Looked { valid: false, hash }).phase == Phase::MarkDeleted,
        led_on(r, RefreshEvent::Looked { valid: false, hash }).result == r.result,
{
}

/// Upstream skills that are installed are not reported as new, and no path is reported twice.
pub proof fn law_installed_skills_are_not_new(
    seen: Seq<Seq<char>>,
    out: Seq<NewSkill>,
    found: FoundSkill,
)
    requires
        found.installed || (found.rel_path matches Some(p) && seen.contains(p@)),
    ensures
        noticed(seen, out, found).1 == out,
{
}

/// A skill in a group is of the group's branch.
pub open spec fn grouped_by_branch(groups: Seq<Group>) -> bool {
    &&& forall|g: int, i: int|
        0 <= g < groups.len() && 0 <= i < groups[g].skills.len() ==> (
        #[trigger] groups[g].skills[i]).source_branch == groups[g].branch
    &&& forall|g: int, h: int|
        0 <= g < h < groups.len() ==> (#[trigger] groups[g]).branch != (
        #[trigger] groups[h]).branch
}

proof fn lemma_group_at(groups: Seq<Group>, branch: Option<Seq<char>>)
    ensures
        0 <= group_at(groups, branch) <= groups.len(),
        group_at(groups, branch) < groups.len() ==> groups[group_at(groups, branch)].branch == branch,
        forall|g: int|
            0 <= g < group_at(groups, branch) ==> (#[trigger] groups[g]).branch != branch,
    decreases groups.len(),
{
    if groups.len() > 0 && groups[0].branch != branch {
        let rest = groups.skip(1);
        lemma_group_at(rest, branch);
        let n = group_at(rest, branch);
        assert forall|g: int| 0 <= g < n + 1 implies (#[trigger] groups[g]).branch != branch by {
            if g > 0 {
                assert(rest[g - 1] == groups[g]);
            }
        }
        if n < rest.len() {
            assert(rest[n] == groups[n + 1]);
        }
    }
}

/// One clone per branch: the skills of a group share a branch, and no two groups do.
pub proof fn law_one_group_per_branch(skills: Seq<Skill>)
    ensures
        grouped_by_branch(grouped(skills)),
    decreases skills.len(),
{
    if skills.len() > 0 {
        law_one_group_per_branch(skills.drop_last());
        if from_git(skills.last()) {
            let s = skills.last();
            let before = grouped(skills.drop_last());
            let after = with_skill(before, s);
            lemma_group_at(before, s.source_branch);
            let at = group_at(before, s.source_branch);
            assert forall|g: int, i: int|
                0 <= g < after.len() && 0 <= i < after[g].skills.len() implies (
            #[trigger] after[g].skills[i]).source_branch == after[g].branch by {
                if g == at {
                    if at < before.len() && i < before[at].skills.len() {
                        assert(before[at].skills[i].source_branch == before[at].branch);
                    }
                } else {
                    assert(after[g] == before[g]);
                    assert(before[g].skills[i].source_branch == before[g].branch);
                }
            }
            assert forall|g: int, h: int| 0 <= g < h < after.len() implies (
            #[trigger] after[g]).branch != (#[trigger] after[h]).branch by {
                if g < before.len() && h < before.len() {
                    assert(before[g].branch != before[h].branch);
                    assert(after[g].branch == before[g].branch);
                    assert(after[h].branch == before[h].branch);
                } else {
                    assert(after[g].branch == before[g].branch);
                }
            }
        }
    }
}

} // verus!
