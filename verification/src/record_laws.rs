//! Every record stands for the model with the same fields: nothing of it is left out of what is
//! proved.

use vstd::prelude::*;
use crate::error::AppError;
use crate::mcp_inventory::{
    AgentScan, McpAgentStatus, McpInventoryReport, McpServerOccurrence, McpServerSummary,
    RawMcpEntry,
};
use crate::mcp_library::{McpEntryDefDto, PendingDriftDto, WriteOutcome, Written};
use crate::mcp_library::audit::AuditEntry;
use crate::mcp_library::report::McpBindingDto;
use crate::mcp_probe::ProbeInfo;
use crate::mcp_upstream::{McpSource, Source};
use crate::mcp_upstream::checks::CheckOutcome;
use crate::mcp_writers::{AgentWriteError, McpEntryDef, WriteError};
use crate::skill_sources::SkillSourceDto;
use crate::skill_sources::refresh::{
    BranchGroup, CheckError, SkillRecord, SourceRefreshNewSkill, SourceRefreshResult,
};

verus! {

/// The same text, or none on either side.
pub open spec fn option_stands(s: Option<String>, t: Option<Seq<char>>) -> bool {
    match (s, t) {
        (Some(a), Some(b)) => a@ == b,
        (None, None) => true,
        _ => false,
    }
}

/// The same texts in the same places.
pub open spec fn list_stands(s: Seq<String>, t: Seq<Seq<char>>) -> bool {
    s.len() == t.len() && forall|i: int| 0 <= i < s.len() ==> (#[trigger] s[i])@ == t[i]
}

/// An entry as it was found.
pub proof fn law_entry_record(e: RawMcpEntry)
    ensures
        e@.name == e.name@,
        e@.transport == e.transport@,
        option_stands(e.command, e@.command),
        option_stands(e.url, e@.url),
        list_stands(e.env_keys@, e@.env_keys),
        e@.enabled == e.enabled,
        option_stands(e.entry_id, e@.entry_id),
{
}

/// An agent's state.
pub proof fn law_status_record(s: McpAgentStatus)
    ensures
        s@.agent_key == s.agent_key@,
        s@.display_name == s.display_name@,
        s@.installed == s.installed,
        s@.config_path == s.config_path@,
        s@.config_exists == s.config_exists,
        s@.server_count == s.server_count,
        option_stands(s.error, s@.error),
{
}

/// A server as one agent has it.
pub proof fn law_occurrence_record(o: McpServerOccurrence)
    ensures
        o@.agent_key == o.agent_key@,
        o@.agent_display_name == o.agent_display_name@,
        o@.transport == o.transport@,
        option_stands(o.command, o@.command),
        option_stands(o.url, o@.url),
        list_stands(o.env_keys@, o@.env_keys),
        o@.enabled == o.enabled,
        option_stands(o.entry_id, o@.entry_id),
        o@.config_path == o.config_path@,
{
}

/// A server over all agents.
pub proof fn law_summary_record(s: McpServerSummary)
    ensures
        s@.name == s.name@,
        s@.transport == s.transport@,
        option_stands(s.command, s@.command),
        option_stands(s.url, s@.url),
        list_stands(s.env_keys@, s@.env_keys),
        s@.agents.len() == s.agents@.len(),
        forall|i: int| 0 <= i < s.agents@.len() ==> #[trigger] s@.agents[i] == s.agents@[i]@,
{
}

/// One agent's scan, and the report on all of them.
pub proof fn law_report_record(a: AgentScan, r: McpInventoryReport)
    ensures
        a@.status == a.status@,
        a@.entries.len() == a.entries@.len(),
        forall|i: int| 0 <= i < a.entries@.len() ==> #[trigger] a@.entries[i] == a.entries@[i]@,
        r@.servers.len() == r.servers@.len(),
        forall|i: int| 0 <= i < r.servers@.len() ==> #[trigger] r@.servers[i] == r.servers@[i]@,
        r@.agents.len() == r.agents@.len(),
        forall|i: int| 0 <= i < r.agents@.len() ==> #[trigger] r@.agents[i] == r.agents@[i]@,
        r@.scanned_at_ms == r.scanned_at_ms,
{
}

/// A definition as it is written to a file.
pub proof fn law_definition_record(e: McpEntryDef)
    ensures
        e@.name == e.name@,
        e@.transport == e.transport@,
        option_stands(e.command, e@.command),
        list_stands(e.args@, e@.args),
        option_stands(e.url, e@.url),
        e@.env == e.env@,
{
}

/// A definition as it is asked for.
pub proof fn law_asked_definition_record(e: McpEntryDefDto)
    ensures
        e@.name == e.name@,
        e@.transport == e.transport@,
        option_stands(e.command, e@.command),
        list_stands(e.args@, e@.args),
        option_stands(e.url, e@.url),
        e@.env == e.env@,
{
}

/// What waits for a confirmation.
pub proof fn law_drift_record(d: PendingDriftDto)
    ensures
        d@.agent_key == d.agent_key@,
        d@.token == d.token@,
        d@.current_text == d.current_text@,
        d@.planned_text == d.planned_text@,
        d@.kind == d.kind@,
        WriteOutcome::PendingDrift(d)@ == Written::Pending(d@),
        WriteOutcome::Applied@ == Written::Applied,
{
}

/// A binding's verdict.
pub proof fn law_verdict_record(b: McpBindingDto)
    ensures
        b@.agent_key == b.agent_key@,
        b@.fingerprint == b.fingerprint@,
        b@.drift == b.drift,
        option_stands(b.drift_reason, b@.drift_reason),
        b@.variant == b.variant,
{
}

/// What is told of an operation.
pub proof fn law_audit_record(a: AuditEntry)
    ensures
        a@.action == a.action@,
        a@.server_id == a.server_id@,
        a@.server_name == a.server_name@,
        a@.detail == a.detail@,
        option_stands(a.failure, a@.failure),
{
}

/// What a probe and a check found.
pub proof fn law_outcome_records(p: ProbeInfo, c: CheckOutcome)
    ensures
        option_stands(p.server_name, p@.server_name),
        option_stands(p.server_version, p@.server_version),
        option_stands(c.latest, c@.latest),
        c@.behind == c.behind,
        option_stands(c.error, c@.error),
{
}

/// Sources and errors.
pub proof fn law_source_record(package: String, url: String, path: String, e: AppError)
    ensures
        (McpSource::NpmGlobal { package })@ == Source::NpmGlobal(package@),
        (McpSource::Npx { package })@ == Source::Npx(package@),
        (McpSource::PypiUvx { package })@ == Source::PypiUvx(package@),
        (McpSource::Git { repo_url: url, clone_path: path })@ == Source::Git(url@, path@),
        McpSource::Unknown@ == Source::Unknown,
        e@.kind == e.kind,
        e@.message == e.message@,
        AgentWriteError::Unsafe(url)@ == WriteError::Unsafe(url@),
        AgentWriteError::Io(url)@ == WriteError::Io(url@),
{
}

/// A source of skills.
pub proof fn law_skill_source_record(s: SkillSourceDto)
    ensures
        s@.id == s.id@,
        s@.repo_key == s.repo_key@,
        s@.display_url == s.display_url@,
        option_stands(s.branch, s@.branch),
        option_stands(s.description, s@.description),
        s@.description_source == s.description_source@,
        s@.skill_count == s.skill_count,
{
}

/// A skill, and a group of skills.
pub proof fn law_skill_record(s: SkillRecord, g: BranchGroup)
    ensures
        s@.id == s.id@,
        s@.name == s.name@,
        s@.source_type == s.source_type@,
        option_stands(s.source_branch, s@.source_branch),
        option_stands(s.source_subpath, s@.source_subpath),
        option_stands(s.content_hash, s@.content_hash),
        option_stands(s.remote_revision, s@.remote_revision),
        option_stands(s.clone_url, s@.clone_url),
        option_stands(g.branch, g@.branch),
        g@.skills.len() == g.skills@.len(),
        forall|i: int| 0 <= i < g.skills@.len() ==> #[trigger] g@.skills[i] == g.skills@[i]@,
{
}

/// What a refresh has done.
pub proof fn law_refresh_record(r: SourceRefreshResult, n: SourceRefreshNewSkill, c: CheckError)
    ensures
        list_stands(r.refreshed@, r@.refreshed),
        list_stands(r.unchanged@, r@.unchanged),
        list_stands(r.held_back@, r@.held_back),
        list_stands(r.failed@, r@.failed),
        list_stands(r.upstream_deleted@, r@.upstream_deleted),
        r@.new_skills.len() == r.new_skills@.len(),
        forall|i: int| 0 <= i < r.new_skills@.len() ==> #[trigger] r@.new_skills[i] == r.new_skills@[i]@,
        n@.rel_path == n.rel_path@,
        n@.name == n.name@,
        option_stands(n.description, n@.description),
        c@.skill_id == c.skill_id@,
        option_stands(c.remote_revision, c@.remote_revision),
        c@.message == c.message@,
{
}

} // verus!
