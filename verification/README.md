# skills_manager

The verified core of a desktop manager for what AI agents are equipped with: MCP server
definitions, deployed to agents by surgical edits of their config files, and the repositories
that skills come from.

- `src/` is the library. Its contracts are proved by Verus; what it takes from `serde_json`,
  `serde_yaml`, `sha2` and `std` stands behind a few declared wrappers in `json.rs`, `yaml.rs`,
  `digest.rs`, `text.rs`, `mcp_store/columns.rs` and `mcp_writers/dsh_yaml.rs`.
- `tests/` runs it on concrete values.
- `app/` is the ordinary Rust around it: SQLite, config files, child processes, HTTP and git.

| module | what it holds |
| --- | --- |
| `repo_key` | one canonical key for every spelling of a repository |
| `mcp_inventory` | which MCP servers are configured in which agents |
| `mcp_writers` | edits of agent configs: OpenCode's JSON and DeepSeek Harness's YAML |
| `mcp_store` | the tables of definitions and of their deployments |
| `mcp_library` | add, edit, rename, delete, sync, take over, upgrade — with a confirmation before any human edit is overwritten |
| `mcp_probe` | one-shot liveness probes |
| `mcp_upstream` | where a definition comes from, whether it is behind, how it is upgraded |
| `skill_sources`, `source_description` | the repositories that skills come from |

Operations that touch files, processes or the network are led step by step: the library says what
to do next, `app/` does it and hands back what came of it. The laws of a module (`law_*`) stand
beside it or in a file of their own.
