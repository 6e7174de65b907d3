#![allow(unused_imports)]

pub mod bytes;
pub mod digest;
pub mod env_map;
pub mod error;
pub mod json;
pub mod json_laws;
pub mod json_order;
pub mod json_text_laws;
pub mod line_laws;
pub mod mcp_inventory;
pub mod mcp_inventory_laws;
pub mod mcp_library;
pub mod mcp_probe;
pub mod mcp_report_laws;
pub mod mcp_store;
pub mod mcp_upstream;
pub mod mcp_writers;
pub mod order;
pub mod paths;
pub mod pieces;
pub mod record_laws;
pub mod repo_key;
pub mod repo_key_edge_laws;
pub mod repo_key_laws;
pub mod skill_sources;
pub mod source_description;
pub mod table;
pub mod text;
pub mod text_laws;
pub mod text_lists;
pub mod trimming;
pub mod yaml;
