//! Analysis core of a language server for Cheat Engine Auto Assembler scripts.
pub mod text;
pub mod integer;
pub mod lua_scan;
pub mod syntax;
pub mod symbol_index;
pub mod diagnostics;
pub mod workspace_index;
pub mod document;
pub mod checks;
pub mod keyed;
pub mod lua_paths;
pub mod json;
pub mod lua_protocol;
pub mod cea_api;
pub mod lua_config;
pub mod workspace_files;
pub mod navigation;
pub mod server_state;
pub mod workspace_folders;
pub mod supervisor;
