//! The settings of the managed Lua language server, from the client's
//! initialization options.
use vstd::prelude::*;
use crate::cea_api::{CheatEngineApiConfig, unsupported_version, unsupported_version_message};
use crate::text::text_eq;

verus! {

/// How the Lua language server is run and which libraries it sees.
#[derive(Debug, Clone)]
pub struct LuaConfig {
    pub path: Option<String>,
    pub runtime_version: Option<String>,
    pub runtime_path: Vec<String>,
    pub workspace_library: Vec<String>,
    pub cheat_engine_api: CheatEngineApiConfig,
}

impl Default for LuaConfig {
    fn default() -> (r: Self)
        ensures
            r.path is None,
            r.runtime_version is None,
            r.runtime_path@.len() == 0,
            r.workspace_library@.len() == 0,
            r.cheat_engine_api.enabled,
            r.cheat_engine_api.version@ == "7.7"@,
    {
        LuaConfig {
            path: None,
            runtime_version: None,
            runtime_path: Vec::new(),
            workspace_library: Vec::new(),
            cheat_engine_api: CheatEngineApiConfig::default(),
        }
    }
}

/// The CEA options of the initialization options: the Lua language server
/// settings and the Cheat Engine API choice.
#[derive(Debug)]
pub struct CeaOptions {
    pub lua_language_server: LuaConfig,
    pub cheat_engine_api: CheatEngineApiConfig,
}

/// The options ask for API declarations that are not bundled.
pub open spec fn refuses(options: CeaOptions) -> bool {
    options.cheat_engine_api.enabled && options.cheat_engine_api.version@ != "7.7"@
}

impl LuaConfig {
    /// The configuration from the client's options: the defaults without
    /// options; else the Lua settings with the chosen API, unless that API
    /// version is enabled but not bundled.
    pub fn from_initialization_options(options: Option<CeaOptions>) -> (r: Result<LuaConfig, String>)
        ensures
            match options {
                None => r matches Ok(c) && c.path is None && c.runtime_version is None
                    && c.runtime_path@.len() == 0 && c.workspace_library@.len() == 0
                    && c.cheat_engine_api.enabled && c.cheat_engine_api.version@ == "7.7"@,
                Some(o) => if refuses(o) {
                    r matches Err(e) && e@ == unsupported_version_message(
                        o.cheat_engine_api.version@,
                    )
                } else {
                    r matches Ok(c) && c.path == o.lua_language_server.path && c.runtime_version
                        == o.lua_language_server.runtime_version && c.runtime_path
                        == o.lua_language_server.runtime_path && c.workspace_library
                        == o.lua_language_server.workspace_library && c.cheat_engine_api
                        == o.cheat_engine_api
                },
            },
    {
        let options = match options {
            None => return Ok(LuaConfig::default()),
            Some(o) => o,
        };
        if options.cheat_engine_api.enabled && !text_eq(options.cheat_engine_api.version.as_str(), "7.7") {
            return Err(unsupported_version(options.cheat_engine_api.version.as_str()));
        }
        let lua = options.lua_language_server;
        Ok(LuaConfig {
            path: lua.path,
            runtime_version: lua.runtime_version,
            runtime_path: lua.runtime_path,
            workspace_library: lua.workspace_library,
            cheat_engine_api: options.cheat_engine_api,
        })
    }
}

/// The command that starts the Lua language server: the override (the
/// `CEA_LUA_LANGUAGE_SERVER` environment variable) when set, else the
/// configured path, else `lua-language-server`.
pub fn lua_server_command(override_command: Option<&str>, config: &LuaConfig) -> (r: String)
    ensures
        r@ == match override_command {
            Some(c) => c@,
            None => match config.path {
                Some(p) => p@,
                None => "lua-language-server"@,
            },
        },
{
    match override_command {
        Some(c) => c.to_owned(),
        None => match &config.path {
            Some(p) => p.clone(),
            None => String::from_str("lua-language-server"),
        },
    }
}

} // verus!
