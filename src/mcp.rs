use vstd::prelude::*;

verus! {

/// How to launch one MCP server: its command, arguments and environment.
#[derive(Debug)]
pub struct MCPServerConfig {
    pub command: String,
    pub args: Vec<String>,
    pub env: Option<Vec<(String, String)>>,
}

/// The MCP servers of a configuration file, by name.
#[derive(Debug)]
pub struct MCPConfig {
    pub mcp_servers: Vec<(String, MCPServerConfig)>,
}

} // verus!
