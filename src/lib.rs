//! A runtime core for dataflow programs of agents connected by channels:
//! values and contexts, agent and stream specs, the channel table, routing,
//! boards and stream variables, and the lifecycle decisions of the hub.
pub mod askit;
pub mod board_agent;
pub mod channels;
pub mod config;
pub mod context;
pub mod definition;
pub mod error;
pub mod id;
pub mod llm;
pub mod mcp;
pub mod spec;
pub mod stream;
pub mod text;
pub mod value;

pub use askit::{ASKit, AgentEntry, AgentMessage, AgentStatus, AgentStreamInfo, InputAction};
pub use config::AgentConfigs;
pub use context::{AgentContext, Frame};
pub use definition::{AgentConfigEntry, AgentDefinition};
pub use error::AgentError;
pub use id::IdGen;
pub use llm::{Message, ToolCall, ToolCallFunction};
pub use mcp::{MCPConfig, MCPServerConfig};
pub use spec::{AgentSpec, AgentStreamSpec, ChannelSpec};
pub use stream::AgentStream;
pub use value::{AgentValue, JsonValue};
