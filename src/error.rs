use vstd::prelude::*;

verus! {

/// The failures that the runtime reports at its boundaries.
#[derive(Debug, Clone, PartialEq, Eq)]
pub enum AgentError {
    DuplicateStreamName(String),
    InvalidArrayValue(String),
    InvalidDefinition(String, String),
    InvalidStreamName(String),
    InvalidValue(String),
    MissingDefinition(String, String),
    RenameStreamFailed(String),
    UnknownDefKind(String),
    UnknownDefName(String),
    NotImplemented(String),
    AgentAlreadyExists(String),
    AgentCreationFailed(String),
    AgentNotFound(String),
    SourceAgentNotFound(String),
    DuplicateId(String),
    EmptySourceHandle,
    EmptyTargetHandle,
    ChannelAlreadyExists,
    ChannelNotFound(String),
    StreamNotFound(String),
    AgentDefinitionNotFound(String),
    AgentTxNotFound(String),
    SendMessageFailed(String),
    SerializationError(String),
    TxNotInitialized,
    JsonParseError(String),
    InvalidConfig(String),
    NoConfig,
    UnknownConfig(String),
    NoGlobalConfig,
    PinNotFound(String),
    Other(String),
}

} // verus!
