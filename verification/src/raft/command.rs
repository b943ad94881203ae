use vstd::prelude::*;

verus! {

/// What a replicated command does.
#[derive(Debug, Clone, Copy, PartialEq, Eq, Structural)]
pub enum CommandType {
    SetValue,
    Get,
    Del,
    ConfigChange,
}

/// A command carried in a log entry.
#[derive(Debug, Clone)]
pub struct Command {
    pub command_type: CommandType,
    pub key: String,
    pub value: Option<String>,
}

/// Why a command could not be formed.
#[derive(Debug, Clone, Copy, PartialEq, Eq, Structural)]
pub enum CommandError {
    InvalidCommand,
    MissingKey,
    MissingValue,
}

/// The text that describes a command error.
pub open spec fn command_error_text(e: CommandError) -> Seq<char> {
    match e {
        CommandError::InvalidCommand => "Invalid command"@,
        CommandError::MissingKey => "Missing key"@,
        CommandError::MissingValue => "Missing value"@,
    }
}

impl CommandError {
    /// The text that describes this error.
    pub fn message(&self) -> (text: String)
        ensures
            text@ == command_error_text(*self),
    {
        match self {
            CommandError::InvalidCommand => "Invalid command".to_string(),
            CommandError::MissingKey => "Missing key".to_string(),
            CommandError::MissingValue => "Missing value".to_string(),
        }
    }
}

impl Command {
    /// A command of the given type, key and value.
    pub fn new(command_type: CommandType, key: String, value: Option<String>) -> (c: Self)
        ensures
            c.command_type == command_type,
            c.key == key,
            c.value == value,
    {
        Command { command_type, key, value }
    }

    /// A command that sets `key` to `value`.
    pub fn new_set(key: String, value: String) -> (c: Self)
        ensures
            c.command_type == CommandType::SetValue,
            c.key == key,
            c.value == Some(value),
    {
        Command { command_type: CommandType::SetValue, key, value: Some(value) }
    }

    /// A command that reads `key`.
    pub fn new_get(key: String) -> (c: Self)
        ensures
            c.command_type == CommandType::Get,
            c.key == key,
            c.value is None,
    {
        Command { command_type: CommandType::Get, key, value: None }
    }

    /// A command that deletes `key`.
    pub fn new_del(key: String) -> (c: Self)
        ensures
            c.command_type == CommandType::Del,
            c.key == key,
            c.value is None,
    {
        Command { command_type: CommandType::Del, key, value: None }
    }

    /// A configuration change; `encoded_configs` is the encoded pair of the old and
    /// the new configuration.
    pub fn new_config_change(encoded_configs: String) -> (c: Self)
        ensures
            c.command_type == CommandType::ConfigChange,
            c.key@ == "config"@,
            c.value == Some(encoded_configs),
    {
        Command {
            command_type: CommandType::ConfigChange,
            key: "config".to_string(),
            value: Some(encoded_configs),
        }
    }
}

} // verus!
