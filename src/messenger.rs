//! Routing of module diagnostics to the host's log, each line attributed to
//! the module that wrote it.
use vstd::prelude::*;

verus! {

/// The channel a module wrote a message on.
#[derive(Clone, Copy, Debug, PartialEq, Eq, Structural)]
pub enum MessageType {
    Info,
    Error,
    Stdout,
    Stderr,
}

/// The level a message is logged at.
#[derive(Clone, Copy, Debug, PartialEq, Eq, Structural)]
pub enum LogLevel {
    Info,
    Error,
}

pub open spec fn prefix_spec(kind: MessageType) -> Seq<char> {
    match kind {
        MessageType::Info => "info"@,
        MessageType::Error => "error"@,
        MessageType::Stdout => "stdout"@,
        MessageType::Stderr => "stderr"@,
    }
}

pub open spec fn level_spec(kind: MessageType) -> LogLevel {
    match kind {
        MessageType::Error => LogLevel::Error,
        _ => LogLevel::Info,
    }
}

/// `message` without one trailing newline.
pub open spec fn stripped(message: Seq<char>) -> Seq<char> {
    if message.len() > 0 && message.last() == '\n' {
        message.drop_last()
    } else {
        message
    }
}

/// The logged line: `[name] prefix: message`.
pub open spec fn message_line(name: Seq<char>, kind: MessageType, message: Seq<char>) -> Seq<char> {
    "["@ + name + "] "@ + prefix_spec(kind) + ": "@ + stripped(message)
}

/// The channel's name, which prefixes its lines.
pub fn prefix(kind: MessageType) -> (r: &'static str)
    ensures
        r@ == prefix_spec(kind),
{
    match kind {
        MessageType::Info => "info",
        MessageType::Error => "error",
        MessageType::Stdout => "stdout",
        MessageType::Stderr => "stderr",
    }
}

/// The level at which the channel's lines are logged.
pub fn level(kind: MessageType) -> (r: LogLevel)
    ensures
        r == level_spec(kind),
{
    match kind {
        MessageType::Error => LogLevel::Error,
        _ => LogLevel::Info,
    }
}

/// `message` without one trailing newline.
pub fn strip_newline(message: &str) -> (r: &str)
    ensures
        r@ == stripped(message@),
{
    let n = message.unicode_len();
    if n > 0 && message.get_char(n - 1) == '\n' {
        message.substring_char(0, n - 1)
    } else {
        message
    }
}

/// The line to log for a message of module `name`, and its level.
pub fn format_message(name: &str, kind: MessageType, message: &str) -> (r: (String, LogLevel))
    ensures
        r.0@ == message_line(name@, kind, message@),
        r.1 == level_spec(kind),
{
    let mut line = String::from_str("[");
    line.append(name);
    line.append("] ");
    line.append(prefix(kind));
    line.append(": ");
    line.append(strip_newline(message));
    (line, level(kind))
}

} // verus!
