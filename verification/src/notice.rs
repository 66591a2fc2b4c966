//! Notices for the user: what happened, how serious it is, and the line of
//! text that reports the most recent one.

use vstd::prelude::*;
use vstd::string::StringExecFns;

verus! {

/// How serious a notice is.
#[derive(Clone, Copy, Debug)]
pub enum LogLevel {
    Info,
    Warning,
    Error,
}

/// A notice: its text and its level.
#[derive(Debug)]
pub struct LogMessage {
    pub msg: String,
    pub level: LogLevel,
}

/// What precedes the text of a notice of the given level.
pub open spec fn lead(level: LogLevel) -> Seq<char> {
    match level {
        LogLevel::Info => "ℹ️ "@,
        LogLevel::Warning => "⚠️ "@,
        LogLevel::Error => "❌ "@,
    }
}

/// What follows the text of a notice of the given level.
pub open spec fn trail(level: LogLevel) -> Seq<char> {
    match level {
        LogLevel::Info => " ℹ️"@,
        LogLevel::Warning => " ⚠️"@,
        LogLevel::Error => " ❌"@,
    }
}

/// The line that reports a notice: its text between the marks of its level.
pub open spec fn banner(level: LogLevel, msg: Seq<char>) -> Seq<char> {
    lead(level) + msg + trail(level)
}

/// The line to show for a stack of notices: that of the latest notice, or a
/// note that all is well when there is none.
pub open spec fn status_of(logs: Seq<LogMessage>) -> Seq<char> {
    if logs.len() > 0 {
        banner(logs.last().level, logs.last().msg@)
    } else {
        banner(LogLevel::Info, "Loaded"@)
    }
}

impl LogMessage {
    /// A notice with the given text and level.
    pub fn new(msg: String, level: LogLevel) -> (notice: Self)
        ensures
            notice.msg == msg,
            notice.level == level,
    {
        Self { msg, level }
    }

    /// The line that reports this notice.
    pub fn text(&self) -> (line: String)
        ensures
            line@ == banner(self.level, self.msg@),
    {
        decorated(self.level, self.msg.as_str())
    }
}

/// Puts a text between the marks of a level.
fn decorated(level: LogLevel, msg: &str) -> (line: String)
    ensures
        line@ == banner(level, msg@),
{
    let mut line = match level {
        LogLevel::Info => "ℹ️ ".to_owned(),
        LogLevel::Warning => "⚠️ ".to_owned(),
        LogLevel::Error => "❌ ".to_owned(),
    };
    line.append(msg);
    match level {
        LogLevel::Info => line.append(" ℹ️"),
        LogLevel::Warning => line.append(" ⚠️"),
        LogLevel::Error => line.append(" ❌"),
    }
    line
}

/// The line to show for a stack of notices, of which the last is the latest.
pub fn status_line(logs: &Vec<LogMessage>) -> (line: String)
    ensures
        line@ == status_of(logs@),
{
    if logs.len() > 0 {
        logs[logs.len() - 1].text()
    } else {
        decorated(LogLevel::Info, "Loaded")
    }
}

} // verus!
