//! Log lines of the form `[LEVEL context] message`.

use vstd::prelude::*;
use vstd::string::*;
use vstd::utf8::encode_utf8;

verus! {

/// The severity of a log message.
#[derive(Debug, Hash, Eq, PartialEq, Clone, Copy)]
pub enum Level {
    Trace,
    Debug,
    Info,
    Warning,
    Error,
}

/// The name under which a level is printed.
pub open spec fn level_name(level: Level) -> Seq<char> {
    match level {
        Level::Trace => "TRACE"@,
        Level::Debug => "DEBUG"@,
        Level::Info => "INFO"@,
        Level::Warning => "WARN"@,
        Level::Error => "ERROR"@,
    }
}

/// The text of a log line, with the line break that ends it.
pub open spec fn log_text(level: Level, context: Seq<char>, message: Seq<char>) -> Seq<char> {
    "["@ + level_name(level) + " "@ + context + "] "@ + message + "\n"@
}

/// The bytes of a log line.
pub open spec fn log_line(level: Level, context: Seq<char>, message: Seq<char>) -> Seq<u8> {
    encode_utf8(log_text(level, context, message))
}

impl Level {
    /// The name under which the level is printed.
    pub fn name(&self) -> (s: &'static str)
        ensures
            s@ == level_name(*self),
    {
        match self {
            Level::Trace => "TRACE",
            Level::Debug => "DEBUG",
            Level::Info => "INFO",
            Level::Warning => "WARN",
            Level::Error => "ERROR",
        }
    }
}

/// Appends the log line `[LEVEL context] message` to `out`.
pub fn log(out: &mut Vec<u8>, level: Level, context: &str, message: &str)
    ensures
        final(out)@ == old(out)@ + log_line(level, context@, message@),
{
    let mut line = "[".to_owned();
    line.append(level.name());
    line.append(" ");
    line.append(context);
    line.append("] ");
    line.append(message);
    line.append("\n");
    let ghost before = out@;
    let bytes = line.as_str().as_bytes();
    out.extend_from_slice(bytes);
    assert(out@ =~= before + bytes@);
}

} // verus!
