use vstd::prelude::*;

verus! {

/// Severity of a log line, from the most verbose to the most severe.
#[derive(Copy, Clone, Debug, PartialEq, Eq, Structural)]
pub enum Level {
    Trace,
    Debug,
    Info,
    Warn,
    Error,
}

/// The label a log line shows for its level: bare for trace, colored with
/// ANSI escapes for the others.
pub open spec fn level_label(level: Level) -> Seq<char> {
    match level {
        Level::Trace => "TRACE"@,
        Level::Debug => "\x1B[36mDEBUG\x1B[0m"@,
        Level::Info => "\x1B[32mINFO\x1B[0m"@,
        Level::Warn => "\x1B[33mWARN\x1B[0m"@,
        Level::Error => "\x1B[31mERROR\x1B[0m"@,
    }
}

impl Level {
    pub fn label(&self) -> (r: &'static str)
        ensures
            r@ == level_label(*self),
    {
        match self {
            Level::Trace => "TRACE",
            Level::Debug => "\x1B[36mDEBUG\x1B[0m",
            Level::Info => "\x1B[32mINFO\x1B[0m",
            Level::Warn => "\x1B[33mWARN\x1B[0m",
            Level::Error => "\x1B[31mERROR\x1B[0m",
        }
    }
}

} // verus!
