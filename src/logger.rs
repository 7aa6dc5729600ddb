//! Log levels and the filter that decides which messages are written.
use vstd::prelude::*;

verus! {

/// The severity of a log message, least severe first.
#[derive(PartialEq, Eq, Structural, PartialOrd, Clone, Copy, Debug)]
pub enum LogLevel {
    Debug,
    Info,
    Warn,
    Error,
    Critical,
}

/// The rank of a level: `Debug` is 0, `Critical` is 4.
pub open spec fn rank(level: LogLevel) -> u8 {
    match level {
        LogLevel::Debug => 0,
        LogLevel::Info => 1,
        LogLevel::Warn => 2,
        LogLevel::Error => 3,
        LogLevel::Critical => 4,
    }
}

/// The rank of `level`.
pub fn level_rank(level: LogLevel) -> (r: u8)
    ensures
        r == rank(level),
{
    match level {
        LogLevel::Debug => 0,
        LogLevel::Info => 1,
        LogLevel::Warn => 2,
        LogLevel::Error => 3,
        LogLevel::Critical => 4,
    }
}

/// A log filter: messages below its minimum level are dropped.
pub struct Logger {
    min_level: LogLevel,
}

impl Logger {
    /// The minimum level written.
    pub closed spec fn spec_min_level(&self) -> LogLevel {
        self.min_level
    }

    /// A logger that writes messages of `min_level` and above.
    pub fn new(min_level: LogLevel) -> (r: Logger)
        ensures
            r.spec_min_level() == min_level,
    {
        Logger { min_level }
    }

    /// The minimum level written.
    pub fn min_level(&self) -> (r: LogLevel)
        ensures
            r == self.spec_min_level(),
    {
        self.min_level
    }

    /// Changes the minimum level written.
    pub fn set_min_level(&mut self, level: LogLevel)
        ensures
            final(self).spec_min_level() == level,
    {
        self.min_level = level;
    }

    /// Whether a message at `level` is written: its level is at least the
    /// minimum.
    pub fn should_log(&self, level: LogLevel) -> (r: bool)
        ensures
            r == (rank(level) >= rank(self.spec_min_level())),
    {
        level_rank(level) >= level_rank(self.min_level)
    }

    /// The terminal color code that a message at `level` is written in.
    pub fn color_level(level: LogLevel) -> (r: &'static str)
        ensures
            r@ == color_code(level),
    {
        match level {
            LogLevel::Debug => "\x1b[90m",
            LogLevel::Info => "\x1b[32m",
            LogLevel::Warn => "\x1b[33m",
            LogLevel::Error => "\x1b[31m",
            LogLevel::Critical => "\x1b[1;31m",
        }
    }

    /// The terminal code that ends a colored span.
    pub fn color_reset() -> (r: &'static str)
        ensures
            r@ == "\x1b[0m"@,
    {
        "\x1b[0m"
    }
}

/// The terminal color of each level: grey, green, yellow, red, bold red.
pub open spec fn color_code(level: LogLevel) -> Seq<char> {
    match level {
        LogLevel::Debug => "\x1b[90m"@,
        LogLevel::Info => "\x1b[32m"@,
        LogLevel::Warn => "\x1b[33m"@,
        LogLevel::Error => "\x1b[31m"@,
        LogLevel::Critical => "\x1b[1;31m"@,
    }
}

} // verus!
