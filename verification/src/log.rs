//! Logging verbosity and the decision of which messages are shown.

use vstd::prelude::*;

verus! {

/// Logging verbosity, ordered from quietest to loudest. `Quiet` is the
/// level of messages that are always shown.
#[derive(Clone, Copy, PartialEq, Eq, PartialOrd, Ord, Debug, Structural)]
pub enum LogLevel {
    Quiet,
    Error,
    Warning,
    Info,
    Debug,
}

impl LogLevel {
    /// Position of the level from quietest (0) to loudest (4).
    pub open spec fn rank(self) -> int {
        match self {
            LogLevel::Quiet => 0,
            LogLevel::Error => 1,
            LogLevel::Warning => 2,
            LogLevel::Info => 3,
            LogLevel::Debug => 4,
        }
    }

    /// Map a `-v` repeat count to a level: verbosity starts at `Warning`
    /// and each `-v` makes it one step louder, up to `Debug`.
    pub fn from_verbosity(verbose: u8) -> (l: LogLevel)
        ensures
            l.rank() == if 2 + verbose >= 4 {
                4
            } else {
                2 + verbose
            },
    {
        match 2u8.saturating_add(verbose) {
            0 => LogLevel::Quiet,
            1 => LogLevel::Error,
            2 => LogLevel::Warning,
            3 => LogLevel::Info,
            _ => LogLevel::Debug,
        }
    }

    /// Tag printed in front of a message of this level.
    pub fn tag(self) -> (t: &'static str)
        ensures
            self == LogLevel::Quiet ==> t@ == ""@,
            self == LogLevel::Error ==> t@ == "ERROR"@,
            self == LogLevel::Warning ==> t@ == "WARNING"@,
            self == LogLevel::Info ==> t@ == "INFO"@,
            self == LogLevel::Debug ==> t@ == "DEBUG"@,
    {
        match self {
            LogLevel::Quiet => "",
            LogLevel::Error => "ERROR",
            LogLevel::Warning => "WARNING",
            LogLevel::Info => "INFO",
            LogLevel::Debug => "DEBUG",
        }
    }
}

/// A logger configured with the loudest level it shows.
#[derive(Clone, Copy, Debug)]
pub struct Logger {
    level: LogLevel,
}

impl Logger {
    /// The loudest level this logger shows.
    pub closed spec fn spec_level(&self) -> LogLevel {
        self.level
    }

    /// Create a logger that shows messages at or below `level`.
    pub fn new(level: LogLevel) -> (l: Logger)
        ensures
            l.spec_level() == level,
    {
        Logger { level }
    }

    /// The loudest level this logger shows.
    pub fn level(&self) -> (l: LogLevel)
        ensures
            l == self.spec_level(),
    {
        self.level
    }

    /// Whether a message of `level` is shown.
    pub fn shows(&self, level: LogLevel) -> (b: bool)
        ensures
            b == (level.rank() <= self.spec_level().rank()),
    {
        rank_of(level) <= rank_of(self.level)
    }

    /// The line to print for a message of `level`, or `None` when the
    /// logger does not show that level: the bare message for level `Quiet`,
    /// otherwise `"<TAG>: <message>"`.
    pub fn line(&self, level: LogLevel, msg: &str) -> (r: Option<String>)
        ensures
            level.rank() > self.spec_level().rank() ==> r is None,
            level.rank() <= self.spec_level().rank() && level == LogLevel::Quiet ==> (r matches Some(t)
                && t@ == msg@),
            level.rank() <= self.spec_level().rank() && level != LogLevel::Quiet ==> (r matches Some(t)
                && t@ == level.spec_tag() + ": "@ + msg@),
    {
        if !self.shows(level) {
            return None;
        }
        match level {
            LogLevel::Quiet => Some(msg.to_owned()),
            _ => {
                let mut t = String::from_str(level.tag());
                t.append(": ");
                t.append(msg);
                proof {
                    reveal_strlit(": ");
                }
                Some(t)
            },
        }
    }
}

impl LogLevel {
    /// The tag of a level, as text.
    pub open spec fn spec_tag(self) -> Seq<char> {
        match self {
            LogLevel::Quiet => ""@,
            LogLevel::Error => "ERROR"@,
            LogLevel::Warning => "WARNING"@,
            LogLevel::Info => "INFO"@,
            LogLevel::Debug => "DEBUG"@,
        }
    }
}

/// Position of a level from quietest (0) to loudest (4).
fn rank_of(l: LogLevel) -> (r: u8)
    ensures
        r == l.rank(),
{
    match l {
        LogLevel::Quiet => 0,
        LogLevel::Error => 1,
        LogLevel::Warning => 2,
        LogLevel::Info => 3,
        LogLevel::Debug => 4,
    }
}

impl Default for Logger {
    /// The default logger shows warnings and errors.
    fn default() -> (l: Logger)
        ensures
            l.spec_level() == LogLevel::Warning,
    {
        Logger { level: LogLevel::Warning }
    }
}

} // verus!
