//! The run configuration and what follows from it.

use vstd::prelude::*;
use core::time::Duration;

verus! {

/// When to color the source prefix.
#[derive(Clone, Copy, Debug, PartialEq, Eq, Structural)]
pub enum ColorMode {
    Auto,
    Always,
    Never,
}

/// How source labels are formed.
#[derive(Clone, Copy, Debug, PartialEq, Eq, Structural)]
pub enum PrefixMode {
    /// The shortest unique suffix ending in the file name.
    Basename,
    /// The path relative to the working directory, where it lies below it.
    Relative,
    /// The absolute path.
    Full,
}

/// The run configuration.
#[derive(Clone, Debug)]
pub struct Config {
    /// Backlog lines per startup file.
    pub lines: usize,
    /// Polling interval in milliseconds.
    pub interval_ms: u64,
    pub prefix: PrefixMode,
    /// Skip the backlog and follow from the current end.
    pub since_now: bool,
    pub color: ColorMode,
    /// Paths and glob patterns, as given.
    pub inputs: Vec<String>,
}

/// The duration of `ms` milliseconds.
pub uninterp spec fn millis_duration(ms: u64) -> Duration;

/// Builds a duration by `Duration::from_millis`. Trusted: the result is the
/// duration of `ms` milliseconds, named `millis_duration`.
#[verifier::external_body]
fn duration_from_millis(ms: u64) -> (d: Duration)
    ensures
        d == millis_duration(ms),
{
    Duration::from_millis(ms)
}

impl Config {
    /// How many backlog lines to print: none with `since_now`, which wins
    /// over `lines`.
    pub fn backlog_lines(&self) -> (n: usize)
        ensures
            n == if self.since_now { 0 } else { self.lines },
    {
        if self.since_now {
            0
        } else {
            self.lines
        }
    }

    /// The polling interval.
    pub fn interval(&self) -> (d: Duration)
        ensures
            d == millis_duration(self.interval_ms),
    {
        duration_from_millis(self.interval_ms)
    }
}

/// Whether to color prefixes, given whether standard output is a terminal.
pub fn use_color(color: ColorMode, stdout_is_terminal: bool) -> (r: bool)
    ensures
        r == match color {
            ColorMode::Always => true,
            ColorMode::Never => false,
            ColorMode::Auto => stdout_is_terminal,
        },
{
    match color {
        ColorMode::Always => true,
        ColorMode::Never => false,
        ColorMode::Auto => stdout_is_terminal,
    }
}

} // verus!
