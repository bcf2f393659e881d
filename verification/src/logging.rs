//! Log levels as the user names them.
use vstd::prelude::*;
use crate::text::{lowercase_of, str_eq, to_lowercase};

verus! {

/// How much the tool writes to its log, from nothing to everything.
#[derive(Debug, Clone, Copy, PartialEq, Eq, Structural)]
pub enum LevelFilter {
    Off,
    Error,
    Warn,
    Info,
    Debug,
    Trace,
}

/// The level a lowercase name stands for; an unknown name means errors only.
pub open spec fn level_named(name: Seq<char>) -> LevelFilter {
    if name == "error"@ {
        LevelFilter::Error
    } else if name == "warn"@ {
        LevelFilter::Warn
    } else if name == "info"@ {
        LevelFilter::Info
    } else if name == "debug"@ {
        LevelFilter::Debug
    } else if name == "trace"@ {
        LevelFilter::Trace
    } else {
        LevelFilter::Error
    }
}

/// The level a name already in lowercase stands for.
pub fn level_from_lowercase(name: &str) -> (r: LevelFilter)
    ensures
        r == level_named(name@),
{
    if str_eq(name, "error") {
        LevelFilter::Error
    } else if str_eq(name, "warn") {
        LevelFilter::Warn
    } else if str_eq(name, "info") {
        LevelFilter::Info
    } else if str_eq(name, "debug") {
        LevelFilter::Debug
    } else if str_eq(name, "trace") {
        LevelFilter::Trace
    } else {
        LevelFilter::Error
    }
}

/// The level a name stands for, in any letter case.
pub fn parse_level(level: &str) -> (r: LevelFilter)
    ensures
        r == level_named(lowercase_of(level@)),
{
    let lower = to_lowercase(level);
    level_from_lowercase(lower.as_str())
}

} // verus!
