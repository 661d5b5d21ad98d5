use vstd::prelude::*;

verus! {

/// Severity of a log record, most severe first.
#[derive(Clone, Copy, Debug, PartialEq, Eq, Structural)]
pub enum Level {
    Error,
    Warn,
    Info,
    Debug,
    Trace,
}

/// The console logger: it prints every record that passes the level filter, colored by
/// severity.
#[derive(Clone, Copy, Debug, PartialEq, Eq, Structural)]
pub struct Logger;

/// ASCII letter `b` in lower case; other bytes unchanged.
pub open spec fn ascii_lower(b: u8) -> u8 {
    if 65 <= b <= 90 {
        (b + 32) as u8
    } else {
        b
    }
}

/// The two byte strings are equal up to ASCII case.
pub open spec fn eq_ignore_case(a: Seq<u8>, b: Seq<u8>) -> bool {
    a.len() == b.len() && forall|i: int| 0 <= i < a.len() ==> ascii_lower(a[i]) == ascii_lower(b[i])
}

/// The name by which the setting selects a level.
pub open spec fn level_name(l: Level) -> Seq<u8> {
    match l {
        Level::Error => seq![101u8, 114, 114, 111, 114],
        Level::Warn => seq![119u8, 97, 114, 110],
        Level::Info => seq![105u8, 110, 102, 111],
        Level::Debug => seq![100u8, 101, 98, 117, 103],
        Level::Trace => seq![116u8, 114, 97, 99, 101],
    }
}

/// The most verbose level that a setting admits: the level it names, ignoring case, and
/// Info where it names none or is absent.
pub open spec fn filter_for(setting: Option<Seq<u8>>) -> Level {
    match setting {
        Some(s) => if eq_ignore_case(s, level_name(Level::Error)) {
            Level::Error
        } else if eq_ignore_case(s, level_name(Level::Warn)) {
            Level::Warn
        } else if eq_ignore_case(s, level_name(Level::Info)) {
            Level::Info
        } else if eq_ignore_case(s, level_name(Level::Debug)) {
            Level::Debug
        } else if eq_ignore_case(s, level_name(Level::Trace)) {
            Level::Trace
        } else {
            Level::Info
        },
        None => Level::Info,
    }
}

fn to_lower(b: u8) -> (r: u8)
    ensures
        r == ascii_lower(b),
{
    if 65 <= b && b <= 90 {
        b + 32
    } else {
        b
    }
}

fn matches_ignore_case(a: &[u8], b: &[u8]) -> (r: bool)
    ensures
        r == eq_ignore_case(a@, b@),
{
    if a.len() != b.len() {
        return false;
    }
    let mut i: usize = 0;
    while i < a.len()
        invariant
            a@.len() == b@.len(),
            i <= a@.len(),
            forall|j: int| 0 <= j < i ==> ascii_lower(a@[j]) == ascii_lower(b@[j]),
        decreases a@.len() - i,
    {
        if to_lower(a[i]) != to_lower(b[i]) {
            return false;
        }
        i = i + 1;
    }
    true
}

impl Logger {
    /// The level filter that the logger is installed with, from the `LOG` setting.
    pub fn init(setting: Option<&[u8]>) -> (r: Level)
        ensures
            r == filter_for(
                match setting {
                    Some(s) => Some(s@),
                    None => None,
                },
            ),
    {
        let error: [u8; 5] = [101, 114, 114, 111, 114];
        let warn: [u8; 4] = [119, 97, 114, 110];
        let info: [u8; 4] = [105, 110, 102, 111];
        let debug: [u8; 5] = [100, 101, 98, 117, 103];
        let trace: [u8; 5] = [116, 114, 97, 99, 101];
        assert(error@ =~= level_name(Level::Error));
        assert(warn@ =~= level_name(Level::Warn));
        assert(info@ =~= level_name(Level::Info));
        assert(debug@ =~= level_name(Level::Debug));
        assert(trace@ =~= level_name(Level::Trace));
        match setting {
            Some(s) => {
                if matches_ignore_case(s, error.as_slice()) {
                    Level::Error
                } else if matches_ignore_case(s, warn.as_slice()) {
                    Level::Warn
                } else if matches_ignore_case(s, info.as_slice()) {
                    Level::Info
                } else if matches_ignore_case(s, debug.as_slice()) {
                    Level::Debug
                } else if matches_ignore_case(s, trace.as_slice()) {
                    Level::Trace
                } else {
                    Level::Info
                }
            },
            None => Level::Info,
        }
    }

    /// Every record is enabled; the level filter alone decides what is printed.
    pub fn enabled(&self, level: Level) -> (r: bool)
        ensures
            r,
    {
        true
    }

    /// The ANSI color code that a record of `level` is printed in.
    pub fn color(level: Level) -> (r: u32)
        ensures
            r == match level {
                Level::Error => 31u32,
                Level::Warn => 93u32,
                Level::Info => 34u32,
                Level::Debug => 32u32,
                Level::Trace => 90u32,
            },
    {
        match level {
            Level::Error => 31,
            Level::Warn => 93,
            Level::Info => 34,
            Level::Debug => 32,
            Level::Trace => 90,
        }
    }
}

} // verus!
