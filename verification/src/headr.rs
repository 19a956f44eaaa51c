//! The options of the utility that shows the head of its inputs: how many
//! lines, or how many bytes, and of which inputs.

use crate::decimal::{parse_usize, parsed_usize};
use vstd::prelude::*;

verus! {

/// What to show of which inputs.
#[derive(Debug, Clone)]
pub struct Config {
    pub files: Vec<String>,
    pub lines: usize,
    pub bytes: Option<usize>,
}

/// The positive number that `s` spells, where it spells one.
pub open spec fn positive_int(s: Seq<char>) -> Option<usize> {
    match parsed_usize(s) {
        Some(n) => if n > 0 {
            Some(n)
        } else {
            None
        },
        None => None,
    }
}

/// What is said of a line count that is no positive number, before the
/// count itself.
pub open spec fn illegal_line_count() -> Seq<char> {
    "illegal line count -- : "@
}

/// What is said of a byte count that is no positive number, before the
/// count itself.
pub open spec fn illegal_byte_count() -> Seq<char> {
    "illegal byte count -- : "@
}

/// Reads a positive number. Anything else is handed back as the error.
pub fn parse_positive_int(val: &str) -> (r: Result<usize, String>)
    ensures
        match r {
            Ok(n) => positive_int(val@) == Some(n),
            Err(e) => positive_int(val@) is None && e@ == val@,
        },
{
    match parse_usize(val) {
        Some(n) => if n > 0 {
            Ok(n)
        } else {
            Err(val.to_owned())
        },
        None => Err(val.to_owned()),
    }
}

/// What `make_config` returns: the configuration where both counts are
/// positive numbers, and else the complaint about the first that is not, the
/// line count before the byte count.
pub open spec fn config_for(
    r: Result<Config, String>,
    files: Vec<String>,
    lines: Seq<char>,
    bytes: Option<Seq<char>>,
) -> bool {
    match r {
        Ok(c) => {
            &&& c.files == files
            &&& positive_int(lines) == Some(c.lines)
            &&& match bytes {
                Some(b) => c.bytes is Some && positive_int(b) == c.bytes,
                None => c.bytes is None,
            }
        },
        Err(e) => if positive_int(lines) is None {
            e@ == illegal_line_count() + lines
        } else {
            bytes matches Some(b) && positive_int(b) is None && e@ == illegal_byte_count() + b
        },
    }
}

/// Validates the line count and, where there is one, the byte count, and
/// makes the configuration of them.
pub fn make_config(files: Vec<String>, lines: &str, bytes: Option<&str>) -> (r: Result<
    Config,
    String,
>)
    ensures
        config_for(
            r,
            files,
            lines@,
            match bytes {
                Some(b) => Some(b@),
                None => None,
            },
        ),
{
    let lines = match parse_positive_int(lines) {
        Ok(n) => n,
        Err(e) => {
            let mut msg = "illegal line count -- : ".to_owned();
            msg.append(e.as_str());
            return Err(msg);
        },
    };
    let bytes = match bytes {
        Some(b) => match parse_positive_int(b) {
            Ok(n) => Some(n),
            Err(e) => {
                let mut msg = "illegal byte count -- : ".to_owned();
                msg.append(e.as_str());
                return Err(msg);
            },
        },
        None => None,
    };
    Ok(Config { files, lines, bytes })
}

} // verus!
