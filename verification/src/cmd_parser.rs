//! Earlier shape of the command-line parser: the same grammar as `cmd`,
//! except that a sequence run of a single dot or dash is already accepted.

use vstd::prelude::*;

use crate::cmd::{match_line_spec, match_parts};

verus! {

/// A rule: a dot/dash sequence and the shell command it triggers.
pub struct Cmd {
    pub sequence: String,
    pub command: String,
}

impl Cmd {
    fn new(sequence: String, command: String) -> (r: Self)
        ensures
            r.sequence == sequence,
            r.command == command,
    {
        Self { sequence, command }
    }
}

/// Parse one configuration line as a command, accepting sequences of any
/// positive length.
pub fn parse_cmd(line: &str) -> (r: Result<Cmd, String>)
    ensures
        match match_line_spec(line@, 1) {
            Some(parts) => r is Ok && r->Ok_0.sequence@ == parts.0 && r->Ok_0.command@ == parts.1,
            None => r is Err && r->Err_0@ == "Some commands have incorrect format"@,
        },
{
    match match_parts(line, 1) {
        Some((sequence, command)) => Ok(Cmd::new(sequence, command)),
        None => Err(String::from_str("Some commands have incorrect format")),
    }
}

} // verus!
