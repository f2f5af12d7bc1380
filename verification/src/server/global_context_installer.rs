//! Installation into the shared state bundle: the counterpart of
//! `commands_installer` that swaps a compiled configuration into a
//! `MainProcessState` as one value.

use vstd::prelude::*;

use crate::sequence_automata::{build_nodes, SequenceAutomata};
use crate::server::config_file_parser::{
    cmds_view, firsts, joined, parsed_cmds, prelude_lines, unreachable_from, Configuration,
};
use crate::server::global_context::MainProcessState;
use crate::util::{chars_string, dec_rep, push_chars, str_chars, strings_view, u64_to_chars};

verus! {

pub enum InstallResult {
    Installed(usize),
    Unreachable((usize, Vec<String>)),
    FileError(String),
}

/// The summary text of an installation outcome.
pub open spec fn install_result_text(r: InstallResult) -> Seq<char> {
    match r {
        InstallResult::Installed(count) => "Installed "@ + dec_rep(count as nat) + " commands"@,
        InstallResult::Unreachable((count, seqs)) => "Installed "@ + dec_rep(count as nat)
            + " commands, with some unreachable sequence(s):"@
            + crate::server::commands_installer::seq_lines(strings_view(seqs@)),
        InstallResult::FileError(err) => "Cannot install commands from file: "@ + err@,
    }
}

impl InstallResult {
    /// Render the summary the control surface and the startup log print.
    pub fn to_string(&self) -> (r: String)
        ensures
            r@ == install_result_text(*self),
    {
        let mut out: Vec<char> = Vec::new();
        match self {
            InstallResult::Installed(count) => {
                let head = str_chars("Installed ");
                push_chars(&mut out, &head);
                let digits = u64_to_chars(*count as u64);
                push_chars(&mut out, &digits);
                let tail = str_chars(" commands");
                push_chars(&mut out, &tail);
                proof {
                    assert(out@ =~= install_result_text(*self));
                }
            },
            InstallResult::Unreachable((count, seqs)) => {
                let head = str_chars("Installed ");
                push_chars(&mut out, &head);
                let digits = u64_to_chars(*count as u64);
                push_chars(&mut out, &digits);
                let tail = str_chars(" commands, with some unreachable sequence(s):");
                push_chars(&mut out, &tail);
                let ghost sv = strings_view(seqs@);
                let n = seqs.len();
                let ghost base = out@;
                let mut i: usize = 0;
                proof {
                    assert(sv.skip(0) =~= sv);
                }
                while i < n
                    invariant
                        i <= n == seqs@.len(),
                        sv == strings_view(seqs@),
                        sv.len() == n,
                        base + crate::server::commands_installer::seq_lines(sv) == out@
                            + crate::server::commands_installer::seq_lines(sv.skip(i as int)),
                    decreases n - i,
                {
                    let ghost rest = sv.skip(i as int);
                    proof {
                        assert(rest[0] == sv[i as int]);
                        assert(rest.drop_first() =~= sv.skip(i as int + 1));
                        assert(sv[i as int] == seqs@[i as int]@);
                    }
                    let ghost before = out@;
                    out.push('\n');
                    let line = str_chars(seqs[i].as_str());
                    push_chars(&mut out, &line);
                    proof {
                        assert(out@ =~= before + (seq!['\n'] + sv[i as int]));
                    }
                    i += 1;
                }
                proof {
                    assert(sv.skip(n as int) =~= Seq::<Seq<char>>::empty());
                    assert(crate::server::commands_installer::seq_lines(sv.skip(n as int))
                        == Seq::<char>::empty());
                    assert(out@ =~= base + crate::server::commands_installer::seq_lines(sv));
                    assert(out@ =~= install_result_text(*self));
                }
            },
            InstallResult::FileError(err) => {
                let head = str_chars("Cannot install commands from file: ");
                push_chars(&mut out, &head);
                let msg = str_chars(err.as_str());
                push_chars(&mut out, &msg);
                proof {
                    assert(out@ =~= install_result_text(*self));
                }
            },
        }
        chars_string(&out)
    }
}

/// Compile the configuration lines and swap the result into the state
/// bundle; the interpreter the daemon was started with is kept.
pub fn install_state_from_lines(lines: &[String], state: &mut MainProcessState) -> (r:
    InstallResult)
    ensures
        cmds_view(final(state).commands@) == parsed_cmds(strings_view(lines@)),
        final(state).pre_script@ == joined(prelude_lines(strings_view(lines@))),
        final(state).interpreter == old(state).interpreter,
        final(state).automata@.curr == 0,
        !final(state).automata@.failed,
        final(state).automata@.nodes == build_nodes(firsts(parsed_cmds(strings_view(lines@)))),
        final(state).automata@.wf(),
        match r {
            InstallResult::Installed(count) => count as int == parsed_cmds(
                strings_view(lines@),
            ).len() && unreachable_from(firsts(parsed_cmds(strings_view(lines@))), 0).len() == 0,
            InstallResult::Unreachable(payload) => payload.0 as int == parsed_cmds(
                strings_view(lines@),
            ).len() && strings_view(payload.1@) == unreachable_from(
                firsts(parsed_cmds(strings_view(lines@))),
                0,
            ) && strings_view(payload.1@).len() > 0,
            InstallResult::FileError(_) => false,
        },
{
    let config = Configuration::from_lines(lines);
    let seqs = config.get_sequences();
    let fresh = SequenceAutomata::new(seqs.as_slice());
    let Configuration { interpreter: _interp, commands: cmds, unreachable_sequences, pre_script: pre } =
        config;
    let total = cmds.len();
    proof {
        assert(cmds_view(cmds@).len() == cmds@.len());
    }
    state.commands = cmds;
    state.pre_script = pre;
    state.automata = fresh;
    if unreachable_sequences.len() == 0 {
        proof {
            assert(strings_view(unreachable_sequences@).len() == unreachable_sequences@.len());
        }
        InstallResult::Installed(total)
    } else {
        proof {
            assert(strings_view(unreachable_sequences@).len() == unreachable_sequences@.len());
        }
        InstallResult::Unreachable((total, unreachable_sequences))
    }
}

} // verus!
