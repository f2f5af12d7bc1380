//! The pure halves of the control surface's handlers: rendering the
//! installed commands, expanding a pushed sequence into instructions, and
//! the round trip that re-compiling that rendering is the identity.  The
//! HTTP plumbing itself runs outside the library.

use vstd::prelude::*;

use crate::cmd::{lemma_match_command_line, match_line_spec, wf_capture, Cmd};
use crate::sequence_automata::{char_instrs, lemma_char_instrs, AutomataInstruction};
use crate::server::config_file_parser::{
    cmds_view, joined, lemma_joined_push, parsed_cmds, prelude_lines,
};
use crate::util::{chars_string, push_chars, str_chars};

verus! {

/// The `sequence SP command` line of one capture.
pub open spec fn command_line_of(p: (Seq<char>, Seq<char>)) -> Seq<char> {
    p.0 + seq![' '] + p.1
}

/// One such line per capture, in rule order.
pub open spec fn command_lines(ps: Seq<(Seq<char>, Seq<char>)>) -> Seq<Seq<char>>
    decreases ps.len(),
{
    if ps.len() == 0 {
        Seq::empty()
    } else {
        seq![command_line_of(ps[0])] + command_lines(ps.drop_first())
    }
}

proof fn lemma_command_lines_push(ps: Seq<(Seq<char>, Seq<char>)>, p: (Seq<char>, Seq<char>))
    ensures
        command_lines(ps.push(p)) == command_lines(ps).push(command_line_of(p)),
    decreases ps.len(),
{
    if ps.len() == 0 {
        let e = Seq::<(Seq<char>, Seq<char>)>::empty();
        assert(ps.push(p)[0] == p);
        assert(ps.push(p).drop_first() =~= e);
        assert(command_lines(e) == Seq::<Seq<char>>::empty());
        assert(command_lines(ps.push(p)) == seq![command_line_of(p)] + command_lines(e));
        assert(command_lines(ps.push(p)) =~~= command_lines(ps).push(command_line_of(p)));
    } else {
        assert(ps.push(p)[0] == ps[0]);
        assert(ps.push(p).drop_first() =~= ps.drop_first().push(p));
        lemma_command_lines_push(ps.drop_first(), p);
        assert(command_lines(ps.push(p)) =~~= command_lines(ps).push(command_line_of(p)));
    }
}

/// The text the control surface reports the installed commands as: one
/// `sequence SP command` line per rule, in rule order.
pub fn installed_commands_text(commands: &Vec<Cmd>) -> (r: String)
    ensures
        r@ == joined(command_lines(cmds_view(commands@))),
{
    let ghost cv = cmds_view(commands@);
    let n = commands.len();
    let mut out: Vec<char> = Vec::new();
    let mut i: usize = 0;
    proof {
        assert(cv.take(0) =~= Seq::<(Seq<char>, Seq<char>)>::empty());
        assert(out@ =~= joined(command_lines(cv.take(0))));
    }
    while i < n
        invariant
            i <= n == commands@.len(),
            cv == cmds_view(commands@),
            cv.len() == n,
            out@ == joined(command_lines(cv.take(i as int))),
        decreases n - i,
    {
        let ghost before = out@;
        proof {
            assert(cv.take(i + 1) =~= cv.take(i as int).push(cv[i as int]));
            lemma_command_lines_push(cv.take(i as int), cv[i as int]);
            lemma_joined_push(command_lines(cv.take(i as int)), command_line_of(cv[i as int]));
        }
        if i > 0 {
            out.push('\n');
            proof {
                assert(command_lines(cv.take(i as int)).len() == i) by {
                    lemma_command_lines_len(cv.take(i as int));
                }
            }
        } else {
            proof {
                assert(command_lines(cv.take(0int)).len() == 0) by {
                    lemma_command_lines_len(cv.take(0int));
                }
            }
        }
        let seq_chars = str_chars(commands[i].sequence.as_str());
        push_chars(&mut out, &seq_chars);
        out.push(' ');
        let cmd_chars = str_chars(commands[i].command.as_str());
        push_chars(&mut out, &cmd_chars);
        proof {
            assert(cv[i as int] == (commands@[i as int].sequence@, commands@[i as int].command@));
            if i > 0 {
                assert(out@ =~= before + seq!['\n'] + command_line_of(cv[i as int]));
            } else {
                assert(out@ =~= command_line_of(cv[i as int]));
            }
        }
        i += 1;
    }
    proof {
        assert(cv.take(n as int) =~= cv);
    }
    chars_string(&out)
}

proof fn lemma_command_lines_len(ps: Seq<(Seq<char>, Seq<char>)>)
    ensures
        command_lines(ps).len() == ps.len(),
    decreases ps.len(),
{
    if ps.len() > 0 {
        lemma_command_lines_len(ps.drop_first());
    }
}

/// The instruction stream a pushed sequence expands to: a reset, one
/// character instruction per character, then a reset.
pub fn sequence_to_instructions(sequence: &str) -> (r: Vec<AutomataInstruction>)
    ensures
        r@ == seq![AutomataInstruction::Reset] + char_instrs(sequence@) + seq![
            AutomataInstruction::Reset,
        ],
{
    let len = sequence.unicode_len();
    let mut out: Vec<AutomataInstruction> = Vec::new();
    out.push(AutomataInstruction::Reset);
    proof {
        lemma_char_instrs(sequence@);
        assert(out@ =~= seq![AutomataInstruction::Reset] + char_instrs(sequence@).take(0));
    }
    let mut i: usize = 0;
    while i < len
        invariant
            i <= len == sequence@.len(),
            out@ == seq![AutomataInstruction::Reset] + char_instrs(sequence@).take(i as int),
        decreases len - i,
    {
        let c = sequence.get_char(i);
        out.push(AutomataInstruction::Char(c));
        proof {
            lemma_char_instrs(sequence@);
            assert(char_instrs(sequence@).take(i + 1) =~= char_instrs(sequence@).take(
                i as int,
            ).push(AutomataInstruction::Char(sequence@[i as int])));
            assert(out@ =~= seq![AutomataInstruction::Reset] + char_instrs(sequence@).take(i + 1));
        }
        i += 1;
    }
    out.push(AutomataInstruction::Reset);
    proof {
        assert(char_instrs(sequence@).take(len as int) =~= char_instrs(sequence@));
        assert(out@ =~= seq![AutomataInstruction::Reset] + char_instrs(sequence@) + seq![
            AutomataInstruction::Reset,
        ]);
    }
    out
}

/// Compiling the rendering of a list of well-formed captures yields exactly
/// those captures back, with an empty prelude: the compiler is the identity
/// on its own output.
pub proof fn lemma_compiler_round_trip(ps: Seq<(Seq<char>, Seq<char>)>)
    requires
        forall|k: int| 0 <= k < ps.len() ==> wf_capture((#[trigger] ps[k]).0, ps[k].1, 2),
    ensures
        parsed_cmds(command_lines(ps)) == ps,
        prelude_lines(command_lines(ps)) == Seq::<Seq<char>>::empty(),
    decreases ps.len(),
{
    if ps.len() == 0 {
        assert(parsed_cmds(command_lines(ps)) =~~= ps);
        assert(prelude_lines(command_lines(ps)) =~~= Seq::<Seq<char>>::empty());
    } else {
        let p = ps[0];
        let rest = ps.drop_first();
        lemma_match_command_line(p.0, p.1, 2);
        assert(command_lines(ps)[0] == command_line_of(p));
        assert(command_lines(ps).drop_first() =~= command_lines(rest));
        assert(forall|k: int|
            0 <= k < rest.len() ==> wf_capture((#[trigger] rest[k]).0, rest[k].1, 2));
        lemma_compiler_round_trip(rest);
        assert(match_line_spec(command_line_of(p), 2) == Some((p.0, p.1)));
        assert((p.0, p.1) == p);
        assert(parsed_cmds(command_lines(ps)) =~~= ps);
        assert(prelude_lines(command_lines(ps)) =~~= Seq::<Seq<char>>::empty());
    }
}

} // verus!
