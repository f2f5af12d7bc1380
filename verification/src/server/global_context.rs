//! The shared state bundle the coordinator guards with a single lock: the
//! installed commands, the prelude, the recognition automaton, and the
//! interpreter the daemon was started with.  The process-table handle the
//! daemon pairs it with lives outside the library, beside the lock itself.

use vstd::prelude::*;

use crate::cmd::Cmd;
use crate::sequence_automata::{empty_nodes, lemma_str_views, str_views, SequenceAutomata};

verus! {

pub struct MainProcessState {
    pub commands: Vec<Cmd>,
    pub pre_script: String,
    pub automata: SequenceAutomata,
    pub interpreter: String,
}

impl MainProcessState {
    /// Fresh state: nothing installed, an automaton with only its root.
    pub fn new(interpreter: &str) -> (r: Self)
        ensures
            r.commands@ == Seq::<Cmd>::empty(),
            r.pre_script@ == Seq::<char>::empty(),
            r.automata@.curr == 0,
            !r.automata@.failed,
            r.automata@.nodes == empty_nodes(),
            r.automata@.wf(),
            r.interpreter@ == interpreter@,
    {
        let no_sequences: Vec<&str> = Vec::new();
        let automata = SequenceAutomata::new(no_sequences.as_slice());
        proof {
            lemma_str_views(no_sequences@);
            assert(str_views(no_sequences@) =~= Seq::<Seq<char>>::empty());
        }
        Self {
            commands: Vec::new(),
            pre_script: String::new(),
            automata,
            interpreter: interpreter.to_owned(),
        }
    }
}

} // verus!
