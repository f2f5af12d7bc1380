//! A daemon core that binds shell commands to Morse-like mouse-click
//! sequences: a click classifier turns press/release timings into dot/dash
//! instructions, a prefix-trie automaton recognises configured sequences,
//! a configuration compiler builds commands, prelude and automaton from a
//! text file, and a process table tracks the children that matches spawn.

pub mod click_length_detector;
pub mod click_sequence_detector;
pub mod cli;
pub mod cmd;
pub mod cmd_parser;
pub mod constants;
pub mod event_observe;
pub mod ipc_tcp;
pub mod logger;
pub mod server;
pub mod sequence_automata;
pub mod util;
