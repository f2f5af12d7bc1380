//! The decisions of the mouse listener: which instruction a press or a
//! release feeds into the recognizer.  The listener itself — the OS hook and
//! the channel — runs outside the library and calls in with plain values.

use vstd::prelude::*;

use crate::click_sequence_detector::MouseClickKind;
use crate::sequence_automata::AutomataInstruction;

verus! {

/// A short click is a dot, a long click a dash.
pub fn click_kind_to_instruction(click_kind: MouseClickKind) -> (r: AutomataInstruction)
    ensures
        r == (match click_kind {
            MouseClickKind::Short => AutomataInstruction::Char('.'),
            MouseClickKind::Long => AutomataInstruction::Char('-'),
        }),
{
    match click_kind {
        MouseClickKind::Short => AutomataInstruction::Char('.'),
        MouseClickKind::Long => AutomataInstruction::Char('-'),
    }
}

/// A press after a pause longer than `gap_ms` starts a fresh attempt: it is
/// preceded by a reset; a press within the gap feeds nothing.
pub fn press_instruction(time_between_inputs_ms: u128, gap_ms: u128) -> (r: Option<
    AutomataInstruction,
>)
    ensures
        r == (if time_between_inputs_ms > gap_ms {
            Some(AutomataInstruction::Reset)
        } else {
            None::<AutomataInstruction>
        }),
{
    if time_between_inputs_ms > gap_ms {
        Some(AutomataInstruction::Reset)
    } else {
        None
    }
}

} // verus!
