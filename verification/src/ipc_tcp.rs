//! The subscription handshake of the event-bus TCP listener.
//!
//! A client opens a socket and sends one tagged action record; the server
//! answers with a result record — accepted for a well-formed action, wrong
//! otherwise — and only then places the socket among the subscribers.  The
//! records' framing and the accept/reject decision live here; the sockets
//! themselves are driven outside the library.

use vstd::prelude::*;

verus! {

#[derive(Copy, Clone, Debug)]
pub enum TcpAction {
    Watch,
}

#[derive(PartialEq, Eq, Structural, Debug)]
pub enum TcpActionResult {
    Accepted,
    Wrong,
}

impl From<bool> for TcpActionResult {
    /// Accepted exactly when the action was well-formed.
    fn from(value: bool) -> (r: Self) {
        if value {
            TcpActionResult::Accepted
        } else {
            TcpActionResult::Wrong
        }
    }
}

impl vstd::std_specs::convert::FromSpecImpl<bool> for TcpActionResult {
    open spec fn obeys_from_spec() -> bool {
        true
    }

    open spec fn from_spec(t: bool) -> Self {
        if t {
            TcpActionResult::Accepted
        } else {
            TcpActionResult::Wrong
        }
    }
}

/// The one-byte record of an action.
pub open spec fn encoded_tcp_action(a: TcpAction) -> Seq<u8> {
    seq![0u8]
}

/// The action read back from a record, if it is well-formed.
pub open spec fn decoded_tcp_action(bytes: Seq<u8>) -> Option<TcpAction> {
    if bytes.len() == 1 && bytes[0] == 0 {
        Some(TcpAction::Watch)
    } else {
        None
    }
}

/// The one-byte record of a handshake result.
pub open spec fn encoded_tcp_action_result(r: TcpActionResult) -> Seq<u8> {
    match r {
        TcpActionResult::Accepted => seq![0u8],
        TcpActionResult::Wrong => seq![1u8],
    }
}

/// Serialise an action for the handshake.
pub fn encode_tcp_action(a: TcpAction) -> (r: Vec<u8>)
    ensures
        r@ == encoded_tcp_action(a),
{
    let mut out: Vec<u8> = Vec::new();
    out.push(0u8);
    proof {
        assert(out@ =~= encoded_tcp_action(a));
    }
    out
}

/// Read the action record a client sent.
pub fn decode_tcp_action(bytes: &Vec<u8>) -> (r: Option<TcpAction>)
    ensures
        r == decoded_tcp_action(bytes@),
{
    if bytes.len() == 1 {
        if bytes[0] == 0 {
            return Some(TcpAction::Watch);
        }
    }
    None
}

/// Serialise a handshake result.
pub fn encode_tcp_action_result(r: TcpActionResult) -> (out: Vec<u8>)
    ensures
        out@ == encoded_tcp_action_result(r),
{
    let mut out: Vec<u8> = Vec::new();
    match r {
        TcpActionResult::Accepted => out.push(0u8),
        TcpActionResult::Wrong => out.push(1u8),
    }
    proof {
        assert(out@ =~= encoded_tcp_action_result(r));
    }
    out
}

/// The reply a server gives to a decoded action: accepted exactly when the
/// record was well-formed.
pub fn handshake_reply(action: &Option<TcpAction>) -> (r: TcpActionResult)
    ensures
        r == (if action is Some {
            TcpActionResult::Accepted
        } else {
            TcpActionResult::Wrong
        }),
{
    match action {
        Some(_) => TcpActionResult::Accepted,
        None => TcpActionResult::Wrong,
    }
}

/// Serialising an action and reading it back yields the action.
pub proof fn lemma_tcp_action_round_trip(a: TcpAction)
    ensures
        decoded_tcp_action(encoded_tcp_action(a)) == Some(a),
{
}

} // verus!
