//! Recognizer events and their wire framing.
//!
//! Events travel from the daemon to `watch` subscribers as self-delimited
//! records: one tag byte, and for a sequence item the character as a
//! little-endian 32-bit Unicode scalar.  Encoding and decoding are verified
//! inverses, so a subscriber that reads the concatenation of emitted records
//! recovers exactly the emitted events in order.

use vstd::prelude::*;

verus! {

#[derive(Copy, Clone, Debug)]
pub enum EventType {
    SequenceReset,
    FoundResults,
    SequenceItem(char),
}

/// Little-endian bytes of a 32-bit scalar.
pub open spec fn scalar_bytes(u: u32) -> Seq<u8> {
    seq![
        (u & 0xff) as u8,
        ((u >> 8) & 0xff) as u8,
        ((u >> 16) & 0xff) as u8,
        ((u >> 24) & 0xff) as u8,
    ]
}

/// The scalar read back from four little-endian bytes.
pub open spec fn scalar_of_bytes(b0: u8, b1: u8, b2: u8, b3: u8) -> u32 {
    (b0 as u32) | ((b1 as u32) << 8) | ((b2 as u32) << 16) | ((b3 as u32) << 24)
}

/// The framed record of one event.
pub open spec fn encoded_event(e: EventType) -> Seq<u8> {
    match e {
        EventType::SequenceReset => seq![0u8],
        EventType::FoundResults => seq![1u8],
        EventType::SequenceItem(c) => seq![2u8] + scalar_bytes(c as u32),
    }
}

/// The concatenation of the records of a whole event stream.
pub open spec fn encoded_events(events: Seq<EventType>) -> Seq<u8>
    decreases events.len(),
{
    if events.len() == 0 {
        Seq::empty()
    } else {
        encoded_event(events[0]) + encoded_events(events.drop_first())
    }
}

/// One record read at `from`: the event and the position after it.
pub open spec fn decoded_event(bytes: Seq<u8>, from: int) -> Option<(EventType, int)> {
    if 0 <= from < bytes.len() {
        if bytes[from] == 0 {
            Some((EventType::SequenceReset, from + 1))
        } else if bytes[from] == 1 {
            Some((EventType::FoundResults, from + 1))
        } else if bytes[from] == 2 && from + 5 <= bytes.len() {
            let u = scalar_of_bytes(bytes[from + 1], bytes[from + 2], bytes[from + 3], bytes[from + 4]);
            if vstd::utf8::is_scalar(u) {
                Some((EventType::SequenceItem(u as char), from + 5))
            } else {
                None
            }
        } else {
            None
        }
    } else {
        None
    }
}

/// Every record from `from` to the end of the buffer, or `None` on a
/// malformed record.
pub open spec fn decoded_stream(bytes: Seq<u8>, from: int) -> Option<Seq<EventType>>
    decreases bytes.len() - from,
{
    if from == bytes.len() {
        Some(Seq::empty())
    } else {
        match decoded_event(bytes, from) {
            None => None,
            Some((e, next)) => if from < next <= bytes.len() {
                match decoded_stream(bytes, next) {
                    None => None,
                    Some(rest) => Some(seq![e] + rest),
                }
            } else {
                None
            },
        }
    }
}

/// View of an exec decode result.
pub open spec fn decode_view(r: Option<(EventType, usize)>) -> Option<(EventType, int)> {
    match r {
        None => None,
        Some((e, next)) => Some((e, next as int)),
    }
}

/// Serialise one event into its framed record.
pub fn encode_event(event: EventType) -> (r: Vec<u8>)
    ensures
        r@ == encoded_event(event),
{
    let mut out: Vec<u8> = Vec::new();
    match event {
        EventType::SequenceReset => {
            out.push(0u8);
            proof {
                assert(out@ =~= encoded_event(event));
            }
        },
        EventType::FoundResults => {
            out.push(1u8);
            proof {
                assert(out@ =~= encoded_event(event));
            }
        },
        EventType::SequenceItem(c) => {
            let u = c as u32;
            proof {
                assert((u & 0xff) < 256 && ((u >> 8) & 0xff) < 256 && ((u >> 16) & 0xff) < 256
                    && ((u >> 24) & 0xff) < 256) by (bit_vector);
            }
            out.push(2u8);
            out.push((u & 0xff) as u8);
            out.push(((u >> 8) & 0xff) as u8);
            out.push(((u >> 16) & 0xff) as u8);
            out.push(((u >> 24) & 0xff) as u8);
            proof {
                assert(out@ =~= encoded_event(event));
            }
        },
    }
    out
}

/// Read one framed record at `from`.
pub fn decode_event(bytes: &Vec<u8>, from: usize) -> (r: Option<(EventType, usize)>)
    ensures
        decode_view(r) == decoded_event(bytes@, from as int),
{
    let n = bytes.len();
    if from >= n {
        return None;
    }
    let tag = bytes[from];
    if tag == 0 {
        Some((EventType::SequenceReset, from + 1))
    } else if tag == 1 {
        Some((EventType::FoundResults, from + 1))
    } else if tag == 2 && n - from >= 5 {
        let b0 = bytes[from + 1];
        let b1 = bytes[from + 2];
        let b2 = bytes[from + 3];
        let b3 = bytes[from + 4];
        let u = (b0 as u32) | ((b1 as u32) << 8) | ((b2 as u32) << 16) | ((b3 as u32) << 24);
        match crate::util::char_from_u32(u) {
            Some(c) => {
                proof {
                    vstd::utf8::char_is_scalar(c);
                }
                Some((EventType::SequenceItem(c), from + 5))
            },
            None => None,
        }
    } else {
        None
    }
}

/// Read a whole buffer of framed records.
pub fn decode_events(bytes: &Vec<u8>) -> (r: Option<Vec<EventType>>)
    ensures
        match r {
            Some(events) => decoded_stream(bytes@, 0) == Some(events@),
            None => decoded_stream(bytes@, 0) is None,
        },
{
    let n = bytes.len();
    let mut out: Vec<EventType> = Vec::new();
    let mut pos: usize = 0;
    proof {
        assert(Seq::<EventType>::empty() + decoded_stream(bytes@, 0)->Some_0 =~= decoded_stream(
            bytes@,
            0,
        )->Some_0);
    }
    while pos < n
        invariant
            pos <= n == bytes@.len(),
            match decoded_stream(bytes@, pos as int) {
                Some(rest) => decoded_stream(bytes@, 0) == Some(out@ + rest),
                None => decoded_stream(bytes@, 0) is None,
            },
        decreases n - pos,
    {
        match decode_event(bytes, pos) {
            Some((e, next)) => {
                proof {
                    let rest = decoded_stream(bytes@, pos as int);
                    let tail = decoded_stream(bytes@, next as int);
                    if tail is Some {
                        assert(out@.push(e) + tail->Some_0 =~= out@ + (seq![e] + tail->Some_0));
                    }
                }
                out.push(e);
                pos = next;
            },
            None => {
                return None;
            },
        }
    }
    proof {
        assert(out@ + Seq::<EventType>::empty() =~= out@);
    }
    Some(out)
}

/// Encoding then decoding one event hands the event back, with the read
/// position just past its record.
pub proof fn lemma_event_codec_round_trip(e: EventType)
    ensures
        decoded_event(encoded_event(e), 0) == Some((e, encoded_event(e).len() as int)),
{
    match e {
        EventType::SequenceReset => {
        },
        EventType::FoundResults => {
        },
        EventType::SequenceItem(c) => {
            let u = c as u32;
            let bytes = encoded_event(e);
            assert(scalar_of_bytes(
                (u & 0xff) as u8,
                ((u >> 8) & 0xff) as u8,
                ((u >> 16) & 0xff) as u8,
                ((u >> 24) & 0xff) as u8,
            ) == u) by (bit_vector);
            vstd::utf8::char_is_scalar(c);
            assert(bytes[0] == 2u8);
            assert((u as char) == c);
        },
    }
}

proof fn lemma_decoded_event_offset(prefix: Seq<u8>, e: EventType, rest: Seq<u8>)
    ensures
        decoded_event(prefix + encoded_event(e) + rest, prefix.len() as int) == Some(
            (e, prefix.len() + encoded_event(e).len() as int),
        ),
{
    let whole = prefix + encoded_event(e) + rest;
    let from = prefix.len() as int;
    let enc = encoded_event(e);
    assert(whole[from] == enc[0]);
    lemma_event_codec_round_trip(e);
    match e {
        EventType::SequenceReset => {
        },
        EventType::FoundResults => {
        },
        EventType::SequenceItem(c) => {
            assert(whole[from + 1] == enc[1]);
            assert(whole[from + 2] == enc[2]);
            assert(whole[from + 3] == enc[3]);
            assert(whole[from + 4] == enc[4]);
            assert(decoded_event(enc, 0) == Some((e, 5int)));
        },
    }
}

proof fn lemma_stream_round_trip_from(prefix: Seq<u8>, events: Seq<EventType>)
    ensures
        decoded_stream(prefix + encoded_events(events), prefix.len() as int) == Some(events),
    decreases events.len(),
{
    let whole = prefix + encoded_events(events);
    if events.len() == 0 {
        assert(whole =~= prefix);
        assert(decoded_stream(whole, prefix.len() as int) == Some(Seq::<EventType>::empty()));
    } else {
        let e = events[0];
        let tail = events.drop_first();
        assert(whole =~= prefix + encoded_event(e) + encoded_events(tail));
        lemma_decoded_event_offset(prefix, e, encoded_events(tail));
        lemma_stream_round_trip_from(prefix + encoded_event(e), tail);
        assert(prefix + encoded_event(e) + encoded_events(tail) =~= whole);
        assert(seq![e] + tail =~= events);
    }
}

/// Decoding the concatenation of the records of an event stream recovers
/// exactly that stream: what the bus writes, a subscriber reads back in
/// emission order.
pub proof fn lemma_stream_round_trip(events: Seq<EventType>)
    ensures
        decoded_stream(encoded_events(events), 0) == Some(events),
{
    lemma_stream_round_trip_from(Seq::empty(), events);
    assert(Seq::<u8>::empty() + encoded_events(events) =~= encoded_events(events));
}

} // verus!
