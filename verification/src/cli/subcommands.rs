//! Rendering of the live `watch` stream: sequence items are written inline,
//! a match writes a highlighted marker, and a reset closes the line — but
//! only when something stands on it, so the rendering never writes two line
//! breaks in a row and never opens with one.

use vstd::prelude::*;

use crate::cmd::no_newline;
use crate::event_observe::EventType;
use crate::util::{chars_string, push_chars, str_chars};

verus! {

/// What one event adds to the terminal, and whether the cursor then sits on
/// a fresh line.
pub open spec fn watch_step(event: EventType, marker: Seq<char>, last_is_newline: bool) -> (
    Seq<char>,
    bool,
) {
    match event {
        EventType::SequenceItem(c) => (seq![c], false),
        EventType::FoundResults => if last_is_newline {
            (marker, true)
        } else {
            (marker + seq!['\n'], true)
        },
        EventType::SequenceReset => if last_is_newline {
            (Seq::empty(), true)
        } else {
            (seq!['\n'], true)
        },
    }
}

/// The whole rendering of an event stream, given the cursor state.
pub open spec fn watch_text(
    events: Seq<EventType>,
    marker: Seq<char>,
    last_is_newline: bool,
) -> Seq<char>
    decreases events.len(),
{
    if events.len() == 0 {
        Seq::empty()
    } else {
        let st = watch_step(events[0], marker, last_is_newline);
        st.0 + watch_text(events.drop_first(), marker, st.1)
    }
}

/// No stream item carries a line break of its own.
pub open spec fn items_printable(events: Seq<EventType>) -> bool {
    forall|k: int|
        0 <= k < events.len() ==> ((#[trigger] events[k]) is SequenceItem
            ==> events[k]->SequenceItem_0 != '\n')
}

/// No two consecutive line breaks anywhere in `s`.
pub open spec fn no_double_newline(s: Seq<char>) -> bool {
    forall|x: int| 0 <= x && x + 1 < s.len() ==> !((#[trigger] s[x]) == '\n' && s[x + 1] == '\n')
}

/// Render one event; returns what to write and the new cursor state.
pub fn watch_event_output(event: EventType, marker: &str, last_is_newline: bool) -> (r: (
    String,
    bool,
))
    ensures
        (r.0@, r.1) == watch_step(event, marker@, last_is_newline),
{
    match event {
        EventType::SequenceItem(c) => {
            let mut v: Vec<char> = Vec::new();
            v.push(c);
            proof {
                assert(v@ =~= seq![c]);
            }
            (chars_string(&v), false)
        },
        EventType::FoundResults => {
            let mut v = str_chars(marker);
            if !last_is_newline {
                v.push('\n');
                proof {
                    assert(v@ =~= marker@ + seq!['\n']);
                }
            }
            (chars_string(&v), true)
        },
        EventType::SequenceReset => {
            let mut v: Vec<char> = Vec::new();
            if !last_is_newline {
                v.push('\n');
                proof {
                    assert(v@ =~= seq!['\n']);
                }
            } else {
                proof {
                    assert(v@ =~= Seq::<char>::empty());
                }
            }
            (chars_string(&v), true)
        },
    }
}

/// Render a whole decoded stream, starting on a fresh line.
pub fn format_watch_events(events: &Vec<EventType>, marker: &str) -> (r: String)
    ensures
        r@ == watch_text(events@, marker@, true),
{
    let n = events.len();
    let mut out: Vec<char> = Vec::new();
    let mut last_is_newline = true;
    let mut i: usize = 0;
    proof {
        assert(events@.skip(0) =~= events@);
        assert(out@ + watch_text(events@.skip(0), marker@, true) =~= watch_text(
            events@,
            marker@,
            true,
        ));
    }
    while i < n
        invariant
            i <= n == events@.len(),
            watch_text(events@, marker@, true) == out@ + watch_text(
                events@.skip(i as int),
                marker@,
                last_is_newline,
            ),
        decreases n - i,
    {
        let ghost rest = events@.skip(i as int);
        proof {
            assert(rest[0] == events@[i as int]);
            assert(rest.drop_first() =~= events@.skip(i as int + 1));
        }
        let (piece, nl) = watch_event_output(events[i], marker, last_is_newline);
        let piece_chars = str_chars(piece.as_str());
        push_chars(&mut out, &piece_chars);
        last_is_newline = nl;
        i += 1;
    }
    proof {
        assert(watch_text(events@.skip(n as int), marker@, last_is_newline) == Seq::<
            char,
        >::empty());
        assert(out@ + Seq::<char>::empty() =~= out@);
    }
    chars_string(&out)
}

proof fn lemma_watch_text_shape(events: Seq<EventType>, marker: Seq<char>, last_is_newline: bool)
    requires
        no_newline(marker),
        items_printable(events),
    ensures
        no_double_newline(watch_text(events, marker, last_is_newline)),
        last_is_newline ==> (watch_text(events, marker, last_is_newline).len() > 0 ==> watch_text(
            events,
            marker,
            last_is_newline,
        )[0] != '\n'),
    decreases events.len(),
{
    if events.len() == 0 {
    } else {
        let ev = events[0];
        let tail = events.drop_first();
        let st = watch_step(ev, marker, last_is_newline);
        let head = st.0;
        assert(items_printable(tail)) by {
            assert(forall|k: int|
                0 <= k < tail.len() ==> #[trigger] tail[k] == events[k + 1]);
        }
        lemma_watch_text_shape(tail, marker, st.1);
        let rest = watch_text(tail, marker, st.1);
        let out = watch_text(events, marker, last_is_newline);
        assert(out == head + rest);

        // the head piece itself holds no adjacent line breaks, and if it
        // ends on one the cursor state says so
        assert(no_double_newline(head)) by {
            match ev {
                EventType::SequenceItem(c) => {},
                EventType::FoundResults => {
                    if !last_is_newline {
                        assert(forall|x: int|
                            0 <= x < marker.len() ==> (#[trigger] (marker + seq!['\n'])[x])
                                == marker[x]);
                    }
                },
                EventType::SequenceReset => {},
            }
        }
        assert forall|x: int|
            0 <= x && x + 1 < out.len() implies !((#[trigger] out[x]) == '\n' && out[x + 1]
            == '\n') by {
            if x + 1 < head.len() {
                assert(out[x] == head[x] && out[x + 1] == head[x + 1]);
            } else if x >= head.len() {
                assert(out[x] == rest[x - head.len()] && out[x + 1] == rest[x + 1 - head.len()]);
            } else {
                // the boundary: head ends exactly at x + 1
                assert(out[x] == head[x] && out[x + 1] == rest[0]);
                if head[x] == '\n' {
                    // a head ending in a line break always leaves the
                    // cursor on a fresh line, so the rest opens without one
                    match ev {
                        EventType::SequenceItem(c) => {
                            assert(head == seq![c] && c != '\n');
                        },
                        EventType::FoundResults => {
                            assert(st.1);
                        },
                        EventType::SequenceReset => {
                            assert(st.1);
                        },
                    }
                }
            }
        }
        if last_is_newline && out.len() > 0 {
            if head.len() > 0 {
                assert(out[0] == head[0]);
                match ev {
                    EventType::SequenceItem(c) => {},
                    EventType::FoundResults => {
                        assert(head[0] == marker[0]);
                    },
                    EventType::SequenceReset => {},
                }
            } else {
                assert(out[0] == rest[0]);
                assert(st.1);
            }
        }
    }
}

/// The `watch` rendering never writes two consecutive line breaks and never
/// begins with one, for any stream whose items carry no line break and any
/// line-break-free marker.
pub proof fn lemma_watch_output_clean(events: Seq<EventType>, marker: Seq<char>)
    requires
        no_newline(marker),
        items_printable(events),
    ensures
        no_double_newline(watch_text(events, marker, true)),
        watch_text(events, marker, true).len() > 0 ==> watch_text(events, marker, true)[0] != '\n',
{
    lemma_watch_text_shape(events, marker, true);
}

} // verus!
