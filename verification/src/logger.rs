//! Log-line formatting for child-process output: every line a child writes
//! is echoed with a header naming the stream, the local time, and the PID
//! right-aligned to six columns.

use vstd::prelude::*;

use crate::util::{
    chars_string, date_text, dec_rep, pad_left, spaces, str_chars, u64_to_chars, DateParts,
};

verus! {

/// The full log line: `[name YYYY-MM-DD HH:MM:SS    pid] msg`.
pub open spec fn log_msg_text(
    msg: Seq<char>,
    logger_name: Seq<char>,
    pid: nat,
    date: DateParts,
) -> Seq<char> {
    seq!['['] + logger_name + seq![' '] + date_text(date) + seq![' '] + pad_left(dec_rep(pid), 6)
        + seq![']', ' '] + msg
}

/// Render the header and message of one log line.
pub fn format_log_msg(msg: &str, logger_name: &str, pid: u32, date: &DateParts) -> (r: String)
    ensures
        r@ == log_msg_text(msg@, logger_name@, pid as nat, *date),
{
    let mut out: Vec<char> = Vec::new();
    out.push('[');
    let mut name_chars = str_chars(logger_name);
    out.append(&mut name_chars);
    out.push(' ');
    let date_str = crate::util::format_date(date);
    let mut date_chars = str_chars(date_str.as_str());
    out.append(&mut date_chars);
    out.push(' ');
    let digits = u64_to_chars(pid as u64);
    let ghost before_pad = out@;
    let mut fill: usize = 0;
    let width: usize = 6;
    let dlen = digits.len();
    if dlen < width {
        fill = width - dlen;
    }
    let mut f: usize = 0;
    while f < fill
        invariant
            f <= fill,
            out@ == before_pad + spaces(f as int),
        decreases fill - f,
    {
        out.push(' ');
        proof {
            assert(out@ =~= before_pad + spaces(f + 1));
        }
        f += 1;
    }
    let mut digits_m = digits;
    out.append(&mut digits_m);
    proof {
        assert(out@ =~= before_pad + pad_left(dec_rep(pid as nat), 6));
    }
    out.push(']');
    out.push(' ');
    let mut msg_chars = str_chars(msg);
    out.append(&mut msg_chars);
    proof {
        assert(out@ =~= log_msg_text(msg@, logger_name@, pid as nat, *date));
    }
    chars_string(&out)
}

/// Whether a message already closes its line; the logger appends a line
/// break exactly when it does not.
pub fn ends_with_newline(msg: &str) -> (r: bool)
    ensures
        r == (msg@.len() > 0 && msg@.last() == '\n'),
{
    let len = msg.unicode_len();
    if len == 0 {
        return false;
    }
    let c = msg.get_char(len - 1);
    c == '\n'
}

} // verus!
