//! Shared helpers: conversions between strings and character vectors,
//! decimal and date rendering, elapsed-seconds arithmetic, and the reusable
//! buffer that the event bus serialises into.

use vstd::prelude::*;

use crate::event_observe::{encode_event, encoded_event, EventType};

verus! {

/// Relies on `char::from_u32`: `Some` exactly for Unicode scalar values,
/// and the returned character casts back to the argument.
#[verifier::external_body]
pub fn char_from_u32(u: u32) -> (r: Option<char>)
    ensures
        r is Some <==> vstd::utf8::is_scalar(u),
        r is Some ==> r->Some_0 == (u as char),
{
    char::from_u32(u)
}

/// Relies on `str::chars`: yields the characters of the string in order.
#[verifier::external_body]
pub fn str_chars(s: &str) -> (r: Vec<char>)
    ensures
        r@ == s@,
{
    s.chars().collect()
}

/// Relies on `String::from_iter` (via `Iterator::collect`): builds the
/// string holding exactly the given characters in order.
#[verifier::external_body]
pub fn chars_string(v: &Vec<char>) -> (r: String)
    ensures
        r@ == v@,
{
    v.iter().collect()
}

/// Views of a sequence of owned strings.
pub open spec fn strings_view(ss: Seq<String>) -> Seq<Seq<char>> {
    ss.map_values(|s: String| s@)
}

/// The digit character of one decimal digit.
pub open spec fn dec_digit_char(d: int) -> char {
    if d == 0 {
        '0'
    } else if d == 1 {
        '1'
    } else if d == 2 {
        '2'
    } else if d == 3 {
        '3'
    } else if d == 4 {
        '4'
    } else if d == 5 {
        '5'
    } else if d == 6 {
        '6'
    } else if d == 7 {
        '7'
    } else if d == 8 {
        '8'
    } else {
        '9'
    }
}

/// Decimal rendering of a natural number, most significant digit first.
pub open spec fn dec_rep(n: nat) -> Seq<char>
    decreases n,
{
    if n < 10 {
        seq![dec_digit_char(n as int)]
    } else {
        dec_rep(n / 10).push(dec_digit_char((n % 10) as int))
    }
}

fn digit_char(d: u64) -> (r: char)
    requires
        d < 10,
    ensures
        r == dec_digit_char(d as int),
{
    if d == 0 {
        '0'
    } else if d == 1 {
        '1'
    } else if d == 2 {
        '2'
    } else if d == 3 {
        '3'
    } else if d == 4 {
        '4'
    } else if d == 5 {
        '5'
    } else if d == 6 {
        '6'
    } else if d == 7 {
        '7'
    } else if d == 8 {
        '8'
    } else {
        '9'
    }
}

/// Decimal digits of `n`, most significant first.
pub fn u64_to_chars(n: u64) -> (r: Vec<char>)
    ensures
        r@ == dec_rep(n as nat),
{
    let mut rev: Vec<char> = Vec::new();
    let mut m: u64 = n;
    proof {
        assert(dec_rep(n as nat) =~= dec_rep(n as nat) + rev@.reverse());
    }
    loop
        invariant_except_break
            dec_rep(n as nat) == dec_rep(m as nat) + rev@.reverse(),
        ensures
            dec_rep(n as nat) == rev@.reverse(),
        decreases m,
    {
        let ghost rev0 = rev@;
        let ghost m0 = m;
        let d = m % 10;
        rev.push(digit_char(d));
        proof {
            assert(rev@.reverse() =~= seq![dec_digit_char(d as int)] + rev0.reverse());
            if m0 < 10 {
                assert(dec_rep(m0 as nat) == seq![dec_digit_char(d as int)]);
                assert(dec_rep(n as nat) =~= rev@.reverse());
            } else {
                assert(dec_rep(m0 as nat) == dec_rep((m0 / 10) as nat).push(
                    dec_digit_char(d as int),
                ));
                assert(dec_rep((m0 / 10) as nat).push(dec_digit_char(d as int)) + rev0.reverse()
                    =~= dec_rep((m0 / 10) as nat) + rev@.reverse());
            }
        }
        m = m / 10;
        if m == 0 {
            break;
        }
    }
    let k = rev.len();
    let mut out: Vec<char> = Vec::new();
    let mut i: usize = 0;
    while i < k
        invariant
            i <= k == rev@.len(),
            out@ == rev@.reverse().take(i as int),
        decreases k - i,
    {
        out.push(rev[k - 1 - i]);
        proof {
            assert(rev@.reverse().take(i + 1) =~= rev@.reverse().take(i as int).push(
                rev@[k - 1 - i as int],
            ));
        }
        i += 1;
    }
    proof {
        assert(rev@.reverse().take(k as int) =~= rev@.reverse());
    }
    out
}

/// Decimal rendering of `n` as a string.
pub fn u64_to_string(n: u64) -> (r: String)
    ensures
        r@ == dec_rep(n as nat),
{
    let chars = u64_to_chars(n);
    chars_string(&chars)
}

/// Decimal rendering of a possibly negative number.
pub open spec fn dec_rep_signed(n: int) -> Seq<char> {
    if n >= 0 {
        dec_rep(n as nat)
    } else {
        seq!['-'] + dec_rep((-n) as nat)
    }
}

/// Decimal digits of a signed number, with a leading minus when negative.
pub fn i64_to_chars(n: i64) -> (r: Vec<char>)
    ensures
        r@ == dec_rep_signed(n as int),
{
    if n >= 0 {
        u64_to_chars(n as u64)
    } else {
        let mag: u64 = if n == i64::MIN {
            9223372036854775808u64
        } else {
            (-n) as u64
        };
        let mut out: Vec<char> = Vec::new();
        out.push('-');
        let mut digits = u64_to_chars(mag);
        out.append(&mut digits);
        proof {
            assert(out@ =~= dec_rep_signed(n as int));
        }
        out
    }
}

/// Seconds between `lo` and `hi`, or between `lo` and `now` when `hi` is
/// absent (a still-running child).
pub fn seconds_elapsed(lo: i64, hi: Option<i64>, now: i64) -> (r: i64)
    requires
        -0x2000_0000_0000_0000 < lo < 0x2000_0000_0000_0000,
        -0x2000_0000_0000_0000 < now < 0x2000_0000_0000_0000,
        hi is Some ==> -0x2000_0000_0000_0000 < hi->Some_0 < 0x2000_0000_0000_0000,
    ensures
        r == (if hi is Some {
            hi->Some_0
        } else {
            now
        }) - lo,
{
    match hi {
        Some(h) => h - lo,
        None => now - lo,
    }
}

/// A local calendar timestamp, held as plain field values.
pub struct DateParts {
    pub year: u64,
    pub month: u64,
    pub day: u64,
    pub hour: u64,
    pub minute: u64,
    pub second: u64,
}

impl DateParts {
    /// Field ranges of a renderable timestamp.
    pub open spec fn wf(self) -> bool {
        &&& self.year <= 9999
        &&& 1 <= self.month <= 12
        &&& 1 <= self.day <= 31
        &&& self.hour <= 23
        &&& self.minute <= 59
        &&& self.second <= 59
    }
}

/// Two-digit zero-padded decimal.
pub open spec fn pad2(n: nat) -> Seq<char> {
    if n < 10 {
        seq!['0'] + dec_rep(n)
    } else {
        dec_rep(n)
    }
}

/// Four-digit zero-padded decimal.
pub open spec fn pad4(n: nat) -> Seq<char> {
    if n < 10 {
        seq!['0', '0', '0'] + dec_rep(n)
    } else if n < 100 {
        seq!['0', '0'] + dec_rep(n)
    } else if n < 1000 {
        seq!['0'] + dec_rep(n)
    } else {
        dec_rep(n)
    }
}

/// The `YYYY-MM-DD HH:MM:SS` rendering of a timestamp.
pub open spec fn date_text(d: DateParts) -> Seq<char> {
    pad4(d.year as nat) + seq!['-'] + pad2(d.month as nat) + seq!['-'] + pad2(d.day as nat)
        + seq![' '] + pad2(d.hour as nat) + seq![':'] + pad2(d.minute as nat) + seq![':'] + pad2(
        d.second as nat,
    )
}

fn push_pad2(out: &mut Vec<char>, n: u64)
    ensures
        final(out)@ == old(out)@ + pad2(n as nat),
{
    if n < 10 {
        out.push('0');
    }
    let mut digits = u64_to_chars(n);
    out.append(&mut digits);
    proof {
        assert(out@ =~= old(out)@ + pad2(n as nat));
    }
}

/// Render a timestamp as `YYYY-MM-DD HH:MM:SS`.
pub fn format_date(d: &DateParts) -> (r: String)
    ensures
        r@ == date_text(*d),
{
    let mut out: Vec<char> = Vec::new();
    if d.year < 10 {
        out.push('0');
        out.push('0');
        out.push('0');
    } else if d.year < 100 {
        out.push('0');
        out.push('0');
    } else if d.year < 1000 {
        out.push('0');
    }
    let mut ydigits = u64_to_chars(d.year);
    out.append(&mut ydigits);
    proof {
        assert(out@ =~= pad4(d.year as nat));
    }
    out.push('-');
    push_pad2(&mut out, d.month);
    out.push('-');
    push_pad2(&mut out, d.day);
    out.push(' ');
    push_pad2(&mut out, d.hour);
    out.push(':');
    push_pad2(&mut out, d.minute);
    out.push(':');
    push_pad2(&mut out, d.second);
    proof {
        assert(out@ =~= date_text(*d));
    }
    chars_string(&out)
}

/// Spaces of the given width.
pub open spec fn spaces(n: int) -> Seq<char> {
    Seq::new(
        if n >= 0 {
            n as nat
        } else {
            0
        },
        |i: int| ' ',
    )
}

/// `s` right-aligned in a field of `w` columns; longer text is kept whole.
pub open spec fn pad_left(s: Seq<char>, w: int) -> Seq<char> {
    if s.len() >= w {
        s
    } else {
        spaces(w - s.len()) + s
    }
}

/// `s` left-aligned in a field of `w` columns; longer text is kept whole.
pub open spec fn pad_right(s: Seq<char>, w: int) -> Seq<char> {
    if s.len() >= w {
        s
    } else {
        s + spaces(w - s.len())
    }
}

/// Append every character of `chars` to `out`.
pub fn push_chars(out: &mut Vec<char>, chars: &Vec<char>)
    ensures
        final(out)@ == old(out)@ + chars@,
{
    let ghost base = out@;
    let n = chars.len();
    let mut i: usize = 0;
    proof {
        assert(out@ =~= base + chars@.take(0));
    }
    while i < n
        invariant
            i <= n == chars@.len(),
            out@ == base + chars@.take(i as int),
        decreases n - i,
    {
        out.push(chars[i]);
        proof {
            assert(base + chars@.take(i + 1) =~= (base + chars@.take(i as int)).push(
                chars@[i as int],
            ));
        }
        i += 1;
    }
    proof {
        assert(chars@.take(n as int) =~= chars@);
    }
}

/// Append `chars` left-aligned in a field of `width` columns.
pub fn push_pad_right(out: &mut Vec<char>, chars: &Vec<char>, width: usize)
    ensures
        final(out)@ == old(out)@ + pad_right(chars@, width as int),
{
    let ghost base = out@;
    push_chars(out, chars);
    let n = chars.len();
    let mut fill: usize = 0;
    if n < width {
        fill = width - n;
    }
    let ghost mid = out@;
    let mut f: usize = 0;
    while f < fill
        invariant
            f <= fill,
            out@ == mid + spaces(f as int),
        decreases fill - f,
    {
        out.push(' ');
        proof {
            assert(out@ =~= mid + spaces(f + 1));
        }
        f += 1;
    }
    proof {
        assert(out@ =~= base + pad_right(chars@, width as int));
    }
}

/// A reusable buffer that an event is serialised into once per emission.
pub struct PayloadOverwriter {
    inner: Vec<u8>,
}

impl View for PayloadOverwriter {
    type V = Seq<u8>;

    closed spec fn view(&self) -> Seq<u8> {
        self.inner@
    }
}

impl PayloadOverwriter {
    pub fn new() -> (r: Self)
        ensures
            r@ == Seq::<u8>::empty(),
    {
        Self { inner: Vec::new() }
    }

    /// Replace the buffer's contents with the framed record of `value`.
    pub fn overwrite_serialize(&mut self, value: EventType)
        ensures
            final(self)@ == encoded_event(value),
    {
        self.inner = encode_event(value);
    }

    /// The bytes currently held: the record of the last serialised event.
    pub fn payload(&self) -> (r: &Vec<u8>)
        ensures
            r@ == self@,
    {
        &self.inner
    }
}

} // verus!
