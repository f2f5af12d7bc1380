//! Command lines of the configuration file.
//!
//! A command line is `optional whitespace, a run of at least two dot or dash
//! characters, whitespace, then the command text`; the command text is kept
//! with surrounding whitespace trimmed.  `match_line_spec` states that
//! grammar exactly — including which line yields which captures — and the
//! parser is proved against it.

use vstd::prelude::*;

use crate::util::{chars_string, str_chars};

verus! {

/// A rule: a dot/dash sequence and the shell command it triggers.
pub struct Cmd {
    pub sequence: String,
    pub command: String,
}

/// The characters the `White_Space` property holds of.
pub open spec fn is_space(c: char) -> bool {
    let u = c as u32;
    ||| u == 0x20
    ||| (0x09 <= u && u <= 0x0d)
    ||| u == 0x85
    ||| u == 0xa0
    ||| u == 0x1680
    ||| (0x2000 <= u && u <= 0x200a)
    ||| u == 0x2028
    ||| u == 0x2029
    ||| u == 0x202f
    ||| u == 0x205f
    ||| u == 0x3000
}

/// A character a sequence is written with.
pub open spec fn is_seq_char(c: char) -> bool {
    c == '.' || c == '-'
}

/// End of the whitespace run starting at `from`.
pub open spec fn ws_run_end(s: Seq<char>, from: int) -> int
    decreases s.len() - from,
{
    if 0 <= from < s.len() && is_space(s[from]) {
        ws_run_end(s, from + 1)
    } else {
        from
    }
}

/// End of the dot/dash run starting at `from`.
pub open spec fn seq_run_end(s: Seq<char>, from: int) -> int
    decreases s.len() - from,
{
    if 0 <= from < s.len() && is_seq_char(s[from]) {
        seq_run_end(s, from + 1)
    } else {
        from
    }
}

/// No line break anywhere in `t`.
pub open spec fn no_newline(t: Seq<char>) -> bool {
    forall|x: int| 0 <= x < t.len() ==> t[x] != '\n'
}

/// `t` with its trailing whitespace removed.
pub open spec fn trim_end_spec(t: Seq<char>) -> Seq<char>
    decreases t.len(),
{
    if t.len() > 0 && is_space(t.last()) {
        trim_end_spec(t.drop_last())
    } else {
        t
    }
}

/// The captures of a command line whose sequence run has at least `min_seq`
/// characters, or `None` where the line is not a command.
///
/// A line matches when a dot/dash run of at least `min_seq` characters
/// follows optional leading whitespace and is itself followed by at least
/// one whitespace character and then command text free of line breaks; the
/// command capture is the text with trailing whitespace trimmed.  A line
/// that ends right after the separating whitespace still matches when that
/// whitespace is at least two characters wide and does not end in a line
/// break — the capture is then the empty command.
pub open spec fn match_line_spec(s: Seq<char>, min_seq: int) -> Option<(Seq<char>, Seq<char>)> {
    let n = s.len() as int;
    let i = ws_run_end(s, 0);
    let j = seq_run_end(s, i);
    let k = ws_run_end(s, j);
    if j - i < min_seq || k == j {
        None
    } else if k < n && no_newline(s.subrange(k, n)) {
        Some((s.subrange(i, j), trim_end_spec(s.subrange(k, n))))
    } else if k == n && k - j >= 2 && s[n - 1] != '\n' {
        Some((s.subrange(i, j), Seq::empty()))
    } else {
        None
    }
}

pub(crate) fn is_space_char(c: char) -> (r: bool)
    ensures
        r == is_space(c),
{
    let u = c as u32;
    u == 0x20 || (0x09 <= u && u <= 0x0d) || u == 0x85 || u == 0xa0 || u == 0x1680 || (0x2000 <= u
        && u <= 0x200a) || u == 0x2028 || u == 0x2029 || u == 0x202f || u == 0x205f || u == 0x3000
}

fn is_seq_char_exec(c: char) -> (r: bool)
    ensures
        r == is_seq_char(c),
{
    c == '.' || c == '-'
}

pub(crate) fn scan_ws(chars: &Vec<char>, from: usize) -> (r: usize)
    requires
        from <= chars@.len(),
    ensures
        from <= r <= chars@.len(),
        r as int == ws_run_end(chars@, from as int),
{
    let n = chars.len();
    let mut i = from;
    loop
        invariant_except_break
            from <= i <= n,
            n == chars@.len(),
            ws_run_end(chars@, from as int) == ws_run_end(chars@, i as int),
        ensures
            from <= i <= n,
            n == chars@.len(),
            i as int == ws_run_end(chars@, from as int),
        decreases n - i,
    {
        if i >= n {
            break;
        }
        if !is_space_char(chars[i]) {
            break;
        }
        i += 1;
    }
    i
}

fn scan_seq(chars: &Vec<char>, from: usize) -> (r: usize)
    requires
        from <= chars@.len(),
    ensures
        from <= r <= chars@.len(),
        r as int == seq_run_end(chars@, from as int),
{
    let n = chars.len();
    let mut i = from;
    loop
        invariant_except_break
            from <= i <= n,
            n == chars@.len(),
            seq_run_end(chars@, from as int) == seq_run_end(chars@, i as int),
        ensures
            from <= i <= n,
            n == chars@.len(),
            i as int == seq_run_end(chars@, from as int),
        decreases n - i,
    {
        if i >= n {
            break;
        }
        if !is_seq_char_exec(chars[i]) {
            break;
        }
        i += 1;
    }
    i
}

fn all_no_newline(chars: &Vec<char>, k: usize, n: usize) -> (r: bool)
    requires
        k <= n,
        n == chars@.len(),
    ensures
        r == no_newline(chars@.subrange(k as int, n as int)),
{
    let mut i = k;
    while i < n
        invariant
            k <= i <= n,
            n == chars@.len(),
            forall|x: int| k <= x < i ==> chars@[x] != '\n',
        decreases n - i,
    {
        if chars[i] == '\n' {
            proof {
                assert(chars@.subrange(k as int, n as int)[i - k] == '\n');
            }
            return false;
        }
        i += 1;
    }
    proof {
        let sub = chars@.subrange(k as int, n as int);
        assert forall|x: int| 0 <= x < sub.len() implies sub[x] != '\n' by {
            assert(sub[x] == chars@[k + x]);
        }
    }
    true
}

pub(crate) fn trim_end_index(chars: &Vec<char>, k: usize, n: usize) -> (r: usize)
    requires
        k <= n,
        n == chars@.len(),
    ensures
        k <= r <= n,
        trim_end_spec(chars@.subrange(k as int, n as int)) == chars@.subrange(k as int, r as int),
{
    let mut m = n;
    loop
        invariant_except_break
            k <= m <= n,
            n == chars@.len(),
            trim_end_spec(chars@.subrange(k as int, n as int)) == trim_end_spec(
                chars@.subrange(k as int, m as int),
            ),
        ensures
            k <= m <= n,
            n == chars@.len(),
            trim_end_spec(chars@.subrange(k as int, n as int)) == chars@.subrange(
                k as int,
                m as int,
            ),
        decreases m,
    {
        if m == k {
            proof {
                assert(chars@.subrange(k as int, k as int).len() == 0);
            }
            break;
        }
        if !is_space_char(chars[m - 1]) {
            proof {
                let sub = chars@.subrange(k as int, m as int);
                assert(sub.last() == chars@[m - 1]);
            }
            break;
        }
        proof {
            let sub = chars@.subrange(k as int, m as int);
            assert(sub.last() == chars@[m - 1]);
            assert(sub.drop_last() =~= chars@.subrange(k as int, m - 1));
        }
        m -= 1;
    }
    m
}

pub(crate) fn sub_chars(chars: &Vec<char>, from: usize, to: usize) -> (r: Vec<char>)
    requires
        from <= to <= chars@.len(),
    ensures
        r@ == chars@.subrange(from as int, to as int),
{
    let mut r: Vec<char> = Vec::new();
    let mut i = from;
    proof {
        assert(r@ =~= chars@.subrange(from as int, from as int));
    }
    while i < to
        invariant
            from <= i <= to <= chars@.len(),
            r@ == chars@.subrange(from as int, i as int),
        decreases to - i,
    {
        r.push(chars[i]);
        proof {
            assert(chars@.subrange(from as int, i + 1) =~= chars@.subrange(
                from as int,
                i as int,
            ).push(chars@[i as int]));
        }
        i += 1;
    }
    r
}

/// Match one line against the command grammar, with `min_seq` the least
/// accepted sequence length.
pub(crate) fn match_parts(line: &str, min_seq: usize) -> (r: Option<(String, String)>)
    ensures
        match r {
            Some(parts) => match_line_spec(line@, min_seq as int) == Some((parts.0@, parts.1@)),
            None => match_line_spec(line@, min_seq as int) is None,
        },
{
    let chars = str_chars(line);
    let n = chars.len();
    let i = scan_ws(&chars, 0);
    let j = scan_seq(&chars, i);
    let k = scan_ws(&chars, j);
    if j - i < min_seq || k == j {
        return None;
    }
    if k < n {
        if !all_no_newline(&chars, k, n) {
            return None;
        }
        let m = trim_end_index(&chars, k, n);
        let seqv = sub_chars(&chars, i, j);
        let cmdv = sub_chars(&chars, k, m);
        Some((chars_string(&seqv), chars_string(&cmdv)))
    } else {
        if k - j >= 2 && chars[n - 1] != '\n' {
            let seqv = sub_chars(&chars, i, j);
            let empty: Vec<char> = Vec::new();
            proof {
                assert(empty@ =~= Seq::<char>::empty());
            }
            Some((chars_string(&seqv), chars_string(&empty)))
        } else {
            None
        }
    }
}


/// What the grammar guarantees of captures, and what re-serialisation
/// needs of them: a dot/dash sequence of the least length, and a trimmed,
/// line-break-free, non-empty command.
pub open spec fn wf_capture(seq_part: Seq<char>, cmd_part: Seq<char>, min_seq: int) -> bool {
    &&& seq_part.len() >= min_seq
    &&& forall|x: int| 0 <= x < seq_part.len() ==> is_seq_char(#[trigger] seq_part[x])
    &&& cmd_part.len() > 0
    &&& !is_space(cmd_part[0])
    &&& !is_space(cmd_part.last())
    &&& no_newline(cmd_part)
}

proof fn lemma_ws_run_end_exact(s: Seq<char>, from: int, to: int)
    requires
        0 <= from <= to <= s.len(),
        forall|x: int| from <= x < to ==> is_space(#[trigger] s[x]),
        to == s.len() || !is_space(s[to]),
    ensures
        ws_run_end(s, from) == to,
    decreases to - from,
{
    if from < to {
        lemma_ws_run_end_exact(s, from + 1, to);
    }
}

proof fn lemma_seq_run_end_exact(s: Seq<char>, from: int, to: int)
    requires
        0 <= from <= to <= s.len(),
        forall|x: int| from <= x < to ==> is_seq_char(#[trigger] s[x]),
        to == s.len() || !is_seq_char(s[to]),
    ensures
        seq_run_end(s, from) == to,
    decreases to - from,
{
    if from < to {
        lemma_seq_run_end_exact(s, from + 1, to);
    }
}

proof fn lemma_ws_run_range(s: Seq<char>, from: int)
    requires
        0 <= from <= s.len(),
    ensures
        from <= ws_run_end(s, from) <= s.len(),
        forall|x: int| from <= x < ws_run_end(s, from) ==> is_space(#[trigger] s[x]),
        ws_run_end(s, from) < s.len() ==> !is_space(s[ws_run_end(s, from)]),
    decreases s.len() - from,
{
    if from < s.len() && is_space(s[from]) {
        lemma_ws_run_range(s, from + 1);
    }
}

proof fn lemma_seq_run_range(s: Seq<char>, from: int)
    requires
        0 <= from <= s.len(),
    ensures
        from <= seq_run_end(s, from) <= s.len(),
        forall|x: int| from <= x < seq_run_end(s, from) ==> is_seq_char(#[trigger] s[x]),
        seq_run_end(s, from) < s.len() ==> !is_seq_char(s[seq_run_end(s, from)]),
    decreases s.len() - from,
{
    if from < s.len() && is_seq_char(s[from]) {
        lemma_seq_run_range(s, from + 1);
    }
}

proof fn lemma_trim_end_props(t: Seq<char>)
    ensures
        trim_end_spec(t).len() <= t.len(),
        trim_end_spec(t) == t.take(trim_end_spec(t).len() as int),
        trim_end_spec(t).len() > 0 ==> !is_space(trim_end_spec(t).last()),
        t.len() > 0 && !is_space(t[0]) ==> trim_end_spec(t).len() > 0,
    decreases t.len(),
{
    if t.len() > 0 && is_space(t.last()) {
        lemma_trim_end_props(t.drop_last());
        assert(t.drop_last() =~= t.take(t.len() - 1));
        assert(t.drop_last().take(trim_end_spec(t).len() as int) =~= t.take(
            trim_end_spec(t).len() as int,
        ));
    } else {
        assert(t.take(t.len() as int) =~= t);
    }
}

/// What the grammar guarantees of every capture it produces, except that
/// the command capture may be empty.
pub proof fn lemma_match_wf(s: Seq<char>, min_seq: int)
    requires
        match_line_spec(s, min_seq) is Some,
    ensures
        ({
            let parts = match_line_spec(s, min_seq)->Some_0;
            &&& parts.0.len() >= min_seq
            &&& (forall|x: int| 0 <= x < parts.0.len() ==> is_seq_char(#[trigger] parts.0[x]))
            &&& no_newline(parts.1)
            &&& (parts.1.len() > 0 ==> !is_space(parts.1[0]) && !is_space(parts.1.last())
                && wf_capture(parts.0, parts.1, min_seq))
        }),
{
    let n = s.len() as int;
    let i = ws_run_end(s, 0);
    let j = seq_run_end(s, i);
    let k = ws_run_end(s, j);
    lemma_ws_run_range(s, 0);
    lemma_seq_run_range(s, i);
    lemma_ws_run_range(s, j);
    let parts = match_line_spec(s, min_seq)->Some_0;
    assert forall|x: int| 0 <= x < parts.0.len() implies is_seq_char(#[trigger] parts.0[x]) by {
        assert(parts.0[x] == s[i + x]);
    }
    if k < n && no_newline(s.subrange(k, n)) {
        let sub = s.subrange(k, n);
        lemma_trim_end_props(sub);
        assert(sub[0] == s[k]);
        assert(!is_space(sub[0]));
        assert(parts.1.len() > 0);
        assert(parts.1[0] == sub[0]);
        assert forall|x: int| 0 <= x < parts.1.len() implies parts.1[x] != '\n' by {
            assert(parts.1[x] == sub[x]);
        }
    }
}

/// A line assembled as `sequence, one space, command` from a well-formed
/// capture matches the grammar and yields that capture back: serialising
/// installed commands and re-compiling them is the identity.
pub proof fn lemma_match_command_line(a: Seq<char>, b: Seq<char>, min_seq: int)
    requires
        wf_capture(a, b, min_seq),
        min_seq >= 1,
    ensures
        match_line_spec(a + seq![' '] + b, min_seq) == Some((a, b)),
{
    let line = a + seq![' '] + b;
    let n = line.len() as int;
    assert(!is_space('.') && !is_space('-'));
    assert(!is_seq_char(' '));
    assert(line[0] == a[0]);
    lemma_ws_run_end_exact(line, 0, 0);
    assert forall|x: int| 0 <= x < a.len() implies is_seq_char(#[trigger] line[x]) by {
        assert(line[x] == a[x]);
    }
    assert(line[a.len() as int] == ' ');
    lemma_seq_run_end_exact(line, 0, a.len() as int);
    assert(line[a.len() as int + 1] == b[0]);
    lemma_ws_run_end_exact(line, a.len() as int, a.len() as int + 1);
    let k = a.len() as int + 1;
    let sub = line.subrange(k, n);
    assert(sub =~= b);
    assert(trim_end_spec(b) == b);
    assert(line.subrange(0, a.len() as int) =~= a);
}

impl Cmd {
    /// Parse one configuration line as a command; a line the grammar does
    /// not accept is reported with the shared format error message.
    pub fn parse(line: &str) -> (r: Result<Cmd, String>)
        ensures
            match match_line_spec(line@, 2) {
                Some(parts) => r is Ok && r->Ok_0.sequence@ == parts.0 && r->Ok_0.command@
                    == parts.1,
                None => r is Err && r->Err_0@ == "Some commands have incorrect format"@,
            },
    {
        match match_parts(line, 2) {
            Some((sequence, command)) => Ok(Cmd { sequence, command }),
            None => Err(String::from_str("Some commands have incorrect format")),
        }
    }
}

} // verus!
