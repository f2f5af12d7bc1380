//! The process table: one record per supervised child, from spawn until the
//! supervisor has drained its output and reaped it.  The spawning itself and
//! the worker threads run outside the library; they report in with plain
//! values, and the four-column listing of the control surface is rendered
//! here.

use vstd::prelude::*;

use crate::util::{
    chars_string, dec_rep, dec_rep_signed, i64_to_chars, pad_right, push_chars, push_pad_right,
    str_chars, u64_to_chars,
};

verus! {

/// Ghost image of one tracked child.
#[verifier::ext_equal]
pub ghost struct ProcessV {
    pub pid: u32,
    pub cmd: Seq<char>,
    pub start_time: int,
    pub end_time: Option<int>,
    pub status: Option<Seq<char>>,
}

/// A timestamp the listing's arithmetic cannot overflow on.
pub open spec fn time_ok(t: int) -> bool {
    -0x2000_0000_0000_0000 < t < 0x2000_0000_0000_0000
}

/// Timestamp bounds of one record.
pub open spec fn proc_wf(p: ProcessV) -> bool {
    &&& time_ok(p.start_time)
    &&& (p.end_time is Some ==> time_ok(p.end_time->Some_0))
}

struct Process {
    pid: u32,
    cmd: String,
    start_time: i64,
    end_time: Option<i64>,
    status: Option<String>,
}

impl View for Process {
    type V = ProcessV;

    closed spec fn view(&self) -> ProcessV {
        ProcessV {
            pid: self.pid,
            cmd: self.cmd@,
            start_time: self.start_time as int,
            end_time: match self.end_time {
                Some(t) => Some(t as int),
                None => None,
            },
            status: match self.status {
                Some(ref s) => Some(s@),
                None => None,
            },
        }
    }
}

/// The index of the record with the given PID, if any.
pub open spec fn pid_index_from(ps: Seq<ProcessV>, pid: u32, i: int) -> Option<int>
    decreases ps.len() - i,
{
    if !(0 <= i < ps.len()) {
        None
    } else if ps[i].pid == pid {
        Some(i)
    } else {
        pid_index_from(ps, pid, i + 1)
    }
}

/// Seconds the child has run: until its exit, or until `now` while running.
pub open spec fn elapsed_secs(p: ProcessV, now: int) -> int {
    (match p.end_time {
        Some(e) => e,
        None => now,
    }) - p.start_time
}

/// The status column: `Running`, or the recorded exit status.
pub open spec fn status_text(p: ProcessV) -> Seq<char> {
    match p.status {
        None => "Running"@,
        Some(s) => s,
    }
}

/// One listing row: PID, elapsed seconds and status in fixed-width columns,
/// then the command.
pub open spec fn row_text(p: ProcessV, now: int) -> Seq<char> {
    pad_right(dec_rep(p.pid as nat), 15) + pad_right(dec_rep_signed(elapsed_secs(p, now)), 15)
        + pad_right(status_text(p), 25) + p.cmd
}

/// The listing's column headers.
pub open spec fn header_text() -> Seq<char> {
    pad_right("PID"@, 15) + pad_right("TIME (s)"@, 15) + pad_right("STATUS"@, 25) + "COMMAND"@
}

/// Every row, each on its own line after the one before it.
pub open spec fn rows_text(ps: Seq<ProcessV>, now: int) -> Seq<char>
    decreases ps.len(),
{
    if ps.len() == 0 {
        Seq::empty()
    } else {
        seq!['\n'] + row_text(ps[0], now) + rows_text(ps.drop_first(), now)
    }
}

/// The table of supervised children, in insertion order.
pub struct ProcessManager {
    process_map: Vec<Process>,
}

impl View for ProcessManager {
    type V = Seq<ProcessV>;

    closed spec fn view(&self) -> Seq<ProcessV> {
        self.process_map@.map_values(|p: Process| p@)
    }
}

impl ProcessManager {
    /// Timestamp bounds of every record.
    pub open spec fn wf(self) -> bool {
        forall|k: int| 0 <= k < self@.len() ==> proc_wf(#[trigger] self@[k])
    }

    pub fn new() -> (r: Self)
        ensures
            r@ == Seq::<ProcessV>::empty(),
            r.wf(),
    {
        let r = Self { process_map: Vec::new() };
        proof {
            assert(r@ =~= Seq::<ProcessV>::empty());
        }
        r
    }

    fn position_of(&self, pid: u32) -> (r: Option<usize>)
        ensures
            r is Some ==> pid_index_from(self@, pid, 0) == Some(r->Some_0 as int) && (
            r->Some_0 as int) < self@.len(),
            r is None ==> pid_index_from(self@, pid, 0) is None,
            self@.len() == self.process_map@.len(),
    {
        let n = self.process_map.len();
        proof {
            assert(self@.len() == n);
        }
        let mut i: usize = 0;
        while i < n
            invariant
                i <= n == self@.len(),
                pid_index_from(self@, pid, 0) == pid_index_from(self@, pid, i as int),
            decreases n - i,
        {
            if self.process_map[i].pid == pid {
                proof {
                    assert(self@[i as int] == self.process_map@[i as int]@);
                }
                return Some(i);
            }
            proof {
                assert(self@[i as int] == self.process_map@[i as int]@);
            }
            i += 1;
        }
        None
    }

    /// Add (or overwrite) the record of a freshly spawned child.
    pub fn insert(&mut self, pid: u32, cmd: String, start_time: i64)
        requires
            old(self).wf(),
            time_ok(start_time as int),
        ensures
            final(self)@ == ({
                let rec = ProcessV {
                    pid,
                    cmd: cmd@,
                    start_time: start_time as int,
                    end_time: None,
                    status: None,
                };
                match pid_index_from(old(self)@, pid, 0) {
                    Some(k) => old(self)@.update(k, rec),
                    None => old(self)@.push(rec),
                }
            }),
            final(self).wf(),
    {
        let ghost pre = self@;
        let rec = Process { pid, cmd, start_time, end_time: None, status: None };
        match self.position_of(pid) {
            Some(k) => {
                self.process_map[k] = rec;
                proof {
                    assert(self@ =~= pre.update(k as int, self.process_map@[k as int]@));
                }
            },
            None => {
                self.process_map.push(rec);
                proof {
                    assert(self@ =~= pre.push(self.process_map@.last()@));
                }
            },
        }
    }

    /// Record the exit status and end time of a reaped child.
    pub fn record_exit(&mut self, pid: u32, status: String, end_time: i64)
        requires
            old(self).wf(),
            time_ok(end_time as int),
        ensures
            final(self)@ == (match pid_index_from(old(self)@, pid, 0) {
                Some(k) => old(self)@.update(
                    k,
                    ProcessV {
                        pid: old(self)@[k].pid,
                        cmd: old(self)@[k].cmd,
                        start_time: old(self)@[k].start_time,
                        end_time: Some(end_time as int),
                        status: Some(status@),
                    },
                ),
                None => old(self)@,
            }),
            final(self).wf(),
    {
        let ghost pre = self@;
        match self.position_of(pid) {
            Some(k) => {
                proof {
                    assert(pre[k as int] == self.process_map@[k as int]@);
                }
                self.process_map[k].end_time = Some(end_time);
                self.process_map[k].status = Some(status);
                proof {
                    assert(self@ =~= pre.update(k as int, self.process_map@[k as int]@));
                }
            },
            None => {
                proof {
                    assert(self@ =~= pre);
                }
            },
        }
    }

    /// Drop the record of a child whose supervisor has finished.
    pub fn remove(&mut self, pid: u32)
        requires
            old(self).wf(),
        ensures
            final(self)@ == (match pid_index_from(old(self)@, pid, 0) {
                Some(k) => old(self)@.remove(k),
                None => old(self)@,
            }),
            final(self).wf(),
    {
        let ghost pre = self@;
        match self.position_of(pid) {
            Some(k) => {
                let _ = self.process_map.remove(k);
                proof {
                    assert(self@ =~= pre.remove(k as int));
                }
            },
            None => {
                proof {
                    assert(self@ =~= pre);
                }
            },
        }
    }

    /// The four-column listing: headers, then one line per child, in table
    /// order.
    pub fn format_information(&self, now: i64) -> (r: String)
        requires
            self.wf(),
            time_ok(now as int),
        ensures
            r@ == header_text() + rows_text(self@, now as int),
    {
        let mut out: Vec<char> = Vec::new();
        let pid_hdr = str_chars("PID");
        push_pad_right(&mut out, &pid_hdr, 15);
        let time_hdr = str_chars("TIME (s)");
        push_pad_right(&mut out, &time_hdr, 15);
        let status_hdr = str_chars("STATUS");
        push_pad_right(&mut out, &status_hdr, 25);
        let cmd_hdr = str_chars("COMMAND");
        push_chars(&mut out, &cmd_hdr);
        proof {
            assert(out@ =~= header_text());
        }
        let n = self.process_map.len();
        proof {
            assert(self@.len() == n);
            assert(self@.skip(0) =~= self@);
        }
        let mut i: usize = 0;
        while i < n
            invariant
                i <= n == self@.len(),
                self.wf(),
                n == self.process_map@.len(),
                header_text() + rows_text(self@, now as int) == out@ + rows_text(
                    self@.skip(i as int),
                    now as int,
                ),
                time_ok(now as int),
            decreases n - i,
        {
            let ghost rest = self@.skip(i as int);
            proof {
                assert(rest[0] == self@[i as int]);
                assert(rest.drop_first() =~= self@.skip(i as int + 1));
                assert(self@[i as int] == self.process_map@[i as int]@);
            }
            let ghost before = out@;
            out.push('\n');
            let p = &self.process_map[i];
            let pid_chars = u64_to_chars(p.pid as u64);
            push_pad_right(&mut out, &pid_chars, 15);
            let elapsed: i64 = match p.end_time {
                Some(e) => e - p.start_time,
                None => now - p.start_time,
            };
            let elapsed_chars = i64_to_chars(elapsed);
            push_pad_right(&mut out, &elapsed_chars, 15);
            let status_chars = match &p.status {
                Some(s) => str_chars(s.as_str()),
                None => str_chars("Running"),
            };
            push_pad_right(&mut out, &status_chars, 25);
            let cmd_chars = str_chars(p.cmd.as_str());
            push_chars(&mut out, &cmd_chars);
            proof {
                assert(out@ =~= before + (seq!['\n'] + row_text(self@[i as int], now as int)));
            }
            i += 1;
        }
        proof {
            assert(self@.skip(n as int) =~= Seq::<ProcessV>::empty());
        }
        chars_string(&out)
    }
}

} // verus!
