//! The one-line progress display: when to redraw it and what it says.
use vstd::prelude::*;
use crate::human::{format_bytes, format_bytes_text};
use crate::summary::{status_text, RunStatus, ScanSummary};
use crate::text::{dec_text, push_dec, push_str, string_of};

verus! {

/// Redraws are at least this far apart, in nanoseconds.
pub const REDRAW_INTERVAL_NS: u64 = 250_000_000;

pub open spec fn glyph_of(i: nat) -> Seq<char> {
    if i == 0 {
        "|"@
    } else if i == 1 {
        "/"@
    } else if i == 2 {
        "-"@
    } else {
        "\\"@
    }
}

/// The progress line for spinner position `glyph`, `secs` seconds in.
pub open spec fn progress_text(
    glyph: nat,
    s: ScanSummary,
    secs: nat,
    current: Seq<char>,
    out: Seq<char>,
) -> Seq<char> {
    "\r"@ + glyph_of(glyph) + " files="@ + dec_text(s.files_seen as nat) + " dirs="@ + dec_text(
        s.directories_seen as nat,
    ) + " bytes="@ + format_bytes_text(s.bytes_seen as nat) + " elapsed="@ + dec_text(secs)
        + "s current="@ + current + " out="@ + out + "   "@
}

/// The closing line of the progress display.
pub open spec fn finish_text(s: ScanSummary, status: RunStatus) -> Seq<char> {
    "\r"@ + status_text(status) + ": files="@ + dec_text(s.files_seen as nat) + " dirs="@
        + dec_text(s.directories_seen as nat) + " bytes="@ + format_bytes_text(
        s.bytes_seen as nat,
    ) + " errors="@ + dec_text(s.errors as nat) + "        \n"@
}

/// Progress display state. Times are nanoseconds since the display started.
#[derive(Debug)]
pub struct Progress {
    pub enabled: bool,
    pub last_ns: u64,
    pub spinner: usize,
    pub output_dir: String,
}

impl Progress {
    /// Enabled unless colour is off or standard error is no terminal.
    pub fn new(no_color: bool, stderr_is_tty: bool, output_dir: String) -> (p: Progress)
        ensures
            p.enabled == (!no_color && stderr_is_tty),
            p.last_ns == 0,
            p.spinner == 0,
            p.output_dir@ == output_dir@,
    {
        Progress { enabled: !no_color && stderr_is_tty, last_ns: 0, spinner: 0, output_dir }
    }

    /// At `now_ns`, the line to draw for `current`, if it is time for one:
    /// the display is on and the last line is at least 250 ms old. Drawing
    /// advances the spinner.
    pub fn tick(&mut self, now_ns: u64, current: &str, summary: &ScanSummary) -> (line: Option<
        String,
    >)
        requires
            old(self).spinner < 4,
        ensures
            final(self).spinner < 4,
            final(self).enabled == old(self).enabled,
            final(self).output_dir@ == old(self).output_dir@,
            ({
                let due = old(self).enabled && now_ns >= old(self).last_ns && now_ns
                    - old(self).last_ns >= REDRAW_INTERVAL_NS;
                if due {
                    &&& final(self).last_ns == now_ns
                    &&& final(self).spinner == (old(self).spinner + 1) % 4
                    &&& line matches Some(l) && l@ == progress_text(
                        final(self).spinner as nat,
                        *summary,
                        (now_ns / 1_000_000_000) as nat,
                        current@,
                        old(self).output_dir@,
                    )
                } else {
                    &&& final(self).last_ns == old(self).last_ns
                    &&& final(self).spinner == old(self).spinner
                    &&& line is None
                }
            }),
    {
        if !self.enabled || now_ns < self.last_ns || now_ns - self.last_ns < REDRAW_INTERVAL_NS {
            return None;
        }
        self.last_ns = now_ns;
        self.spinner = (self.spinner + 1) % 4;
        let glyph = if self.spinner == 0 {
            "|"
        } else if self.spinner == 1 {
            "/"
        } else if self.spinner == 2 {
            "-"
        } else {
            "\\"
        };
        let mut l = string_of("\r");
        push_str(&mut l, glyph);
        push_str(&mut l, " files=");
        push_dec(&mut l, summary.files_seen as u128);
        push_str(&mut l, " dirs=");
        push_dec(&mut l, summary.directories_seen as u128);
        push_str(&mut l, " bytes=");
        let b = format_bytes(summary.bytes_seen);
        push_str(&mut l, b.as_str());
        push_str(&mut l, " elapsed=");
        push_dec(&mut l, (now_ns / 1_000_000_000) as u128);
        push_str(&mut l, "s current=");
        push_str(&mut l, current);
        push_str(&mut l, " out=");
        push_str(&mut l, self.output_dir.as_str());
        push_str(&mut l, "   ");
        Some(l)
    }

    /// The closing line, when the display is on.
    pub fn finish(&self, summary: &ScanSummary, status: RunStatus) -> (line: Option<String>)
        ensures
            match line {
                Some(l) => self.enabled && l@ == finish_text(*summary, status),
                None => !self.enabled,
            },
    {
        if !self.enabled {
            return None;
        }
        let mut l = string_of("\r");
        push_str(&mut l, status.debug_text());
        push_str(&mut l, ": files=");
        push_dec(&mut l, summary.files_seen as u128);
        push_str(&mut l, " dirs=");
        push_dec(&mut l, summary.directories_seen as u128);
        push_str(&mut l, " bytes=");
        let b = format_bytes(summary.bytes_seen);
        push_str(&mut l, b.as_str());
        push_str(&mut l, " errors=");
        push_dec(&mut l, summary.errors as u128);
        push_str(&mut l, "        \n");
        Some(l)
    }
}


/// The final progress line opens with the run's status by name, then the
/// files seen: `\r<status>: files=<files seen>`.
pub proof fn lemma_finish_line_names_status(s: ScanSummary, status: RunStatus)
    ensures
        ("\r"@ + (match status {
            RunStatus::Completed => "Completed"@,
            RunStatus::CompletedWithErrors => "CompletedWithErrors"@,
            RunStatus::Interrupted => "Interrupted"@,
        }) + ": files="@ + dec_text(s.files_seen as nat) + " "@).is_prefix_of(finish_text(s, status)),
{
    crate::summary::lemma_status_names(status, status);
    let q = "dirs="@ + dec_text(s.directories_seen as nat) + " bytes="@ + format_bytes_text(s.bytes_seen as nat)
        + " errors="@ + dec_text(s.errors as nat) + "        \n"@;
    reveal_strlit(" dirs=");
    reveal_strlit("dirs=");
    reveal_strlit(" ");
    assert(" dirs="@ =~= " "@ + "dirs="@);
    assert(finish_text(s, status) =~= "\r"@ + status_text(status) + ": files="@ + dec_text(s.files_seen as nat) + " "@ + q);
}

} // verus!
