//! Recoverable errors: the record of one and the lines written for it.
use vstd::prelude::*;
use crate::text::{dec_text, push_dec, push_str, string_of};

verus! {

/// A recoverable error met during a scan.
#[derive(Debug, Clone)]
pub struct LoggedError {
    pub timestamp: String,
    pub severity: String,
    pub path: String,
    pub error_type: String,
    pub message: String,
    pub os_code: Option<i32>,
}

/// An `i32` as `{}` writes it.
pub open spec fn int_text(n: int) -> Seq<char> {
    if n < 0 {
        "-"@ + dec_text((-n) as nat)
    } else {
        dec_text(n as nat)
    }
}

/// An `Option<i32>` as `{:?}` writes it.
pub open spec fn os_code_text(c: Option<i32>) -> Seq<char> {
    match c {
        Some(n) => "Some("@ + int_text(n as int) + ")"@,
        None => "None"@,
    }
}

/// The line of `errors.log`: tab-separated time, severity, error type,
/// path, message and OS error code.
pub open spec fn log_line_text(e: LoggedError) -> Seq<char> {
    e.timestamp@ + "\t"@ + e.severity@ + "\t"@ + e.error_type@ + "\t"@ + e.path@ + "\t"@
        + e.message@ + "\t"@ + os_code_text(e.os_code) + "\n"@
}

/// The warning printed on standard error.
pub open spec fn console_line_text(e: LoggedError) -> Seq<char> {
    "warning: "@ + e.path@ + ": "@ + e.message@ + "\n"@
}

fn push_int(out: &mut String, n: i32)
    ensures
        final(out)@ == old(out)@ + int_text(n as int),
{
    if n < 0 {
        push_str(out, "-");
        let m: i64 = -(n as i64);
        push_dec(out, m as u128);
    } else {
        push_dec(out, n as u128);
    }
}

impl LoggedError {
    /// The line this error adds to `errors.log`.
    pub fn log_line(&self) -> (l: String)
        ensures
            l@ == log_line_text(*self),
    {
        let mut l = string_of(self.timestamp.as_str());
        push_str(&mut l, "\t");
        push_str(&mut l, self.severity.as_str());
        push_str(&mut l, "\t");
        push_str(&mut l, self.error_type.as_str());
        push_str(&mut l, "\t");
        push_str(&mut l, self.path.as_str());
        push_str(&mut l, "\t");
        push_str(&mut l, self.message.as_str());
        push_str(&mut l, "\t");
        match self.os_code {
            Some(n) => {
                push_str(&mut l, "Some(");
                push_int(&mut l, n);
                push_str(&mut l, ")");
            },
            None => push_str(&mut l, "None"),
        }
        push_str(&mut l, "\n");
        l
    }

    /// The warning this error prints on standard error.
    pub fn console_line(&self) -> (l: String)
        ensures
            l@ == console_line_text(*self),
    {
        let mut l = string_of("warning: ");
        push_str(&mut l, self.path.as_str());
        push_str(&mut l, ": ");
        push_str(&mut l, self.message.as_str());
        push_str(&mut l, "\n");
        l
    }
}

} // verus!
