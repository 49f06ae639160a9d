//! The run's logging values: levels, the elapsed-time prefix of every
//! line, and the throttled progress report of the download engine. The
//! printing itself, and its coloring, live in the application layer.

use vstd::prelude::*;
use crate::text::{dec_str, u128_to_string, u64_to_string};
use crate::trusted::{duration_text_of, human_size_of};

verus! {

/// A log line's level; errors are either warnings or failures of the run.
pub enum LoggingLevel {
    StatusReport,
    Message,
    Warning,
}

/// The one-letter tag of a level.
pub open spec fn level_letter_spec(l: LoggingLevel) -> Seq<char> {
    match l {
        LoggingLevel::StatusReport => "S"@,
        LoggingLevel::Message => "M"@,
        LoggingLevel::Warning => "W"@,
    }
}

impl LoggingLevel {
    /// The one-letter tag of this level.
    pub fn letter(&self) -> (r: &'static str)
        ensures
            r@ == level_letter_spec(*self),
    {
        match self {
            LoggingLevel::StatusReport => "S",
            LoggingLevel::Message => "M",
            LoggingLevel::Warning => "W",
        }
    }
}

/// A log line: the seconds and leftover microseconds since the run
/// started, the level's letter, and the message.
pub open spec fn log_line_spec(elapsed_micros: u64, l: LoggingLevel, content: Seq<char>) -> Seq<
    char,
> {
    "["@ + dec_str((elapsed_micros / 1000000) as nat) + "."@ + dec_str(
        (elapsed_micros % 1000000) as nat,
    ) + "] "@ + level_letter_spec(l) + ": "@ + content
}

/// The clock every log line is stamped against, started once at process
/// start and passed to whatever logs.
pub struct LoggingClient {
    pub start_time: std::time::Instant,
}

impl LoggingClient {
    /// A logging clock starting now.
    pub fn new() -> (r: Self) {
        LoggingClient { start_time: crate::trusted::instant_now() }
    }

    /// Renders one log line stamped with the time elapsed since the clock
    /// started; whatever the clock reads, the line carries exactly that
    /// stamp, the level letter and the message.
    pub fn render_line(&self, level: LoggingLevel, content: &str) -> (r: String)
        ensures
            exists|em: u64| r@ == log_line_spec(em, level, content@),
    {
        let em = crate::trusted::elapsed_micros_since(&self.start_time);
        let mut r = String::from_str("[");
        r.append(u64_to_string(em / 1000000).as_str());
        r.append(".");
        r.append(u64_to_string(em % 1000000).as_str());
        r.append("] ");
        r.append(level.letter());
        r.append(": ");
        r.append(content);
        proof {
            assert(r@ =~= log_line_spec(em, level, content@));
        }
        r
    }
}

/// One progress report of the download engine, in whole numbers: the
/// percentage when a total was predicted, and the throughput from the
/// bytes moved since the last report over the interval.
pub struct ProgressReport {
    pub percent: Option<u128>,
    pub bytes_per_second: u128,
}

/// What a report must say: the percentage is bytes over total, in
/// hundredths, and the throughput is the byte delta per elapsed second.
pub open spec fn progress_spec(
    bytes_now: u128,
    total: Option<u128>,
    last_bytes: u128,
    elapsed_ms: u128,
) -> ProgressReport {
    ProgressReport {
        percent: match total {
            Some(t) => if t > 0 {
                Some((((bytes_now as int) * 100) / (t as int)) as u128)
            } else {
                None
            },
            None => None,
        },
        bytes_per_second: if elapsed_ms > 0 && bytes_now >= last_bytes {
            ((((bytes_now - last_bytes) as int) * 1000) / (elapsed_ms as int)) as u128
        } else {
            0
        },
    }
}

/// Computes one progress report.
pub fn progress_report(
    bytes_now: u128,
    total: Option<u128>,
    last_bytes: u128,
    elapsed_ms: u128,
) -> (r: ProgressReport)
    requires
        bytes_now <= u64::MAX as u128,
    ensures
        r == progress_spec(bytes_now, total, last_bytes, elapsed_ms),
{
    let percent = match total {
        Some(t) => if t > 0 {
            proof {
                assert(bytes_now * 100 <= u64::MAX as u128 * 100) by (nonlinear_arith)
                    requires
                        bytes_now <= u64::MAX as u128,
                ;
                assert(((bytes_now as int) * 100) / (t as int) <= (bytes_now as int) * 100)
                    by (nonlinear_arith)
                    requires
                        t > 0,
                ;
            }
            Some((bytes_now * 100) / t)
        } else {
            None
        },
        None => None,
    };
    let bytes_per_second = if elapsed_ms > 0 && bytes_now >= last_bytes {
        proof {
            assert((bytes_now - last_bytes) * 1000 <= u64::MAX as u128 * 1000)
                by (nonlinear_arith)
                requires
                    bytes_now <= u64::MAX as u128 && last_bytes <= bytes_now,
            ;
        }
        ((bytes_now - last_bytes) * 1000) / elapsed_ms
    } else {
        0
    };
    ProgressReport { percent, bytes_per_second }
}

/// The status line of one progress report: the file, the elapsed time,
/// the bytes moved, the percentage when known, and the throughput.
pub open spec fn progress_line_spec(
    file: Seq<char>,
    elapsed_secs: u64,
    bytes_now: u128,
    report: ProgressReport,
) -> Seq<char> {
    file + " => "@ + duration_text_of(elapsed_secs) + " "@ + human_size_of(bytes_now) + "("@ + (
    match report.percent {
        Some(p) => dec_str(p as nat),
        None => "?"@,
    }) + "%) "@ + human_size_of(report.bytes_per_second) + "/s"@
}

/// Renders one progress status line.
pub fn progress_line(file: &str, elapsed_secs: u64, bytes_now: u128, report: &ProgressReport) -> (r:
    String)
    ensures
        r@ == progress_line_spec(file@, elapsed_secs, bytes_now, *report),
{
    let mut r = file.to_owned();
    r.append(" => ");
    r.append(crate::trusted::duration_text(elapsed_secs).as_str());
    r.append(" ");
    r.append(crate::trusted::human_size(bytes_now).as_str());
    r.append("(");
    match &report.percent {
        Some(p) => {
            r.append(u128_to_string(*p).as_str());
        },
        None => {
            r.append("?");
        },
    }
    r.append("%) ");
    r.append(crate::trusted::human_size(report.bytes_per_second).as_str());
    r.append("/s");
    proof {
        assert(r@ =~= progress_line_spec(file@, elapsed_secs, bytes_now, *report));
    }
    r
}

} // verus!
