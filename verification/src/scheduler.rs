//! Cron-scheduled syncs: checking the expression and how long to sleep.

use vstd::prelude::*;

use crate::error::AppError;

verus! {

/// The message `cron` gives when it refuses the expression, or none when it
/// accepts it (`cron::Schedule::from_str`, Quartz format with seconds).
pub uninterp spec fn cron_parse_error(expr: Seq<char>) -> Option<Seq<char>>;

/// Calls `cron::Schedule::from_str` and keeps only whether it refused the
/// expression and its message; the outcome depends on the expression alone.
#[verifier::external_body]
fn parse_cron(expr: &str) -> (r: Option<String>)
    ensures
        match r {
            None => cron_parse_error(expr@) is None,
            Some(m) => cron_parse_error(expr@) == Some(m@),
        },
{
    match <cron::Schedule as std::str::FromStr>::from_str(expr) {
        Ok(_) => None,
        Err(e) => Some(e.to_string()),
    }
}

/// The error for an expression `cron` refuses with `message`.
pub open spec fn invalid_cron_text(expr: Seq<char>, message: Seq<char>) -> Seq<char> {
    "invalid cron '"@ + expr + "': "@ + message
}

/// Checks a cron expression before a schedule is started for it.
pub fn validate_cron(cron_expr: &str) -> (r: Result<(), AppError>)
    ensures
        match cron_parse_error(cron_expr@) {
            None => r is Ok,
            Some(m) => r matches Err(AppError::Other(t)) && t@ == invalid_cron_text(cron_expr@, m),
        },
{
    match parse_cron(cron_expr) {
        None => Ok(()),
        Some(m) => {
            let mut t = String::new();
            t.append("invalid cron '");
            t.append(cron_expr);
            t.append("': ");
            t.append(m.as_str());
            assert(t@ =~= invalid_cron_text(cron_expr@, m@));
            Err(AppError::Other(t))
        },
    }
}

/// How long to sleep before the next run, in milliseconds: the time until it, or
/// a minute when that time has already passed.
pub open spec fn delay_ms(next_ms: i64, now_ms: i64) -> int {
    if next_ms >= now_ms { next_ms - now_ms } else { 60_000 }
}

/// How long to sleep before the next scheduled run.
pub fn sleep_delay_ms(next_ms: i64, now_ms: i64) -> (d: u64)
    ensures
        d == delay_ms(next_ms, now_ms),
{
    if next_ms >= now_ms {
        ((next_ms as i128) - (now_ms as i128)) as u64
    } else {
        60_000
    }
}

} // verus!
