//! The bridge to the machine's clock and timezone: thin trusted wrappers
//! around chrono, and a checked constructor for the local-time context the
//! queries run in.

use vstd::prelude::*;

use crate::INSTANT_BOUND;
use crate::filter::{ctx_wf, LocalContext, DAY_BOUND};

verus! {

/// Relies on chrono's `Utc::now` and `DateTime::timestamp`: the current
/// UTC time as whole seconds since the Unix epoch.  Nothing can be
/// promised of the clock's reading.
#[verifier::external_body]
fn now_utc_secs_raw() -> (r: i64) {
    chrono::Utc::now().timestamp()
}

/// Relies on chrono's `Local::now` and `Datelike::num_days_from_ce`: the
/// current local calendar date, counted in days from 0001-01-01 (day 1 of
/// the common era).  Nothing can be promised of the clock's reading.
#[verifier::external_body]
fn local_days_from_ce_raw() -> (r: i32) {
    chrono::Datelike::num_days_from_ce(&chrono::Local::now().date_naive())
}

/// Relies on chrono's `FixedOffset::local_minus_utc`: the local timezone's
/// offset east of UTC in seconds at the current moment.  `FixedOffset` is
/// only ever built through constructors that keep the offset strictly
/// inside one day.
#[verifier::external_body]
fn local_offset_secs_raw() -> (r: i32)
    ensures
        -86400 < r < 86400,
{
    chrono::Local::now().offset().local_minus_utc()
}

/// 1970-01-01 counted from 0001-01-01, as chrono counts days of the
/// common era.
pub const EPOCH_DAYS_FROM_CE: i64 = 719_163;

/// The current UTC instant in whole seconds, when it lies within the
/// library's working range.
pub fn current_now() -> (r: Option<i64>)
    ensures
        match r {
            Some(t) => -INSTANT_BOUND <= t <= INSTANT_BOUND,
            None => true,
        },
{
    let t = now_utc_secs_raw();
    if -INSTANT_BOUND <= t && t <= INSTANT_BOUND {
        Some(t)
    } else {
        None
    }
}

/// The current local-time context (today's local day since the epoch and
/// the timezone offset), when the clock lies within the library's working
/// range.
pub fn current_context() -> (r: Option<LocalContext>)
    ensures
        match r {
            Some(ctx) => ctx_wf(ctx),
            None => true,
        },
{
    let ce = local_days_from_ce_raw();
    let offset = local_offset_secs_raw();
    let today = (ce as i64) - EPOCH_DAYS_FROM_CE;
    if -DAY_BOUND <= today && today <= DAY_BOUND {
        Some(LocalContext { today, offset: offset as i64 })
    } else {
        None
    }
}

} // verus!
