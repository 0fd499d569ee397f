//! The aggregator: pair consecutive Start/Stop events and add up the
//! elapsed seconds, treating a trailing unpaired Start as still running up
//! to `now`; split a duration into hours, minutes and seconds; and compare
//! accumulated time against a configured goal.

use vstd::prelude::*;

use crate::INSTANT_BOUND;
use crate::event::{effective_time, log_view, log_wf, model_wf, truncate_to_minute, EventModel, TrackingEvent};
use crate::track::Settings;
use vstd::arithmetic::div_mod::{lemma_div_denominator, lemma_fundamental_div_mod};

verus! {

/// The longest log the aggregator accepts; keeps the accumulated seconds
/// within `i64` whatever the (bounded) instants are.
pub const MAX_AGG_EVENTS: usize = 0x10_0000;

/// `now`, truncated to a whole minute unless seconds are included.
pub open spec fn effective_now(now: int, include_seconds: bool) -> int {
    if include_seconds {
        now
    } else {
        now - now % 60
    }
}

/// The worked seconds a log stands for: consecutive (Start, Stop) pairs
/// contribute the difference of their instants, and a trailing unpaired
/// event counts as still running until `now`.
pub open spec fn total_seconds(s: Seq<EventModel>, include_seconds: bool, now: int) -> int
    decreases s.len(),
{
    if s.len() == 0 {
        0
    } else if s.len() == 1 {
        effective_now(now, include_seconds) - effective_time(s[0], include_seconds)
    } else {
        effective_time(s[1], include_seconds) - effective_time(s[0], include_seconds)
            + total_seconds(s.skip(2), include_seconds, now)
    }
}

/// Aggregation is deterministic: the worked time is a function of the event
/// sequence, the seconds flag and the fixed `now` alone, so running it twice
/// over the same immutable events yields the same result.
pub proof fn lemma_total_seconds_deterministic(
    s: Seq<EventModel>,
    include_seconds: bool,
    now: int,
    r1: int,
    r2: int,
)
    requires
        r1 == total_seconds(s, include_seconds, now),
        r2 == total_seconds(s, include_seconds, now),
    ensures
        r1 == r2,
{
}

/// The worked seconds stay within a bound proportional to the log's
/// length, so that the accumulation fits in `i64`.
pub proof fn lemma_total_seconds_bound(s: Seq<EventModel>, include_seconds: bool, now: int)
    requires
        log_wf(s),
        -INSTANT_BOUND <= now <= INSTANT_BOUND,
    ensures
        -(s.len() as int + 2) * 4_200_000_000_060 <= total_seconds(s, include_seconds, now) <= (
        s.len() as int + 2) * 4_200_000_000_060,
    decreases s.len(),
{
    if s.len() == 0 {
    } else if s.len() == 1 {
        assert(model_wf(s[0]));
    } else {
        assert(model_wf(s[0]) && model_wf(s[1]));
        assert(log_wf(s.skip(2))) by {
            assert(forall|i: int| 0 <= i < s.skip(2).len() ==> s.skip(2)[i] == s[i + 2]);
        }
        lemma_total_seconds_bound(s.skip(2), include_seconds, now);
    }
}

/// Add up the worked seconds of a (filtered) log.
pub fn get_time_from_events(data: &Vec<TrackingEvent>, include_seconds: bool, now: i64) -> (r: i64)
    requires
        -INSTANT_BOUND <= now <= INSTANT_BOUND,
        log_wf(log_view(data@)),
        data@.len() <= MAX_AGG_EVENTS,
    ensures
        r == total_seconds(log_view(data@), include_seconds, now as int),
{
    let ghost log = log_view(data@);
    proof {
        assert(log.skip(0) =~= log);
    }
    let n = data.len();
    let mut acc: i64 = 0;
    let mut i: usize = 0;
    while i + 1 < n
        invariant
            i <= n,
            i % 2 == 0,
            n == data@.len(),
            n <= MAX_AGG_EVENTS,
            log == log_view(data@),
            log_wf(log),
            -INSTANT_BOUND <= now <= INSTANT_BOUND,
            acc == total_seconds(log, include_seconds, now as int) - total_seconds(
                log.skip(i as int),
                include_seconds,
                now as int,
            ),
            -(i as int) * 4_200_000_000_060 <= acc <= (i as int) * 4_200_000_000_060,
        decreases n - i,
    {
        let a = data[i].time(include_seconds);
        let b = data[i + 1].time(include_seconds);
        proof {
            assert(-INSTANT_BOUND - 60 < effective_time(log[i as int], include_seconds)
                <= INSTANT_BOUND);
            assert(-INSTANT_BOUND - 60 < effective_time(log[i + 1], include_seconds)
                <= INSTANT_BOUND);
            assert(log.skip(i as int).skip(2) =~= log.skip(i + 2));
            assert(total_seconds(log.skip(i as int), include_seconds, now as int)
                == effective_time(log[i + 1], include_seconds) - effective_time(
                log[i as int],
                include_seconds,
            ) + total_seconds(log.skip(i + 2), include_seconds, now as int));
        }
        acc = acc + (b - a);
        i = i + 2;
    }
    if i < n {
        let a = data[i].time(include_seconds);
        let effective = if include_seconds {
            now
        } else {
            truncate_to_minute(now)
        };
        proof {
            assert(log.skip(i as int).len() == 1);
            assert(log.skip(i as int)[0] == log[i as int]);
        }
        acc = acc + (effective - a);
        proof {
            assert(acc == total_seconds(log, include_seconds, now as int));
        }
        acc
    } else {
        proof {
            assert(log.skip(i as int) =~= Seq::<EventModel>::empty());
        }
        acc
    }
}

/// Truncating division (round toward zero), as the split into hours,
/// minutes and seconds uses it.
pub open spec fn div_trunc(a: int, b: int) -> int {
    if a >= 0 {
        a / b
    } else {
        -((-a) / b)
    }
}

fn div_trunc_exec(a: i64, b: i64) -> (r: i64)
    requires
        b > 0,
        a > i64::MIN,
    ensures
        r == div_trunc(a as int, b as int),
        -a <= r <= a || a <= r <= -a,
{
    proof {
        if a >= 0 {
            lemma_fundamental_div_mod(a as int, b as int);
        } else {
            lemma_fundamental_div_mod(-a as int, b as int);
        }
    }
    if a >= 0 {
        ((a as u64) / (b as u64)) as i64
    } else {
        let q = ((-a) as u64) / (b as u64);
        -(q as i64)
    }
}

/// Split a number of seconds into whole hours, leftover minutes and
/// leftover seconds, each rounded toward zero as the original subtraction
/// chain does; for a negative duration all three parts are non-positive.
pub fn split_duration(duration: i64) -> (r: (i64, i64, i64))
    requires
        duration > i64::MIN,
    ensures
        r.0 == div_trunc(duration as int, 3600),
        r.1 == div_trunc(duration as int, 60) - 60 * div_trunc(duration as int, 3600),
        r.2 == duration - 3600 * r.0 - 60 * r.1,
        -60 < r.1 < 60,
        -60 < r.2 < 60,
        duration - 3600 < 3600 * r.0 < duration + 3600,
{
    proof {
        let d = if duration >= 0 {
            duration as int
        } else {
            -(duration as int)
        };
        lemma_div_denominator(d, 60, 60);
        lemma_fundamental_div_mod(d, 60);
        lemma_fundamental_div_mod(d, 3600);
        lemma_fundamental_div_mod(d / 60, 60);
    }
    let hours = div_trunc_exec(duration, 3600);
    let hours_in_minutes = hours * 60;
    let minutes = div_trunc_exec(duration, 60) - hours_in_minutes;
    let minutes_in_seconds = minutes * 60;
    let hours_in_seconds = hours_in_minutes * 60;
    let seconds = duration - hours_in_seconds - minutes_in_seconds;
    (hours, minutes, seconds)
}

/// Split a signed number of minutes into whole hours and leftover minutes,
/// both rounded toward zero.
pub fn split_minutes(total: i64) -> (r: (i64, i64))
    requires
        total > i64::MIN,
    ensures
        r.0 == div_trunc(total as int, 60),
        r.1 == total - 60 * r.0,
        total - 60 < 60 * r.0 < total + 60,
{
    proof {
        let d = if total >= 0 {
            total as int
        } else {
            -(total as int)
        };
        lemma_fundamental_div_mod(d, 60);
    }
    let hours = div_trunc_exec(total, 60);
    (hours, total - hours * 60)
}

/// How many minutes are still owed toward the configured goal: the goal
/// (weekly when `week` is set, daily otherwise) minus the accumulated
/// hours and minutes; negative when the goal is already exceeded.
pub fn get_remaining_minutes(settings: &Settings, week: bool, hours: i64, minutes: i64) -> (r: i64)
    requires
        -0x8_0000_0000_0000 <= hours <= 0x8_0000_0000_0000,
        -0x8_0000_0000_0000 <= minutes <= 0x8_0000_0000_0000,
    ensures
        ({
            let goal = if week {
                settings.time_goal.weekly
            } else {
                settings.time_goal.daily
            };
            r == goal.minutes + goal.hours * 60 - (minutes + hours * 60)
        }),
{
    let total = minutes + hours * 60;
    let goal = if week {
        &settings.time_goal.weekly
    } else {
        &settings.time_goal.daily
    };
    let required = (goal.minutes as i64) + (goal.hours as i64) * 60;
    required - total
}

} // verus!
