//! The query pipeline behind `show` and `status`: filter the log, add up
//! the worked time, split it into hours, minutes and seconds, and — for a
//! remaining-time query — compare against the daily goal and the weekly
//! goal, reporting the tighter of the two.

use vstd::prelude::*;

use crate::INSTANT_BOUND;
use crate::agg::{
    div_trunc, get_remaining_minutes, get_time_from_events, lemma_total_seconds_bound,
    split_duration, total_seconds, MAX_AGG_EVENTS,
};
use crate::event::{log_view, log_wf, EventModel, TrackingEvent};
use crate::filter::{
    ctx_wf, filter_events, filtered_log, lemma_filtered_log_wf, opt_bound_wf, opt_token_view,
    week_token, DateOrDateTime, LocalContext,
};
use crate::track::Settings;

verus! {

/// A remaining-time query is answered only with no explicit boundaries and
/// with no text filter beyond the empty token or "week".
pub open spec fn remaining_allowed(
    from: Option<DateOrDateTime>,
    to: Option<DateOrDateTime>,
    token: Option<Seq<u8>>,
) -> bool {
    &&& (token == Some(week_token()) || token is None || token == Some(Seq::<u8>::empty()))
    &&& from is None
    &&& to is None
}

/// The hours, minutes and seconds `show` reports: the split of the worked
/// time, or — for a remaining-time query — the split of the minutes still
/// owed toward the goal (the tighter of daily and weekly when the scope is
/// daily), with the seconds zeroed; `None` when a remaining-time query is
/// rejected.
pub open spec fn show_model(
    settings: Settings,
    log: Seq<EventModel>,
    from: Option<DateOrDateTime>,
    to: Option<DateOrDateTime>,
    token: Option<Seq<u8>>,
    include_seconds: bool,
    remaining: bool,
    ctx: LocalContext,
    now: int,
) -> Option<(int, int, int)> {
    let flog = filtered_log(log, from, to, token, ctx);
    let total = total_seconds(flog, include_seconds, now);
    let h = div_trunc(total, 3600);
    let m = div_trunc(total, 60) - 60 * h;
    let s = total - 3600 * h - 60 * m;
    if !remaining {
        Some((h, m, s))
    } else if remaining_allowed(from, to, token) {
        let is_week = token == Some(week_token());
        let goal = if is_week {
            settings.time_goal.weekly
        } else {
            settings.time_goal.daily
        };
        let rm0 = goal.minutes + goal.hours * 60 - (m + h * 60);
        let rm = if is_week {
            rm0
        } else {
            let wlog = filtered_log(flog, None, None, Some(week_token()), ctx);
            let wtotal = total_seconds(wlog, include_seconds, now);
            let wh = div_trunc(wtotal, 3600);
            let wm = div_trunc(wtotal, 60) - 60 * wh;
            let wrm = settings.time_goal.weekly.minutes + settings.time_goal.weekly.hours * 60 - (
            wm + wh * 60);
            if rm0 <= wrm {
                rm0
            } else {
                wrm
            }
        };
        Some((div_trunc(rm, 60), rm - 60 * div_trunc(rm, 60), 0))
    } else {
        None
    }
}

/// Run a `show` query: filter, aggregate and split, honouring a
/// remaining-time request.  `None` reports a rejected remaining-time
/// query; the log is never touched.
pub fn show_duration(
    settings: &Settings,
    data: &Vec<TrackingEvent>,
    from: Option<DateOrDateTime>,
    to: Option<DateOrDateTime>,
    filter: Option<Vec<u8>>,
    include_seconds: bool,
    remaining: bool,
    ctx: LocalContext,
    now: i64,
) -> (r: Option<(i64, i64, i64)>)
    requires
        ctx_wf(ctx),
        opt_bound_wf(from),
        opt_bound_wf(to),
        log_wf(log_view(data@)),
        data@.len() <= MAX_AGG_EVENTS,
        -INSTANT_BOUND <= now <= INSTANT_BOUND,
    ensures
        ({
            let model = show_model(
                *settings,
                log_view(data@),
                from,
                to,
                opt_token_view(filter),
                include_seconds,
                remaining,
                ctx,
                now as int,
            );
            match r {
                Some((h, m, s)) => model == Some((h as int, m as int, s as int)),
                None => model is None,
            }
        }),
{
    let ghost log = log_view(data@);
    let ghost token = opt_token_view(filter);
    let is_week = match &filter {
        Some(v) => v.len() == 4 && v[0] == 119u8 && v[1] == 101u8 && v[2] == 101u8 && v[3]
            == 107u8,
        None => false,
    };
    let is_empty_token = match &filter {
        Some(v) => v.len() == 0,
        None => true,
    };
    proof {
        if is_week {
            assert(filter.unwrap()@ =~= week_token());
        } else if filter is Some && filter.unwrap()@.len() == 4 {
            if filter.unwrap()@ == week_token() {
                assert(filter.unwrap()@[0] == 119u8 && filter.unwrap()@[1] == 101u8
                    && filter.unwrap()@[2] == 101u8 && filter.unwrap()@[3] == 107u8);
            }
        }
        if is_empty_token && filter is Some {
            assert(filter.unwrap()@ =~= Seq::<u8>::empty());
        }
        lemma_filtered_log_wf(log, from, to, token, ctx);
    }
    let fdata = filter_events(data, from, to, filter, ctx);
    let ghost flog = filtered_log(log, from, to, token, ctx);
    let total = get_time_from_events(&fdata, include_seconds, now);
    proof {
        lemma_total_seconds_bound(flog, include_seconds, now as int);
    }
    let (h, m, s) = split_duration(total);
    if !remaining {
        return Some((h, m, s));
    }
    let boundaries_absent = match (&from, &to) {
        (None, None) => true,
        _ => false,
    };
    if !((is_week || is_empty_token) && boundaries_absent) {
        return None;
    }
    let rm0 = get_remaining_minutes(settings, is_week, h, m);
    let rm = if is_week {
        rm0
    } else {
        proof {
            lemma_filtered_log_wf(flog, None, None, Some(week_token()), ctx);
        }
        let week_tok: Vec<u8> = vec![119u8, 101u8, 101u8, 107u8];
        proof {
            assert(week_tok@ =~= week_token());
        }
        let wdata = filter_events(&fdata, None, None, Some(week_tok), ctx);
        let wtotal = get_time_from_events(&wdata, include_seconds, now);
        proof {
            lemma_total_seconds_bound(
                filtered_log(flog, None, None, Some(week_token()), ctx),
                include_seconds,
                now as int,
            );
        }
        let (wh, wm, _ws) = split_duration(wtotal);
        let wrm = get_remaining_minutes(settings, true, wh, wm);
        if rm0 <= wrm {
            rm0
        } else {
            wrm
        }
    };
    let (rh, rmin) = crate::agg::split_minutes(rm);
    Some((rh, rmin, 0))
}

/// Whether tracking is currently active: the log's last event is a Start.
pub fn tracking_active(data: &Vec<TrackingEvent>) -> (r: bool)
    ensures
        r == (log_view(data@).len() > 0 && log_view(data@).last().is_start),
{
    let n = data.len();
    if n == 0 {
        false
    } else {
        data[n - 1].is_start()
    }
}

} // verus!
