//! The filter engine: select the events of a log whose instant falls in a
//! resolved from/to range and whose description matches a text token, then
//! drop any leading run of Stop events so that the aggregator starts on a
//! Start.

use vstd::prelude::*;

use crate::INSTANT_BOUND;
use crate::event::{log_view, EventModel, TrackingData, TrackingEvent};
use vstd::arithmetic::div_mod::{
    lemma_div_multiples_vanish_fancy, lemma_fundamental_div_mod, lemma_mod_multiples_vanish,
};

verus! {

/// A parsed filter boundary: a whole local calendar day (days since
/// 1970-01-01 of the local wall clock), or an exact local wall-clock
/// instant (seconds since 1970-01-01 00:00:00 local time).
#[derive(Clone, Copy, Debug, PartialEq, Eq, Structural)]
pub enum DateOrDateTime {
    Date(i64),
    DateTime(i64),
}

/// The local-time context a query runs in: today's local calendar day
/// (days since 1970-01-01) and the local timezone's offset east of UTC in
/// seconds.
#[derive(Clone, Copy, Debug, PartialEq, Eq, Structural)]
pub struct LocalContext {
    pub today: i64,
    pub offset: i64,
}

/// How far from the epoch a calendar-day boundary may lie.
pub const DAY_BOUND: i64 = 4_000_000;

pub open spec fn ctx_wf(ctx: LocalContext) -> bool {
    &&& -DAY_BOUND <= ctx.today <= DAY_BOUND
    &&& -86400 <= ctx.offset <= 86400
}

/// A boundary whose converted instants stay within the library's bounds.
pub open spec fn bound_wf(b: DateOrDateTime) -> bool {
    match b {
        DateOrDateTime::Date(d) => -DAY_BOUND <= d <= DAY_BOUND,
        DateOrDateTime::DateTime(t) => -INSTANT_BOUND <= t <= INSTANT_BOUND,
    }
}

pub open spec fn opt_bound_wf(b: Option<DateOrDateTime>) -> bool {
    match b {
        Some(v) => bound_wf(v),
        None => true,
    }
}

pub open spec fn week_token() -> Seq<u8> {
    seq![119u8, 101u8, 101u8, 107u8]
}

pub open spec fn all_token() -> Seq<u8> {
    seq![97u8, 108u8, 108u8]
}

/// Days since the local week's Monday (1970-01-01 was a Thursday).
pub open spec fn days_from_monday(days: int) -> int {
    (days + 3) % 7
}

/// The from boundary, the to boundary and the remaining text token of a
/// query, resolved as the filter engine does: the token "week" replaces
/// both boundaries by the current local week and drops the text filter; a
/// missing `from` defaults to today, and a missing `to` defaults to the
/// calendar day of the resolved `from`.
pub open spec fn resolve_filter(
    from: Option<DateOrDateTime>,
    to: Option<DateOrDateTime>,
    filter: Option<Seq<u8>>,
    today: int,
) -> (DateOrDateTime, DateOrDateTime, Option<Seq<u8>>) {
    if filter == Some(week_token()) {
        let monday = today - days_from_monday(today);
        (
            DateOrDateTime::Date(monday as i64),
            DateOrDateTime::Date((monday + 6) as i64),
            None,
        )
    } else {
        let f = (match from {
            Some(b) => b,
            None => DateOrDateTime::Date(today as i64),
        });
        let t = (match to {
            Some(b) => b,
            None => (match f {
                DateOrDateTime::DateTime(x) => DateOrDateTime::Date((x as int / 86400) as i64),
                DateOrDateTime::Date(d) => DateOrDateTime::Date(d),
            }),
        });
        (f, t, filter)
    }
}

/// The earliest UTC instant a from-boundary admits: local midnight of a
/// Date, or the exact instant of a DateTime.
pub open spec fn from_bound_seconds(b: DateOrDateTime, offset: int) -> int {
    match b {
        DateOrDateTime::Date(d) => d * 86400 - offset,
        DateOrDateTime::DateTime(t) => t - offset,
    }
}

/// The latest UTC instant a to-boundary admits: local 23:59:59 of a Date,
/// or the exact instant of a DateTime.
pub open spec fn to_bound_seconds(b: DateOrDateTime, offset: int) -> int {
    match b {
        DateOrDateTime::Date(d) => d * 86400 + 86399 - offset,
        DateOrDateTime::DateTime(t) => t - offset,
    }
}

pub open spec fn in_range(m: EventModel, f: DateOrDateTime, t: DateOrDateTime, offset: int) -> bool {
    from_bound_seconds(f, offset) <= m.time && m.time <= to_bound_seconds(t, offset)
}

/// `needle` occurs in `hay` starting at position `i`.
pub open spec fn is_match_at(hay: Seq<u8>, needle: Seq<u8>, i: int) -> bool {
    0 <= i && i + needle.len() <= hay.len() && hay.subrange(i, i + needle.len()) == needle
}

/// `needle` occurs somewhere in `hay` as a contiguous byte substring.
pub open spec fn contains_bytes(hay: Seq<u8>, needle: Seq<u8>) -> bool {
    exists|i: int| is_match_at(hay, needle, i)
}

/// The text filter: no token passes everything; the token "all" passes
/// everything; any other token requires a description containing it.
pub open spec fn text_match(m: EventModel, token: Option<Seq<u8>>) -> bool {
    match (token, m.description) {
        (Some(tok), Some(d)) => tok == all_token() || contains_bytes(d, tok),
        (Some(tok), None) => tok == all_token(),
        (None, _) => true,
    }
}

/// The whole per-event test: the range test (bypassed entirely by the
/// token "all") and the text filter.
pub open spec fn passes(
    m: EventModel,
    f: DateOrDateTime,
    t: DateOrDateTime,
    token: Option<Seq<u8>>,
    offset: int,
) -> bool {
    (token == Some(all_token()) || in_range(m, f, t, offset)) && text_match(m, token)
}

/// Drop the leading run of Stop events: a filtered view must not begin
/// with an unmatched Stop.
pub open spec fn drop_leading_stops(s: Seq<EventModel>) -> Seq<EventModel>
    decreases s.len(),
{
    if s.len() == 0 {
        s
    } else if !s[0].is_start {
        drop_leading_stops(s.skip(1))
    } else {
        s
    }
}

pub open spec fn opt_token_view(t: Option<Vec<u8>>) -> Option<Seq<u8>> {
    match t {
        Some(v) => Some(v@),
        None => None,
    }
}

/// The model of what `filter_events` returns.
pub open spec fn filtered_log(
    log: Seq<EventModel>,
    from: Option<DateOrDateTime>,
    to: Option<DateOrDateTime>,
    filter: Option<Seq<u8>>,
    ctx: LocalContext,
) -> Seq<EventModel> {
    let (f, t, token) = resolve_filter(from, to, filter, ctx.today as int);
    drop_leading_stops(log.filter(|m: EventModel| passes(m, f, t, token, ctx.offset as int)))
}

fn is_week_token(v: &Vec<u8>) -> (r: bool)
    ensures
        r == (v@ == week_token()),
{
    let r = v.len() == 4 && v[0] == 119u8 && v[1] == 101u8 && v[2] == 101u8 && v[3] == 107u8;
    proof {
        if r {
            assert(v@ =~= week_token());
        } else {
            assert(v@ != week_token()) by {
                if v@ == week_token() {
                    assert(v@.len() == 4);
                    assert(v@[0] == 119u8 && v@[1] == 101u8 && v@[2] == 101u8 && v@[3] == 107u8);
                }
            }
        }
    }
    r
}

fn is_all_token(v: &Vec<u8>) -> (r: bool)
    ensures
        r == (v@ == all_token()),
{
    let r = v.len() == 3 && v[0] == 97u8 && v[1] == 108u8 && v[2] == 108u8;
    proof {
        if r {
            assert(v@ =~= all_token());
        } else {
            assert(v@ != all_token()) by {
                if v@ == all_token() {
                    assert(v@.len() == 3);
                    assert(v@[0] == 97u8 && v@[1] == 108u8 && v@[2] == 108u8);
                }
            }
        }
    }
    r
}

/// Whether `needle` occurs in `hay` as a contiguous byte substring.
pub fn contains_bytes_exec(hay: &Vec<u8>, needle: &Vec<u8>) -> (r: bool)
    ensures
        r == contains_bytes(hay@, needle@),
{
    let n = needle.len();
    let h = hay.len();
    if n == 0 {
        proof {
            assert(hay@.subrange(0, 0) =~= needle@);
            assert(is_match_at(hay@, needle@, 0));
        }
        return true;
    }
    if n > h {
        proof {
            assert(!contains_bytes(hay@, needle@)) by {
                if contains_bytes(hay@, needle@) {
                    let i = choose|i: int| is_match_at(hay@, needle@, i);
                }
            }
        }
        return false;
    }
    let mut i: usize = 0;
    while i < h - n + 1
        invariant
            1 <= n <= h,
            n == needle@.len(),
            h == hay@.len(),
            i <= h - n + 1,
            forall|k: int| 0 <= k < i ==> !is_match_at(hay@, needle@, k),
        decreases h - n + 1 - i,
    {
        let mut j: usize = 0;
        let mut hit = true;
        while j < n
            invariant
                n <= h,
                n == needle@.len(),
                h == hay@.len(),
                i <= h - n,
                j <= n,
                hit ==> forall|k: int| 0 <= k < j ==> hay@[i + k] == needle@[k],
                !hit ==> !is_match_at(hay@, needle@, i as int),
            decreases n - j,
        {
            if hay[i + j] != needle[j] {
                proof {
                    assert(!is_match_at(hay@, needle@, i as int)) by {
                        if is_match_at(hay@, needle@, i as int) {
                            assert(hay@.subrange(i as int, i + n)[j as int] == needle@[j as int]);
                        }
                    }
                }
                hit = false;
            }
            j = j + 1;
        }
        if hit {
            proof {
                assert(hay@.subrange(i as int, i + n) =~= needle@);
                assert(is_match_at(hay@, needle@, i as int));
            }
            return true;
        }
        i = i + 1;
    }
    proof {
        assert(!contains_bytes(hay@, needle@)) by {
            if contains_bytes(hay@, needle@) {
                let k = choose|k: int| is_match_at(hay@, needle@, k);
                assert(!is_match_at(hay@, needle@, k));
            }
        }
    }
    false
}

fn event_text_match(e: &TrackingEvent, token: &Option<Vec<u8>>) -> (r: bool)
    ensures
        r == text_match(e@, opt_token_view(*token)),
{
    let d = match e {
        TrackingEvent::Start(TrackingData { description, .. }) => description,
        TrackingEvent::Stop(TrackingData { description, .. }) => description,
    };
    match (token, d) {
        (Some(tok), Some(desc)) => is_all_token(tok) || contains_bytes_exec(desc, tok),
        (Some(tok), None) => is_all_token(tok),
        (None, _) => true,
    }
}

/// Local days since the epoch, floored, of a local wall-clock instant.
fn day_of_local_seconds(x: i64) -> (r: i64)
    requires
        -INSTANT_BOUND <= x <= INSTANT_BOUND,
    ensures
        r == x as int / 86400,
        -48_700_000 <= r <= 48_700_000,
{
    proof {
        lemma_fundamental_div_mod(x as int, 86400);
        let q = x as int / 86400;
        let rem = x as int % 86400;
        assert(x + 86400 * 48_700_000 == 86400 * (q + 48_700_000) + rem);
        lemma_div_multiples_vanish_fancy(q + 48_700_000, rem, 86400);
        assert(86400 * (q + 48_700_000) + rem == (x as int) + 4_207_680_000_000);
    }
    let shifted: u64 = (x + 4_207_680_000_000) as u64;
    let q: u64 = shifted / 86400;
    (q as i64) - 48_700_000
}

/// Days since the local week's Monday.
fn days_from_monday_exec(today: i64) -> (r: i64)
    requires
        -DAY_BOUND <= today <= DAY_BOUND,
    ensures
        r == days_from_monday(today as int),
        0 <= r <= 6,
{
    proof {
        lemma_mod_multiples_vanish(1_000_000, today + 3, 7);
    }
    let shifted: u64 = (today + 3 + 7_000_000) as u64;
    (shifted % 7) as i64
}

/// Select the events admitted by the resolved range and text filter, in
/// order, then drop any leading run of Stop events.
pub fn filter_events(
    data: &Vec<TrackingEvent>,
    from: Option<DateOrDateTime>,
    to: Option<DateOrDateTime>,
    filter: Option<Vec<u8>>,
    ctx: LocalContext,
) -> (r: Vec<TrackingEvent>)
    requires
        ctx_wf(ctx),
        opt_bound_wf(from),
        opt_bound_wf(to),
    ensures
        log_view(r@) == filtered_log(log_view(data@), from, to, opt_token_view(filter), ctx),
{
    let week = match &filter {
        Some(v) => is_week_token(v),
        None => false,
    };
    let (rfrom, rto, token): (DateOrDateTime, DateOrDateTime, Option<Vec<u8>>) = if week {
        let monday = ctx.today - days_from_monday_exec(ctx.today);
        (DateOrDateTime::Date(monday), DateOrDateTime::Date(monday + 6), None)
    } else {
        let f = match from {
            Some(b) => b,
            None => DateOrDateTime::Date(ctx.today),
        };
        let t = match to {
            Some(b) => b,
            None => match f {
                DateOrDateTime::DateTime(x) => DateOrDateTime::Date(day_of_local_seconds(x)),
                DateOrDateTime::Date(d) => DateOrDateTime::Date(d),
            },
        };
        (f, t, filter)
    };
    let ghost resolved = resolve_filter(from, to, opt_token_view(filter), ctx.today as int);
    proof {
        assert(resolved.0 == rfrom && resolved.1 == rto && resolved.2 == opt_token_view(token));
    }
    proof {
        assert(match rfrom {
            DateOrDateTime::Date(d) => -4_000_007 <= d <= 4_000_007,
            DateOrDateTime::DateTime(t) => -INSTANT_BOUND <= t <= INSTANT_BOUND,
        });
        assert(match rto {
            DateOrDateTime::Date(d) => -48_700_001 <= d <= 48_700_001,
            DateOrDateTime::DateTime(t) => -INSTANT_BOUND <= t <= INSTANT_BOUND,
        });
    }
    let from_secs = match rfrom {
        DateOrDateTime::Date(d) => d * 86400 - ctx.offset,
        DateOrDateTime::DateTime(t) => t - ctx.offset,
    };
    let to_secs = match rto {
        DateOrDateTime::Date(d) => d * 86400 + 86399 - ctx.offset,
        DateOrDateTime::DateTime(t) => t - ctx.offset,
    };
    let all = match &token {
        Some(v) => is_all_token(v),
        None => false,
    };
    let ghost log = log_view(data@);
    let ghost pred = |m: EventModel| passes(
        m,
        rfrom,
        rto,
        opt_token_view(token),
        ctx.offset as int,
    );
    let n = data.len();
    let mut out: Vec<TrackingEvent> = Vec::new();
    let mut i: usize = 0;
    proof {
        assert(log.take(0) =~= Seq::<EventModel>::empty());
        assert(log.take(0).filter(pred) =~= Seq::<EventModel>::empty()) by {
            reveal(Seq::filter);
        }
    }
    while i < n
        invariant
            i <= n,
            n == data@.len(),
            log == log_view(data@),
            from_secs == from_bound_seconds(rfrom, ctx.offset as int),
            to_secs == to_bound_seconds(rto, ctx.offset as int),
            all == (opt_token_view(token) == Some(all_token())),
            pred == (|m: EventModel| passes(
                m,
                rfrom,
                rto,
                opt_token_view(token),
                ctx.offset as int,
            )),
            log_view(out@) == log.take(i as int).filter(pred),
        decreases n - i,
    {
        let in_window = if all {
            true
        } else {
            let t = data[i].instant();
            from_secs <= t && t <= to_secs
        };
        let keep = in_window && event_text_match(&data[i], &token);
        proof {
            broadcast use Seq::lemma_filter_push;

            assert(log.take(i + 1) =~= log.take(i as int).push(log[i as int]));
            assert(keep == pred(log[i as int]));
        }
        if keep {
            let ghost pre = out@;
            out.push(data[i].duplicate());
            proof {
                assert(log_view(out@) =~= log_view(pre).push(log[i as int]));
            }
        }
        i = i + 1;
    }
    proof {
        assert(log.take(n as int) =~= log);
    }
    // Trim the leading run of Stop events.
    let ghost fl = log.filter(pred);
    proof {
        assert(fl.skip(0) =~= fl);
    }
    let mut j: usize = 0;
    while j < out.len() && out[j].is_stop()
        invariant
            j <= out@.len(),
            log_view(out@) == fl,
            drop_leading_stops(fl) == drop_leading_stops(fl.skip(j as int)),
        decreases out@.len() - j,
    {
        proof {
            assert(fl.skip(j as int).len() > 0);
            assert(fl.skip(j as int)[0] == fl[j as int]);
            assert(fl.skip(j as int).skip(1) =~= fl.skip(j + 1));
        }
        j = j + 1;
    }
    proof {
        if j < out@.len() {
            assert(fl.skip(j as int)[0] == fl[j as int]);
            assert(drop_leading_stops(fl.skip(j as int)) == fl.skip(j as int));
        } else {
            assert(fl.skip(j as int) =~= Seq::<EventModel>::empty());
        }
    }
    let tail = out.split_off(j);
    proof {
        assert(log_view(tail@) =~= fl.skip(j as int));
    }
    tail
}

/// A trimmed log is a suffix of what it was trimmed from.
proof fn lemma_drop_leading_stops_suffix(s: Seq<EventModel>)
    ensures
        exists|k: int|
            0 <= k <= s.len() && drop_leading_stops(s) == s.skip(k) && (forall|j: int|
                0 <= j < k ==> !(#[trigger] s[j]).is_start),
    decreases s.len(),
{
    if s.len() == 0 {
        assert(drop_leading_stops(s) == s.skip(0));
    } else if !s[0].is_start {
        lemma_drop_leading_stops_suffix(s.skip(1));
        let k = choose|k: int|
            0 <= k <= s.skip(1).len() && drop_leading_stops(s.skip(1)) == s.skip(1).skip(k) && (
            forall|j: int| 0 <= j < k ==> !(#[trigger] s.skip(1)[j]).is_start);
        assert(s.skip(1).skip(k) =~= s.skip(k + 1));
        assert(forall|j: int| 0 <= j < k + 1 ==> !(#[trigger] s[j]).is_start) by {
            assert(forall|j: int| 1 <= j < k + 1 ==> s[j] == s.skip(1)[j - 1]);
        }
        assert(drop_leading_stops(s) == s.skip(k + 1));
    } else {
        assert(drop_leading_stops(s) == s.skip(0));
    }
}

proof fn lemma_filter_preserves_wf(s: Seq<EventModel>, pred: spec_fn(EventModel) -> bool)
    requires
        crate::event::log_wf(s),
    ensures
        crate::event::log_wf(s.filter(pred)),
        s.filter(pred).len() <= s.len(),
    decreases s.len(),
{
    reveal(Seq::filter);
    if s.len() > 0 {
        assert(crate::event::log_wf(s.drop_last())) by {
            assert(forall|i: int| 0 <= i < s.drop_last().len() ==> s.drop_last()[i] == s[i]);
        }
        lemma_filter_preserves_wf(s.drop_last(), pred);
        let sub = s.drop_last().filter(pred);
        if pred(s.last()) {
            assert(crate::event::model_wf(s.last()));
            assert(forall|i: int|
                0 <= i < sub.push(s.last()).len() ==> crate::event::model_wf(
                    #[trigger] sub.push(s.last())[i],
                ));
        }
    }
}

/// What the filter engine hands the aggregator is well formed and no
/// longer than the log it came from.
pub proof fn lemma_filtered_log_wf(
    log: Seq<EventModel>,
    from: Option<DateOrDateTime>,
    to: Option<DateOrDateTime>,
    filter: Option<Seq<u8>>,
    ctx: LocalContext,
)
    requires
        crate::event::log_wf(log),
    ensures
        crate::event::log_wf(filtered_log(log, from, to, filter, ctx)),
        filtered_log(log, from, to, filter, ctx).len() <= log.len(),
{
    let (f, t, token) = resolve_filter(from, to, filter, ctx.today as int);
    let pred = |m: EventModel| passes(m, f, t, token, ctx.offset as int);
    lemma_filter_preserves_wf(log, pred);
    let fl = log.filter(pred);
    lemma_drop_leading_stops_suffix(fl);
    let k = choose|k: int| 0 <= k <= fl.len() && drop_leading_stops(fl) == fl.skip(k);
    assert(forall|i: int|
        0 <= i < fl.skip(k).len() ==> #[trigger] fl.skip(k)[i] == fl[i + k]);
}

proof fn lemma_filter_all_keeps_everything(
    log: Seq<EventModel>,
    f: DateOrDateTime,
    t: DateOrDateTime,
    offset: int,
)
    ensures
        log.filter(|m: EventModel| passes(m, f, t, Some(all_token()), offset)) == log,
    decreases log.len(),
{
    reveal(Seq::filter);
    let pred = |m: EventModel| passes(m, f, t, Some(all_token()), offset);
    if log.len() > 0 {
        lemma_filter_all_keeps_everything(log.drop_last(), f, t, offset);
        assert(pred(log.last()));
        assert(log.filter(pred) =~= log);
    }
}

/// Filtering with the token "all" bypasses range and text filtering
/// entirely: whatever boundaries were supplied, the result is the whole
/// log minus only its leading run of Stop events.
pub proof fn lemma_filter_all_returns_log(
    log: Seq<EventModel>,
    from: Option<DateOrDateTime>,
    to: Option<DateOrDateTime>,
    ctx: LocalContext,
)
    ensures
        filtered_log(log, from, to, Some(all_token()), ctx) == drop_leading_stops(log),
{
    assert(all_token().len() == 3 && week_token().len() == 4);
    let (f, t, token) = resolve_filter(from, to, Some(all_token()), ctx.today as int);
    lemma_filter_all_keeps_everything(log, f, t, ctx.offset as int);
}

/// Filtering with the token "week" keeps only events whose instant falls
/// within Monday 00:00:00 through Sunday 23:59:59 of the current local
/// week, whatever boundaries were supplied.
pub proof fn lemma_filter_week_in_range(
    log: Seq<EventModel>,
    from: Option<DateOrDateTime>,
    to: Option<DateOrDateTime>,
    ctx: LocalContext,
)
    ensures
        ({
            let monday = ctx.today as int - days_from_monday(ctx.today as int);
            let result = filtered_log(log, from, to, Some(week_token()), ctx);
            forall|i: int|
                0 <= i < result.len() ==> monday * 86400 - ctx.offset <= (#[trigger] result[i]).time
                    <= (monday + 6) * 86400 + 86399 - ctx.offset
        }),
{
    let monday = ctx.today as int - days_from_monday(ctx.today as int);
    let (f, t, token) = resolve_filter(from, to, Some(week_token()), ctx.today as int);
    let pred = |m: EventModel| passes(m, f, t, token, ctx.offset as int);
    let fl = log.filter(pred);
    let result = filtered_log(log, from, to, Some(week_token()), ctx);
    lemma_drop_leading_stops_suffix(fl);
    let k = choose|k: int| 0 <= k <= fl.len() && drop_leading_stops(fl) == fl.skip(k);
    assert forall|i: int| 0 <= i < result.len() implies monday * 86400 - ctx.offset <= (
    #[trigger] result[i]).time <= (monday + 6) * 86400 + 86399 - ctx.offset by {
        assert(result[i] == fl[k + i]);
        log.lemma_filter_pred(pred, k + i);
        assert(pred(fl[k + i]));
        assert(token != Some(all_token()));
        assert(in_range(fl[k + i], f, t, ctx.offset as int));
    }
}

} // verus!
