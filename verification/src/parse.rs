//! The time parser: loose date/time strings are tried against an ordered
//! list of layouts — `HH:MM:SS`, `HH:MM`, `HH`, and `YYYY-MM-DD` followed
//! by a time with the same trailing-field defaults — and the first layout
//! that matches wins.  Hour, minute, second, month and day fields take one
//! or two digits; the year takes exactly four.

use vstd::prelude::*;

use crate::INSTANT_BOUND;
use crate::filter::{ctx_wf, DateOrDateTime, LocalContext};

verus! {

pub open spec fn is_digit(c: u8) -> bool {
    48 <= c <= 57
}

/// The length of the digit run starting at `i`.
pub open spec fn digit_run_len(s: Seq<u8>, i: int) -> int
    decreases s.len() - i when 0 <= i <= s.len()
{
    if i < s.len() && is_digit(s[i]) {
        1 + digit_run_len(s, i + 1)
    } else {
        0
    }
}

/// The decimal value of the digits `s[i .. i + l]`.
pub open spec fn dec_val(s: Seq<u8>, i: int, l: int) -> int
    decreases l when l >= 0
{
    if l <= 0 {
        0
    } else {
        dec_val(s, i, l - 1) * 10 + (s[i + l - 1] - 48)
    }
}

/// A time of day: one or two digits each for hours (and optionally minutes
/// and seconds, each after a colon), missing trailing fields read as zero.
pub open spec fn parse_time(s: Seq<u8>) -> Option<(int, int, int)> {
    let a = digit_run_len(s, 0);
    if !(1 <= a <= 2) {
        None
    } else {
        let h = dec_val(s, 0, a);
        if h > 23 {
            None
        } else if s.len() == a {
            Some((h, 0, 0))
        } else if s[a] != 58 {
            None
        } else {
            let b = digit_run_len(s, a + 1);
            if !(1 <= b <= 2) {
                None
            } else {
                let m = dec_val(s, a + 1, b);
                if m > 59 {
                    None
                } else if s.len() == a + 1 + b {
                    Some((h, m, 0))
                } else if s[a + 1 + b] != 58 {
                    None
                } else {
                    let c = digit_run_len(s, a + b + 2);
                    if !(1 <= c <= 2) {
                        None
                    } else {
                        let sec = dec_val(s, a + b + 2, c);
                        if sec > 59 {
                            None
                        } else if s.len() == a + b + c + 2 {
                            Some((h, m, sec))
                        } else {
                            None
                        }
                    }
                }
            }
        }
    }
}

pub open spec fn is_leap_year(y: int) -> bool {
    y % 4 == 0 && (y % 100 != 0 || y % 400 == 0)
}

pub open spec fn days_in_month(y: int, m: int) -> int {
    if m == 2 {
        if is_leap_year(y) {
            29
        } else {
            28
        }
    } else if m == 4 || m == 6 || m == 9 || m == 11 {
        30
    } else {
        31
    }
}

/// A calendar date `YYYY-MM-DD` as a prefix of `s`: the triple and how
/// many bytes it occupies.
pub open spec fn parse_date_prefix(s: Seq<u8>) -> Option<((int, int, int), int)> {
    if digit_run_len(s, 0) != 4 {
        None
    } else {
        let y = dec_val(s, 0, 4);
        if s.len() <= 4 || s[4] != 45 {
            None
        } else {
            let b = digit_run_len(s, 5);
            if !(1 <= b <= 2) {
                None
            } else {
                let mo = dec_val(s, 5, b);
                if !(1 <= mo <= 12) {
                    None
                } else if s.len() <= 5 + b || s[5 + b] != 45 {
                    None
                } else {
                    let c = digit_run_len(s, 6 + b);
                    if !(1 <= c <= 2) {
                        None
                    } else {
                        let d = dec_val(s, 6 + b, c);
                        if !(1 <= d <= days_in_month(y, mo)) {
                            None
                        } else {
                            Some(((y, mo, d), 6 + b + c))
                        }
                    }
                }
            }
        }
    }
}

/// A whole calendar date: the prefix takes all of `s`.
pub open spec fn parse_date(s: Seq<u8>) -> Option<(int, int, int)> {
    match parse_date_prefix(s) {
        Some((ymd, k)) => if s.len() == k {
            Some(ymd)
        } else {
            None
        },
        None => None,
    }
}

/// A calendar date, a space, and a time of day.
pub open spec fn parse_date_time_parts(s: Seq<u8>) -> Option<((int, int, int), (int, int, int))> {
    match parse_date_prefix(s) {
        Some((ymd, k)) => {
            if s.len() <= k || s[k] != 32 {
                None
            } else {
                match parse_time(s.skip(k + 1)) {
                    Some(hms) => Some((ymd, hms)),
                    None => None,
                }
            }
        },
        None => None,
    }
}

/// Days since 1970-01-01 of a calendar date (proleptic Gregorian).
pub open spec fn days_from_civil(y: int, m: int, d: int) -> int {
    let yy = if m <= 2 {
        y - 1
    } else {
        y
    };
    let era = yy / 400;
    let yoe = yy - era * 400;
    let doy = (153 * (if m > 2 {
        m - 3
    } else {
        m + 9
    }) + 2) / 5 + d - 1;
    let doe = yoe * 365 + yoe / 4 - yoe / 100 + doy;
    era * 146097 + doe - 719468
}

/// What an instant string stands for: a bare time of day, or a full
/// date-time.
pub ghost enum ParsedStamp {
    TimeOnly(int, int, int),
    Civil(int, int, int, int, int, int),
}

/// The layout chain for an instant: a bare time of day first, then a
/// date-time.
pub open spec fn parsed_date_time(s: Seq<u8>) -> Option<ParsedStamp> {
    match parse_time(s) {
        Some((h, m, sec)) => Some(ParsedStamp::TimeOnly(h, m, sec)),
        None => match parse_date_time_parts(s) {
            Some(((y, mo, d), (h, mi, sec))) => Some(ParsedStamp::Civil(y, mo, d, h, mi, sec)),
            None => None,
        },
    }
}

/// The UTC instant a parsed stamp stands for: a bare time of day is read
/// on today's local date, and local wall-clock values are shifted to UTC
/// by the timezone offset.
pub open spec fn resolved_instant(p: ParsedStamp, today: int, offset: int) -> int {
    match p {
        ParsedStamp::TimeOnly(h, m, sec) => today * 86400 + h * 3600 + m * 60 + sec - offset,
        ParsedStamp::Civil(y, mo, d, h, mi, sec) => days_from_civil(y, mo, d) * 86400 + h * 3600
            + mi * 60 + sec - offset,
    }
}

/// The layout chain for a filter boundary: a bare date stays a calendar
/// day; a date-time or a bare time of day (read on today's local date)
/// becomes a local wall-clock instant.
pub open spec fn parsed_boundary(s: Seq<u8>, today: int) -> Option<DateOrDateTime> {
    match parse_date(s) {
        Some((y, mo, d)) => Some(DateOrDateTime::Date(days_from_civil(y, mo, d) as i64)),
        None => match parse_date_time_parts(s) {
            Some(((y, mo, d), (h, mi, sec))) => Some(
                DateOrDateTime::DateTime(
                    (days_from_civil(y, mo, d) * 86400 + h * 3600 + mi * 60 + sec) as i64,
                ),
            ),
            None => match parse_time(s) {
                Some((h, mi, sec)) => Some(
                    DateOrDateTime::DateTime((today * 86400 + h * 3600 + mi * 60 + sec) as i64),
                ),
                None => None,
            },
        },
    }
}

fn digit_run(s: &Vec<u8>, i: usize) -> (r: usize)
    requires
        i <= s@.len(),
    ensures
        r == digit_run_len(s@, i as int),
        i + r <= s@.len(),
        forall|k: int| i <= k < i + r ==> is_digit(#[trigger] s@[k]),
{
    let n = s.len();
    let mut j: usize = i;
    while j < n && s[j] >= 48 && s[j] <= 57
        invariant
            i <= j <= n,
            n == s@.len(),
            digit_run_len(s@, i as int) == (j - i) + digit_run_len(s@, j as int),
            forall|k: int| i <= k < j ==> is_digit(#[trigger] s@[k]),
        decreases n - j,
    {
        j = j + 1;
    }
    proof {
        assert(digit_run_len(s@, j as int) == 0);
    }
    j - i
}

spec fn p10(k: nat) -> int
    decreases k,
{
    if k == 0 {
        1
    } else {
        10 * p10((k - 1) as nat)
    }
}

fn dec_value(s: &Vec<u8>, i: usize, l: usize) -> (r: u32)
    requires
        i + l <= s@.len(),
        l <= 4,
        forall|k: int| i <= k < i + l ==> is_digit(#[trigger] s@[k]),
    ensures
        r == dec_val(s@, i as int, l as int),
        r <= 9999,
{
    proof {
        reveal_with_fuel(p10, 5);
    }
    let n = s.len();
    let mut r: u32 = 0;
    let mut j: usize = 0;
    while j < l
        invariant
            j <= l <= 4,
            n == s@.len(),
            i + l <= s@.len(),
            forall|k: int| i <= k < i + l ==> is_digit(#[trigger] s@[k]),
            r == dec_val(s@, i as int, j as int),
            r < p10(j as nat),
        decreases l - j,
    {
        proof {
            reveal_with_fuel(p10, 5);
            assert(p10((j + 1) as nat) == 10 * p10(j as nat));
            assert(p10(4) == 10000);
            lemma_p10_le(j as nat, 3);
        }
        r = r * 10 + ((s[i + j] - 48) as u32);
        j = j + 1;
    }
    proof {
        reveal_with_fuel(p10, 5);
        lemma_p10_le(l as nat, 4);
    }
    r
}

proof fn lemma_p10_le(a: nat, b: nat)
    requires
        a <= b,
    ensures
        p10(a) <= p10(b),
    decreases b,
{
    if a < b {
        lemma_p10_le(a, (b - 1) as nat);
        assert(p10(b) == 10 * p10((b - 1) as nat));
        assert(p10(a) >= 1) by {
            lemma_p10_pos(a);
        }
    }
}

proof fn lemma_p10_pos(a: nat)
    ensures
        p10(a) >= 1,
    decreases a,
{
    if a > 0 {
        lemma_p10_pos((a - 1) as nat);
    }
}

/// Parse a time of day; the exec mirror of `parse_time`.
fn parse_time_exec(s: &Vec<u8>) -> (r: Option<(u32, u32, u32)>)
    ensures
        match r {
            Some((h, m, sec)) => parse_time(s@) == Some((h as int, m as int, sec as int)),
            None => parse_time(s@) is None,
        },
{
    let a = digit_run(s, 0);
    if !(1 <= a && a <= 2) {
        return None;
    }
    let h = dec_value(s, 0, a);
    if h > 23 {
        return None;
    }
    if s.len() == a {
        return Some((h, 0, 0));
    }
    if s[a] != 58 {
        return None;
    }
    let b = digit_run(s, a + 1);
    if !(1 <= b && b <= 2) {
        return None;
    }
    let m = dec_value(s, a + 1, b);
    if m > 59 {
        return None;
    }
    if s.len() == a + 1 + b {
        return Some((h, m, 0));
    }
    if s[a + 1 + b] != 58 {
        return None;
    }
    let c = digit_run(s, a + b + 2);
    if !(1 <= c && c <= 2) {
        return None;
    }
    let sec = dec_value(s, a + b + 2, c);
    if sec > 59 {
        return None;
    }
    if s.len() == a + b + c + 2 {
        return Some((h, m, sec));
    }
    None
}

fn days_in_month_exec(y: u32, m: u32) -> (r: u32)
    requires
        1 <= m <= 12,
    ensures
        r == days_in_month(y as int, m as int),
{
    if m == 2 {
        let leap = y % 4 == 0 && (y % 100 != 0 || y % 400 == 0);
        if leap {
            29
        } else {
            28
        }
    } else if m == 4 || m == 6 || m == 9 || m == 11 {
        30
    } else {
        31
    }
}

/// Parse a leading calendar date; the exec mirror of `parse_date_prefix`.
fn parse_date_prefix_exec(s: &Vec<u8>) -> (r: Option<((u32, u32, u32), usize)>)
    ensures
        match r {
            Some(((y, mo, d), k)) => {
                &&& parse_date_prefix(s@) == Some(
                    ((y as int, mo as int, d as int), k as int),
                )
                &&& k <= s@.len()
                &&& y <= 9999 && 1 <= mo <= 12 && 1 <= d <= 31
            },
            None => parse_date_prefix(s@) is None,
        },
{
    let a = digit_run(s, 0);
    if a != 4 {
        return None;
    }
    let y = dec_value(s, 0, 4);
    if s.len() <= 4 {
        return None;
    }
    if s[4] != 45 {
        return None;
    }
    let b = digit_run(s, 5);
    if !(1 <= b && b <= 2) {
        return None;
    }
    let mo = dec_value(s, 5, b);
    if !(1 <= mo && mo <= 12) {
        return None;
    }
    if s.len() <= 5 + b {
        return None;
    }
    if s[5 + b] != 45 {
        return None;
    }
    let c = digit_run(s, 6 + b);
    if !(1 <= c && c <= 2) {
        return None;
    }
    let d = dec_value(s, 6 + b, c);
    if !(1 <= d && d <= days_in_month_exec(y, mo)) {
        return None;
    }
    Some(((y, mo, d), 6 + b + c))
}

/// Days since the epoch of a calendar date; the exec mirror of
/// `days_from_civil`.
fn days_from_civil_exec(y: u32, m: u32, d: u32) -> (r: i64)
    requires
        y <= 9999,
        1 <= m <= 12,
        1 <= d <= 31,
    ensures
        r == days_from_civil(y as int, m as int, d as int),
        -719600 <= r <= 2_960_000,
{
    let yy: i64 = if m <= 2 {
        (y as i64) - 1
    } else {
        y as i64
    };
    proof {
        vstd::arithmetic::div_mod::lemma_fundamental_div_mod(yy as int, 400);
    }
    let era: i64 = if yy >= 0 {
        ((yy as u64) / 400) as i64
    } else {
        -1
    };
    let yoe: i64 = yy - era * 400;
    proof {
        assert(0 <= yoe <= 399);
    }
    let mp: u64 = if m > 2 {
        (m - 3) as u64
    } else {
        (m + 9) as u64
    };
    let doy: i64 = ((153 * mp + 2) / 5) as i64 + (d as i64) - 1;
    let doe: i64 = yoe * 365 + ((yoe as u64) / 4) as i64 - ((yoe as u64) / 100) as i64 + doy;
    era * 146097 + doe - 719468
}

/// Parse an instant string against the layout chain; `None` exactly when
/// no layout matches.  A successful parse is resolved to a UTC instant on
/// the given local context.
pub fn parse_date_time(s: &Vec<u8>, ctx: LocalContext) -> (r: Option<i64>)
    requires
        ctx_wf(ctx),
    ensures
        match r {
            Some(t) => {
                &&& parsed_date_time(s@) is Some
                &&& t == resolved_instant(
                    parsed_date_time(s@).unwrap(),
                    ctx.today as int,
                    ctx.offset as int,
                )
                &&& -INSTANT_BOUND <= t <= INSTANT_BOUND
            },
            None => parsed_date_time(s@) is None,
        },
{
    match parse_time_exec(s) {
        Some((h, m, sec)) => {
            let t = ctx.today * 86400 + (h as i64) * 3600 + (m as i64) * 60 + (sec as i64)
                - ctx.offset;
            Some(t)
        },
        None => {
            match parse_date_prefix_exec(s) {
                Some(((y, mo, d), k)) => {
                    if s.len() <= k {
                        return None;
                    }
                    if s[k] != 32 {
                        return None;
                    }
                    let mut tail: Vec<u8> = Vec::new();
                    let mut p: usize = k + 1;
                    while p < s.len()
                        invariant
                            k + 1 <= p <= s@.len(),
                            tail@ == s@.subrange(k + 1, p as int),
                        decreases s@.len() - p,
                    {
                        tail.push(s[p]);
                        proof {
                            assert(s@.subrange(k + 1, p + 1) =~= s@.subrange(k + 1, p as int).push(
                                s@[p as int],
                            ));
                        }
                        p = p + 1;
                    }
                    proof {
                        assert(tail@ =~= s@.skip(k + 1));
                    }
                    match parse_time_exec(&tail) {
                        Some((h, mi, sec)) => {
                            let days = days_from_civil_exec(y, mo, d);
                            let t = days * 86400 + (h as i64) * 3600 + (mi as i64) * 60 + (
                            sec as i64) - ctx.offset;
                            Some(t)
                        },
                        None => None,
                    }
                },
                None => None,
            }
        },
    }
}

/// Parse a filter boundary against the layout chain, keeping a bare date a
/// calendar day; `None` exactly when no layout matches.
pub fn parse_date_or_date_time(s: &Vec<u8>, ctx: LocalContext) -> (r: Option<DateOrDateTime>)
    requires
        ctx_wf(ctx),
    ensures
        r == parsed_boundary(s@, ctx.today as int),
        match r {
            Some(b) => crate::filter::bound_wf(b),
            None => true,
        },
{
    match parse_date_prefix_exec(s) {
        Some(((y, mo, d), k)) => {
            if s.len() == k {
                let days = days_from_civil_exec(y, mo, d);
                return Some(DateOrDateTime::Date(days));
            }
            if s[k] != 32 {
                return None;
            }
            let mut tail: Vec<u8> = Vec::new();
            let mut p: usize = k + 1;
            while p < s.len()
                invariant
                    k + 1 <= p <= s@.len(),
                    tail@ == s@.subrange(k + 1, p as int),
                decreases s@.len() - p,
            {
                tail.push(s[p]);
                proof {
                    assert(s@.subrange(k + 1, p + 1) =~= s@.subrange(k + 1, p as int).push(
                        s@[p as int],
                    ));
                }
                p = p + 1;
            }
            proof {
                assert(tail@ =~= s@.skip(k + 1));
            }
            match parse_time_exec(&tail) {
                Some((h, mi, sec)) => {
                    let days = days_from_civil_exec(y, mo, d);
                    let t = days * 86400 + (h as i64) * 3600 + (mi as i64) * 60 + (sec as i64);
                    Some(DateOrDateTime::DateTime(t))
                },
                None => None,
            }
        },
        None => {
            match parse_time_exec(s) {
                Some((h, mi, sec)) => {
                    let t = ctx.today * 86400 + (h as i64) * 3600 + (mi as i64) * 60 + (
                    sec as i64);
                    Some(DateOrDateTime::DateTime(t))
                },
                None => None,
            }
        },
    }
}

} // verus!
