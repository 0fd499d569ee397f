//! The tracking state machine: `start`, `stop` and `continue` mutate the
//! event log in place, keeping Start and Stop events alternating.  A
//! rejected operation leaves the log untouched and reports an outcome for
//! the caller to show to the user.

use vstd::prelude::*;

use crate::event::{
    log_view, EventModel, TrackingData, TrackingEvent, bytes_eq, clone_bytes,
};

verus! {

/// A configured number of work hours and minutes.
pub struct Goal {
    pub hours: u32,
    pub minutes: u32,
}

pub struct TimeGoal {
    pub daily: Goal,
    pub weekly: Goal,
}

/// Process-wide configuration, read once at startup.
pub struct Settings {
    pub auto_insert_stop: bool,
    pub time_goal: TimeGoal,
}

#[derive(Debug, PartialEq, Eq, Structural)]
pub enum StartOutcome {
    /// One Start event was appended (after a synthesized Stop when tracking
    /// was still running and auto-insert is on).
    Started,
    /// Tracking was already running; the log is unchanged.
    AlreadyRunning,
    /// Tracking was running and an explicit instant was given, which
    /// auto-insert does not support; the log is unchanged.
    AtUnsupported,
}

#[derive(Debug, PartialEq, Eq, Structural)]
pub enum StopOutcome {
    Stopped,
    /// Tracking was already stopped; the log is unchanged.
    AlreadyStopped,
}

#[derive(Debug, PartialEq, Eq, Structural)]
pub enum ContinueOutcome {
    Continued,
    /// The log is empty or still tracking; nothing to continue.
    NothingToContinue,
    /// The log ends in a Stop but holds no Start event to take a
    /// description from; the log is unchanged.
    NoPriorStart,
}

/// Whether the log is idle: empty, or ending in a Stop event.
pub open spec fn ends_stopped(s: Seq<EventModel>) -> bool {
    s.len() == 0 || !s.last().is_start
}

/// The description of a moved or borrowed `Option<Vec<u8>>`.
pub open spec fn desc_view(d: Option<Vec<u8>>) -> Option<Seq<u8>> {
    match d {
        Some(v) => Some(v@),
        None => None,
    }
}

/// The description of the latest Start event, scanning backward; `None`
/// when the log holds no Start event at all.
pub open spec fn last_start_description(s: Seq<EventModel>) -> Option<Option<Seq<u8>>>
    decreases s.len(),
{
    if s.len() == 0 {
        None
    } else if s.last().is_start {
        Some(s.last().description)
    } else {
        last_start_description(s.drop_last())
    }
}

/// The model of the event `start_tracking` and `continue_tracking` append.
pub open spec fn start_model(description: Option<Seq<u8>>, time: int) -> EventModel {
    EventModel { is_start: true, description, time }
}

pub open spec fn stop_model(description: Option<Seq<u8>>, time: int) -> EventModel {
    EventModel { is_start: false, description, time }
}

proof fn lemma_log_view_push(s: Seq<TrackingEvent>, e: TrackingEvent)
    ensures
        log_view(s.push(e)) == log_view(s).push(e@),
{
    assert(log_view(s.push(e)) =~= log_view(s).push(e@));
}

/// Start tracking: on an idle log, append one Start event with the given
/// description at `at` (or at `now` when `at` is absent).  On a log that is
/// still tracking, either synthesize a Stop and a new Start (auto-insert,
/// no explicit instant, different description) or leave the log unchanged
/// and report why.
pub fn start_tracking(
    settings: &Settings,
    data: &mut Vec<TrackingEvent>,
    description: Option<Vec<u8>>,
    at: Option<i64>,
    now: i64,
) -> (r: StartOutcome)
    ensures
        ({
            let old_log = log_view(old(data)@);
            let new_log = log_view(final(data)@);
            let t = (match at {
                Some(v) => v as int,
                None => now as int,
            });
            let merge = (match (description, old_log.last().description) {
                (Some(d), Some(ld)) => d@ == ld,
                _ => false,
            });
            &&& ends_stopped(old_log) ==> {
                &&& new_log == old_log.push(start_model(desc_view(description), t))
                &&& r == StartOutcome::Started
            }
            &&& !ends_stopped(old_log) && settings.auto_insert_stop && at is None && merge ==> {
                &&& new_log == old_log
                &&& r == StartOutcome::AlreadyRunning
            }
            &&& !ends_stopped(old_log) && settings.auto_insert_stop && at is None && !merge ==> {
                &&& new_log == old_log.push(stop_model(None, now as int)).push(
                    start_model(desc_view(description), now as int),
                )
                &&& r == StartOutcome::Started
            }
            &&& !ends_stopped(old_log) && settings.auto_insert_stop && at is Some ==> {
                &&& new_log == old_log
                &&& r == StartOutcome::AtUnsupported
            }
            &&& !ends_stopped(old_log) && !settings.auto_insert_stop ==> {
                &&& new_log == old_log
                &&& r == StartOutcome::AlreadyRunning
            }
        }),
{
    let n = data.len();
    let should_add = if n == 0 {
        true
    } else {
        data[n - 1].is_stop()
    };
    if should_add {
        let time = match at {
            Some(v) => v,
            None => now,
        };
        let ghost pre = data@;
        data.push(TrackingEvent::Start(TrackingData { description, time }));
        proof {
            lemma_log_view_push(pre, TrackingEvent::Start(TrackingData { description, time }));
        }
        StartOutcome::Started
    } else if settings.auto_insert_stop && at.is_none() {
        let merge = match (&description, &data[n - 1]) {
            (
                Some(d),
                TrackingEvent::Start(TrackingData { description: Some(ld), .. }),
            ) => bytes_eq(d, ld),
            (
                Some(d),
                TrackingEvent::Stop(TrackingData { description: Some(ld), .. }),
            ) => bytes_eq(d, ld),
            _ => false,
        };
        if merge {
            StartOutcome::AlreadyRunning
        } else {
            let ghost pre = data@;
            data.push(TrackingEvent::Stop(TrackingData { description: None, time: now }));
            proof {
                lemma_log_view_push(
                    pre,
                    TrackingEvent::Stop(TrackingData { description: None, time: now }),
                );
            }
            let ghost mid = data@;
            data.push(TrackingEvent::Start(TrackingData { description, time: now }));
            proof {
                lemma_log_view_push(
                    mid,
                    TrackingEvent::Start(TrackingData { description, time: now }),
                );
            }
            StartOutcome::Started
        }
    } else if settings.auto_insert_stop {
        StartOutcome::AtUnsupported
    } else {
        StartOutcome::AlreadyRunning
    }
}

/// Stop tracking: on an empty log or one that is tracking, append one Stop
/// event; on an idle log, leave it unchanged.
pub fn stop_tracking(
    data: &mut Vec<TrackingEvent>,
    description: Option<Vec<u8>>,
    at: Option<i64>,
    now: i64,
) -> (r: StopOutcome)
    ensures
        ({
            let old_log = log_view(old(data)@);
            let new_log = log_view(final(data)@);
            let t = (match at {
                Some(v) => v as int,
                None => now as int,
            });
            &&& (old_log.len() == 0 || old_log.last().is_start) ==> {
                &&& new_log == old_log.push(stop_model(desc_view(description), t))
                &&& r == StopOutcome::Stopped
            }
            &&& !(old_log.len() == 0 || old_log.last().is_start) ==> {
                &&& new_log == old_log
                &&& r == StopOutcome::AlreadyStopped
            }
        }),
{
    let n = data.len();
    let should_add = if n == 0 {
        true
    } else {
        data[n - 1].is_start()
    };
    if should_add {
        let time = match at {
            Some(v) => v,
            None => now,
        };
        let ghost pre = data@;
        data.push(TrackingEvent::Stop(TrackingData { description, time }));
        proof {
            lemma_log_view_push(pre, TrackingEvent::Stop(TrackingData { description, time }));
        }
        StopOutcome::Stopped
    } else {
        StopOutcome::AlreadyStopped
    }
}

/// Continue tracking: on a log ending in a Stop, append a new Start event
/// at `now` reusing the description of the latest prior Start event.
pub fn continue_tracking(data: &mut Vec<TrackingEvent>, now: i64) -> (r: ContinueOutcome)
    ensures
        ({
            let old_log = log_view(old(data)@);
            let new_log = log_view(final(data)@);
            &&& (old_log.len() == 0 || old_log.last().is_start) ==> {
                &&& new_log == old_log
                &&& r == ContinueOutcome::NothingToContinue
            }
            &&& old_log.len() > 0 && !old_log.last().is_start ==> (match last_start_description(
                old_log,
            ) {
                Some(d) => {
                    &&& new_log == old_log.push(start_model(d, now as int))
                    &&& r == ContinueOutcome::Continued
                },
                None => {
                    &&& new_log == old_log
                    &&& r == ContinueOutcome::NoPriorStart
                },
            })
        }),
{
    let n = data.len();
    let is_stop_last = if n == 0 {
        false
    } else {
        data[n - 1].is_stop()
    };
    if !is_stop_last {
        return ContinueOutcome::NothingToContinue;
    }
    let ghost log = log_view(data@);
    let mut i: usize = n;
    proof {
        assert(log.take(n as int) =~= log);
    }
    while i > 0
        invariant
            i <= n,
            n == data@.len(),
            data@ == old(data)@,
            log == log_view(data@),
            n > 0,
            !log[n - 1].is_start,
            last_start_description(log.take(i as int)) == last_start_description(log),
            forall|j: int| i <= j < n ==> !(#[trigger] log[j]).is_start,
        decreases i,
    {
        i = i - 1;
        proof {
            assert(log.take(i + 1).drop_last() =~= log.take(i as int));
            assert(log.take(i + 1).last() == log[i as int]);
        }
        if data[i].is_start() {
            let description = match &data[i] {
                TrackingEvent::Start(TrackingData { description: Some(v), .. }) => {
                    Some(clone_bytes(v))
                },
                _ => None,
            };
            proof {
                assert(last_start_description(log) == Some(log[i as int].description));
            }
            let ghost pre = data@;
            data.push(TrackingEvent::Start(TrackingData { description, time: now }));
            proof {
                lemma_log_view_push(
                    pre,
                    TrackingEvent::Start(TrackingData { description, time: now }),
                );
                assert(log_view(data@) == log.push(start_model(log[i as int].description, now as int)));
            }
            return ContinueOutcome::Continued;
        }
    }
    proof {
        assert(log.take(0) =~= Seq::<EventModel>::empty());
    }
    ContinueOutcome::NoPriorStart
}

} // verus!
