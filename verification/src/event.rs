//! The event log's data model: a tracking event is a `Start` or a `Stop`
//! carrying an optional description (UTF-8 bytes) and an absolute UTC
//! instant in seconds since the Unix epoch.

use vstd::prelude::*;

use crate::INSTANT_BOUND;
use vstd::arithmetic::div_mod::lemma_mod_multiples_vanish;

verus! {

/// The payload every event carries: an optional free-text description and
/// an absolute UTC instant (seconds since the Unix epoch).
pub struct TrackingData {
    pub description: Option<Vec<u8>>,
    pub time: i64,
}

/// One recorded occurrence in the event log.
pub enum TrackingEvent {
    Start(TrackingData),
    Stop(TrackingData),
}

/// The mathematical image of one event: its kind, its description as a
/// byte sequence, and its instant as an unbounded integer.
pub ghost struct EventModel {
    pub is_start: bool,
    pub description: Option<Seq<u8>>,
    pub time: int,
}

impl View for TrackingEvent {
    type V = EventModel;

    open spec fn view(&self) -> EventModel {
        match self {
            TrackingEvent::Start(d) => (EventModel {
                is_start: true,
                description: match d.description {
                    Some(v) => Some(v@),
                    None => None,
                },
                time: d.time as int,
            }),
            TrackingEvent::Stop(d) => (EventModel {
                is_start: false,
                description: match d.description {
                    Some(v) => Some(v@),
                    None => None,
                },
                time: d.time as int,
            }),
        }
    }
}

/// The mathematical image of a whole log.
pub open spec fn log_view(s: Seq<TrackingEvent>) -> Seq<EventModel> {
    s.map_values(|e: TrackingEvent| e@)
}

/// An event model whose instant the library can compute with.
pub open spec fn model_wf(m: EventModel) -> bool {
    -INSTANT_BOUND <= m.time <= INSTANT_BOUND
}

pub open spec fn log_wf(s: Seq<EventModel>) -> bool {
    forall|i: int| 0 <= i < s.len() ==> model_wf(#[trigger] s[i])
}

/// The instant used in arithmetic: the event's instant, with the
/// seconds-of-minute field zeroed when `include_seconds` is false.
pub open spec fn effective_time(m: EventModel, include_seconds: bool) -> int {
    if include_seconds {
        m.time
    } else {
        m.time - m.time % 60
    }
}

/// Zero the seconds-of-minute field of an instant: truncate it down to a
/// whole minute.
pub fn truncate_to_minute(t: i64) -> (r: i64)
    requires
        -INSTANT_BOUND <= t <= INSTANT_BOUND,
    ensures
        r == t - (t as int) % 60,
{
    proof {
        lemma_mod_multiples_vanish(INSTANT_BOUND as int / 60, t as int, 60);
        assert(60 * (INSTANT_BOUND as int / 60) + t == INSTANT_BOUND + t);
    }
    let shifted: u64 = (t + INSTANT_BOUND) as u64;
    let m: u64 = shifted % 60;
    t - (m as i64)
}

impl TrackingEvent {
    /// The event's instant, truncated to a whole minute unless seconds are
    /// included.
    pub fn time(&self, include_seconds: bool) -> (r: i64)
        requires
            model_wf(self@),
        ensures
            r == effective_time(self@, include_seconds),
    {
        let t = match self {
            TrackingEvent::Start(d) => d.time,
            TrackingEvent::Stop(d) => d.time,
        };
        if include_seconds {
            t
        } else {
            truncate_to_minute(t)
        }
    }

    /// A copy of the event's description, if it has one.
    pub fn description(&self) -> (r: Option<Vec<u8>>)
        ensures
            match r {
                Some(d) => self@.description == Some(d@),
                None => self@.description is None,
            },
    {
        let d = match self {
            TrackingEvent::Start(d) => d,
            TrackingEvent::Stop(d) => d,
        };
        match &d.description {
            Some(v) => Some(clone_bytes(v)),
            None => None,
        }
    }

    /// The event's instant with full precision.
    pub fn instant(&self) -> (r: i64)
        ensures
            r == self@.time,
    {
        match self {
            TrackingEvent::Start(d) => d.time,
            TrackingEvent::Stop(d) => d.time,
        }
    }

    pub fn is_start(&self) -> (r: bool)
        ensures
            r == self@.is_start,
    {
        match self {
            TrackingEvent::Start(_) => true,
            TrackingEvent::Stop(_) => false,
        }
    }

    pub fn is_stop(&self) -> (r: bool)
        ensures
            r == !self@.is_start,
    {
        match self {
            TrackingEvent::Start(_) => false,
            TrackingEvent::Stop(_) => true,
        }
    }

    /// A copy of the event with the same model.
    pub fn duplicate(&self) -> (r: TrackingEvent)
        ensures
            r@ == self@,
    {
        match self {
            TrackingEvent::Start(d) => TrackingEvent::Start(duplicate_data(d)),
            TrackingEvent::Stop(d) => TrackingEvent::Stop(duplicate_data(d)),
        }
    }
}

fn duplicate_data(d: &TrackingData) -> (r: TrackingData)
    ensures
        r.time == d.time,
        match r.description {
            Some(v) => d.description matches Some(w) && v@ == w@,
            None => d.description is None,
        },
{
    TrackingData {
        description: match &d.description {
            Some(v) => Some(clone_bytes(v)),
            None => None,
        },
        time: d.time,
    }
}

/// A copy of a byte vector.
pub fn clone_bytes(v: &Vec<u8>) -> (r: Vec<u8>)
    ensures
        r@ == v@,
{
    let mut out: Vec<u8> = Vec::new();
    let mut i: usize = 0;
    while i < v.len()
        invariant
            i <= v.len(),
            out@ == v@.take(i as int),
        decreases v.len() - i,
    {
        out.push(v[i]);
        proof {
            assert(v@.take(i + 1) =~= v@.take(i as int).push(v@[i as int]));
        }
        i = i + 1;
    }
    proof {
        assert(v@.take(v@.len() as int) =~= v@);
    }
    out
}

/// Whether two byte strings hold the same bytes.
pub fn bytes_eq(a: &Vec<u8>, b: &Vec<u8>) -> (r: bool)
    ensures
        r == (a@ == b@),
{
    if a.len() != b.len() {
        proof {
            assert(a@ != b@) by {
                assert(a@.len() != b@.len());
            }
        }
        return false;
    }
    let mut i: usize = 0;
    while i < a.len()
        invariant
            i <= a.len(),
            a@.len() == b@.len(),
            forall|j: int| 0 <= j < i ==> a@[j] == b@[j],
        decreases a.len() - i,
    {
        if a[i] != b[i] {
            return false;
        }
        i = i + 1;
    }
    proof {
        assert(a@ =~= b@);
    }
    true
}

} // verus!
