//! The persisted representation of the event log: a structured binary
//! encoding, one record per event (a kind byte, a description flag, an
//! optional length-prefixed description, and the instant shifted into an
//! unsigned 8-byte little-endian field).  Decoding is the exact inverse:
//! what decodes successfully re-encodes to the identical bytes.

use vstd::prelude::*;

use crate::INSTANT_BOUND;
use crate::event::{log_view, log_wf, model_wf, EventModel, TrackingData, TrackingEvent};
use vstd::arithmetic::div_mod::{
    lemma_div_multiples_vanish_fancy, lemma_fundamental_div_mod, lemma_mod_multiples_vanish,
};

verus! {

pub open spec fn pow256(k: nat) -> nat
    decreases k,
{
    if k == 0 {
        1
    } else {
        256 * pow256((k - 1) as nat)
    }
}

/// The little-endian bytes of `n`, `k` bytes wide.
pub open spec fn le_bytes(n: nat, k: nat) -> Seq<u8>
    decreases k,
{
    if k == 0 {
        Seq::empty()
    } else {
        seq![(n % 256) as u8] + le_bytes(n / 256, (k - 1) as nat)
    }
}

/// The value of a little-endian byte string.
pub open spec fn le_val(b: Seq<u8>) -> nat
    decreases b.len(),
{
    if b.len() == 0 {
        0
    } else {
        (b[0] + 256 * le_val(b.skip(1))) as nat
    }
}

proof fn lemma_pow256_le(a: nat, b: nat)
    requires
        a <= b,
    ensures
        pow256(a) <= pow256(b),
    decreases b,
{
    if a < b {
        lemma_pow256_le(a, (b - 1) as nat);
        assert(pow256(b) == 256 * pow256((b - 1) as nat));
    }
}

proof fn lemma_le_bytes_len(n: nat, k: nat)
    ensures
        le_bytes(n, k).len() == k,
    decreases k,
{
    if k > 0 {
        lemma_le_bytes_len(n / 256, (k - 1) as nat);
    }
}

proof fn lemma_le_val_bound(b: Seq<u8>)
    ensures
        le_val(b) < pow256(b.len()),
    decreases b.len(),
{
    if b.len() > 0 {
        lemma_le_val_bound(b.skip(1));
    }
}

proof fn lemma_le_val_of_bytes(n: nat, k: nat)
    requires
        n < pow256(k),
    ensures
        le_val(le_bytes(n, k)) == n,
    decreases k,
{
    if k > 0 {
        lemma_fundamental_div_mod(n as int, 256);
        assert(n / 256 < pow256((k - 1) as nat)) by {
            assert(256 * (n / 256) <= n);
            assert(n < 256 * pow256((k - 1) as nat));
        }
        lemma_le_val_of_bytes(n / 256, (k - 1) as nat);
        let b = le_bytes(n, k);
        assert(b.skip(1) =~= le_bytes(n / 256, (k - 1) as nat));
        assert(b[0] == (n % 256) as u8);
    }
}

proof fn lemma_le_bytes_of_val(b: Seq<u8>)
    ensures
        le_bytes(le_val(b), b.len()) == b,
    decreases b.len(),
{
    if b.len() > 0 {
        let v = le_val(b);
        let rest = le_val(b.skip(1));
        assert(v == b[0] + 256 * rest);
        lemma_mod_multiples_vanish(rest as int, b[0] as int, 256);
        assert(v % 256 == b[0]);
        lemma_div_multiples_vanish_fancy(rest as int, b[0] as int, 256);
        assert(v / 256 == rest);
        lemma_le_bytes_of_val(b.skip(1));
        assert(le_bytes(v, b.len()) =~= b);
    }
}

/// A model the codec can persist: the instant within the library's bound,
/// and a description short enough for its 8-byte length field.
pub open spec fn enc_wf(m: EventModel) -> bool {
    &&& model_wf(m)
    &&& (match m.description {
        Some(d) => d.len() < pow256(8),
        None => true,
    })
}

pub open spec fn enc_log_wf(s: Seq<EventModel>) -> bool {
    forall|i: int| 0 <= i < s.len() ==> enc_wf(#[trigger] s[i])
}

/// One event's record: kind byte (0 Start, 1 Stop), description flag,
/// optional length-prefixed description bytes, and the instant shifted by
/// `INSTANT_BOUND` as 8 little-endian bytes.
pub open spec fn enc_event(m: EventModel) -> Seq<u8> {
    let tag = seq![if m.is_start { 0u8 } else { 1u8 }];
    let desc = (match m.description {
        None => seq![0u8],
        Some(d) => seq![1u8] + le_bytes(d.len(), 8) + d,
    });
    tag + desc + le_bytes((m.time + INSTANT_BOUND) as nat, 8)
}

/// The whole log's records, in order.
pub open spec fn enc_log(s: Seq<EventModel>) -> Seq<u8>
    decreases s.len(),
{
    if s.len() == 0 {
        Seq::empty()
    } else {
        enc_event(s[0]) + enc_log(s.skip(1))
    }
}

/// Decode one record at the front of `b`: the event's model and how many
/// bytes its record occupies, or nothing when the bytes are not a record.
pub open spec fn dec_event(b: Seq<u8>) -> Option<(EventModel, int)> {
    if b.len() < 2 {
        None
    } else if b[0] != 0 && b[0] != 1 {
        None
    } else if b[1] == 0 {
        if b.len() < 10 {
            None
        } else {
            let tu = le_val(b.subrange(2, 10));
            if tu <= 2 * INSTANT_BOUND {
                Some(
                    (
                        EventModel {
                            is_start: b[0] == 0,
                            description: None,
                            time: tu - INSTANT_BOUND,
                        },
                        10,
                    ),
                )
            } else {
                None
            }
        }
    } else if b[1] == 1 {
        if b.len() < 10 {
            None
        } else {
            let dl = le_val(b.subrange(2, 10)) as int;
            if b.len() >= 18 + dl {
                let tu = le_val(b.subrange(10 + dl, 18 + dl));
                if tu <= 2 * INSTANT_BOUND {
                    Some(
                        (
                            EventModel {
                                is_start: b[0] == 0,
                                description: Some(b.subrange(10, 10 + dl)),
                                time: tu - INSTANT_BOUND,
                            },
                            18 + dl,
                        ),
                    )
                } else {
                    None
                }
            } else {
                None
            }
        }
    } else {
        None
    }
}

/// Decode a whole byte string into a log; every byte must belong to a
/// record.
pub open spec fn dec_log(b: Seq<u8>) -> Option<Seq<EventModel>>
    decreases b.len(),
{
    if b.len() == 0 {
        Some(Seq::empty())
    } else {
        match dec_event(b) {
            None => None,
            Some((m, k)) => {
                if 0 < k <= b.len() {
                    match dec_log(b.skip(k)) {
                        None => None,
                        Some(rest) => Some(seq![m] + rest),
                    }
                } else {
                    None
                }
            },
        }
    }
}

proof fn lemma_dec_event_of_enc(m: EventModel, rest: Seq<u8>)
    requires
        enc_wf(m),
    ensures
        enc_event(m).len() >= 10,
        dec_event(enc_event(m) + rest) == Some((m, enc_event(m).len() as int)),
{
    let e = enc_event(m);
    let b = e + rest;
    let tu = (m.time + INSTANT_BOUND) as nat;
    assert(tu <= 2 * INSTANT_BOUND);
    assert(tu < pow256(8)) by {
        reveal_with_fuel(pow256, 9);
    }
    lemma_le_bytes_len(tu, 8);
    match m.description {
        None => {
            assert(e.len() == 10);
            assert(b[0] == (if m.is_start { 0u8 } else { 1u8 }));
            assert(b[1] == 0u8);
            assert(b.subrange(2, 10) =~= le_bytes(tu, 8));
            lemma_le_val_of_bytes(tu, 8);
            assert(dec_event(b) == Some((m, 10int)));
        },
        Some(d) => {
            lemma_le_bytes_len(d.len(), 8);
            let dl = d.len() as int;
            assert(e.len() == 18 + dl);
            assert(b[0] == (if m.is_start { 0u8 } else { 1u8 }));
            assert(b[1] == 1u8);
            assert(b.subrange(2, 10) =~= le_bytes(d.len(), 8));
            lemma_le_val_of_bytes(d.len(), 8);
            assert(b.subrange(10, 10 + dl) =~= d);
            assert(b.subrange(10 + dl, 18 + dl) =~= le_bytes(tu, 8));
            lemma_le_val_of_bytes(tu, 8);
            assert(dec_event(b) == Some((m, 18 + dl)));
        },
    }
}

/// Loading what was saved yields the saved log back, record for record.
pub proof fn lemma_dec_of_enc_log(s: Seq<EventModel>)
    requires
        enc_log_wf(s),
    ensures
        dec_log(enc_log(s)) == Some(s),
    decreases s.len(),
{
    if s.len() == 0 {
        assert(enc_log(s).len() == 0);
    } else {
        assert(enc_wf(s[0]));
        let tail = enc_log(s.skip(1));
        lemma_dec_event_of_enc(s[0], tail);
        let e = enc_event(s[0]);
        let b = enc_log(s);
        assert(b == e + tail);
        assert(b.len() >= e.len());
        assert(b.skip(e.len() as int) =~= tail);
        assert(enc_log_wf(s.skip(1))) by {
            assert(forall|i: int| 0 <= i < s.skip(1).len() ==> s.skip(1)[i] == s[i + 1]);
        }
        lemma_dec_of_enc_log(s.skip(1));
        assert(seq![s[0]] + s.skip(1) =~= s);
    }
}

proof fn lemma_enc_of_dec_event(b: Seq<u8>, m: EventModel, k: int)
    requires
        dec_event(b) == Some((m, k)),
    ensures
        10 <= k <= b.len(),
        enc_wf(m),
        enc_event(m) == b.subrange(0, k),
{
    assert(2 * INSTANT_BOUND < pow256(8)) by {
        reveal_with_fuel(pow256, 9);
    }
    if b[1] == 0 {
        let tu = le_val(b.subrange(2, 10));
        assert(m.time + INSTANT_BOUND == tu);
        assert(b.subrange(2, 10).len() == 8);
        lemma_le_bytes_of_val(b.subrange(2, 10));
        assert(le_bytes(tu, 8) == b.subrange(2, 10));
        lemma_le_bytes_len(tu, 8);
        assert(enc_event(m) =~= b.subrange(0, 10));
    } else {
        let dl = le_val(b.subrange(2, 10)) as int;
        assert(b.subrange(2, 10).len() == 8);
        lemma_le_bytes_of_val(b.subrange(2, 10));
        lemma_le_val_bound(b.subrange(2, 10));
        let d = b.subrange(10, 10 + dl);
        assert(d.len() == dl);
        assert(le_bytes(d.len(), 8) == b.subrange(2, 10));
        lemma_le_bytes_len(d.len(), 8);
        let tu = le_val(b.subrange(10 + dl, 18 + dl));
        assert(m.time + INSTANT_BOUND == tu);
        assert(b.subrange(10 + dl, 18 + dl).len() == 8);
        lemma_le_bytes_of_val(b.subrange(10 + dl, 18 + dl));
        assert(le_bytes(tu, 8) == b.subrange(10 + dl, 18 + dl));
        lemma_le_bytes_len(tu, 8);
        assert(enc_event(m) =~= b.subrange(0, 18 + dl));
    }
}

/// Saving what was loaded reproduces the persisted content byte for byte:
/// the encoding of any successfully decoded log is the very byte string it
/// was decoded from.
pub proof fn lemma_enc_of_dec_log(b: Seq<u8>, s: Seq<EventModel>)
    requires
        dec_log(b) == Some(s),
    ensures
        enc_log(s) == b,
        enc_log_wf(s),
    decreases b.len(),
{
    if b.len() == 0 {
        assert(enc_log(s) =~= b);
    } else {
        let (m, k) = dec_event(b).unwrap();
        lemma_enc_of_dec_event(b, m, k);
        let rest = dec_log(b.skip(k)).unwrap();
        lemma_enc_of_dec_log(b.skip(k), rest);
        assert(s == seq![m] + rest);
        assert(s[0] == m);
        assert(s.skip(1) =~= rest);
        assert(enc_log(s) == enc_event(m) + enc_log(rest));
        assert(enc_log(s) =~= b);
        assert(forall|i: int|
            0 <= i < s.len() ==> enc_wf(#[trigger] s[i]) == (if i == 0 {
                enc_wf(m)
            } else {
                enc_wf(rest[i - 1])
            }));
    }
}

fn push_u64_le(out: &mut Vec<u8>, v: u64)
    ensures
        final(out)@ == old(out)@ + le_bytes(v as nat, 8),
{
    let ghost base = old(out)@;
    let mut cur: u64 = v;
    let mut j: usize = 0;
    proof {
        assert(out@.skip(base.len() as int) =~= Seq::<u8>::empty());
    }
    while j < 8
        invariant
            j <= 8,
            out@.len() == base.len() + j,
            out@.take(base.len() as int) == base,
            le_bytes(v as nat, 8) == out@.skip(base.len() as int) + le_bytes(
                cur as nat,
                (8 - j) as nat,
            ),
        decreases 8 - j,
    {
        let ghost pre = out@;
        let b = (cur % 256) as u8;
        out.push(b);
        proof {
            assert(out@.take(base.len() as int) =~= base);
            assert(out@.skip(base.len() as int) =~= pre.skip(base.len() as int).push(b));
            assert(le_bytes(cur as nat, (8 - j) as nat) == seq![(cur as nat % 256) as u8]
                + le_bytes(cur as nat / 256, (8 - j - 1) as nat));
            assert(pre.skip(base.len() as int).push(b) + le_bytes(cur as nat / 256, (8 - j - 1) as nat)
                =~= pre.skip(base.len() as int) + le_bytes(cur as nat, (8 - j) as nat));
        }
        cur = cur / 256;
        j = j + 1;
    }
    proof {
        assert(le_bytes(cur as nat, 0) =~= Seq::<u8>::empty());
        assert(out@ =~= out@.take(base.len() as int) + out@.skip(base.len() as int));
        assert(out@.skip(base.len() as int) + le_bytes(cur as nat, 0) =~= out@.skip(
            base.len() as int,
        ));
    }
}

proof fn lemma_enc_log_snoc(s: Seq<EventModel>, m: EventModel)
    ensures
        enc_log(s.push(m)) == enc_log(s) + enc_event(m),
    decreases s.len(),
{
    if s.len() == 0 {
        assert(s.push(m).skip(1) =~= Seq::<EventModel>::empty());
        assert(s.push(m)[0] == m);
        assert(enc_log(s.push(m).skip(1)) == Seq::<u8>::empty());
        assert(enc_log(s.push(m)) =~= enc_log(s) + enc_event(m));
    } else {
        assert(s.push(m).skip(1) =~= s.skip(1).push(m));
        lemma_enc_log_snoc(s.skip(1), m);
        assert(enc_log(s.push(m)) == enc_event(s[0]) + (enc_log(s.skip(1)) + enc_event(m)));
        assert(enc_event(s[0]) + (enc_log(s.skip(1)) + enc_event(m)) =~= (enc_event(s[0])
            + enc_log(s.skip(1))) + enc_event(m));
    }
}

/// Persist a log: the concatenation of its events' records.
pub fn encode_events(data: &Vec<TrackingEvent>) -> (r: Vec<u8>)
    requires
        log_wf(log_view(data@)),
    ensures
        r@ == enc_log(log_view(data@)),
{
    let ghost log = log_view(data@);
    let mut out: Vec<u8> = Vec::new();
    let mut i: usize = 0;
    proof {
        assert(log.take(0) =~= Seq::<EventModel>::empty());
        assert(out@ =~= enc_log(log.take(0)));
    }
    while i < data.len()
        invariant
            i <= data@.len(),
            log == log_view(data@),
            log_wf(log),
            out@ == enc_log(log.take(i as int)),
        decreases data@.len() - i,
    {
        let ghost pre = out@;
        let ghost m = log[i as int];
        let (is_start, d) = match &data[i] {
            TrackingEvent::Start(TrackingData { description, time }) => (true, description),
            TrackingEvent::Stop(TrackingData { description, time }) => (false, description),
        };
        out.push(if is_start { 0u8 } else { 1u8 });
        match d {
            None => {
                out.push(0u8);
                proof {
                    assert(out@ =~= pre + seq![if m.is_start { 0u8 } else { 1u8 }] + seq![0u8]);
                }
            },
            Some(desc) => {
                out.push(1u8);
                push_u64_le(&mut out, desc.len() as u64);
                let ghost mid = out@;
                let mut p: usize = 0;
                while p < desc.len()
                    invariant
                        p <= desc@.len(),
                        out@ == mid + desc@.take(p as int),
                    decreases desc@.len() - p,
                {
                    out.push(desc[p]);
                    proof {
                        assert(mid + desc@.take(p + 1) =~= (mid + desc@.take(p as int)).push(
                            desc@[p as int],
                        ));
                    }
                    p = p + 1;
                }
                proof {
                    assert(desc@.take(desc@.len() as int) =~= desc@);
                    assert(out@ =~= pre + seq![if m.is_start { 0u8 } else { 1u8 }] + (seq![1u8]
                        + le_bytes(desc@.len(), 8) + desc@));
                }
            },
        }
        let t = match &data[i] {
            TrackingEvent::Start(TrackingData { time, .. }) => *time,
            TrackingEvent::Stop(TrackingData { time, .. }) => *time,
        };
        proof {
            assert(model_wf(m));
        }
        let shifted: u64 = (t + INSTANT_BOUND) as u64;
        push_u64_le(&mut out, shifted);
        proof {
            assert(out@ =~= pre + enc_event(m));
            assert(log.take(i + 1) =~= log.take(i as int).push(m));
            lemma_enc_log_snoc(log.take(i as int), m);
        }
        i = i + 1;
    }
    proof {
        assert(log.take(log.len() as int) =~= log);
    }
    out
}

fn read_u64_le(bytes: &Vec<u8>, pos: usize) -> (r: u64)
    requires
        pos + 8 <= bytes@.len(),
    ensures
        r as nat == le_val(bytes@.subrange(pos as int, pos + 8)),
{
    proof {
        lemma_le_val_bound(bytes@.subrange(pos as int, pos + 8));
        reveal_with_fuel(pow256, 9);
    }
    let total = bytes.len();
    let mut r: u64 = 0;
    let mut k: usize = 8;
    while k > 0
        invariant
            k <= 8,
            total == bytes@.len(),
            pos + 8 <= bytes@.len(),
            r as nat == le_val(bytes@.subrange(pos + k, pos + 8)),
        decreases k,
    {
        proof {
            reveal_with_fuel(pow256, 9);
            let sub = bytes@.subrange(pos + k - 1, pos + 8);
            assert(sub[0] == bytes@[pos + k - 1]);
            assert(sub.skip(1) =~= bytes@.subrange(pos + k, pos + 8));
            lemma_le_val_bound(bytes@.subrange(pos + k, pos + 8));
            lemma_pow256_le((8 - k) as nat, 7);
            assert(pow256(7) == 0x100_0000_0000_0000) by {
                reveal_with_fuel(pow256, 9);
            }
            assert((r as nat) < 0x100_0000_0000_0000);
        }
        k = k - 1;
        proof {
            assert(k <= 7);
            assert(pos + k + 1 <= bytes@.len());
            assert(256 * (r as nat) + 255 < 0x1_0000_0000_0000_0000);
        }
        let b0 = bytes[pos + k];
        r = (b0 as u64) + 256 * r;
    }
    proof {
        assert(bytes@.subrange(pos as int, pos + 8) == bytes@.subrange(pos + 0, pos + 8));
    }
    r
}

/// Load a persisted log; `None` when the bytes are not a well-formed
/// sequence of records.
pub fn decode_events(bytes: &Vec<u8>) -> (r: Option<Vec<TrackingEvent>>)
    ensures
        match r {
            Some(v) => {
                &&& dec_log(bytes@) == Some(log_view(v@))
                &&& log_wf(log_view(v@))
            },
            None => dec_log(bytes@) is None,
        },
{
    let n = bytes.len();
    let mut out: Vec<TrackingEvent> = Vec::new();
    let mut pos: usize = 0;
    proof {
        assert(log_view(out@) =~= Seq::<EventModel>::empty());
        assert(bytes@.skip(0) =~= bytes@);
        if dec_log(bytes@) is Some {
            assert(log_view(out@) + dec_log(bytes@).unwrap() =~= dec_log(bytes@).unwrap());
        }
    }
    while pos < n
        invariant
            pos <= n,
            n == bytes@.len(),
            log_wf(log_view(out@)),
            (match dec_log(bytes@.skip(pos as int)) {
                Some(rest) => dec_log(bytes@) == Some(log_view(out@) + rest),
                None => dec_log(bytes@) is None,
            }),
        decreases n - pos,
    {
        let ghost s = bytes@.skip(pos as int);
        proof {
            assert(s.len() == n - pos);
            assert(forall|q: int| 0 <= q < s.len() ==> s[q] == bytes@[pos + q]);
        }
        if n - pos < 2 {
            proof {
                assert(dec_event(s) is None);
            }
            return None;
        }
        let tag = bytes[pos];
        let flag = bytes[pos + 1];
        if tag != 0 && tag != 1 {
            proof {
                assert(dec_event(s) is None);
            }
            return None;
        }
        if flag == 0 {
            if n - pos < 10 {
                proof {
                    assert(dec_event(s) is None);
                }
                return None;
            }
            let tu = read_u64_le(bytes, pos + 2);
            proof {
                assert(bytes@.subrange(pos + 2, pos + 10) =~= s.subrange(2, 10));
            }
            if tu > 2 * (INSTANT_BOUND as u64) {
                proof {
                    assert(dec_event(s) is None);
                }
                return None;
            }
            let time = (tu as i64) - INSTANT_BOUND;
            let ev = if tag == 0 {
                TrackingEvent::Start(TrackingData { description: None, time })
            } else {
                TrackingEvent::Stop(TrackingData { description: None, time })
            };
            proof {
                assert(dec_event(s) == Some((ev@, 10int)));
                assert(s.skip(10) =~= bytes@.skip(pos + 10));
                assert(log_view(out@.push(ev)) =~= log_view(out@).push(ev@));
            }
            let ghost prev = log_view(out@);
            out.push(ev);
            proof {
                if dec_log(bytes@.skip(pos + 10)) is Some {
                    let rest = dec_log(bytes@.skip(pos + 10)).unwrap();
                    assert(dec_log(s) == Some(seq![ev@] + rest));
                    assert(prev + (seq![ev@] + rest) =~= log_view(out@) + rest);
                }
            }
            pos = pos + 10;
        } else if flag == 1 {
            if n - pos < 10 {
                proof {
                    assert(dec_event(s) is None);
                }
                return None;
            }
            let dl64 = read_u64_le(bytes, pos + 2);
            proof {
                assert(bytes@.subrange(pos + 2, pos + 10) =~= s.subrange(2, 10));
            }
            if n - pos < 18 {
                proof {
                    assert(dec_event(s) is None);
                }
                return None;
            }
            if dl64 > ((n - pos - 18) as u64) {
                proof {
                    assert(dec_event(s) is None);
                }
                return None;
            }
            let dl = dl64 as usize;
            let mut desc: Vec<u8> = Vec::new();
            let mut p: usize = 0;
            while p < dl
                invariant
                    p <= dl,
                    pos + 18 + dl <= n,
                    n == bytes@.len(),
                    desc@ == bytes@.subrange(pos + 10, pos + 10 + p),
                decreases dl - p,
            {
                desc.push(bytes[pos + 10 + p]);
                proof {
                    assert(bytes@.subrange(pos + 10, pos + 10 + p + 1) =~= bytes@.subrange(
                        pos + 10,
                        pos + 10 + p,
                    ).push(bytes@[pos + 10 + p]));
                }
                p = p + 1;
            }
            let tu = read_u64_le(bytes, pos + 10 + dl);
            proof {
                assert(bytes@.subrange(pos + 10 + dl, pos + 18 + dl) =~= s.subrange(
                    10 + dl,
                    18 + dl,
                ));
                assert(desc@ =~= s.subrange(10, 10 + dl));
            }
            if tu > 2 * (INSTANT_BOUND as u64) {
                proof {
                    assert(dec_event(s) is None);
                }
                return None;
            }
            let time = (tu as i64) - INSTANT_BOUND;
            let ev = if tag == 0 {
                TrackingEvent::Start(TrackingData { description: Some(desc), time })
            } else {
                TrackingEvent::Stop(TrackingData { description: Some(desc), time })
            };
            proof {
                assert(dec_event(s) == Some((ev@, 18 + dl as int)));
                assert(s.skip(18 + dl as int) =~= bytes@.skip(pos + 18 + dl));
                assert(log_view(out@.push(ev)) =~= log_view(out@).push(ev@));
            }
            let ghost prev = log_view(out@);
            out.push(ev);
            proof {
                if dec_log(bytes@.skip(pos + 18 + dl)) is Some {
                    let rest = dec_log(bytes@.skip(pos + 18 + dl)).unwrap();
                    assert(dec_log(s) == Some(seq![ev@] + rest));
                    assert(prev + (seq![ev@] + rest) =~= log_view(out@) + rest);
                }
            }
            pos = pos + 18 + dl;
        } else {
            proof {
                assert(dec_event(s) is None);
            }
            return None;
        }
    }
    proof {
        assert(bytes@.skip(pos as int) =~= Seq::<u8>::empty());
        assert(dec_log(bytes@.skip(pos as int)) == Some(Seq::<EventModel>::empty()));
        assert(log_view(out@) + Seq::<EventModel>::empty() =~= log_view(out@));
    }
    Some(out)
}

} // verus!
