//! The aggregator: walks the log backward from "now" to a cutoff instant,
//! pairing each punch-in with the punch-out seen just after it (or with
//! "now" itself for an open session) and bucketing the elapsed seconds by
//! calendar day.

use vstd::prelude::*;
use crate::calendar::Date;
use crate::calendar::Timestamp;
use crate::calendar::MAX_SECONDS;
use crate::calendar::date_of;
use crate::calendar::lemma_seconds_bounds;
use crate::calendar::previous_date;
use crate::calendar::timestamp_seconds;
use crate::calendar::weekday_of;
use crate::codec::Action;
use crate::codec::DecodeError;
use crate::codec::Record;
use crate::codec::RECORD_WIDTH;
use crate::codec::spec_decode;
use crate::codec::spec_encode;
use crate::log::Log;
use crate::log::ReadError;
use crate::log::chunk_from_end;
use crate::log::spec_num_records;
use vstd::arithmetic::div_mod::lemma_fundamental_div_mod;
use vstd::arithmetic::div_mod::lemma_fundamental_div_mod_converse;

verus! {

/// Elapsed punched-in seconds attributed to one calendar date. Derived,
/// never persisted.
#[derive(Clone, Copy, Debug, PartialEq, Eq, Structural)]
pub struct DailyDuration {
    pub date: Date,
    pub seconds: i128,
}

/// The current punch state, as reported to the user.
#[derive(Clone, Copy, Debug, PartialEq, Eq, Structural)]
pub enum Status {
    /// The log ends in a punch-in: an open session since `since`.
    PunchedIn { since: Timestamp, elapsed_seconds: i64 },
    /// The log ends in a punch-out: the most recent closed interval.
    PunchedOut { start: Timestamp, end: Timestamp, duration_seconds: i64 },
}

/// The accumulator the backward traversal carries: the punch-out instant
/// that closes the interval currently being walked into, the day bucket
/// being filled, the buckets already flushed (most recent day first), and
/// the grand total.
pub ghost struct AggState {
    pub last_punch_out: int,
    pub current_date: Option<Date>,
    pub current_seconds: int,
    pub finished: Seq<(Date, int)>,
    pub total: int,
}

/// The traversal starts with "now" as the pending punch-out, so an open
/// session is accounted up to the moment of the query.
pub open spec fn spec_init(now: Timestamp) -> AggState {
    AggState {
        last_punch_out: now.seconds(),
        current_date: None,
        current_seconds: 0,
        finished: Seq::empty(),
        total: 0,
    }
}

/// Flush the pending day bucket, kept only when it accumulated a nonzero
/// duration.
pub open spec fn spec_flush(st: AggState) -> AggState {
    match st.current_date {
        Some(d) => if st.current_seconds != 0 {
            AggState {
                last_punch_out: st.last_punch_out,
                current_date: st.current_date,
                current_seconds: 0,
                finished: st.finished.push((d, st.current_seconds)),
                total: st.total,
            }
        } else {
            st
        },
        None => st,
    }
}

/// One record, moving backward in time: on a new calendar date the pending
/// bucket is flushed; a punch-out becomes the pending interval end; a
/// punch-in closes the interval and adds its seconds to the day and the
/// total.
pub open spec fn spec_step(st: AggState, r: Record) -> AggState {
    let d = r.timestamp.date();
    let st1 = if st.current_date != Some(d) {
        let f = spec_flush(st);
        AggState {
            last_punch_out: f.last_punch_out,
            current_date: Some(d),
            current_seconds: 0,
            finished: f.finished,
            total: f.total,
        }
    } else {
        st
    };
    if r.action == Action::PunchOut {
        AggState {
            last_punch_out: r.timestamp.seconds(),
            current_date: st1.current_date,
            current_seconds: st1.current_seconds,
            finished: st1.finished,
            total: st1.total,
        }
    } else {
        let delta = st1.last_punch_out - r.timestamp.seconds();
        AggState {
            last_punch_out: st1.last_punch_out,
            current_date: st1.current_date,
            current_seconds: st1.current_seconds + delta,
            finished: st1.finished,
            total: st1.total + delta,
        }
    }
}

/// The whole backward traversal from reverse offset `k`: it stops, with a
/// final flush, when the log runs out of complete records or a record
/// precedes the cutoff; a chunk that does not decode stops it with that
/// error and the offending bytes.
pub open spec fn spec_run(s: Seq<u8>, cutoff: int, k: int, st: AggState) -> Result<
    AggState,
    (DecodeError, Seq<u8>),
>
    decreases spec_num_records(s) - k,
{
    if k >= spec_num_records(s) {
        Ok(spec_flush(st))
    } else {
        match spec_decode(chunk_from_end(s, k)) {
            Err(e) => Err((e, chunk_from_end(s, k))),
            Ok(r) => if r.timestamp.seconds() < cutoff {
                Ok(spec_flush(st))
            } else {
                spec_run(s, cutoff, k + 1, spec_step(st, r))
            },
        }
    }
}

/// What `summary_since` returns over a log's bytes: the day buckets in
/// ascending date order with their grand total, or the decode error that
/// stopped the walk.
pub open spec fn spec_summary(s: Seq<u8>, cutoff: Timestamp, now: Timestamp) -> Result<
    (Seq<(Date, int)>, int),
    (DecodeError, Seq<u8>),
> {
    match spec_run(s, cutoff.seconds(), 0, spec_init(now)) {
        Ok(st) => Ok((st.finished.reverse(), st.total)),
        Err(e) => Err(e),
    }
}

/// The day buckets a vector of daily durations stands for.
pub open spec fn buckets_of(v: Seq<DailyDuration>) -> Seq<(Date, int)> {
    v.map_values(|dd: DailyDuration| (dd.date, dd.seconds as int))
}

/// The seconds of a sequence of day buckets, added up.
pub open spec fn bucket_sum(buckets: Seq<(Date, int)>) -> int
    decreases buckets.len(),
{
    if buckets.len() == 0 {
        0
    } else {
        bucket_sum(buckets.drop_last()) + buckets.last().1
    }
}

proof fn lemma_bucket_sum_drop_first(buckets: Seq<(Date, int)>)
    requires
        buckets.len() > 0,
    ensures
        bucket_sum(buckets) == buckets[0].1 + bucket_sum(buckets.drop_first()),
    decreases buckets.len(),
{
    if buckets.len() == 1 {
        assert(buckets.drop_last() =~= Seq::<(Date, int)>::empty());
        assert(buckets.drop_first() =~= Seq::<(Date, int)>::empty());
    } else {
        lemma_bucket_sum_drop_first(buckets.drop_last());
        assert(buckets.drop_last()[0] == buckets[0]);
        assert(buckets.drop_last().drop_first() =~= buckets.drop_first().drop_last());
        assert(buckets.drop_first().last() == buckets.last());
        assert(bucket_sum(buckets.drop_first()) == bucket_sum(buckets.drop_first().drop_last())
            + buckets.drop_first().last().1);
    }
}

proof fn lemma_bucket_sum_reverse(buckets: Seq<(Date, int)>)
    ensures
        bucket_sum(buckets.reverse()) == bucket_sum(buckets),
    decreases buckets.len(),
{
    if buckets.len() > 0 {
        assert(buckets.reverse().drop_last() =~= buckets.drop_first().reverse());
        assert(buckets.reverse().last() == buckets[0]);
        lemma_bucket_sum_reverse(buckets.drop_first());
        lemma_bucket_sum_drop_first(buckets);
    }
}

proof fn lemma_flush_total(st: AggState)
    requires
        st.total == bucket_sum(st.finished) + st.current_seconds,
        st.current_date is None ==> st.current_seconds == 0,
    ensures
        spec_flush(st).current_seconds == 0,
        spec_flush(st).total == bucket_sum(spec_flush(st).finished),
{
    match st.current_date {
        Some(d) => {
            if st.current_seconds != 0 {
                let p = st.finished.push((d, st.current_seconds));
                assert(p.drop_last() =~= st.finished);
                assert(p.last() == (d, st.current_seconds));
            }
        },
        None => {},
    }
}

/// Through the whole traversal, the running total equals the seconds in
/// the flushed buckets plus the pending bucket.
proof fn lemma_run_total(s: Seq<u8>, cutoff: int, k: int, st: AggState)
    requires
        st.total == bucket_sum(st.finished) + st.current_seconds,
        st.current_date is None ==> st.current_seconds == 0,
    ensures
        match spec_run(s, cutoff, k, st) {
            Ok(f) => f.current_seconds == 0 && f.total == bucket_sum(f.finished),
            Err(_) => true,
        },
    decreases spec_num_records(s) - k,
{
    if k >= spec_num_records(s) {
        lemma_flush_total(st);
    } else {
        match spec_decode(chunk_from_end(s, k)) {
            Err(_) => {},
            Ok(r) => if r.timestamp.seconds() < cutoff {
                lemma_flush_total(st);
            } else {
                if st.current_date != Some(r.timestamp.date()) {
                    lemma_flush_total(st);
                }
                lemma_run_total(s, cutoff, k + 1, spec_step(st, r));
            },
        }
    }
}

/// Aggregation accounting: whenever a summary succeeds, its grand total
/// is exactly the sum of the seconds of its daily buckets.
pub proof fn lemma_total_is_bucket_sum(s: Seq<u8>, cutoff: Timestamp, now: Timestamp)
    ensures
        match spec_summary(s, cutoff, now) {
            Ok((buckets, total)) => total == bucket_sum(buckets),
            Err(_) => true,
        },
{
    lemma_run_total(s, cutoff.seconds(), 0, spec_init(now));
    match spec_run(s, cutoff.seconds(), 0, spec_init(now)) {
        Ok(f) => {
            lemma_bucket_sum_reverse(f.finished);
        },
        Err(_) => {},
    }
}

/// Open-session accounting: over a log holding a single punch-in at `T`
/// not before the cutoff, a summary taken at a later `now` attributes the
/// whole interval from `T` to `now` to `T`'s calendar date, and to the
/// total. The traversal owes this to starting with `now` as the pending
/// punch-out.
pub proof fn lemma_open_session(r: Record, cutoff: Timestamp, now: Timestamp)
    requires
        r.valid(),
        r.action == Action::PunchIn,
        cutoff.valid(),
        now.valid(),
        cutoff.seconds() <= r.timestamp.seconds(),
        r.timestamp.seconds() < now.seconds(),
    ensures
        spec_summary(spec_encode(r), cutoff, now) == Ok::<(Seq<(Date, int)>, int), (
            DecodeError,
            Seq<u8>,
        )>(
            (
                seq![(r.timestamp.date(), now.seconds() - r.timestamp.seconds())],
                now.seconds() - r.timestamp.seconds(),
            ),
        ),
{
    let s = spec_encode(r);
    let c = cutoff.seconds();
    let delta = now.seconds() - r.timestamp.seconds();
    crate::codec::lemma_encode_decode_roundtrip(r);
    assert(s.len() == RECORD_WIDTH);
    assert(spec_num_records(s) == 1);
    assert(chunk_from_end(s, 0) =~= s);
    let st0 = spec_init(now);
    let st1 = spec_step(st0, r);
    assert(st1.current_date == Some(r.timestamp.date()));
    assert(st1.current_seconds == delta && st1.total == delta);
    assert(spec_run(s, c, 0, st0) == spec_run(s, c, 1, st1));
    assert(spec_run(s, c, 1, st1) == Ok::<AggState, (DecodeError, Seq<u8>)>(spec_flush(st1)));
    assert(spec_flush(st1).finished == seq![(r.timestamp.date(), delta)]);
    assert(spec_flush(st1).finished.reverse() =~= seq![(r.timestamp.date(), delta)]);
}

/// Reverse offset `k` addresses a complete record exactly when `k` is
/// below the record count.
proof fn lemma_offset_vs_count(len: int, k: int)
    requires
        0 <= len,
        0 <= k,
    ensures
        k < len / (RECORD_WIDTH as int) ==> (k + 1) * (RECORD_WIDTH as int) <= len,
        k >= len / (RECORD_WIDTH as int) ==> (k + 1) * (RECORD_WIDTH as int) > len,
{
    let w = RECORD_WIDTH as int;
    assert(w * (len / w) <= len < w * (len / w + 1)) by (nonlinear_arith)
        requires len >= 0, w == 22;
    assert(k < len / w ==> (k + 1) * w <= w * (len / w)) by (nonlinear_arith)
        requires 0 <= k, w == 22;
    assert(k >= len / w ==> (k + 1) * w >= w * (len / w + 1)) by (nonlinear_arith)
        requires 0 <= k, w == 22;
}

/// A vector with the same daily durations in reverse order.
fn reversed(v: Vec<DailyDuration>) -> (out: Vec<DailyDuration>)
    ensures
        out@ == v@.reverse(),
{
    let n = v.len();
    let mut out: Vec<DailyDuration> = Vec::new();
    let mut i: usize = n;
    while i > 0
        invariant
            i <= n,
            n == v@.len(),
            out@.len() == n - i,
            forall|j: int| 0 <= j < out@.len() ==> out@[j] == v@[n - 1 - j],
        decreases i,
    {
        i = i - 1;
        out.push(v[i]);
    }
    proof {
        assert(out@ =~= v@.reverse());
    }
    out
}

/// The most recent activity: an open session and its elapsed time when
/// the log ends in a punch-in, otherwise the closed interval between the
/// last two records. Fails when the log holds fewer records than that
/// needs, or when one of them does not decode.
pub fn current_status(log: &Log, now: &Timestamp) -> (r: Result<Status, ReadError>)
    requires
        now.valid(),
    ensures
        ({
            let s = log@;
            let w = RECORD_WIDTH as int;
            if s.len() < w {
                r == Err::<Status, ReadError>(ReadError::InsufficientData)
            } else {
                match spec_decode(chunk_from_end(s, 0)) {
                    Err(e) => r matches Err(ReadError::MalformedRecord(e2, b)) && e2 == e && b@
                        == chunk_from_end(s, 0),
                    Ok(last) => if last.action == Action::PunchIn {
                        r == Ok::<Status, ReadError>(
                            Status::PunchedIn {
                                since: last.timestamp,
                                elapsed_seconds: (now.seconds() - last.timestamp.seconds()) as i64,
                            },
                        )
                    } else {
                        if 2 * w > s.len() {
                            r == Err::<Status, ReadError>(ReadError::InsufficientData)
                        } else {
                            match spec_decode(chunk_from_end(s, 1)) {
                                Err(e) => r matches Err(ReadError::MalformedRecord(e2, b)) && e2
                                    == e && b@ == chunk_from_end(s, 1),
                                Ok(prev) => r == Ok::<Status, ReadError>(
                                    Status::PunchedOut {
                                        start: prev.timestamp,
                                        end: last.timestamp,
                                        duration_seconds: (last.timestamp.seconds()
                                            - prev.timestamp.seconds()) as i64,
                                    },
                                ),
                            }
                        }
                    },
                }
            }
        }),
{
    let last = match log.read_from_end(0) {
        Ok(rec) => rec,
        Err(e) => {
            return Err(e);
        },
    };
    proof {
        assert(last.timestamp.valid());
        lemma_seconds_bounds(*now);
        lemma_seconds_bounds(last.timestamp);
    }
    if let Action::PunchIn = last.action {
        let now_secs = timestamp_seconds(now);
        let since_secs = timestamp_seconds(&last.timestamp);
        return Ok(
            Status::PunchedIn {
                since: last.timestamp,
                elapsed_seconds: now_secs as i64 - since_secs as i64,
            },
        );
    }
    let prev = match log.read_from_end(1) {
        Ok(rec) => rec,
        Err(e) => {
            return Err(e);
        },
    };
    proof {
        assert(prev.timestamp.valid());
        lemma_seconds_bounds(prev.timestamp);
    }
    let end_secs = timestamp_seconds(&last.timestamp);
    let start_secs = timestamp_seconds(&prev.timestamp);
    Ok(
        Status::PunchedOut {
            start: prev.timestamp,
            end: last.timestamp,
            duration_seconds: end_secs as i64 - start_secs as i64,
        },
    )
}

/// The instant of 00:00:00 UTC on the most recent Monday at or before
/// `now`: always a Monday at midnight, within the last seven days.
pub fn week_cutoff(now: &Timestamp) -> (c: Timestamp)
    requires
        now.valid(),
    ensures
        c.valid(),
        c.hour == 0 && c.minute == 0 && c.second == 0,
        c.date().weekday() == 0,
        c.date().day_index() == now.date().day_index() - now.date().weekday(),
{
    let mut d = date_of(now);
    proof {
        lemma_seconds_bounds(*now);
    }
    while weekday_of(&d) != 0
        invariant
            d.valid(),
            0 <= d.day_index(),
            d.weekday() <= now.date().weekday(),
            d.day_index() == now.date().day_index() - (now.date().weekday() - d.weekday()),
        decreases d.day_index() % 7,
    {
        proof {
            let idx = d.day_index();
            lemma_fundamental_div_mod(idx, 7);
            lemma_fundamental_div_mod_converse(idx - 1, 7, idx / 7, idx % 7 - 1);
        }
        d = previous_date(&d);
    }
    Timestamp { year: d.year, month: d.month, day: d.day, hour: 0, minute: 0, second: 0 }
}

/// The instant of 00:00:00 UTC on the first of `now`'s month: always day 1
/// at midnight of the queried month.
pub fn month_cutoff(now: &Timestamp) -> (c: Timestamp)
    requires
        now.valid(),
    ensures
        c.valid(),
        c.year == now.year && c.month == now.month,
        c.day == 1,
        c.hour == 0 && c.minute == 0 && c.second == 0,
{
    Timestamp { year: now.year, month: now.month, day: 1, hour: 0, minute: 0, second: 0 }
}

/// Walk the log backward from the most recent record until a record
/// precedes `cutoff` (or the log runs out), and return one bucket of
/// punched-in seconds per calendar day with nonzero time, in ascending
/// date order, together with the grand total. A chunk that does not
/// decode is corruption and fails the whole query.
pub fn summary_since(log: &Log, cutoff: &Timestamp, now: &Timestamp) -> (r: Result<
    (Vec<DailyDuration>, i128),
    ReadError,
>)
    requires
        cutoff.valid(),
        now.valid(),
    ensures
        ({
            match spec_summary(log@, *cutoff, *now) {
                Ok((buckets, total)) => r matches Ok((v, t)) && buckets_of(v@) == buckets && t
                    == total,
                Err((e, bytes)) => r matches Err(ReadError::MalformedRecord(e2, b)) && e2 == e
                    && b@ == bytes,
            }
        }),
{
    proof {
        lemma_seconds_bounds(*now);
    }
    let ghost s = log@;
    let ghost c = cutoff.seconds();
    let cutoff_secs = timestamp_seconds(cutoff);
    let n_records = log.num_records();
    let mut k: u64 = 0;
    let mut last_po: u64 = timestamp_seconds(now);
    let mut cur_date: Option<Date> = None;
    let mut cur_secs: i128 = 0;
    let mut finished: Vec<DailyDuration> = Vec::new();
    let mut total: i128 = 0;
    proof {
        assert(buckets_of(finished@) =~= Seq::<(Date, int)>::empty());
    }
    loop
        invariant_except_break
            log@ == s,
            cutoff_secs == c,
            c == cutoff.seconds(),
            n_records == spec_num_records(s),
            k <= n_records,
            last_po <= MAX_SECONDS,
            cur_date is None ==> cur_secs == 0,
            -(k as int) * (MAX_SECONDS as int) <= cur_secs as int <= (k as int) * (
            MAX_SECONDS as int),
            -(k as int) * (MAX_SECONDS as int) <= total as int <= (k as int) * (
            MAX_SECONDS as int),
            spec_run(s, c, 0, spec_init(*now)) == spec_run(
                s,
                c,
                k as int,
                AggState {
                    last_punch_out: last_po as int,
                    current_date: cur_date,
                    current_seconds: cur_secs as int,
                    finished: buckets_of(finished@),
                    total: total as int,
                },
            ),
        ensures
            ({
                let st = AggState {
                    last_punch_out: last_po as int,
                    current_date: cur_date,
                    current_seconds: cur_secs as int,
                    finished: buckets_of(finished@),
                    total: total as int,
                };
                &&& spec_run(s, c, 0, spec_init(*now)) == Ok::<AggState, (DecodeError, Seq<u8>)>(
                    spec_flush(st),
                )
                &&& (cur_date is None ==> cur_secs == 0)
            }),
        decreases n_records - k,
    {
        let ghost st = AggState {
            last_punch_out: last_po as int,
            current_date: cur_date,
            current_seconds: cur_secs as int,
            finished: buckets_of(finished@),
            total: total as int,
        };
        if k >= n_records as u64 {
            break ;
        }
        proof {
            lemma_offset_vs_count(s.len() as int, k as int);
        }
        let rec = match log.read_from_end(k) {
            Ok(rec) => rec,
            Err(e) => {
                proof {
                    assert(spec_run(s, c, k as int, st) == spec_run(s, c, 0, spec_init(*now)));
                }
                return Err(e);
            },
        };
        proof {
            assert(rec.timestamp.valid());
            lemma_seconds_bounds(rec.timestamp);
        }
        let rec_secs = timestamp_seconds(&rec.timestamp);
        if rec_secs < cutoff_secs {
            break ;
        }
        // One step of the fold, mirrored by `spec_step(st, rec)`.
        let rec_date = date_of(&rec.timestamp);
        let same_day = match &cur_date {
            Some(d) => *d == rec_date,
            None => false,
        };
        if !same_day {
            if cur_secs != 0 {
                let d = match &cur_date {
                    Some(d) => *d,
                    None => vstd::pervasive::unreached(),  // a nonzero bucket always has a date
                };
                finished.push(DailyDuration { date: d, seconds: cur_secs });
                proof {
                    assert(buckets_of(finished@) =~= st.finished.push((d, st.current_seconds)));
                }
            }
            cur_secs = 0;
            cur_date = Some(rec_date);
        }
        if let Action::PunchOut = rec.action {
            last_po = rec_secs;
        } else {
            let delta: i128 = last_po as i128 - rec_secs as i128;
            proof {
                let m = MAX_SECONDS as int;
                assert(-((k as int) + 1) * m <= cur_secs as int + delta as int <= ((k as int) + 1)
                    * m && -((k as int) + 1) * m <= total as int + delta as int <= ((k as int) + 1)
                    * m && ((k as int) + 1) * m < i128::MAX) by (nonlinear_arith)
                    requires
                        m == MAX_SECONDS as int,
                        0 <= k < 0xffff_ffff_ffff_ffff,
                        -(k as int) * m <= cur_secs as int <= (k as int) * m,
                        -(k as int) * m <= total as int <= (k as int) * m,
                        -m <= delta as int <= m;
            }
            cur_secs = cur_secs + delta;
            total = total + delta;
        }
        proof {
            let st2 = AggState {
                last_punch_out: last_po as int,
                current_date: cur_date,
                current_seconds: cur_secs as int,
                finished: buckets_of(finished@),
                total: total as int,
            };
            assert(st2 == spec_step(st, rec));
            assert(spec_run(s, c, k as int, st) == spec_run(s, c, k as int + 1, st2));
        }
        k = k + 1;
    }
    // Final flush of the pending bucket, then ascending date order.
    if cur_secs != 0 {
        let d = match &cur_date {
            Some(d) => *d,
            None => vstd::pervasive::unreached(),  // a nonzero bucket always has a date
        };
        let ghost st = AggState {
            last_punch_out: last_po as int,
            current_date: cur_date,
            current_seconds: cur_secs as int,
            finished: buckets_of(finished@),
            total: total as int,
        };
        finished.push(DailyDuration { date: d, seconds: cur_secs });
        proof {
            assert(buckets_of(finished@) =~= st.finished.push((d, st.current_seconds)));
        }
    }
    let out = reversed(finished);
    proof {
        let fin = buckets_of(finished@);
        assert(buckets_of(out@) =~= fin.reverse());
    }
    Ok((out, total))
}

} // verus!
