//! Resampling of the records into buckets of equal width in time.

use vstd::prelude::*;
use vstd::arithmetic::div_mod::{lemma_fundamental_div_mod, lemma_fundamental_div_mod_converse};
use crate::aggregate::{mean_of, mean_units, occurrences, readings, Mean};
use crate::error::AnalyticsError;
use crate::record::{is_sample, lemma_pointees_push, pointees, stamp, FitDataRecordExt, Record};

verus! {

/// The time of the first periodic sample that has one.
pub open spec fn first_stamp(records: Seq<Record>) -> Option<i64>
    decreases records.len(),
{
    if records.len() == 0 {
        None
    } else {
        match first_stamp(records.drop_last()) {
            Some(t) => Some(t),
            None => if is_sample(records.last()) {
                stamp(records.last())
            } else {
                None
            },
        }
    }
}

/// The time of the last periodic sample that has one.
pub open spec fn last_stamp(records: Seq<Record>) -> Option<i64>
    decreases records.len(),
{
    if records.len() == 0 {
        None
    } else if is_sample(records.last()) && stamp(records.last()) is Some {
        stamp(records.last())
    } else {
        last_stamp(records.drop_last())
    }
}

/// The span of time to resample: from the first to the last timed periodic
/// sample, if the first is earlier than the last.
pub open spec fn time_span(records: Seq<Record>) -> Option<(i64, i64)> {
    match (first_stamp(records), last_stamp(records)) {
        (Some(min), Some(max)) => if min < max {
            Some((min, max))
        } else {
            None
        },
        _ => None,
    }
}

/// The width of a bucket when the span is cut into `count` buckets, rounded
/// down to whole seconds.
pub open spec fn bucket_width(min: int, max: int, count: int) -> int {
    (max - min) / count
}

/// The bucket that time `t` falls into. Buckets are numbered from the one that
/// starts at `min`; times before `min` fall into negative buckets.
pub open spec fn bucket_of(t: int, min: int, width: int) -> int {
    (t - min) / width
}

/// Whether the record has a time, and that time falls into `bucket`.
pub open spec fn in_bucket(r: Record, min: int, width: int, bucket: int) -> bool {
    stamp(r) is Some && bucket_of(stamp(r).unwrap() as int, min, width) == bucket
}

/// The records in `bucket`, in order.
pub open spec fn members(records: Seq<Record>, min: int, width: int, bucket: int) -> Seq<Record>
    decreases records.len(),
{
    if records.len() == 0 {
        Seq::empty()
    } else {
        let head = members(records.drop_last(), min, width, bucket);
        if in_bucket(records.last(), min, width, bucket) {
            head.push(records.last())
        } else {
            head
        }
    }
}

/// One point of a resampled series: a bucket, the time at which it starts,
/// and what the mean over its records is taken over.
#[derive(Debug, PartialEq)]
pub struct SeriesPoint {
    pub bucket: i128,
    pub timestamp: i128,
    pub mean: Mean,
}

/// Whether `series` is the resampling of `records` into buckets of `width`
/// seconds from `min`: one point for each bucket that holds a record, in
/// ascending order, each with the mean of the field over its bucket.
pub open spec fn is_series(
    series: Seq<SeriesPoint>,
    records: Seq<Record>,
    name: Seq<char>,
    min: int,
    width: int,
) -> bool {
    &&& forall|k: int|
        0 <= k < series.len() ==> {
            let point = #[trigger] series[k];
            let inside = members(records, min, width, point.bucket as int);
            &&& point.timestamp == min + point.bucket * width
            &&& inside.len() > 0
            &&& point.mean.operands@ == readings(occurrences(inside, name))
            &&& point.mean.units@ == mean_units(occurrences(inside, name))
        }
    &&& forall|j: int, k: int|
        0 <= j < k < series.len() ==> (#[trigger] series[j]).bucket < (#[trigger] series[k]).bucket
    &&& forall|i: int|
        0 <= i < records.len() && stamp(#[trigger] records[i]) is Some ==> exists|k: int|
            0 <= k < series.len() && in_bucket(records[i], min, width, (#[trigger] series[k]).bucket as int)
}

/// First and last time among the periodic samples.
pub fn stamp_bounds(records: &Vec<Record>) -> (r: (Option<i64>, Option<i64>))
    ensures
        r.0 == first_stamp(records@),
        r.1 == last_stamp(records@),
{
    let mut first: Option<i64> = None;
    let mut last: Option<i64> = None;
    let mut i: usize = 0;
    while i < records.len()
        invariant
            i <= records@.len(),
            first == first_stamp(records@.take(i as int)),
            last == last_stamp(records@.take(i as int)),
        decreases records@.len() - i,
    {
        proof {
            assert(records@.take(i + 1).drop_last() =~= records@.take(i as int));
            assert(records@.take(i + 1).last() == records@[i as int]);
        }
        if records[i].is_sample() {
            let t = records[i].timestamp();
            if t.is_some() {
                if first.is_none() {
                    first = t;
                }
                last = t;
            }
        }
        i += 1;
    }
    proof {
        assert(records@.take(i as int) =~= records@);
    }
    (first, last)
}

/// The bucket that time `t` falls into, and the time at which that bucket
/// starts.
pub fn locate(t: i64, min: i64, width: i128) -> (r: (i128, i128))
    requires
        0 < width < 0x1_0000_0000_0000_0000,
    ensures
        r.0 == bucket_of(t as int, min as int, width as int),
        r.1 == min + r.0 * width,
        t - width < r.1 <= t,
{
    let offset: i128 = t as i128 - min as i128;
    if offset >= 0 {
        let bucket: i128 = offset / width;
        proof {
            lemma_fundamental_div_mod(offset as int, width as int);
            assert(bucket * width == width * bucket) by (nonlinear_arith);
        }
        let start: i128 = min as i128 + (offset - offset % width);
        (bucket, start)
    } else {
        let back: i128 = -offset;
        let steps: i128 = (back + (width - 1)) / width;
        let over: i128 = (back + (width - 1)) % width;
        proof {
            lemma_fundamental_div_mod(back + (width - 1), width as int);
            assert(steps * width == width * steps) by (nonlinear_arith);
            assert((-steps) * width == -(steps * width)) by (nonlinear_arith);
            let rest = offset + steps * width;
            assert(0 <= rest < width);
            assert(offset == (-steps) * width + rest);
            lemma_fundamental_div_mod_converse(offset as int, width as int, -steps, rest);
        }
        let start: i128 = t as i128 - ((width - 1) - over);
        (-steps, start)
    }
}

/// Whether the slots, each a bucket with its start, rise strictly by bucket.
spec fn slots_rise(slots: Seq<(i128, i128)>) -> bool {
    forall|j: int, k: int| 0 <= j < k < slots.len() ==> (#[trigger] slots[j]).0 < (#[trigger] slots[k]).0
}

/// Puts a bucket into the slots unless it is there, keeping them in order.
fn note_slot(slots: &mut Vec<(i128, i128)>, bucket: i128, start: i128)
    requires
        slots_rise(old(slots)@),
        forall|k: int|
            0 <= k < old(slots)@.len() && (#[trigger] old(slots)@[k]).0 == bucket ==> old(
                slots,
            )@[k].1 == start,
    ensures
        slots_rise(final(slots)@),
        final(slots)@.contains((bucket, start)),
        forall|p: (i128, i128)| old(slots)@.contains(p) ==> final(slots)@.contains(p),
        forall|p: (i128, i128)|
            final(slots)@.contains(p) ==> old(slots)@.contains(p) || p == (bucket, start),
{
    let mut at: usize = 0;
    while at < slots.len() && slots[at].0 < bucket
        invariant
            at <= slots@.len(),
            slots@ == old(slots)@,
            forall|k: int| 0 <= k < at ==> (#[trigger] slots@[k]).0 < bucket,
        decreases slots@.len() - at,
    {
        at += 1;
    }
    if at < slots.len() && slots[at].0 == bucket {
        assert(slots@[at as int] == (bucket, start));
        return ;
    }
    let ghost before = slots@;
    slots.insert(at, (bucket, start));
    proof {
        let after = slots@;
        assert(after.len() == before.len() + 1);
        assert(after[at as int] == (bucket, start));
        assert forall|k: int| 0 <= k < at implies after[k] == before[k] by {}
        assert forall|k: int| at < k < after.len() implies after[k] == before[k - 1] by {}
        assert forall|k: int| at <= k < before.len() implies bucket < (#[trigger] before[k]).0 by {
            assert(before[at as int].0 <= before[k].0);
        }
        assert forall|j: int, k: int| 0 <= j < k < after.len() implies (#[trigger] after[j]).0 < (
        #[trigger] after[k]).0 by {
            if j < at && k > at {
                assert(before[j].0 < before[k - 1].0 || k - 1 == at);
            }
        }
        assert forall|p: (i128, i128)| before.contains(p) implies after.contains(p) by {
            let k = choose|k: int| 0 <= k < before.len() && before[k] == p;
            if k < at {
                assert(after[k] == p);
            } else {
                assert(after[k + 1] == p);
            }
        }
        assert forall|p: (i128, i128)| after.contains(p) implies before.contains(p) || p == (
            bucket,
            start,
        ) by {
            let k = choose|k: int| 0 <= k < after.len() && after[k] == p;
            if k < at {
                assert(before[k] == p);
            } else if k > at {
                assert(before[k - 1] == p);
            }
        }
    }
}

/// The records of `records` whose time falls into `bucket`, in order.
pub fn members_of(records: &Vec<Record>, min: i64, width: i128, bucket: i128) -> (r: Vec<&Record>)
    requires
        0 < width < 0x1_0000_0000_0000_0000,
    ensures
        pointees(r@) == members(records@, min as int, width as int, bucket as int),
{
    let mut out: Vec<&Record> = Vec::new();
    let mut i: usize = 0;
    while i < records.len()
        invariant
            i <= records@.len(),
            0 < width < 0x1_0000_0000_0000_0000,
            pointees(out@) =~= members(
                records@.take(i as int),
                min as int,
                width as int,
                bucket as int,
            ),
        decreases records@.len() - i,
    {
        proof {
            assert(records@.take(i + 1).drop_last() =~= records@.take(i as int));
            assert(records@.take(i + 1).last() == records@[i as int]);
        }
        match records[i].timestamp() {
            Some(t) => {
                let (found, _) = locate(t, min, width);
                if found == bucket {
                    proof {
                        lemma_pointees_push(out@, &records@[i as int]);
                    }
                    out.push(&records[i]);
                }
            },
            None => {},
        }
        i += 1;
    }
    proof {
        assert(records@.take(i as int) =~= records@);
    }
    out
}

/// A bucket that holds a record has members.
pub proof fn lemma_members_nonempty(
    records: Seq<Record>,
    min: int,
    width: int,
    bucket: int,
    i: int,
)
    requires
        0 <= i < records.len(),
        in_bucket(records[i], min, width, bucket),
    ensures
        members(records, min, width, bucket).len() > 0,
    decreases records.len(),
{
    if i < records.len() - 1 {
        lemma_members_nonempty(records.drop_last(), min, width, bucket, i);
    }
}

/// Resamples `records` into `bucket_count` buckets of equal width between the
/// first and the last timed periodic sample, and returns one point for each
/// bucket that holds a record, in ascending order of time.
///
/// Without such a span the series is empty. A `bucket_count` of zero, or one
/// so large that a bucket would be narrower than a second, is an error.
pub fn sample_series(records: &Vec<Record>, name: &str, bucket_count: u16) -> (r: Result<
    Vec<SeriesPoint>,
    AnalyticsError,
>)
    ensures
        match time_span(records@) {
            None => r matches Ok(series) && series@.len() == 0,
            Some((min, max)) => if bucket_count == 0 || bucket_width(
                min as int,
                max as int,
                bucket_count as int,
            ) == 0 {
                r == Err::<Vec<SeriesPoint>, AnalyticsError>(AnalyticsError::InvalidBucketCount)
            } else {
                r matches Ok(series) && is_series(
                    series@,
                    records@,
                    name@,
                    min as int,
                    bucket_width(min as int, max as int, bucket_count as int),
                )
            },
        },
{
    let (min, max) = match stamp_bounds(records) {
        (Some(min), Some(max)) => {
            if min < max {
                (min, max)
            } else {
                return Ok(Vec::new());
            }
        },
        _ => {
            return Ok(Vec::new());
        },
    };
    if bucket_count == 0 {
        return Err(AnalyticsError::InvalidBucketCount);
    }
    let span: i128 = max as i128 - min as i128;
    let width: i128 = span / (bucket_count as i128);
    proof {
        lemma_fundamental_div_mod(span as int, bucket_count as int);
        assert(width * bucket_count == bucket_count * width) by (nonlinear_arith);
        assert(width * bucket_count >= width) by (nonlinear_arith)
            requires
                width >= 0,
                bucket_count >= 1,
        ;
    }
    if width == 0 {
        return Err(AnalyticsError::InvalidBucketCount);
    }
    let mut slots: Vec<(i128, i128)> = Vec::new();
    let mut i: usize = 0;
    while i < records.len()
        invariant
            i <= records@.len(),
            0 < width < 0x1_0000_0000_0000_0000,
            slots_rise(slots@),
            forall|k: int|
                0 <= k < slots@.len() ==> {
                    let slot = #[trigger] slots@[k];
                    &&& slot.1 == min + slot.0 * width
                    &&& exists|j: int|
                        0 <= j < i && in_bucket(
                            #[trigger] records@[j],
                            min as int,
                            width as int,
                            slot.0 as int,
                        )
                },
            forall|j: int|
                0 <= j < i && stamp(#[trigger] records@[j]) is Some ==> exists|k: int|
                    0 <= k < slots@.len() && in_bucket(
                        records@[j],
                        min as int,
                        width as int,
                        (#[trigger] slots@[k]).0 as int,
                    ),
        decreases records@.len() - i,
    {
        match records[i].timestamp() {
            Some(t) => {
                let (bucket, start) = locate(t, min, width);
                let ghost before = slots@;
                note_slot(&mut slots, bucket, start);
                proof {
                    assert(in_bucket(records@[i as int], min as int, width as int, bucket as int));
                    assert forall|k: int| 0 <= k < slots@.len() implies {
                        let slot = #[trigger] slots@[k];
                        &&& slot.1 == min + slot.0 * width
                        &&& exists|j: int|
                            0 <= j < i + 1 && in_bucket(
                                #[trigger] records@[j],
                                min as int,
                                width as int,
                                slot.0 as int,
                            )
                    } by {
                        let slot = slots@[k];
                        assert(slots@.contains(slot));
                        if before.contains(slot) {
                            let k0 = choose|k0: int| 0 <= k0 < before.len() && before[k0] == slot;
                            assert(before[k0].1 == min + before[k0].0 * width);
                        }
                    }
                    assert forall|j: int|
                        0 <= j < i + 1 && stamp(#[trigger] records@[j]) is Some implies exists|
                        k: int,
                    |
                        0 <= k < slots@.len() && in_bucket(
                            records@[j],
                            min as int,
                            width as int,
                            (#[trigger] slots@[k]).0 as int,
                        ) by {
                        if j < i {
                            let k0 = choose|k0: int|
                                0 <= k0 < before.len() && in_bucket(
                                    records@[j],
                                    min as int,
                                    width as int,
                                    (#[trigger] before[k0]).0 as int,
                                );
                            assert(before.contains(before[k0]));
                            assert(slots@.contains(before[k0]));
                            let k1 = choose|k1: int|
                                0 <= k1 < slots@.len() && slots@[k1] == before[k0];
                            assert(in_bucket(
                                records@[j],
                                min as int,
                                width as int,
                                slots@[k1].0 as int,
                            ));
                        } else {
                            let k1 = choose|k1: int|
                                0 <= k1 < slots@.len() && slots@[k1] == (bucket, start);
                            assert(in_bucket(
                                records@[j],
                                min as int,
                                width as int,
                                slots@[k1].0 as int,
                            ));
                        }
                    }
                }
            },
            None => {},
        }
        i += 1;
    }
    let mut series: Vec<SeriesPoint> = Vec::new();
    let mut k: usize = 0;
    while k < slots.len()
        invariant
            k <= slots@.len(),
            0 < width < 0x1_0000_0000_0000_0000,
            series@.len() == k,
            forall|j: int|
                0 <= j < k ==> {
                    let point = #[trigger] series@[j];
                    let inside = members(records@, min as int, width as int, point.bucket as int);
                    &&& point.bucket == slots@[j].0
                    &&& point.timestamp == slots@[j].1
                    &&& point.mean.operands@ == readings(occurrences(inside, name@))
                    &&& point.mean.units@ == mean_units(occurrences(inside, name@))
                },
        decreases slots@.len() - k,
    {
        let (bucket, start) = slots[k];
        let inside = members_of(records, min, width, bucket);
        let mean = mean_of(&inside, name);
        series.push(SeriesPoint { bucket, timestamp: start, mean });
        k += 1;
    }
    proof {
        assert forall|j: int| 0 <= j < series@.len() implies {
            let point = #[trigger] series@[j];
            members(records@, min as int, width as int, point.bucket as int).len() > 0
        } by {
            let slot = slots@[j];
            let w = choose|w: int|
                0 <= w < records@.len() && in_bucket(
                    #[trigger] records@[w],
                    min as int,
                    width as int,
                    slot.0 as int,
                );
            lemma_members_nonempty(records@, min as int, width as int, slot.0 as int, w);
        }
        assert forall|j: int|
            0 <= j < records@.len() && stamp(#[trigger] records@[j]) is Some implies exists|
            k: int,
        |
            0 <= k < series@.len() && in_bucket(
                records@[j],
                min as int,
                width as int,
                (#[trigger] series@[k]).bucket as int,
            ) by {
            let k0 = choose|k0: int|
                0 <= k0 < slots@.len() && in_bucket(
                    records@[j],
                    min as int,
                    width as int,
                    (#[trigger] slots@[k0]).0 as int,
                );
            assert(series@[k0].bucket == slots@[k0].0);
        }
    }
    Ok(series)
}

/// The points of a series come in ascending order of time, and the times of
/// two points lie as many bucket widths apart as their buckets do.
pub proof fn lemma_series_is_spaced(
    series: Seq<SeriesPoint>,
    records: Seq<Record>,
    name: Seq<char>,
    min: int,
    width: int,
    j: int,
    k: int,
)
    requires
        is_series(series, records, name, min, width),
        width > 0,
        0 <= j < k < series.len(),
    ensures
        series[j].timestamp < series[k].timestamp,
        series[k].timestamp - series[j].timestamp == (series[k].bucket - series[j].bucket) * width,
        series[k].timestamp - series[j].timestamp >= width,
        (series[k].timestamp - series[j].timestamp) % width == 0,
{
    let a = series[j].bucket as int;
    let b = series[k].bucket as int;
    assert(a < b);
    assert(series[j].timestamp == min + a * width);
    assert(series[k].timestamp == min + b * width);
    assert(b * width - a * width == (b - a) * width) by (nonlinear_arith);
    assert((b - a) * width >= width) by (nonlinear_arith)
        requires
            b - a >= 1,
            width > 0,
    ;
    vstd::arithmetic::div_mod::lemma_mod_multiples_basic(b - a, width);
}

/// Statistics on a whole sequence of records.
pub trait FitDataRecordVecExt {
    /// The series of the field called `field_name`, resampled into
    /// `num_of_points` buckets.
    fn sample_series_for_records(&self, field_name: String, num_of_points: u16) -> Result<
        Vec<SeriesPoint>,
        AnalyticsError,
    >;

    /// What the mean of `field` over `records` is taken over.
    fn aggregate_field_values(&self, records: Vec<&Record>, field: &str) -> Mean;
}

impl FitDataRecordVecExt for Vec<Record> {
    fn sample_series_for_records(&self, field_name: String, num_of_points: u16) -> (r: Result<
        Vec<SeriesPoint>,
        AnalyticsError,
    >)
        ensures
            match time_span(self@) {
                None => r matches Ok(series) && series@.len() == 0,
                Some((min, max)) => if num_of_points == 0 || bucket_width(
                    min as int,
                    max as int,
                    num_of_points as int,
                ) == 0 {
                    r == Err::<Vec<SeriesPoint>, AnalyticsError>(
                        AnalyticsError::InvalidBucketCount,
                    )
                } else {
                    r matches Ok(series) && is_series(
                        series@,
                        self@,
                        field_name@,
                        min as int,
                        bucket_width(min as int, max as int, num_of_points as int),
                    )
                },
            },
    {
        sample_series(self, field_name.as_str(), num_of_points)
    }

    fn aggregate_field_values(&self, records: Vec<&Record>, field: &str) -> (r: Mean)
        ensures
            r.operands@ == readings(occurrences(pointees(records@), field@)),
            r.units@ == mean_units(occurrences(pointees(records@), field@)),
    {
        mean_of(&records, field)
    }
}

} // verus!
