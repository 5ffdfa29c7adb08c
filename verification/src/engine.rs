//! The engine that owns the decoded records and offers every statistic on
//! them.

use vstd::prelude::*;
use crate::aggregate::{
    average, climbs, elevation_gain, gain_units, mean_of, mean_units, occurrences, readings, Gain,
    Mean,
};
use crate::error::AnalyticsError;
use crate::groups::{is_grouping, records_by_kind, KindGroup};
use crate::partition::{ascending, computes, first_readings, indices, indices_by};
use crate::record::{lemma_pointees_push, periodic, pointees, samples, Record};
use crate::resample::{bucket_width, is_series, sample_series, time_span, SeriesPoint};
use crate::value::Number;
use crate::zones::{
    carriers, intervals_of, max_intervals, sum_of, tells, total_seconds, zone_seconds,
    zone_time_for,
};

verus! {

/// Whether `boundaries` cut a sequence of `len` records into windows: each is
/// a position in the sequence, and none lies before the one in front of it.
pub open spec fn cuts(boundaries: Seq<usize>, len: int) -> bool {
    &&& forall|i: int| 0 <= i < boundaries.len() ==> #[trigger] boundaries[i] < len
    &&& forall|i: int|
        0 <= i < boundaries.len() - 1 ==> #[trigger] boundaries[i] <= boundaries[i + 1]
}

/// The window between boundary `w` and the next one, both ends included. A
/// boundary record belongs to the window before it and to the one after it.
pub open spec fn window(records: Seq<Record>, boundaries: Seq<usize>, w: int) -> Seq<Record> {
    records.subrange(boundaries[w] as int, boundaries[w + 1] + 1)
}

/// Whether `boundaries` cut `len` records into windows.
pub fn is_cut(boundaries: &Vec<usize>, len: usize) -> (r: bool)
    ensures
        r == cuts(boundaries@, len as int),
{
    let mut i: usize = 0;
    while i < boundaries.len()
        invariant
            i <= boundaries@.len(),
            forall|j: int| 0 <= j < i ==> #[trigger] boundaries@[j] < len,
            forall|j: int| 0 <= j < i - 1 ==> #[trigger] boundaries@[j] <= boundaries@[j + 1],
        decreases boundaries@.len() - i,
    {
        if boundaries[i] >= len {
            return false;
        }
        if i > 0 && boundaries[i - 1] > boundaries[i] {
            assert(!(boundaries@[i - 1] <= boundaries@[(i - 1) + 1]));
            return false;
        }
        i += 1;
    }
    true
}

/// Whether `stats` hold, for each window that `boundaries` cut and in it for
/// each of `fields` in the order given, the field's name and what its mean
/// over the window is taken over.
pub open spec fn is_stats(
    stats: Seq<Vec<(String, Mean)>>,
    records: Seq<Record>,
    boundaries: Seq<usize>,
    fields: Seq<String>,
) -> bool {
    &&& stats.len() == if boundaries.len() == 0 {
        0
    } else {
        boundaries.len() - 1
    }
    &&& forall|w: int|
        0 <= w < stats.len() ==> (#[trigger] stats[w])@.len() == fields.len() && forall|f: int|
            0 <= f < fields.len() ==> {
                let entry = #[trigger] stats[w]@[f];
                let found = occurrences(window(records, boundaries, w), fields[f]@);
                &&& entry.0@ == fields[f]@
                &&& entry.1.operands@ == readings(found)
                &&& entry.1.units@ == mean_units(found)
            }
}

/// References to `samples[from..to]`, in order.
pub fn pick_range<'a>(samples: &Vec<&'a Record>, from: usize, to: usize) -> (r: Vec<&'a Record>)
    requires
        from <= to <= samples@.len(),
    ensures
        pointees(r@) == pointees(samples@).subrange(from as int, to as int),
{
    let mut out: Vec<&'a Record> = Vec::new();
    let mut i: usize = from;
    while i < to
        invariant
            from <= i <= to <= samples@.len(),
            pointees(out@) =~= pointees(samples@).subrange(from as int, i as int),
        decreases to - i,
    {
        proof {
            lemma_pointees_push(out@, samples@[i as int]);
        }
        out.push(samples[i]);
        i += 1;
    }
    out
}

/// The means of `fields` over each window of `samples` between two
/// neighbouring boundaries. There is no result when the boundaries do not cut
/// the samples.
pub fn partition_stats(samples: &Vec<&Record>, boundaries: &Vec<usize>, fields: &Vec<String>) -> (r:
    Option<Vec<Vec<(String, Mean)>>>)
    ensures
        r.is_some() == cuts(boundaries@, samples@.len() as int),
        match r {
            Some(stats) => is_stats(stats@, pointees(samples@), boundaries@, fields@),
            None => true,
        },
{
    if is_cut(boundaries, samples.len()) {
        Some(window_stats(samples, boundaries, fields))
    } else {
        None
    }
}

/// The means of `fields` over each window of `samples` that `boundaries` cut.
pub fn window_stats(samples: &Vec<&Record>, boundaries: &Vec<usize>, fields: &Vec<String>) -> (r:
    Vec<Vec<(String, Mean)>>)
    requires
        cuts(boundaries@, samples@.len() as int),
    ensures
        is_stats(r@, pointees(samples@), boundaries@, fields@),
{
    let ghost all = pointees(samples@);
    let mut out: Vec<Vec<(String, Mean)>> = Vec::new();
    if boundaries.len() < 2 {
        return out;
    }
    let mut w: usize = 0;
    while w < boundaries.len() - 1
        invariant
            boundaries@.len() >= 2,
            w <= boundaries@.len() - 1,
            all == pointees(samples@),
            cuts(boundaries@, samples@.len() as int),
            out@.len() == w,
            forall|v: int|
                0 <= v < w ==> (#[trigger] out@[v])@.len() == fields@.len() && forall|f: int|
                    0 <= f < fields@.len() ==> {
                        let entry = #[trigger] out@[v]@[f];
                        let found = occurrences(window(all, boundaries@, v), fields@[f]@);
                        &&& entry.0@ == fields@[f]@
                        &&& entry.1.operands@ == readings(found)
                        &&& entry.1.units@ == mean_units(found)
                    },
        decreases boundaries@.len() - w,
    {
        let start = boundaries[w];
        let end = boundaries[w + 1];
        assert(boundaries@[w as int] <= boundaries@[w + 1] < samples.len());
        let inside = pick_range(samples, start, end + 1);
        let mut row: Vec<(String, Mean)> = Vec::new();
        let mut f: usize = 0;
        while f < fields.len()
            invariant
                f <= fields@.len(),
                row@.len() == f,
                forall|g: int|
                    0 <= g < f ==> {
                        let entry = #[trigger] row@[g];
                        let found = occurrences(pointees(inside@), fields@[g]@);
                        &&& entry.0@ == fields@[g]@
                        &&& entry.1.operands@ == readings(found)
                        &&& entry.1.units@ == mean_units(found)
                    },
            decreases fields@.len() - f,
        {
            let mean = mean_of(&inside, fields[f].as_str());
            row.push((fields[f].clone(), mean));
            f += 1;
        }
        out.push(row);
        w += 1;
    }
    out
}

/// Boundaries that rise and end with the last of `count` samples cut the
/// samples: the boundaries of a closed scan cut the samples it was begun on.
pub proof fn lemma_boundaries_cut(boundaries: Seq<usize>, count: int)
    requires
        boundaries.len() >= 1,
        ascending(boundaries),
        boundaries.last() == count - 1,
    ensures
        cuts(boundaries, count),
{
    assert forall|i: int| 0 <= i < boundaries.len() implies #[trigger] boundaries[i] < count by {
        if i < boundaries.len() - 1 {
            assert(boundaries[i] < boundaries[boundaries.len() - 1]);
        }
    }
}

/// The decoded records of one activity. They are taken over once and never
/// changed.
#[derive(Debug)]
pub struct AnalyticsEngine {
    records: Vec<Record>,
}

impl View for AnalyticsEngine {
    type V = Seq<Record>;

    closed spec fn view(&self) -> Seq<Record> {
        self.records@
    }
}

impl AnalyticsEngine {
    /// An engine over `records`.
    pub fn new(records: Vec<Record>) -> (r: AnalyticsEngine)
        ensures
            r@ == records@,
    {
        AnalyticsEngine { records }
    }

    /// The records, in file order.
    pub fn records(&self) -> (r: &Vec<Record>)
        ensures
            r@ == self@,
    {
        &self.records
    }

    /// The records grouped by kind, each record as its map of fields.
    pub fn records_by_kind(&self) -> (r: Vec<KindGroup<'_>>)
        ensures
            is_grouping(r@, self@),
    {
        records_by_kind(&self.records)
    }

    /// What the mean of `field_name` over the periodic samples is taken over.
    pub fn avg_for(&self, field_name: &str) -> (r: Mean)
        ensures
            r.operands@ == readings(occurrences(self@, field_name@)),
            r.units@ == mean_units(occurrences(self@, field_name@)),
    {
        average(&self.records, field_name)
    }

    /// What the ascent of `field_name` over the periodic samples is summed
    /// over.
    pub fn elevation_gain(&self, field_name: &str) -> (r: Gain)
        ensures
            r.steps@ == climbs(occurrences(self@, field_name@)),
            r.units@ == gain_units(occurrences(self@, field_name@)),
    {
        elevation_gain(&self.records, field_name)
    }

    /// The partition boundaries of the periodic samples by the growth of
    /// `field_name`, where `reached` says whether a reading has grown by the
    /// threshold over the baseline.
    pub fn calculate_partition_indices<F: Fn(Number, Number) -> bool>(
        &self,
        field_name: &str,
        reached: F,
    ) -> (r: Result<Vec<usize>, AnalyticsError>)
        requires
            forall|value: Number, baseline: Number| call_requires(reached, (value, baseline)),
        ensures
            r.is_ok() == (samples(self@).len() > 0),
            match r {
                Ok(found) => {
                    &&& found@.len() >= 1
                    &&& found@[0] == 0
                    &&& found@.last() == samples(self@).len() - 1
                    &&& ascending(found@)
                    &&& forall|rule: spec_fn(Number, Number) -> bool| #[trigger]
                        computes(reached, rule) ==> found@ == indices(
                            first_readings(samples(self@), field_name@),
                            rule,
                        )
                },
                Err(e) => e == AnalyticsError::EmptyInput,
            },
    {
        indices_by(&self.records, field_name, reached)
    }

    /// The means of `fields` over each partition of the periodic samples by
    /// the growth of `by_field`, where `reached` says whether a reading has
    /// grown by the threshold over the baseline.
    pub fn partition_stats_for_fields<F: Fn(Number, Number) -> bool>(
        &self,
        by_field: &str,
        reached: F,
        fields: &Vec<String>,
    ) -> (r: Result<Vec<Vec<(String, Mean)>>, AnalyticsError>)
        requires
            forall|value: Number, baseline: Number| call_requires(reached, (value, baseline)),
        ensures
            r.is_ok() == (samples(self@).len() > 0),
            match r {
                Ok(stats) => forall|rule: spec_fn(Number, Number) -> bool| #[trigger]
                    computes(reached, rule) ==> is_stats(
                        stats@,
                        samples(self@),
                        indices(first_readings(samples(self@), by_field@), rule),
                        fields@,
                    ),
                Err(e) => e == AnalyticsError::EmptyInput,
            },
    {
        let boundaries = match indices_by(&self.records, by_field, reached) {
            Ok(boundaries) => boundaries,
            Err(e) => {
                return Err(e);
            },
        };
        let found = periodic(&self.records);
        proof {
            lemma_boundaries_cut(boundaries@, found@.len() as int);
        }
        Ok(window_stats(&found, &boundaries, fields))
    }

    /// The seconds that the periodic samples spend in each of `zones` zones
    /// of `field_name`, where `exceeds` says whether a reading exceeds the
    /// upper bound of a zone.
    pub fn zone_time_for<F: Fn(Number, usize) -> bool>(
        &self,
        zones: usize,
        field_name: &str,
        exceeds: F,
    ) -> (r: Option<Vec<i128>>)
        requires
            forall|value: Number, zone: usize|
                zone + 1 < zones ==> call_requires(exceeds, (value, zone)),
        ensures
            r.is_some() == (intervals_of(carriers(self@, field_name@), field_name@).len()
                <= max_intervals()),
            match r {
                Some(sums) => {
                    let intervals = intervals_of(carriers(self@, field_name@), field_name@);
                    &&& sums@.len() == zones
                    &&& zones > 0 ==> sum_of(sums@) == total_seconds(intervals)
                    &&& forall|above: spec_fn(Number, int) -> bool| #[trigger]
                        tells(exceeds, above) ==> forall|z: int|
                            0 <= z < zones ==> #[trigger] sums@[z] == zone_seconds(
                                intervals,
                                above,
                                zones as int,
                                z,
                            )
                },
                None => true,
            },
    {
        zone_time_for(&self.records, field_name, zones, exceeds)
    }

    /// The series of `field_name`, resampled into `num_of_points` buckets.
    pub fn sample_series_for_records(&self, field_name: &str, num_of_points: u16) -> (r: Result<
        Vec<SeriesPoint>,
        AnalyticsError,
    >)
        ensures
            match time_span(self@) {
                None => r matches Ok(series) && series@.len() == 0,
                Some((min, max)) => if num_of_points == 0 || bucket_width(
                    min as int,
                    max as int,
                    num_of_points as int,
                ) == 0 {
                    r == Err::<Vec<SeriesPoint>, AnalyticsError>(
                        AnalyticsError::InvalidBucketCount,
                    )
                } else {
                    r matches Ok(series) && is_series(
                        series@,
                        self@,
                        field_name@,
                        min as int,
                        bucket_width(min as int, max as int, num_of_points as int),
                    )
                },
            },
    {
        sample_series(&self.records, field_name, num_of_points)
    }
}

} // verus!
