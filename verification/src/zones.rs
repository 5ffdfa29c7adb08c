//! Time spent in each zone of a field's value.
//!
//! `zone_intervals` walks the samples that carry the field and returns, for
//! every pair of neighbours that counts, the later sample's reading and the
//! two times. `time_in_zones` classifies each reading and adds up the seconds.
//! Whether a reading exceeds the upper bound of a zone is a comparison of
//! widened numbers: the caller passes the function that makes it.

use vstd::prelude::*;
use crate::record::{
    first_reading, has_field, is_sample, lemma_pointees_push, pointees, stamp, FitDataRecordExt,
    Record,
};
use crate::value::Number;

verus! {

/// A stretch of time between two neighbouring samples, with the reading of
/// the later one.
#[derive(Clone, Copy, Debug, PartialEq, Eq)]
pub struct Interval {
    pub value: Number,
    pub start: i64,
    pub end: i64,
}

/// The periodic samples that have a field called `name`, in order.
pub open spec fn carriers(records: Seq<Record>, name: Seq<char>) -> Seq<Record>
    decreases records.len(),
{
    if records.len() == 0 {
        Seq::empty()
    } else {
        let head = carriers(records.drop_last(), name);
        if is_sample(records.last()) && has_field(records.last(), name) {
            head.push(records.last())
        } else {
            head
        }
    }
}

/// The intervals between neighbours in `carriers`: a pair counts when the
/// later record's first field called `name` holds a number and both records
/// have a time.
pub open spec fn intervals_of(carriers: Seq<Record>, name: Seq<char>) -> Seq<Interval>
    decreases carriers.len(),
{
    if carriers.len() < 2 {
        Seq::empty()
    } else {
        let head = intervals_of(carriers.drop_last(), name);
        let earlier = carriers[carriers.len() - 2];
        let later = carriers.last();
        match (first_reading(later, name), stamp(earlier), stamp(later)) {
            (Some(value), Some(start), Some(end)) => head.push(Interval { value, start, end }),
            _ => head,
        }
    }
}

/// The seconds an interval spans; negative when the times run backwards.
pub open spec fn span(interval: Interval) -> int {
    interval.end - interval.start
}

/// The zone of a reading among `zones` zones, searched from zone `from`: the
/// first zone whose upper bound the reading is not `above`, or the last zone.
pub open spec fn zone_from(
    above: spec_fn(Number, int) -> bool,
    value: Number,
    zones: int,
    from: int,
) -> int
    decreases zones - from,
{
    if from < 0 || from + 1 >= zones {
        from
    } else if above(value, from) {
        zone_from(above, value, zones, from + 1)
    } else {
        from
    }
}

/// The zone of a reading. The search always starts at the first zone.
pub open spec fn zone_of(above: spec_fn(Number, int) -> bool, value: Number, zones: int) -> int {
    zone_from(above, value, zones, 0)
}

/// The seconds that `intervals` put into `zone`.
pub open spec fn zone_seconds(
    intervals: Seq<Interval>,
    above: spec_fn(Number, int) -> bool,
    zones: int,
    zone: int,
) -> int
    decreases intervals.len(),
{
    if intervals.len() == 0 {
        0
    } else {
        let head = zone_seconds(intervals.drop_last(), above, zones, zone);
        if zone_of(above, intervals.last().value, zones) == zone {
            head + span(intervals.last())
        } else {
            head
        }
    }
}

/// The seconds that all `intervals` span together.
pub open spec fn total_seconds(intervals: Seq<Interval>) -> int
    decreases intervals.len(),
{
    if intervals.len() == 0 {
        0
    } else {
        total_seconds(intervals.drop_last()) + span(intervals.last())
    }
}

/// The sum of `sums`.
pub open spec fn sum_of(sums: Seq<i128>) -> int
    decreases sums.len(),
{
    if sums.len() == 0 {
        0
    } else {
        sum_of(sums.drop_last()) + sums.last()
    }
}

/// Whether the function `exceeds` computes the comparison `above`: whatever
/// it returns on a reading and a zone is what `above` says of them.
pub open spec fn tells<F: Fn(Number, usize) -> bool>(
    exceeds: F,
    above: spec_fn(Number, int) -> bool,
) -> bool {
    forall|value: Number, zone: usize, out: bool|
        call_ensures(exceeds, (value, zone), out) ==> out == above(value, zone as int)
}

/// The largest number of intervals whose seconds can be added up without
/// leaving the range of the sums. No vector in memory is longer.
pub open spec fn max_intervals() -> int {
    0x7fff_ffff_ffff_ffff
}

/// The search for a zone ends in a zone.
pub proof fn lemma_zone_from_in_range(
    above: spec_fn(Number, int) -> bool,
    value: Number,
    zones: int,
    from: int,
)
    requires
        0 <= from < zones,
    ensures
        from <= zone_from(above, value, zones, from) < zones,
    decreases zones - from,
{
    if from + 1 < zones && above(value, from) {
        lemma_zone_from_in_range(above, value, zones, from + 1);
    }
}

/// Adding to one of the sums adds as much to the sum of them all.
pub proof fn lemma_sum_of_update(sums: Seq<i128>, at: int, more: i128)
    requires
        0 <= at < sums.len(),
    ensures
        sum_of(sums.update(at, more)) == sum_of(sums) - sums[at] + more,
    decreases sums.len(),
{
    let next = sums.update(at, more);
    if at == sums.len() - 1 {
        assert(next.drop_last() =~= sums.drop_last());
    } else {
        assert(next.drop_last() =~= sums.drop_last().update(at, more));
        lemma_sum_of_update(sums.drop_last(), at, more);
    }
}

/// Sums that are all zero add up to zero.
pub proof fn lemma_sum_of_zeros(sums: Seq<i128>)
    requires
        forall|z: int| 0 <= z < sums.len() ==> sums[z] == 0,
    ensures
        sum_of(sums) == 0,
    decreases sums.len(),
{
    if sums.len() > 0 {
        lemma_sum_of_zeros(sums.drop_last());
    }
}

/// The periodic samples of `records` that have a field called `name`.
pub fn carrying<'a>(records: &'a Vec<Record>, name: &str) -> (r: Vec<&'a Record>)
    ensures
        pointees(r@) == carriers(records@, name@),
{
    let mut out: Vec<&Record> = Vec::new();
    let mut i: usize = 0;
    while i < records.len()
        invariant
            i <= records@.len(),
            pointees(out@) =~= carriers(records@.take(i as int), name@),
        decreases records@.len() - i,
    {
        proof {
            assert(records@.take(i + 1).drop_last() =~= records@.take(i as int));
            assert(records@.take(i + 1).last() == records@[i as int]);
        }
        if records[i].is_sample() && records[i].has_field(name) {
            proof {
                lemma_pointees_push(out@, &records@[i as int]);
            }
            out.push(&records[i]);
        }
        i += 1;
    }
    proof {
        assert(records@.take(i as int) =~= records@);
    }
    out
}

/// The intervals that count towards the zones of the field called `name`,
/// in order.
pub fn zone_intervals(records: &Vec<Record>, name: &str) -> (r: Vec<Interval>)
    ensures
        r@ == intervals_of(carriers(records@, name@), name@),
{
    let found = carrying(records, name);
    let ghost all = pointees(found@);
    let mut out: Vec<Interval> = Vec::new();
    if found.len() < 2 {
        return out;
    }
    proof {
        assert(intervals_of(all.take(1), name@) =~= Seq::<Interval>::empty());
    }
    let mut i: usize = 1;
    while i < found.len()
        invariant
            1 <= i <= found@.len(),
            all == pointees(found@),
            out@ =~= intervals_of(all.take(i as int), name@),
        decreases found@.len() - i,
    {
        proof {
            let next = all.take(i + 1);
            assert(next.drop_last() =~= all.take(i as int));
            assert(next.last() == *found@[i as int]);
            assert(next[next.len() - 2] == *found@[i - 1]);
        }
        let earlier: &Record = found[i - 1];
        let later: &Record = found[i];
        match (later.reading(name), earlier.timestamp(), later.timestamp()) {
            (Some(value), Some(start), Some(end)) => out.push(Interval { value, start, end }),
            _ => {},
        }
        i += 1;
    }
    proof {
        assert(all.take(i as int) =~= all);
    }
    out
}

/// The seconds spent in each of `zones` zones, in zone order.
///
/// `exceeds` is asked, for a reading and a zone before the last, whether the
/// reading exceeds the upper bound of that zone. A reading is classified by
/// asking from the first zone on until the answer is no or the last zone is
/// reached, and its interval's seconds go to that zone. A zone that no
/// reading falls into gets 0, and with a zone to go to the seconds of all
/// zones add up to the seconds of all intervals. There is no result when
/// there are more intervals than can be added up.
pub fn time_in_zones<F: Fn(Number, usize) -> bool>(
    intervals: &Vec<Interval>,
    zones: usize,
    exceeds: F,
) -> (r: Option<Vec<i128>>)
    requires
        forall|value: Number, zone: usize|
            zone + 1 < zones ==> call_requires(exceeds, (value, zone)),
    ensures
        r.is_some() == (intervals@.len() <= max_intervals()),
        match r {
            Some(sums) => {
                &&& sums@.len() == zones
                &&& zones > 0 ==> sum_of(sums@) == total_seconds(intervals@)
                &&& forall|above: spec_fn(Number, int) -> bool| #[trigger]
                    tells(exceeds, above) ==> forall|z: int|
                        0 <= z < zones ==> #[trigger] sums@[z] == zone_seconds(
                            intervals@,
                            above,
                            zones as int,
                            z,
                        )
            },
            None => true,
        },
{
    if intervals.len() as u64 > 0x7fff_ffff_ffff_ffff {
        return None;
    }
    let mut sums: Vec<i128> = Vec::new();
    let mut z: usize = 0;
    while z < zones
        invariant
            z <= zones,
            sums@.len() == z,
            forall|j: int| 0 <= j < z ==> sums@[j] == 0,
        decreases zones - z,
    {
        sums.push(0);
        z += 1;
    }
    if zones == 0 {
        return Some(sums);
    }
    proof {
        lemma_sum_of_zeros(sums@);
    }
    let mut k: usize = 0;
    while k < intervals.len()
        invariant
            k <= intervals@.len() <= max_intervals(),
            zones > 0,
            forall|value: Number, zone: usize|
                zone + 1 < zones ==> call_requires(exceeds, (value, zone)),
            sums@.len() == zones,
            sum_of(sums@) == total_seconds(intervals@.take(k as int)),
            forall|above: spec_fn(Number, int) -> bool| #[trigger]
                tells(exceeds, above) ==> forall|j: int|
                    0 <= j < zones ==> #[trigger] sums@[j] == zone_seconds(
                        intervals@.take(k as int),
                        above,
                        zones as int,
                        j,
                    ),
            forall|j: int|
                0 <= j < zones ==> -(k * 0x1_0000_0000_0000_0000) <= #[trigger] sums@[j] <= k
                    * 0x1_0000_0000_0000_0000,
        decreases intervals@.len() - k,
    {
        let interval = intervals[k];
        let mut zone: usize = 0;
        while zone < zones - 1 && exceeds(interval.value, zone)
            invariant
                zone < zones,
                forall|value: Number, zone: usize|
                    zone + 1 < zones ==> call_requires(exceeds, (value, zone)),
                forall|above: spec_fn(Number, int) -> bool| #[trigger]
                    tells(exceeds, above) ==> zone_from(
                        above,
                        interval.value,
                        zones as int,
                        zone as int,
                    ) == zone_of(above, interval.value, zones as int),
            decreases zones - zone,
        {
            zone += 1;
        }
        let seconds: i128 = interval.end as i128 - interval.start as i128;
        let sum: i128 = sums[zone] + seconds;
        let ghost before = sums@;
        sums.set(zone, sum);
        proof {
            assert(intervals@.take(k + 1).drop_last() =~= intervals@.take(k as int));
            assert(intervals@.take(k + 1).last() == interval);
            lemma_sum_of_update(before, zone as int, sum);
            assert forall|above: spec_fn(Number, int) -> bool| #[trigger]
                tells(exceeds, above) implies forall|j: int|
                0 <= j < zones ==> #[trigger] sums@[j] == zone_seconds(
                    intervals@.take(k + 1),
                    above,
                    zones as int,
                    j,
                ) by {
                assert(zone_of(above, interval.value, zones as int) == zone);
                assert forall|j: int| 0 <= j < zones implies #[trigger] sums@[j] == zone_seconds(
                    intervals@.take(k + 1),
                    above,
                    zones as int,
                    j,
                ) by {
                    assert(before[j] == zone_seconds(
                        intervals@.take(k as int),
                        above,
                        zones as int,
                        j,
                    ));
                }
            }
        }
        k += 1;
    }
    proof {
        assert(intervals@.take(k as int) =~= intervals@);
    }
    Some(sums)
}

/// The seconds that the periodic samples of `records` spend in each of
/// `zones` zones of the field called `name`, in zone order.
pub fn zone_time_for<F: Fn(Number, usize) -> bool>(
    records: &Vec<Record>,
    name: &str,
    zones: usize,
    exceeds: F,
) -> (r: Option<Vec<i128>>)
    requires
        forall|value: Number, zone: usize|
            zone + 1 < zones ==> call_requires(exceeds, (value, zone)),
    ensures
        r.is_some() == (intervals_of(carriers(records@, name@), name@).len() <= max_intervals()),
        match r {
            Some(sums) => {
                let intervals = intervals_of(carriers(records@, name@), name@);
                &&& sums@.len() == zones
                &&& zones > 0 ==> sum_of(sums@) == total_seconds(intervals)
                &&& forall|above: spec_fn(Number, int) -> bool| #[trigger]
                    tells(exceeds, above) ==> forall|z: int|
                        0 <= z < zones ==> #[trigger] sums@[z] == zone_seconds(
                            intervals,
                            above,
                            zones as int,
                            z,
                        )
            },
            None => true,
        },
{
    let intervals = zone_intervals(records, name);
    time_in_zones(&intervals, zones, exceeds)
}

/// The seconds in the zones below `zones`, added up.
pub open spec fn seconds_below(
    intervals: Seq<Interval>,
    above: spec_fn(Number, int) -> bool,
    zones: int,
    upto: int,
) -> int
    decreases upto,
{
    if upto <= 0 {
        0
    } else {
        seconds_below(intervals, above, zones, upto - 1) + zone_seconds(
            intervals,
            above,
            zones,
            upto - 1,
        )
    }
}

/// The seconds that an interval adds to the zones below `upto`: its span if
/// its zone is among them, and nothing otherwise.
proof fn lemma_seconds_below_step(
    intervals: Seq<Interval>,
    above: spec_fn(Number, int) -> bool,
    zones: int,
    upto: int,
)
    requires
        intervals.len() > 0,
        upto >= 0,
    ensures
        seconds_below(intervals, above, zones, upto) == seconds_below(
            intervals.drop_last(),
            above,
            zones,
            upto,
        ) + if 0 <= zone_of(above, intervals.last().value, zones) < upto {
            span(intervals.last())
        } else {
            0
        },
    decreases upto,
{
    if upto > 0 {
        lemma_seconds_below_step(intervals, above, zones, upto - 1);
    }
}

/// With nothing to add up, no zone holds any seconds.
proof fn lemma_seconds_below_empty(
    intervals: Seq<Interval>,
    above: spec_fn(Number, int) -> bool,
    zones: int,
    upto: int,
)
    requires
        intervals.len() == 0,
    ensures
        seconds_below(intervals, above, zones, upto) == 0,
    decreases upto,
{
    if upto > 0 {
        lemma_seconds_below_empty(intervals, above, zones, upto - 1);
    }
}

/// The seconds of all zones together are the seconds of all intervals
/// together, whatever the comparison: every interval that counts goes to
/// exactly one zone.
pub proof fn lemma_zones_share_total(
    intervals: Seq<Interval>,
    above: spec_fn(Number, int) -> bool,
    zones: int,
)
    requires
        zones > 0,
    ensures
        seconds_below(intervals, above, zones, zones) == total_seconds(intervals),
    decreases intervals.len(),
{
    if intervals.len() == 0 {
        lemma_seconds_below_empty(intervals, above, zones, zones);
    } else {
        lemma_zones_share_total(intervals.drop_last(), above, zones);
        lemma_seconds_below_step(intervals, above, zones, zones);
        lemma_zone_from_in_range(above, intervals.last().value, zones, 0);
    }
}

} // verus!
