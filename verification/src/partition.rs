//! Splitting the periodic samples into partitions by the growth of a field.
//!
//! Whether a reading has grown by the threshold over the baseline is a
//! comparison of widened numbers, which the caller makes. The scan hands out
//! one comparison at a time and takes its outcome back.

use vstd::prelude::*;
use crate::error::AnalyticsError;
use crate::record::{first_reading, periodic, pointees, samples, Record};
use crate::value::Number;

verus! {

/// The first reading of each record, in order.
pub open spec fn first_readings(records: Seq<Record>, name: Seq<char>) -> Seq<Option<Number>> {
    records.map_values(|r: Record| first_reading(r, name))
}

/// The first position at or after `from` that holds a reading, or the length
/// if there is none.
pub open spec fn next_reading(readings: Seq<Option<Number>>, from: int) -> int
    decreases readings.len() - from,
{
    if from < 0 || from >= readings.len() {
        readings.len() as int
    } else if readings[from] is Some {
        from
    } else {
        next_reading(readings, from + 1)
    }
}

/// Whether `s` rises strictly from one element to the next.
pub open spec fn ascending(s: Seq<usize>) -> bool {
    forall|i: int, j: int| 0 <= i < j < s.len() ==> s[i] < s[j]
}

/// The boundaries once the scan is closed: the last position is added unless
/// it is the last boundary already.
pub open spec fn closed(boundaries: Seq<usize>, count: int) -> Seq<usize> {
    if boundaries.len() > 0 && boundaries.last() == count - 1 {
        boundaries
    } else {
        boundaries.push((count - 1) as usize)
    }
}

/// The partition rule up to position `upto`, for a comparison `reached` of a
/// reading with the baseline: the boundaries and the baseline after the
/// samples before `upto`. Position 0 is a boundary and the baseline starts at
/// zero; every later sample whose reading has reached the threshold over the
/// baseline becomes a boundary, and its reading the baseline.
pub open spec fn scanned(
    readings: Seq<Option<Number>>,
    reached: spec_fn(Number, Number) -> bool,
    upto: int,
) -> (Seq<usize>, Number)
    decreases upto,
{
    if upto <= 1 {
        (seq![0usize], Number::Signed(0))
    } else {
        let (found, baseline) = scanned(readings, reached, upto - 1);
        match readings[upto - 1] {
            Some(value) => if reached(value, baseline) {
                (found.push((upto - 1) as usize), value)
            } else {
                (found, baseline)
            },
            None => (found, baseline),
        }
    }
}

/// The partition boundaries of `readings` for a comparison `reached`: what
/// the rule finds over all samples, closed with the last position.
pub open spec fn indices(
    readings: Seq<Option<Number>>,
    reached: spec_fn(Number, Number) -> bool,
) -> Seq<usize> {
    closed(scanned(readings, reached, readings.len() as int).0, readings.len() as int)
}

/// A scan over the periodic samples that collects partition boundaries.
///
/// Position 0 is always a boundary and the baseline starts at zero. The scan
/// rests on the next sample that has a reading; if the caller finds that the
/// reading has reached the threshold over the baseline, the sample becomes a
/// boundary and its reading the new baseline.
#[derive(Debug)]
pub struct Partitioner {
    readings: Vec<Option<Number>>,
    cursor: usize,
    boundaries: Vec<usize>,
    baseline: Number,
}

impl Partitioner {
    #[verifier::type_invariant]
    spec fn inv(self) -> bool {
        &&& self.readings@.len() >= 1
        &&& 1 <= self.cursor <= self.readings@.len()
        &&& self.cursor < self.readings@.len() ==> self.readings@[self.cursor as int] is Some
        &&& self.boundaries@.len() >= 1
        &&& self.boundaries@[0] == 0
        &&& ascending(self.boundaries@)
        &&& forall|i: int| 0 <= i < self.boundaries@.len() ==> self.boundaries@[i] < self.cursor
    }

    /// The first reading of every periodic sample.
    pub closed spec fn readings(self) -> Seq<Option<Number>> {
        self.readings@
    }

    /// The position the scan rests on; the number of samples once it is over.
    pub closed spec fn cursor(self) -> usize {
        self.cursor
    }

    /// The boundaries found so far.
    pub closed spec fn boundaries(self) -> Seq<usize> {
        self.boundaries@
    }

    /// The reading at the last boundary that was set by a reading; zero at
    /// the start.
    pub closed spec fn baseline(self) -> Number {
        self.baseline
    }

    /// Whether a comparison is awaited.
    pub open spec fn awaiting(self) -> bool {
        self.cursor() < self.readings().len()
    }

    /// What holds of a scan at every step: there is a sample; the scan rests
    /// behind position 0, on a sample with a reading unless it is over; and
    /// the boundaries start with position 0, rise strictly and lie before the
    /// position the scan rests on.
    pub open spec fn orderly(self) -> bool {
        &&& self.readings().len() >= 1
        &&& 1 <= self.cursor() <= self.readings().len()
        &&& self.awaiting() ==> self.readings()[self.cursor() as int] is Some
        &&& self.boundaries().len() >= 1
        &&& self.boundaries()[0] == 0
        &&& ascending(self.boundaries())
        &&& forall|i: int|
            0 <= i < self.boundaries().len() ==> #[trigger] self.boundaries()[i] < self.cursor()
    }

    /// Whether `next` is this scan after the outcome `reached` of the awaited
    /// comparison: the sample becomes a boundary and its reading the baseline
    /// if the threshold is reached, and the scan moves on to the next sample
    /// with a reading. Without an awaited comparison nothing changes.
    pub open spec fn steps_to(self, reached: bool, next: Partitioner) -> bool {
        &&& next.readings() == self.readings()
        &&& !self.awaiting() ==> next.cursor() == self.cursor() && next.boundaries()
            == self.boundaries() && next.baseline() == self.baseline()
        &&& self.awaiting() ==> next.cursor() == next_reading(
            self.readings(),
            self.cursor() + 1,
        )
        &&& self.awaiting() && reached ==> next.boundaries() == self.boundaries().push(
            self.cursor(),
        ) && Some(next.baseline()) == self.readings()[self.cursor() as int]
        &&& self.awaiting() && !reached ==> next.boundaries() == self.boundaries()
            && next.baseline() == self.baseline()
    }

    /// Whether the scan stands where the partition rule for the comparison
    /// `reached` stands after the samples before the cursor.
    pub open spec fn on_rule(self, reached: spec_fn(Number, Number) -> bool) -> bool {
        (self.boundaries(), self.baseline()) == scanned(
            self.readings(),
            reached,
            self.cursor() as int,
        )
    }

    /// Starts a scan over the periodic samples of `records` for the field
    /// called `name`. There must be a sample.
    pub fn begin(records: &Vec<Record>, name: &str) -> (r: Result<Partitioner, AnalyticsError>)
        ensures
            r.is_ok() == (samples(records@).len() > 0),
            match r {
                Ok(scan) => {
                    &&& scan.orderly()
                    &&& scan.readings() == first_readings(samples(records@), name@)
                    &&& scan.cursor() == next_reading(scan.readings(), 1)
                    &&& scan.boundaries() == seq![0usize]
                    &&& scan.baseline() == Number::Signed(0)
                },
                Err(e) => e == AnalyticsError::EmptyInput,
            },
    {
        let found = periodic(records);
        if found.len() == 0 {
            return Err(AnalyticsError::EmptyInput);
        }
        let mut readings: Vec<Option<Number>> = Vec::new();
        let mut i: usize = 0;
        while i < found.len()
            invariant
                i <= found@.len(),
                readings@.len() == i,
                forall|k: int|
                    0 <= k < i ==> readings@[k] == first_reading(*#[trigger] found@[k], name@),
            decreases found@.len() - i,
        {
            readings.push(found[i].reading(name));
            i += 1;
        }
        proof {
            assert(readings@ =~= first_readings(pointees(found@), name@));
        }
        let cursor = skip_to_reading(&readings, 1);
        let mut boundaries: Vec<usize> = Vec::new();
        boundaries.push(0);
        proof {
            assert(boundaries@ =~= seq![0usize]);
        }
        Ok(Partitioner { readings, cursor, boundaries, baseline: Number::Signed(0) })
    }

    /// The comparison that is awaited: the reading the scan rests on, and the
    /// baseline to hold it against. `None` once every sample has been seen.
    pub fn pending(&self) -> (r: Option<(Number, Number)>)
        ensures
            self.orderly(),
            r.is_some() == self.awaiting(),
            self.awaiting() ==> r == Some(
                (self.readings()[self.cursor() as int].unwrap(), self.baseline()),
            ),
    {
        proof {
            use_type_invariant(self);
        }
        if self.cursor < self.readings.len() {
            match self.readings[self.cursor] {
                Some(value) => Some((value, self.baseline)),
                None => None,
            }
        } else {
            None
        }
    }

    /// Takes the outcome of the awaited comparison. If the reading has
    /// `reached` the threshold, the sample becomes a boundary and its reading
    /// the baseline. Either way the scan moves on to the next sample that
    /// has a reading. Without an awaited comparison nothing changes.
    pub fn decide(self, reached: bool) -> (r: Partitioner)
        ensures
            self.orderly(),
            r.orderly(),
            self.steps_to(reached, r),
    {
        proof {
            use_type_invariant(&self);
        }
        if self.cursor >= self.readings.len() {
            return self;
        }
        let Partitioner { readings, cursor, boundaries, baseline } = self;
        let mut boundaries = boundaries;
        let mut baseline = baseline;
        if reached {
            match readings[cursor] {
                Some(value) => {
                    boundaries.push(cursor);
                    baseline = value;
                },
                None => {},
            }
        }
        let next = skip_to_reading(&readings, cursor + 1);
        Partitioner { readings, cursor: next, boundaries, baseline }
    }

    /// Closes the scan and returns the boundaries: position 0 first, the last
    /// position last, rising strictly in between.
    pub fn finish(self) -> (r: Vec<usize>)
        ensures
            self.orderly(),
            r@ == closed(self.boundaries(), self.readings().len() as int),
            r@.len() >= 1,
            r@[0] == 0,
            r@.last() == self.readings().len() - 1,
            ascending(r@),
    {
        proof {
            use_type_invariant(&self);
        }
        let last = self.readings.len() - 1;
        let mut boundaries = self.boundaries;
        if boundaries[boundaries.len() - 1] != last {
            boundaries.push(last);
        }
        boundaries
    }
}

/// The first position at or after `from` that holds a reading.
fn skip_to_reading(readings: &Vec<Option<Number>>, from: usize) -> (r: usize)
    requires
        from <= readings@.len(),
    ensures
        r == next_reading(readings@, from as int),
        from <= r <= readings@.len(),
        r < readings@.len() ==> readings@[r as int] is Some,
{
    let mut i: usize = from;
    while i < readings.len() && readings[i].is_none()
        invariant
            from <= i <= readings@.len(),
            next_reading(readings@, from as int) == next_reading(readings@, i as int),
        decreases readings@.len() - i,
    {
        i += 1;
    }
    i
}

/// Whether the function `reached` computes the comparison `rule`: whatever it
/// returns on a reading and a baseline is what `rule` says of them.
pub open spec fn computes<F: Fn(Number, Number) -> bool>(
    reached: F,
    rule: spec_fn(Number, Number) -> bool,
) -> bool {
    forall|value: Number, baseline: Number, out: bool|
        call_ensures(reached, (value, baseline), out) ==> out == rule(value, baseline)
}

/// The next position with a reading lies at or behind the one asked from.
pub proof fn lemma_next_reading_bounds(readings: Seq<Option<Number>>, from: int)
    requires
        0 <= from <= readings.len(),
    ensures
        from <= next_reading(readings, from) <= readings.len(),
    decreases readings.len() - from,
{
    if from < readings.len() && readings[from] is None {
        lemma_next_reading_bounds(readings, from + 1);
    }
}

/// The partition boundaries of the periodic samples of `records` by the
/// growth of the field called `name`.
///
/// `reached` is asked, for a reading and the baseline, whether the reading
/// has grown by the threshold over the baseline. The boundaries start with
/// position 0 and end with the last position; in between lies every sample
/// for which `reached` said yes. Without a periodic sample there is no
/// partition.
pub fn indices_by<F: Fn(Number, Number) -> bool>(records: &Vec<Record>, name: &str, reached: F) -> (r:
    Result<Vec<usize>, AnalyticsError>)
    requires
        forall|value: Number, baseline: Number| call_requires(reached, (value, baseline)),
    ensures
        r.is_ok() == (samples(records@).len() > 0),
        match r {
            Ok(found) => {
                &&& found@.len() >= 1
                &&& found@[0] == 0
                &&& found@.last() == samples(records@).len() - 1
                &&& ascending(found@)
                &&& forall|rule: spec_fn(Number, Number) -> bool| #[trigger]
                    computes(reached, rule) ==> found@ == indices(
                        first_readings(samples(records@), name@),
                        rule,
                    )
            },
            Err(e) => e == AnalyticsError::EmptyInput,
        },
{
    let mut scan = match Partitioner::begin(records, name) {
        Ok(scan) => scan,
        Err(e) => {
            return Err(e);
        },
    };
    proof {
        assert forall|rule: spec_fn(Number, Number) -> bool| #[trigger]
            computes(reached, rule) implies scan.on_rule(rule) by {
            lemma_begin_on_rule(scan, rule);
        }
    }
    loop
        invariant
            forall|value: Number, baseline: Number| call_requires(reached, (value, baseline)),
            scan.orderly(),
            scan.readings() == first_readings(samples(records@), name@),
            forall|rule: spec_fn(Number, Number) -> bool| #[trigger]
                computes(reached, rule) ==> scan.on_rule(rule),
        ensures
            !scan.awaiting(),
        decreases scan.readings().len() - scan.cursor(),
    {
        match scan.pending() {
            Some((value, baseline)) => {
                let verdict = reached(value, baseline);
                let ghost before = scan;
                scan = scan.decide(verdict);
                proof {
                    lemma_next_reading_bounds(before.readings(), before.cursor() + 1);
                    assert forall|rule: spec_fn(Number, Number) -> bool| #[trigger]
                        computes(reached, rule) implies scan.on_rule(rule) by {
                        lemma_step_on_rule(before, verdict, scan, rule);
                    }
                }
            },
            None => {
                break ;
            },
        }
    }
    let ghost last = scan;
    let found = scan.finish();
    proof {
        assert forall|rule: spec_fn(Number, Number) -> bool| #[trigger]
            computes(reached, rule) implies found@ == indices(
            first_readings(samples(records@), name@),
            rule,
        ) by {
            lemma_finish_on_rule(last, rule);
        }
    }
    Ok(found)
}

/// Samples without a reading leave the rule where it stands.
pub proof fn lemma_rule_skips(
    readings: Seq<Option<Number>>,
    reached: spec_fn(Number, Number) -> bool,
    from: int,
)
    requires
        1 <= from <= readings.len(),
    ensures
        scanned(readings, reached, next_reading(readings, from)) == scanned(
            readings,
            reached,
            from,
        ),
    decreases readings.len() - from,
{
    if from < readings.len() && readings[from] is None {
        lemma_rule_skips(readings, reached, from + 1);
    }
}

/// A scan that has just begun stands on the rule, whatever the comparison.
pub proof fn lemma_begin_on_rule(scan: Partitioner, reached: spec_fn(Number, Number) -> bool)
    requires
        scan.orderly(),
        scan.cursor() == next_reading(scan.readings(), 1),
        scan.boundaries() == seq![0usize],
        scan.baseline() == Number::Signed(0),
    ensures
        scan.on_rule(reached),
{
    lemma_rule_skips(scan.readings(), reached, 1);
}

/// A scan that stands on the rule still does after a step, if the outcome it
/// was given is that of the rule's comparison.
pub proof fn lemma_step_on_rule(
    scan: Partitioner,
    verdict: bool,
    next: Partitioner,
    reached: spec_fn(Number, Number) -> bool,
)
    requires
        scan.orderly(),
        scan.awaiting(),
        scan.on_rule(reached),
        verdict == reached(scan.readings()[scan.cursor() as int].unwrap(), scan.baseline()),
        scan.steps_to(verdict, next),
    ensures
        next.on_rule(reached),
{
    lemma_rule_skips(scan.readings(), reached, scan.cursor() + 1);
}

/// A scan that stands on the rule and is over closes with the partition
/// boundaries of the rule.
pub proof fn lemma_finish_on_rule(scan: Partitioner, reached: spec_fn(Number, Number) -> bool)
    requires
        scan.orderly(),
        !scan.awaiting(),
        scan.on_rule(reached),
    ensures
        closed(scan.boundaries(), scan.readings().len() as int) == indices(
            scan.readings(),
            reached,
        ),
{
}

/// The partition boundaries start with position 0, end with the last
/// position and rise strictly, whatever the comparison.
pub proof fn lemma_indices_span(
    readings: Seq<Option<Number>>,
    reached: spec_fn(Number, Number) -> bool,
)
    requires
        1 <= readings.len() <= usize::MAX,
    ensures
        indices(readings, reached).len() >= 1,
        indices(readings, reached)[0] == 0,
        indices(readings, reached).last() == readings.len() - 1,
        ascending(indices(readings, reached)),
{
    lemma_scanned_rises(readings, reached, readings.len() as int);
    let found = scanned(readings, reached, readings.len() as int).0;
    let all = indices(readings, reached);
    if found.last() != readings.len() - 1 {
        assert forall|i: int, j: int| 0 <= i < j < all.len() implies all[i] < all[j] by {
            if j == found.len() {
                assert(found[i] < readings.len());
                assert(found[i] <= found[found.len() - 1]);
            } else {
                assert(found[i] < found[j]);
            }
        }
    }
}

/// What the rule has found rises strictly from position 0 and lies before
/// the position it has come to.
pub proof fn lemma_scanned_rises(
    readings: Seq<Option<Number>>,
    reached: spec_fn(Number, Number) -> bool,
    upto: int,
)
    requires
        1 <= upto <= readings.len() <= usize::MAX,
    ensures
        scanned(readings, reached, upto).0.len() >= 1,
        scanned(readings, reached, upto).0[0] == 0,
        ascending(scanned(readings, reached, upto).0),
        forall|i: int|
            0 <= i < scanned(readings, reached, upto).0.len() ==> #[trigger] scanned(
                readings,
                reached,
                upto,
            ).0[i] < upto,
    decreases upto,
{
    if upto > 1 {
        lemma_scanned_rises(readings, reached, upto - 1);
    }
}

} // verus!
