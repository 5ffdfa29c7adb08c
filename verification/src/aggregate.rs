//! Gathering of every occurrence of a field, and what a mean and an ascent
//! are taken over.

use vstd::prelude::*;
use crate::record::{
    has_field, is_sample, lemma_pointees_push, pointees, str_eq, Field, Record,
};
use crate::value::{number_of, Number};

verus! {

/// The fields called `name`, in order.
pub open spec fn matching(fields: Seq<Field>, name: Seq<char>) -> Seq<Field>
    decreases fields.len(),
{
    if fields.len() == 0 {
        Seq::empty()
    } else {
        let head = matching(fields.drop_last(), name);
        if fields.last().name@ == name {
            head.push(fields.last())
        } else {
            head
        }
    }
}

/// Every field called `name` in every periodic sample, in record order and,
/// within a record, in field order. A record contributes each of its matches.
pub open spec fn occurrences(records: Seq<Record>, name: Seq<char>) -> Seq<Field>
    decreases records.len(),
{
    if records.len() == 0 {
        Seq::empty()
    } else {
        let head = occurrences(records.drop_last(), name);
        if is_sample(records.last()) {
            head + matching(records.last().fields@, name)
        } else {
            head
        }
    }
}

/// The numbers among the fields' values, in order; other values are dropped.
pub open spec fn readings(fields: Seq<Field>) -> Seq<Number>
    decreases fields.len(),
{
    if fields.len() == 0 {
        Seq::empty()
    } else {
        let head = readings(fields.drop_last());
        match number_of(fields.last().value) {
            Some(n) => head.push(n),
            None => head,
        }
    }
}

/// For every two neighbouring fields that both hold a number, the pair of
/// the earlier and the later number, in order.
pub open spec fn climbs(fields: Seq<Field>) -> Seq<(Number, Number)>
    decreases fields.len(),
{
    if fields.len() < 2 {
        Seq::empty()
    } else {
        let head = climbs(fields.drop_last());
        match (number_of(fields[fields.len() - 2].value), number_of(fields.last().value)) {
            (Some(a), Some(b)) => head.push((a, b)),
            _ => head,
        }
    }
}

/// The units of a mean over `fields`: those of the first field, or none when
/// no field holds a number.
pub open spec fn mean_units(fields: Seq<Field>) -> Seq<char> {
    if readings(fields).len() == 0 {
        Seq::empty()
    } else {
        fields[0].units@
    }
}

/// The units of an ascent over `fields`: those of the first field, or none
/// when there is no field.
pub open spec fn gain_units(fields: Seq<Field>) -> Seq<char> {
    if fields.len() == 0 {
        Seq::empty()
    } else {
        fields[0].units@
    }
}

/// What an arithmetic mean is taken over. With no operand the mean counts as
/// zero with empty units.
#[derive(Debug, PartialEq)]
pub struct Mean {
    pub operands: Vec<Number>,
    pub units: String,
}

/// What an ascent is summed over: each step contributes its rise where the
/// later number is the greater, and nothing otherwise.
#[derive(Debug, PartialEq)]
pub struct Gain {
    pub steps: Vec<(Number, Number)>,
    pub units: String,
}

/// Whether the function `accumulate` computes `plus`.
pub open spec fn adds<A, F: Fn(A, Number) -> A>(
    accumulate: F,
    plus: spec_fn(A, Number) -> A,
) -> bool {
    forall|sum: A, n: Number, out: A|
        call_ensures(accumulate, (sum, n), out) ==> out == plus(sum, n)
}

/// Whether the function `divide` computes `over`.
pub open spec fn divides<A, F: Fn(A, usize) -> A>(divide: F, over: spec_fn(A, int) -> A) -> bool {
    forall|sum: A, count: usize, out: A|
        call_ensures(divide, (sum, count), out) ==> out == over(sum, count as int)
}

/// Whether the function `rise` computes `climb`.
pub open spec fn lifts<A, F: Fn(A, Number, Number) -> A>(
    rise: F,
    climb: spec_fn(A, (Number, Number)) -> A,
) -> bool {
    forall|sum: A, earlier: Number, later: Number, out: A|
        call_ensures(rise, (sum, earlier, later), out) ==> out == climb(sum, (earlier, later))
}

impl Mean {
    /// The mean and its units, in the caller's arithmetic on a type of
    /// its choice. With no operand the mean is `zero`. Otherwise the operands
    /// are added to `zero` one after the other with `accumulate`, and `divide`
    /// divides their sum by their number.
    pub fn value<A, Add: Fn(A, Number) -> A, Div: Fn(A, usize) -> A>(
        &self,
        zero: A,
        accumulate: Add,
        divide: Div,
    ) -> (r: (A, String))
        requires
            forall|sum: A, n: Number| call_requires(accumulate, (sum, n)),
            forall|sum: A, count: usize| count > 0 ==> call_requires(divide, (sum, count)),
        ensures
            r.1@ == self.units@,
            self.operands@.len() == 0 ==> r.0 == zero,
            forall|plus: spec_fn(A, Number) -> A, over: spec_fn(A, int) -> A|
                #![trigger adds(accumulate, plus), divides(divide, over)]
                adds(accumulate, plus) && divides(divide, over) && self.operands@.len() > 0 ==> r.0 == over(
                    self.operands@.fold_left(zero, plus),
                    self.operands@.len() as int,
                ),
    {
        let count = self.operands.len();
        if count == 0 {
            return (zero, self.units.clone());
        }
        let mut sum = zero;
        let mut i: usize = 0;
        while i < count
            invariant
                i <= count == self.operands@.len(),
                forall|sum: A, n: Number| call_requires(accumulate, (sum, n)),
                forall|plus: spec_fn(A, Number) -> A| #[trigger]
                    adds(accumulate, plus) ==> sum == self.operands@.take(i as int).fold_left(zero, plus),
            decreases count - i,
        {
            proof {
                assert(self.operands@.take(i + 1).drop_last() =~= self.operands@.take(i as int));
            }
            sum = accumulate(sum, self.operands[i]);
            i += 1;
        }
        proof {
            assert(self.operands@.take(i as int) =~= self.operands@);
        }
        (divide(sum, count), self.units.clone())
    }
}

impl Gain {
    /// The ascent and its units, in the caller's arithmetic on a type of its
    /// choice: starting from `zero`, `rise` adds to the sum what each step
    /// rises by.
    pub fn value<A, Rise: Fn(A, Number, Number) -> A>(&self, zero: A, rise: Rise) -> (r: (
        A,
        String,
    ))
        requires
            forall|sum: A, earlier: Number, later: Number|
                call_requires(rise, (sum, earlier, later)),
        ensures
            r.1@ == self.units@,
            self.steps@.len() == 0 ==> r.0 == zero,
            forall|climb: spec_fn(A, (Number, Number)) -> A| #[trigger]
                lifts(rise, climb) ==> r.0 == self.steps@.fold_left(zero, climb),
    {
        let mut sum = zero;
        let mut i: usize = 0;
        while i < self.steps.len()
            invariant
                i <= self.steps@.len(),
                forall|sum: A, earlier: Number, later: Number|
                    call_requires(rise, (sum, earlier, later)),
                self.steps@.len() == 0 ==> sum == zero,
                forall|climb: spec_fn(A, (Number, Number)) -> A| #[trigger]
                    lifts(rise, climb) ==> sum == self.steps@.take(i as int).fold_left(
                        zero,
                        climb,
                    ),
            decreases self.steps@.len() - i,
        {
            proof {
                assert(self.steps@.take(i + 1).drop_last() =~= self.steps@.take(i as int));
            }
            let (earlier, later) = self.steps[i];
            sum = rise(sum, earlier, later);
            i += 1;
        }
        proof {
            assert(self.steps@.take(i as int) =~= self.steps@);
        }
        (sum, self.units.clone())
    }
}

/// Two ways to add a rise that agree on every step of `steps` give the same
/// ascent. So where every step rises, the ascent is the sum of all the
/// differences.
pub proof fn lemma_gain_agrees<A>(
    steps: Seq<(Number, Number)>,
    zero: A,
    climb: spec_fn(A, (Number, Number)) -> A,
    other: spec_fn(A, (Number, Number)) -> A,
)
    requires
        forall|sum: A, k: int|
            0 <= k < steps.len() ==> #[trigger] climb(sum, steps[k]) == other(sum, steps[k]),
    ensures
        steps.fold_left(zero, climb) == steps.fold_left(zero, other),
    decreases steps.len(),
{
    if steps.len() > 0 {
        let front = steps.drop_last();
        assert forall|sum: A, k: int| 0 <= k < front.len() implies #[trigger] climb(
            sum,
            front[k],
        ) == other(sum, front[k]) by {
            assert(front[k] == steps[k]);
        }
        lemma_gain_agrees(front, zero, climb, other);
        assert(steps.last() == steps[steps.len() - 1]);
    }
}

/// Where no step rises, so that `climb` leaves the sum as it is on every
/// step, the ascent is the `zero` it started from.
pub proof fn lemma_flat_gain<A>(
    steps: Seq<(Number, Number)>,
    zero: A,
    climb: spec_fn(A, (Number, Number)) -> A,
)
    requires
        forall|sum: A, k: int| 0 <= k < steps.len() ==> #[trigger] climb(sum, steps[k]) == sum,
    ensures
        steps.fold_left(zero, climb) == zero,
    decreases steps.len(),
{
    if steps.len() > 0 {
        let front = steps.drop_last();
        assert forall|sum: A, k: int| 0 <= k < front.len() implies #[trigger] climb(
            sum,
            front[k],
        ) == sum by {
            assert(front[k] == steps[k]);
        }
        lemma_flat_gain(front, zero, climb);
        assert(steps.last() == steps[steps.len() - 1]);
    }
}

/// A field holds a number only if some field is there.
pub proof fn lemma_readings_len(fields: Seq<Field>)
    ensures
        readings(fields).len() <= fields.len(),
    decreases fields.len(),
{
    if fields.len() > 0 {
        lemma_readings_len(fields.drop_last());
    }
}

/// Fields among which none is called `name` hold no match.
pub proof fn lemma_no_match(fields: Seq<Field>, name: Seq<char>)
    requires
        forall|i: int| 0 <= i < fields.len() ==> (#[trigger] fields[i]).name@ != name,
    ensures
        matching(fields, name).len() == 0,
    decreases fields.len(),
{
    if fields.len() > 0 {
        lemma_no_match(fields.drop_last(), name);
    }
}

/// A field that no record has occurs nowhere: the mean over it has no
/// operand and no units, and so counts as zero; the ascent has no step.
pub proof fn lemma_absent_field_has_no_mean(records: Seq<Record>, name: Seq<char>)
    requires
        forall|i: int| 0 <= i < records.len() ==> !has_field(#[trigger] records[i], name),
    ensures
        occurrences(records, name).len() == 0,
        readings(occurrences(records, name)).len() == 0,
        mean_units(occurrences(records, name)).len() == 0,
        climbs(occurrences(records, name)).len() == 0,
        gain_units(occurrences(records, name)).len() == 0,
    decreases records.len(),
{
    if records.len() > 0 {
        let head = records.drop_last();
        assert forall|i: int| 0 <= i < head.len() implies !has_field(#[trigger] head[i], name) by {
            assert(head[i] == records[i]);
        }
        lemma_absent_field_has_no_mean(head, name);
        let last = records.last();
        assert(!has_field(records[records.len() - 1], name));
        lemma_no_match(last.fields@, name);
    }
}

/// References to `records[from..to]`, in order.
pub fn borrow_range(records: &Vec<Record>, from: usize, to: usize) -> (r: Vec<&Record>)
    requires
        from <= to <= records@.len(),
    ensures
        pointees(r@) == records@.subrange(from as int, to as int),
{
    let mut out: Vec<&Record> = Vec::new();
    let mut i: usize = from;
    while i < to
        invariant
            from <= i <= to <= records@.len(),
            pointees(out@) =~= records@.subrange(from as int, i as int),
        decreases to - i,
    {
        proof {
            lemma_pointees_push(out@, &records@[i as int]);
        }
        out.push(&records[i]);
        i += 1;
    }
    out
}

/// Every occurrence of `name` among the periodic samples of `samples`.
pub fn gather<'a>(samples: &Vec<&'a Record>, name: &str) -> (r: Vec<&'a Field>)
    ensures
        pointees(r@) == occurrences(pointees(samples@), name@),
{
    let ghost all = pointees(samples@);
    let mut out: Vec<&'a Field> = Vec::new();
    let mut i: usize = 0;
    while i < samples.len()
        invariant
            i <= samples@.len(),
            all == pointees(samples@),
            pointees(out@) =~= occurrences(all.take(i as int), name@),
        decreases samples@.len() - i,
    {
        let record: &'a Record = samples[i];
        proof {
            assert(all.take(i + 1).drop_last() =~= all.take(i as int));
            assert(all.take(i + 1).last() == *record);
        }
        if record.is_sample() {
            let ghost before = pointees(out@);
            let mut j: usize = 0;
            while j < record.fields.len()
                invariant
                    j <= record.fields@.len(),
                    pointees(out@) =~= before + matching(record.fields@.take(j as int), name@),
                decreases record.fields@.len() - j,
            {
                let field: &'a Field = &record.fields[j];
                proof {
                    assert(record.fields@.take(j + 1).drop_last() =~= record.fields@.take(
                        j as int,
                    ));
                    assert(record.fields@.take(j + 1).last() == *field);
                }
                if str_eq(field.name.as_str(), name) {
                    proof {
                        lemma_pointees_push(out@, field);
                    }
                    out.push(field);
                }
                j += 1;
            }
            proof {
                assert(record.fields@.take(j as int) =~= record.fields@);
            }
        }
        i += 1;
    }
    proof {
        assert(all.take(i as int) =~= all);
    }
    out
}

/// What the mean of `name` over `samples` is taken over: the numbers among all
/// occurrences, under the units of the first occurrence.
pub fn mean_of(samples: &Vec<&Record>, name: &str) -> (r: Mean)
    ensures
        r.operands@ == readings(occurrences(pointees(samples@), name@)),
        r.units@ == mean_units(occurrences(pointees(samples@), name@)),
{
    let found = gather(samples, name);
    let ghost occ = pointees(found@);
    let mut operands: Vec<Number> = Vec::new();
    let mut i: usize = 0;
    while i < found.len()
        invariant
            i <= found@.len(),
            occ == pointees(found@),
            operands@ =~= readings(occ.take(i as int)),
        decreases found@.len() - i,
    {
        proof {
            assert(occ.take(i + 1).drop_last() =~= occ.take(i as int));
            assert(occ.take(i + 1).last() == *found@[i as int]);
        }
        match found[i].value.as_number() {
            Some(n) => operands.push(n),
            None => {},
        }
        i += 1;
    }
    proof {
        assert(occ.take(i as int) =~= occ);
        lemma_readings_len(occ);
    }
    if operands.len() == 0 {
        Mean { operands, units: String::new() }
    } else {
        Mean { operands, units: found[0].units.clone() }
    }
}

/// What the ascent of `name` over `samples` is summed over: the neighbouring
/// occurrences that both hold a number, under the units of the first
/// occurrence.
pub fn gain_of(samples: &Vec<&Record>, name: &str) -> (r: Gain)
    ensures
        r.steps@ == climbs(occurrences(pointees(samples@), name@)),
        r.units@ == gain_units(occurrences(pointees(samples@), name@)),
{
    let found = gather(samples, name);
    let ghost occ = pointees(found@);
    if found.len() == 0 {
        return Gain { steps: Vec::new(), units: String::new() };
    }
    let mut steps: Vec<(Number, Number)> = Vec::new();
    let mut earlier: Option<Number> = found[0].value.as_number();
    let mut i: usize = 1;
    proof {
        assert(climbs(occ.take(1)) =~= Seq::<(Number, Number)>::empty());
    }
    while i < found.len()
        invariant
            1 <= i <= found@.len(),
            occ == pointees(found@),
            steps@ =~= climbs(occ.take(i as int)),
            earlier == number_of(occ[i - 1].value),
        decreases found@.len() - i,
    {
        proof {
            let next = occ.take(i + 1);
            assert(next.drop_last() =~= occ.take(i as int));
            assert(next.last() == occ[i as int]);
            assert(next[next.len() - 2] == occ[i - 1]);
        }
        let later = found[i].value.as_number();
        match (earlier, later) {
            (Some(a), Some(b)) => steps.push((a, b)),
            _ => {},
        }
        earlier = later;
        i += 1;
    }
    proof {
        assert(occ.take(i as int) =~= occ);
    }
    Gain { steps, units: found[0].units.clone() }
}

/// The mean of `name` over all periodic samples of `records`.
pub fn average(records: &Vec<Record>, name: &str) -> (r: Mean)
    ensures
        r.operands@ == readings(occurrences(records@, name@)),
        r.units@ == mean_units(occurrences(records@, name@)),
{
    let all = borrow_range(records, 0, records.len());
    proof {
        assert(records@.subrange(0, records@.len() as int) =~= records@);
    }
    mean_of(&all, name)
}

/// The ascent of `name` over all periodic samples of `records`.
pub fn elevation_gain(records: &Vec<Record>, name: &str) -> (r: Gain)
    ensures
        r.steps@ == climbs(occurrences(records@, name@)),
        r.units@ == gain_units(occurrences(records@, name@)),
{
    let all = borrow_range(records, 0, records.len());
    proof {
        assert(records@.subrange(0, records@.len() as int) =~= records@);
    }
    gain_of(&all, name)
}

} // verus!
