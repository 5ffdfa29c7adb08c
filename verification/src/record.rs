//! Records, fields and the first-match field lookup.

use vstd::prelude::*;
use crate::value::{number_of, seconds_of, Number, Value};

verus! {

/// A named, unit-carrying value inside a record.
#[derive(Debug, PartialEq)]
pub struct Field {
    pub name: String,
    pub value: Value,
    pub units: String,
}

/// One decoded entry of an activity: its kind and its fields in file order.
/// A field name may occur more than once.
#[derive(Debug, PartialEq)]
pub struct Record {
    pub kind: String,
    pub fields: Vec<Field>,
}

/// `str`'s `==` from the standard library: two strings are equal exactly when
/// they hold the same characters in the same order.
#[verifier::external_body]
pub(crate) fn str_eq(a: &str, b: &str) -> (r: bool)
    ensures
        r == (a@ == b@),
{
    a == b
}

/// The kind of the periodic samples, the only records that statistics read.
pub open spec fn sample_kind() -> Seq<char> {
    "record"@
}

/// The name of the field that carries a record's time.
pub open spec fn timestamp_name() -> Seq<char> {
    "timestamp"@
}

/// Whether the record is a periodic sample.
pub open spec fn is_sample(r: Record) -> bool {
    r.kind@ == sample_kind()
}

/// The periodic samples among `records`, in order.
pub open spec fn samples(records: Seq<Record>) -> Seq<Record>
    decreases records.len(),
{
    if records.len() == 0 {
        Seq::empty()
    } else {
        let head = samples(records.drop_last());
        if is_sample(records.last()) {
            head.push(records.last())
        } else {
            head
        }
    }
}

/// Position of the first field called `name`, or `fields.len()` if there is
/// none.
pub open spec fn first_match(fields: Seq<Field>, name: Seq<char>) -> int
    decreases fields.len(),
{
    if fields.len() == 0 {
        0
    } else if fields[0].name@ == name {
        0
    } else {
        1 + first_match(fields.drop_first(), name)
    }
}

/// Whether some field is called `name`.
pub open spec fn has_field(r: Record, name: Seq<char>) -> bool {
    exists|i: int| 0 <= i < r.fields@.len() && #[trigger] r.fields@[i].name@ == name
}

/// The first field called `name`.
pub open spec fn find_spec(r: Record, name: Seq<char>) -> Option<Field> {
    let i = first_match(r.fields@, name);
    if i < r.fields@.len() {
        Some(r.fields@[i])
    } else {
        None
    }
}

/// The number held by the first field called `name`, if there is such a
/// field and it holds one.
pub open spec fn first_reading(r: Record, name: Seq<char>) -> Option<Number> {
    match find_spec(r, name) {
        Some(f) => number_of(f.value),
        None => None,
    }
}

/// The record's time: the first field called "timestamp", if it holds a
/// timestamp value.
pub open spec fn stamp(r: Record) -> Option<i64> {
    match find_spec(r, timestamp_name()) {
        Some(f) => seconds_of(f.value),
        None => None,
    }
}

/// What `first_match` returns: a position up to the length, with no match
/// before it and a match at it.
pub proof fn lemma_first_match(fields: Seq<Field>, name: Seq<char>)
    ensures
        0 <= first_match(fields, name) <= fields.len(),
        forall|j: int| 0 <= j < first_match(fields, name) ==> (#[trigger] fields[j]).name@ != name,
        first_match(fields, name) < fields.len() ==> fields[first_match(fields, name)].name@
            == name,
    decreases fields.len(),
{
    if fields.len() != 0 && fields[0].name@ != name {
        let rest = fields.drop_first();
        lemma_first_match(rest, name);
        assert forall|j: int| 0 <= j < first_match(fields, name) implies (#[trigger] fields[j]).name@
            != name by {
            if j > 0 {
                assert(fields[j] == rest[j - 1]);
            }
        }
    }
}

/// A position with a match and none before it is the first match.
pub proof fn lemma_first_match_is(fields: Seq<Field>, name: Seq<char>, i: int)
    requires
        0 <= i <= fields.len(),
        forall|j: int| 0 <= j < i ==> (#[trigger] fields[j]).name@ != name,
        i < fields.len() ==> fields[i].name@ == name,
    ensures
        first_match(fields, name) == i,
{
    lemma_first_match(fields, name);
    let k = first_match(fields, name);
    if k < i {
        assert(fields[k].name@ != name);
    } else if k > i {
        assert(fields[i].name@ != name);
    }
}

/// The values behind a sequence of references.
pub open spec fn pointees<T>(s: Seq<&T>) -> Seq<T> {
    s.map_values(|r: &T| *r)
}

/// Pushing a reference pushes what it points to.
pub proof fn lemma_pointees_push<T>(s: Seq<&T>, x: &T)
    ensures
        pointees(s.push(x)) == pointees(s).push(*x),
{
    assert(pointees(s.push(x)) =~= pointees(s).push(*x));
}

/// Lookups on one record.
pub trait FitDataRecordExt {
    /// Epoch seconds of the record's time, if it has one.
    fn timestamp(&self) -> Option<i64>;

    /// Value and units of the first field called `field_name`.
    fn field_value(&self, field_name: &str) -> Option<(&Value, &str)>;
}

impl FitDataRecordExt for Record {
    fn timestamp(&self) -> (r: Option<i64>)
        ensures
            r == stamp(*self),
    {
        match self.find("timestamp") {
            Some(f) => f.value.as_timestamp(),
            None => None,
        }
    }

    fn field_value(&self, field_name: &str) -> (r: Option<(&Value, &str)>)
        ensures
            match r {
                Some((value, units)) => match find_spec(*self, field_name@) {
                    Some(f) => *value == f.value && units@ == f.units@,
                    None => false,
                },
                None => find_spec(*self, field_name@).is_none(),
            },
    {
        match self.find(field_name) {
            Some(f) => Some((&f.value, f.units.as_str())),
            None => None,
        }
    }
}

impl Record {
    /// Whether this record is a periodic sample.
    pub fn is_sample(&self) -> (r: bool)
        ensures
            r == is_sample(*self),
    {
        str_eq(self.kind.as_str(), "record")
    }

    /// The first field called `name`, scanning in file order.
    pub fn find(&self, name: &str) -> (r: Option<&Field>)
        ensures
            match r {
                Some(f) => find_spec(*self, name@) == Some(*f),
                None => find_spec(*self, name@).is_none(),
            },
            r.is_some() == has_field(*self, name@),
    {
        let mut i: usize = 0;
        while i < self.fields.len()
            invariant
                i <= self.fields@.len(),
                forall|j: int| 0 <= j < i ==> (#[trigger] self.fields@[j]).name@ != name@,
            decreases self.fields@.len() - i,
        {
            if str_eq(self.fields[i].name.as_str(), name) {
                proof {
                    lemma_first_match_is(self.fields@, name@, i as int);
                }
                return Some(&self.fields[i]);
            }
            i += 1;
        }
        proof {
            lemma_first_match_is(self.fields@, name@, i as int);
        }
        None
    }

    /// The number held by the first field called `name`.
    pub fn reading(&self, name: &str) -> (r: Option<Number>)
        ensures
            r == first_reading(*self, name@),
    {
        match self.find(name) {
            Some(f) => f.value.as_number(),
            None => None,
        }
    }

    /// Whether some field is called `name`.
    pub fn has_field(&self, name: &str) -> (r: bool)
        ensures
            r == has_field(*self, name@),
    {
        self.find(name).is_some()
    }
}

/// The periodic samples among `records`, in order.
pub fn periodic(records: &Vec<Record>) -> (r: Vec<&Record>)
    ensures
        pointees(r@) == samples(records@),
{
    let mut out: Vec<&Record> = Vec::new();
    let mut i: usize = 0;
    while i < records.len()
        invariant
            i <= records@.len(),
            pointees(out@) =~= samples(records@.take(i as int)),
        decreases records@.len() - i,
    {
        proof {
            assert(records@.take(i + 1).drop_last() =~= records@.take(i as int));
            assert(records@.take(i + 1).last() == records@[i as int]);
        }
        if records[i].is_sample() {
            proof {
                lemma_pointees_push(out@, &records@[i as int]);
            }
            out.push(&records[i]);
        }
        i += 1;
    }
    proof {
        assert(records@.take(i as int) =~= records@);
    }
    out
}

} // verus!
