//! Grouping of the records by kind, each record as a map from field name to
//! field in which the last field of a name wins.

use itertools::Itertools;
use vstd::prelude::*;
use crate::record::{
    first_match, lemma_first_match_is, lemma_pointees_push, pointees, str_eq, Field, Record,
};

verus! {

/// The kind of each record, in order.
pub open spec fn kinds_of(records: Seq<Record>) -> Seq<Seq<char>> {
    records.map_values(|r: Record| r.kind@)
}

/// The kinds that occur, each once, in the order in which they are first
/// seen.
pub open spec fn distinct_kinds(records: Seq<Record>) -> Seq<Seq<char>>
    decreases records.len(),
{
    if records.len() == 0 {
        Seq::empty()
    } else {
        let head = distinct_kinds(records.drop_last());
        if head.contains(records.last().kind@) {
            head
        } else {
            head.push(records.last().kind@)
        }
    }
}

/// The records of one kind, in order.
pub open spec fn of_kind(records: Seq<Record>, kind: Seq<char>) -> Seq<Record>
    decreases records.len(),
{
    if records.len() == 0 {
        Seq::empty()
    } else {
        let head = of_kind(records.drop_last(), kind);
        if records.last().kind@ == kind {
            head.push(records.last())
        } else {
            head
        }
    }
}

/// The fields as a map keyed by name: one field for each name, in the order in
/// which the names are first seen, and for each name the last field that
/// bears it.
pub open spec fn last_fields(fields: Seq<Field>) -> Seq<Field>
    decreases fields.len(),
{
    if fields.len() == 0 {
        Seq::empty()
    } else {
        let head = last_fields(fields.drop_last());
        let at = first_match(head, fields.last().name@);
        if at < head.len() {
            head.update(at, fields.last())
        } else {
            head.push(fields.last())
        }
    }
}

/// Where run `j` starts when the runs have the lengths `lens`: the sum of the
/// lengths before it.
pub open spec fn run_start(lens: Seq<usize>, j: int) -> int
    decreases j,
{
    if j <= 0 {
        0
    } else {
        run_start(lens, j - 1) + lens[j - 1]
    }
}

/// Whether position `t` lies in run `j`.
pub open spec fn in_run(lens: Seq<usize>, j: int, t: int) -> bool {
    0 <= j < lens.len() && run_start(lens, j) <= t < run_start(lens, j + 1)
}

/// Whether `lens` are the lengths of the runs of `keys`: the runs cover the
/// keys, none is empty, a run holds one key throughout, and the next run
/// starts with another key.
pub open spec fn is_runs(keys: Seq<Seq<char>>, lens: Seq<usize>) -> bool {
    &&& run_start(lens, lens.len() as int) == keys.len()
    &&& forall|j: int| 0 <= j < lens.len() ==> #[trigger] lens[j] >= 1
    &&& forall|j: int, t: int| #[trigger]
        in_run(lens, j, t) ==> keys[t] == keys[run_start(lens, j)]
    &&& forall|j: int|
        0 < j < lens.len() ==> keys[#[trigger] run_start(lens, j)] != keys[run_start(lens, j) - 1]
}

/// `Itertools::chunk_by` over the records with the kind as key: the lengths of
/// the groups it yields, in order. Each group is a run of neighbouring records
/// of one kind, and a new group begins where the kind changes.
#[verifier::external_body]
fn kind_runs(records: &Vec<Record>) -> (lens: Vec<usize>)
    ensures
        is_runs(kinds_of(records@), lens@),
{
    records.iter().chunk_by(|r| r.kind.clone()).into_iter().map(|(_, run)| run.count()).collect()
}

/// The records of one kind, each as its map of fields.
#[derive(Debug, PartialEq)]
pub struct KindGroup<'a> {
    pub kind: String,
    pub records: Vec<Vec<&'a Field>>,
}

/// Whether `rows` are the field maps of `records`, one for one.
pub open spec fn rows_match(rows: Seq<Vec<&Field>>, records: Seq<Record>) -> bool {
    &&& rows.len() == records.len()
    &&& forall|m: int|
        0 <= m < rows.len() ==> pointees((#[trigger] rows[m])@) == last_fields(records[m].fields@)
}

/// Whether `groups` are the records grouped by kind: one group for each kind
/// in the order in which the kinds are first seen, and in each group the
/// records of that kind in their order.
pub open spec fn is_grouping(groups: Seq<KindGroup>, records: Seq<Record>) -> bool {
    &&& groups.len() == distinct_kinds(records).len()
    &&& forall|g: int|
        0 <= g < groups.len() ==> {
            let group = #[trigger] groups[g];
            &&& group.kind@ == distinct_kinds(records)[g]
            &&& rows_match(group.records@, of_kind(records, group.kind@))
        }
}

/// Every kind that occurs is among the distinct kinds, and none is there
/// twice.
pub proof fn lemma_kinds_once(records: Seq<Record>)
    ensures
        distinct_kinds(records).no_duplicates(),
        forall|i: int|
            0 <= i < records.len() ==> distinct_kinds(records).contains(
                (#[trigger] records[i]).kind@,
            ),
        forall|g: int|
            0 <= g < distinct_kinds(records).len() ==> exists|i: int|
                0 <= i < records.len() && (#[trigger] records[i]).kind@
                    == #[trigger] distinct_kinds(records)[g],
    decreases records.len(),
{
    if records.len() > 0 {
        let front = records.drop_last();
        let head = distinct_kinds(front);
        let all = distinct_kinds(records);
        let kind = records.last().kind@;
        lemma_kinds_once(front);
        if !head.contains(kind) {
            assert(all[head.len() as int] == kind);
        }
        assert forall|i: int| 0 <= i < records.len() implies all.contains(
            (#[trigger] records[i]).kind@,
        ) by {
            if i < front.len() {
                assert(front[i] == records[i]);
                let g = choose|g: int| 0 <= g < head.len() && head[g] == front[i].kind@;
                assert(all[g] == records[i].kind@);
            }
        }
        assert forall|g: int| 0 <= g < all.len() implies exists|i: int|
            0 <= i < records.len() && (#[trigger] records[i]).kind@ == #[trigger] all[g] by {
            if g < head.len() {
                let i = choose|i: int| 0 <= i < front.len() && (#[trigger] front[i]).kind@ == head[g];
                assert(records[i].kind@ == all[g]);
            } else {
                assert(records[records.len() - 1].kind@ == all[g]);
            }
        }
    }
}

/// In the map of fields every name is there once, and under each name stands
/// the last field that bears it.
pub proof fn lemma_last_write_wins(fields: Seq<Field>)
    ensures
        last_fields(fields).len() <= fields.len(),
        forall|a: int, b: int|
            0 <= a < b < last_fields(fields).len() ==> (#[trigger] last_fields(fields)[a]).name@
                != (#[trigger] last_fields(fields)[b]).name@,
        forall|i: int|
            0 <= i < fields.len() && (forall|j: int|
                i < j < fields.len() ==> (#[trigger] fields[j]).name@ != fields[i].name@)
                ==> last_fields(fields).contains(#[trigger] fields[i]),
        forall|k: int|
            0 <= k < last_fields(fields).len() ==> fields.contains(
                #[trigger] last_fields(fields)[k],
            ),
    decreases fields.len(),
{
    if fields.len() > 0 {
        let front = fields.drop_last();
        let head = last_fields(front);
        let all = last_fields(fields);
        let last = fields.last();
        let at = first_match(head, last.name@);
        lemma_last_write_wins(front);
        crate::record::lemma_first_match(head, last.name@);
        assert(fields[fields.len() - 1] == last);
        assert forall|a: int, b: int| 0 <= a < b < all.len() implies (#[trigger] all[a]).name@ != (
        #[trigger] all[b]).name@ by {
            if at < head.len() {
                assert(all[a].name@ == head[a].name@);
                assert(all[b].name@ == head[b].name@);
            } else if b == head.len() {
                assert(all[a] == head[a]);
            } else {
                assert(all[a] == head[a] && all[b] == head[b]);
            }
        }
        assert forall|i: int|
            0 <= i < fields.len() && (forall|j: int|
                i < j < fields.len() ==> (#[trigger] fields[j]).name@ != fields[i].name@)
                implies all.contains(#[trigger] fields[i]) by {
            if i == fields.len() - 1 {
                if at < head.len() {
                    assert(all[at] == last);
                } else {
                    assert(all[head.len() as int] == last);
                }
            } else {
                assert(front[i] == fields[i]);
                assert forall|j: int| i < j < front.len() implies (#[trigger] front[j]).name@
                    != front[i].name@ by {
                    assert(front[j] == fields[j]);
                }
                assert(head.contains(front[i]));
                let k = choose|k: int| 0 <= k < head.len() && head[k] == front[i];
                assert(fields[fields.len() - 1].name@ != fields[i].name@);
                assert(k != at);
                assert(all[k] == fields[i]);
            }
        }
        assert forall|k: int| 0 <= k < all.len() implies fields.contains(#[trigger] all[k]) by {
            if (at < head.len() && k == at) || k == head.len() {
                assert(all[k] == fields[fields.len() - 1]);
            } else {
                assert(all[k] == head[k]);
                assert(front.contains(head[k]));
                let i = choose|i: int| 0 <= i < front.len() && front[i] == head[k];
                assert(fields[i] == all[k]);
            }
        }
    }
}

/// Runs start in order.
proof fn lemma_run_start_rises(lens: Seq<usize>, a: int, b: int)
    requires
        0 <= a <= b <= lens.len(),
    ensures
        run_start(lens, a) <= run_start(lens, b),
    decreases b,
{
    if a < b {
        lemma_run_start_rises(lens, a, b - 1);
    }
}

/// A stretch of records of one kind adds that kind, if it is new, and no
/// other.
proof fn lemma_distinct_over_run(records: Seq<Record>, s: int, e: int)
    requires
        0 <= s < e <= records.len(),
        forall|t: int| s <= t < e ==> (#[trigger] records[t]).kind@ == records[s].kind@,
    ensures
        distinct_kinds(records.take(e)) == if distinct_kinds(records.take(s)).contains(
            records[s].kind@,
        ) {
            distinct_kinds(records.take(s))
        } else {
            distinct_kinds(records.take(s)).push(records[s].kind@)
        },
    decreases e,
{
    let kind = records[s].kind@;
    let before = distinct_kinds(records.take(s));
    assert(records.take(e).drop_last() =~= records.take(e - 1));
    assert(records.take(e).last() == records[e - 1]);
    if e > s + 1 {
        lemma_distinct_over_run(records, s, e - 1);
        if !before.contains(kind) {
            assert(before.push(kind)[before.len() as int] == kind);
        }
    }
}

/// A stretch of records of other kinds adds nothing to the records of a kind.
proof fn lemma_of_kind_over_others(records: Seq<Record>, s: int, e: int, kind: Seq<char>)
    requires
        0 <= s <= e <= records.len(),
        forall|t: int| s <= t < e ==> (#[trigger] records[t]).kind@ != kind,
    ensures
        of_kind(records.take(e), kind) == of_kind(records.take(s), kind),
    decreases e,
{
    if e > s {
        assert(records.take(e).drop_last() =~= records.take(e - 1));
        assert(records.take(e).last() == records[e - 1]);
        lemma_of_kind_over_others(records, s, e - 1, kind);
    }
}

/// The record's fields as a map keyed by name.
pub fn field_map<'a>(record: &'a Record) -> (r: Vec<&'a Field>)
    ensures
        pointees(r@) == last_fields(record.fields@),
{
    let mut out: Vec<&'a Field> = Vec::new();
    let mut i: usize = 0;
    while i < record.fields.len()
        invariant
            i <= record.fields@.len(),
            pointees(out@) =~= last_fields(record.fields@.take(i as int)),
        decreases record.fields@.len() - i,
    {
        let field: &'a Field = &record.fields[i];
        proof {
            assert(record.fields@.take(i + 1).drop_last() =~= record.fields@.take(i as int));
            assert(record.fields@.take(i + 1).last() == *field);
        }
        let mut at: usize = 0;
        while at < out.len() && !str_eq(out[at].name.as_str(), field.name.as_str())
            invariant
                at <= out@.len(),
                forall|k: int| 0 <= k < at ==> (#[trigger] pointees(out@)[k]).name@ != field.name@,
            decreases out@.len() - at,
        {
            at += 1;
        }
        proof {
            lemma_first_match_is(pointees(out@), field.name@, at as int);
        }
        if at < out.len() {
            let ghost before = out@;
            out.set(at, field);
            proof {
                assert(pointees(out@) =~= pointees(before).update(at as int, *field));
            }
        } else {
            proof {
                lemma_pointees_push(out@, field);
            }
            out.push(field);
        }
        i += 1;
    }
    proof {
        assert(record.fields@.take(i as int) =~= record.fields@);
    }
    out
}

/// For each kind, in the order first seen, the position of its first record.
fn kind_heads(records: &Vec<Record>, lens: &Vec<usize>) -> (heads: Vec<usize>)
    requires
        is_runs(kinds_of(records@), lens@),
    ensures
        heads@.len() == distinct_kinds(records@).len(),
        forall|g: int|
            0 <= g < heads@.len() ==> #[trigger] heads@[g] < records@.len() && records@[heads@[g] as int].kind@
                == distinct_kinds(records@)[g],
{
    let mut heads: Vec<usize> = Vec::new();
    let mut start: usize = 0;
    let mut j: usize = 0;
    while j < lens.len()
        invariant
            j <= lens@.len(),
            is_runs(kinds_of(records@), lens@),
            start == run_start(lens@, j as int),
            start <= records@.len(),
            heads@.len() == distinct_kinds(records@.take(start as int)).len(),
            forall|g: int|
                0 <= g < heads@.len() ==> #[trigger] heads@[g] < records@.len() && records@[heads@[g] as int].kind@
                    == distinct_kinds(records@.take(start as int))[g],
        decreases lens@.len() - j,
    {
        let len = lens[j];
        proof {
            lemma_run_start_rises(lens@, j + 1, lens@.len() as int);
            assert(run_start(lens@, j + 1) == start + len);
            assert(start + len <= records.len());
            assert forall|t: int| start <= t < start + len implies (#[trigger] records@[t]).kind@
                == records@[start as int].kind@ by {
                assert(in_run(lens@, j as int, t));
                assert(in_run(lens@, j as int, start as int));
            }
            lemma_distinct_over_run(records@, start as int, start + len);
        }
        let ghost seen = distinct_kinds(records@.take(start as int));
        let mut g: usize = 0;
        while g < heads.len() && !str_eq(records[heads[g]].kind.as_str(), records[start].kind.as_str())
            invariant
                g <= heads@.len(),
                start < records@.len(),
                heads@.len() == seen.len(),
                forall|h: int|
                    0 <= h < heads@.len() ==> #[trigger] heads@[h] < records@.len() && records@[heads@[h] as int].kind@
                        == seen[h],
                forall|h: int| 0 <= h < g ==> seen[h] != records@[start as int].kind@,
            decreases heads@.len() - g,
        {
            g += 1;
        }
        if g == heads.len() {
            heads.push(start);
        } else {
            assert(seen[g as int] == records@[start as int].kind@);
        }
        start = start + len;
        j += 1;
    }
    proof {
        assert(records@.take(start as int) =~= records@);
    }
    heads
}

/// The field maps of the records of one kind, in order.
fn rows_of_kind<'a>(records: &'a Vec<Record>, lens: &Vec<usize>, kind: &str) -> (rows: Vec<
    Vec<&'a Field>,
>)
    requires
        is_runs(kinds_of(records@), lens@),
    ensures
        rows_match(rows@, of_kind(records@, kind@)),
{
    let mut rows: Vec<Vec<&'a Field>> = Vec::new();
    let mut start: usize = 0;
    let mut j: usize = 0;
    while j < lens.len()
        invariant
            j <= lens@.len(),
            is_runs(kinds_of(records@), lens@),
            start == run_start(lens@, j as int),
            start <= records@.len(),
            rows_match(rows@, of_kind(records@.take(start as int), kind@)),
        decreases lens@.len() - j,
    {
        let len = lens[j];
        proof {
            lemma_run_start_rises(lens@, j + 1, lens@.len() as int);
            assert(run_start(lens@, j + 1) == start + len);
            assert(start + len <= records.len());
            assert forall|t: int| start <= t < start + len implies (#[trigger] records@[t]).kind@
                == records@[start as int].kind@ by {
                assert(in_run(lens@, j as int, t));
                assert(in_run(lens@, j as int, start as int));
            }
        }
        let end = start + len;
        if str_eq(records[start].kind.as_str(), kind) {
            let mut t: usize = start;
            while t < end
                invariant
                    start <= t <= end <= records@.len(),
                    forall|u: int| start <= u < end ==> (#[trigger] records@[u]).kind@ == kind@,
                    rows_match(rows@, of_kind(records@.take(t as int), kind@)),
                decreases end - t,
            {
                proof {
                    assert(records@.take(t + 1).drop_last() =~= records@.take(t as int));
                    assert(records@.take(t + 1).last() == records@[t as int]);
                }
                let row = field_map(&records[t]);
                rows.push(row);
                t += 1;
            }
        } else {
            proof {
                lemma_of_kind_over_others(records@, start as int, end as int, kind@);
            }
        }
        start = end;
        j += 1;
    }
    proof {
        assert(records@.take(start as int) =~= records@);
    }
    rows
}

/// Groups the records by kind. The groups come in the order in which the
/// kinds are first seen, the records of a group in file order, and each record
/// as its map of fields.
pub fn records_by_kind<'a>(records: &'a Vec<Record>) -> (r: Vec<KindGroup<'a>>)
    ensures
        is_grouping(r@, records@),
{
    let lens = kind_runs(records);
    let heads = kind_heads(records, &lens);
    let mut groups: Vec<KindGroup<'a>> = Vec::new();
    let mut g: usize = 0;
    while g < heads.len()
        invariant
            g <= heads@.len(),
            is_runs(kinds_of(records@), lens@),
            heads@.len() == distinct_kinds(records@).len(),
            forall|h: int|
                0 <= h < heads@.len() ==> #[trigger] heads@[h] < records@.len() && records@[heads@[h] as int].kind@
                    == distinct_kinds(records@)[h],
            groups@.len() == g,
            forall|h: int|
                0 <= h < g ==> {
                    let group = #[trigger] groups@[h];
                    &&& group.kind@ == distinct_kinds(records@)[h]
                    &&& rows_match(group.records@, of_kind(records@, group.kind@))
                },
        decreases heads@.len() - g,
    {
        let kind = records[heads[g]].kind.clone();
        let rows = rows_of_kind(records, &lens, kind.as_str());
        groups.push(KindGroup { kind, records: rows });
        g += 1;
    }
    groups
}

} // verus!
