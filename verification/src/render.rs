//! The output lines: one for each record whose length reads as a number.

use vstd::prelude::*;
use vstd::string::StringExecFns;
use crate::block::{lemma_header_alone_holds_nothing, records_of, well_formed};
use crate::lines::lines_of;
use crate::record::{Record, RecordView};

verus! {

/// The line for a record called `name` whose length reads as `length`:
/// the name, a comma and a space, the length, and the unit `cm`.
pub open spec fn formatted(name: Seq<char>, length: Seq<char>) -> Seq<char> {
    name + seq![',', ' '] + length + seq!['c', 'm']
}

/// The line that `record` gives when its length was read as `reading`: none where
/// the length did not read as a number.
pub open spec fn emitted(record: RecordView, reading: Option<Seq<char>>) -> Option<Seq<char>> {
    match reading {
        Some(length) => Some(formatted(record.name, length)),
        None => None,
    }
}

/// What the length of record `k` was read as: `readings[k]`, and nothing where
/// `readings` does not reach that far.
pub open spec fn reading_at(readings: Seq<Option<Seq<char>>>, k: int) -> Option<Seq<char>> {
    if 0 <= k < readings.len() {
        readings[k]
    } else {
        None
    }
}

/// The lines that `records` give, in the order of the records, when the length of
/// record `k` was read as `reading_at(readings, k)`.
pub open spec fn rendered(records: Seq<RecordView>, readings: Seq<Option<Seq<char>>>) -> Seq<
    Seq<char>,
>
    decreases records.len(),
{
    if records.len() == 0 {
        Seq::empty()
    } else {
        let before = rendered(records.drop_last(), readings);
        match emitted(records.last(), reading_at(readings, records.len() - 1)) {
            Some(line) => before.push(line),
            None => before,
        }
    }
}

/// The line for a record called `name` whose length reads as `length`.
pub fn format_record(name: &str, length: &str) -> (line: String)
    ensures
        line@ == formatted(name@, length@),
{
    proof {
        reveal_strlit(", ");
        reveal_strlit("cm");
    }
    let mut line = String::from_str(name);
    line.append(", ");
    line.append(length);
    line.append("cm");
    assert(", "@ =~= seq![',', ' ']);
    assert("cm"@ =~= seq!['c', 'm']);
    line
}

/// The line that `record` gives when its length was read as `reading`.
///
/// `reading` is the number that the length stands for, as it is written out, or
/// `None` where the length is no number: then the record gives no line.
pub fn emit(record: &Record, reading: Option<&str>) -> (line: Option<String>)
    ensures
        line.deep_view() == emitted(record@, reading.deep_view()),
{
    match reading {
        Some(length) => Some(format_record(record.name.as_str(), length)),
        None => None,
    }
}

/// The lines that `records` give, in the order of the records, when the length of
/// record `k` was read as `readings[k]`.
///
/// A record that `readings` does not reach counts as not read, and a reading beyond
/// the last record counts for nothing.
pub fn render(records: &Vec<Record>, readings: &Vec<Option<String>>) -> (lines: Vec<String>)
    ensures
        lines.deep_view() == rendered(records.deep_view(), readings.deep_view()),
{
    let ghost all = records.deep_view();
    let ghost read = readings.deep_view();
    let mut lines: Vec<String> = Vec::new();
    let mut k: usize = 0;
    while k < records.len()
        invariant
            k <= records.len(),
            all == records.deep_view(),
            read == readings.deep_view(),
            lines.deep_view() == rendered(all.take(k as int), read),
        decreases records.len() - k,
    {
        proof {
            assert(all.take(k + 1).drop_last() =~= all.take(k as int));
        }
        if k < readings.len() {
            let ghost before = lines.deep_view();
            match &readings[k] {
                Some(length) => {
                    lines.push(format_record(records[k].name.as_str(), length.as_str()));
                    assert(lines.deep_view() =~= before.push(
                        formatted(all[k as int].name, length@),
                    ));
                },
                None => {},
            }
        }
        k += 1;
    }
    proof {
        assert(all.take(k as int) =~= all);
    }
    lines
}

/// The lines depend on the readings of the records alone: readings that agree on
/// every record give the same lines.
pub proof fn lemma_rendered_by_readings(
    records: Seq<RecordView>,
    first: Seq<Option<Seq<char>>>,
    second: Seq<Option<Seq<char>>>,
)
    requires
        forall|k: int| 0 <= k < records.len() ==> reading_at(first, k) == reading_at(second, k),
    ensures
        rendered(records, first) == rendered(records, second),
    decreases records.len(),
{
    if records.len() > 0 {
        lemma_rendered_by_readings(records.drop_last(), first, second);
    }
}

/// A record whose length did not read as a number gives no line: the lines are those
/// of the other records, as if it were not there.
pub proof fn lemma_unread_record_gives_no_line(
    records: Seq<RecordView>,
    readings: Seq<Option<Seq<char>>>,
    at: int,
)
    requires
        0 <= at < records.len(),
        at < readings.len(),
        readings[at] is None,
    ensures
        rendered(records, readings) == rendered(records.remove(at), readings.remove(at)),
    decreases records.len(),
{
    let last = records.len() - 1;
    if at == last {
        assert(records.remove(at) =~= records.drop_last());
        lemma_rendered_by_readings(records.drop_last(), readings, readings.remove(at));
    } else {
        lemma_unread_record_gives_no_line(records.drop_last(), readings, at);
        assert(records.remove(at).drop_last() =~= records.drop_last().remove(at));
        assert(records.remove(at).last() == records.last());
        assert(reading_at(readings.remove(at), last - 1) == reading_at(readings, last));
    }
}

/// Where every length read as a number, there is one line for each record, in the
/// order of the records.
pub proof fn lemma_read_records_give_their_lines(
    records: Seq<RecordView>,
    readings: Seq<Option<Seq<char>>>,
)
    requires
        forall|k: int| 0 <= k < records.len() ==> reading_at(readings, k) is Some,
    ensures
        rendered(records, readings).len() == records.len(),
        forall|k: int|
            0 <= k < records.len() ==> #[trigger] rendered(records, readings)[k] == formatted(
                records[k].name,
                readings[k]->0,
            ),
    decreases records.len(),
{
    if records.len() > 0 {
        lemma_read_records_give_their_lines(records.drop_last(), readings);
    }
}

/// A block of one line at most, its header, is well formed and gives no line,
/// whatever was read.
pub proof fn lemma_header_alone_gives_no_line(text: Seq<char>, readings: Seq<Option<Seq<char>>>)
    requires
        lines_of(text).len() <= 1,
    ensures
        well_formed(text),
        rendered(records_of(text), readings) == Seq::<Seq<char>>::empty(),
{
    lemma_header_alone_holds_nothing(text);
}

} // verus!
