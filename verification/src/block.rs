//! Blocks: what a whole text holds, line by line.

use vstd::prelude::*;
use vstd::slice::slice_subrange;
use crate::chars::chars_of;
use crate::lines::{
    lemma_lines_concat, lemma_single_line, line_bounds, lines_of, marks_lines, strip_cr,
};
use crate::record::{parse_chars, parsed_line, Parsed, ParsedView, Record, RecordView};
use crate::whitespace::{is_blank, lemma_blank_is_all_whitespace};

verus! {

/// The first line of a block that has fewer than two fields.
#[derive(Debug, Clone, Copy, PartialEq, Eq)]
pub struct MalformedLine {
    /// Its index among the lines of the block, from zero.
    pub line: usize,
}

/// What each line of `text` holds, line by line.
pub open spec fn parsed_lines(text: Seq<char>) -> Seq<ParsedView> {
    let lines = lines_of(text);
    Seq::new(lines.len(), |k: int| parsed_line(k, lines[k]))
}

/// The records among `parsed`, in order.
pub open spec fn records_among(parsed: Seq<ParsedView>) -> Seq<RecordView>
    decreases parsed.len(),
{
    if parsed.len() == 0 {
        Seq::empty()
    } else {
        let before = records_among(parsed.drop_last());
        match parsed.last() {
            ParsedView::Record(record) => before.push(record),
            _ => before,
        }
    }
}

/// The records of `text`, in the order of their lines.
pub open spec fn records_of(text: Seq<char>) -> Seq<RecordView> {
    records_among(parsed_lines(text))
}

/// Whether line `k` of `text` is there and has fewer than two fields.
pub open spec fn malformed_at(text: Seq<char>, k: int) -> bool {
    0 <= k < parsed_lines(text).len() && parsed_lines(text)[k] is Malformed
}

/// Whether every line of `text` that should hold a record has its two fields.
pub open spec fn well_formed(text: Seq<char>) -> bool {
    forall|k: int| !malformed_at(text, k)
}

/// The records of `text`, in the order of their lines, if every line that should hold
/// one has its two fields; else the first line that has not.
pub fn records(text: &str) -> (out: Result<Vec<Record>, MalformedLine>)
    ensures
        out is Ok <==> well_formed(text@),
        out matches Ok(found) ==> found.deep_view() == records_of(text@),
        out matches Err(e) ==> malformed_at(text@, e.line as int) && forall|j: int|
            0 <= j < e.line ==> !malformed_at(text@, j),
{
    let chars = chars_of(text);
    let bounds = line_bounds(chars.as_slice());
    let ghost parsed = parsed_lines(text@);
    let mut found: Vec<Record> = Vec::new();
    let mut k: usize = 0;
    while k < bounds.len()
        invariant
            k <= bounds.len(),
            chars@ == text@,
            marks_lines(bounds@, text@),
            parsed == parsed_lines(text@),
            forall|j: int| 0 <= j < k ==> !malformed_at(text@, j),
            found.deep_view() == records_among(parsed.take(k as int)),
        decreases bounds.len() - k,
    {
        let (from, to) = bounds[k];
        let line = parse_chars(k, slice_subrange(chars.as_slice(), from, to));
        proof {
            assert(line@ == parsed[k as int]);
            assert(parsed.take(k + 1).drop_last() =~= parsed.take(k as int));
        }
        match line {
            Parsed::Skipped => {},
            Parsed::Malformed => {
                assert(malformed_at(text@, k as int));
                return Err(MalformedLine { line: k });
            },
            Parsed::Record(record) => {
                let ghost before = found.deep_view();
                found.push(record);
                assert(found.deep_view() =~= before.push(record@));
            },
        }
        k += 1;
    }
    proof {
        assert(parsed.take(k as int) =~= parsed);
    }
    Ok(found)
}

/// The records among two runs of parsed lines are those of the first run, then those
/// of the second.
pub proof fn lemma_records_among_concat(first: Seq<ParsedView>, second: Seq<ParsedView>)
    ensures
        records_among(first + second) == records_among(first) + records_among(second),
    decreases second.len(),
{
    if second.len() == 0 {
        assert(first + second =~= first);
        assert(records_among(first) + records_among(second) =~= records_among(first));
    } else {
        lemma_records_among_concat(first, second.drop_last());
        assert((first + second).drop_last() =~= first + second.drop_last());
        assert((first + second).last() == second.last());
        match second.last() {
            ParsedView::Record(record) => {
                assert((records_among(first) + records_among(second.drop_last())).push(record)
                    =~= records_among(first) + records_among(second.drop_last()).push(record));
            },
            _ => {},
        }
    }
}

/// Every record among `parsed` is held by one of the lines.
pub proof fn lemma_records_among_come_from_lines(parsed: Seq<ParsedView>, r: int) -> (k: int)
    requires
        0 <= r < records_among(parsed).len(),
    ensures
        0 <= k < parsed.len(),
        parsed[k] == ParsedView::Record(records_among(parsed)[r]),
    decreases parsed.len(),
{
    let before = records_among(parsed.drop_last());
    if r < before.len() {
        lemma_records_among_come_from_lines(parsed.drop_last(), r)
    } else {
        parsed.len() - 1
    }
}

/// Every record of a text comes from a line below the header that is not blank.
pub proof fn lemma_records_come_from_data_lines(text: Seq<char>, r: int) -> (k: int)
    requires
        0 <= r < records_of(text).len(),
    ensures
        0 < k < lines_of(text).len(),
        !is_blank(lines_of(text)[k]),
        parsed_line(k, lines_of(text)[k]) == ParsedView::Record(records_of(text)[r]),
{
    lemma_records_among_come_from_lines(parsed_lines(text), r)
}

/// The header counts for nothing: two blocks that differ in their first line alone
/// hold the same thing line by line, and so the same records.
pub proof fn lemma_header_is_skipped(header: Seq<char>, other: Seq<char>, rest: Seq<char>)
    requires
        !header.contains('\n'),
        !other.contains('\n'),
    ensures
        parsed_lines(header.push('\n') + rest) == parsed_lines(other.push('\n') + rest),
        parsed_lines(header.push('\n') + rest)[0] is Skipped,
        records_of(header.push('\n') + rest) == records_of(other.push('\n') + rest),
        well_formed(header.push('\n') + rest) <==> well_formed(other.push('\n') + rest),
{
    let first = header.push('\n') + rest;
    let second = other.push('\n') + rest;
    lemma_lines_concat(header, rest);
    lemma_lines_concat(other, rest);
    lemma_single_line(header);
    lemma_single_line(other);
    assert(parsed_lines(first) =~= parsed_lines(second));
    assert forall|k: int| malformed_at(first, k) == malformed_at(second, k) by {}
}

/// A block of one line at most holds no record, and is well formed.
pub proof fn lemma_header_alone_holds_nothing(text: Seq<char>)
    requires
        lines_of(text).len() <= 1,
    ensures
        records_of(text) == Seq::<RecordView>::empty(),
        well_formed(text),
{
    let parsed = parsed_lines(text);
    if parsed.len() == 1 {
        assert(parsed.drop_last().len() == 0);
        assert(records_among(parsed.drop_last()) =~= Seq::empty());
    }
}

/// A blank line below the header counts for nothing: the block holds the same records
/// with it as without it, and is well formed with it exactly when it is without it.
pub proof fn lemma_blank_line_is_skipped(above: Seq<char>, blank: Seq<char>, below: Seq<char>)
    requires
        is_blank(blank),
        !blank.contains('\n'),
    ensures
        records_of(above.push('\n') + blank.push('\n') + below) == records_of(
            above.push('\n') + below,
        ),
        well_formed(above.push('\n') + blank.push('\n') + below) <==> well_formed(
            above.push('\n') + below,
        ),
{
    let with = above.push('\n') + blank.push('\n') + below;
    let without = above.push('\n') + below;
    let top = lines_of(above.push('\n'));
    let rest = lines_of(below);
    assert(with =~= above.push('\n') + (blank.push('\n') + below));
    lemma_lines_concat(above, blank.push('\n') + below);
    lemma_lines_concat(blank, below);
    lemma_single_line(blank);
    lemma_lines_concat(above, below);
    assert(lines_of(with) =~= top + seq![strip_cr(blank)] + rest);
    assert(lines_of(without) =~= top + rest);
    assert(is_blank(strip_cr(blank))) by {
        lemma_blank_is_all_whitespace(blank);
        lemma_blank_is_all_whitespace(strip_cr(blank));
    }
    let head = Seq::new(top.len(), |k: int| parsed_line(k, top[k]));
    let tail = Seq::new(rest.len(), |k: int| parsed_line(k + 1, rest[k]));
    let skipped = seq![ParsedView::Skipped];
    assert(parsed_lines(with) =~= head + skipped + tail);
    assert(parsed_lines(without) =~= head + tail);
    lemma_skipped_line_changes_nothing(with, without, head, tail);
}

/// A blank line at the end of a block, with no line feed behind it, counts for
/// nothing either.
pub proof fn lemma_last_blank_line_is_skipped(above: Seq<char>, blank: Seq<char>)
    requires
        is_blank(blank),
        !blank.contains('\n'),
    ensures
        records_of(above.push('\n') + blank) == records_of(above.push('\n')),
        well_formed(above.push('\n') + blank) <==> well_formed(above.push('\n')),
{
    let with = above.push('\n') + blank;
    let without = above.push('\n');
    let top = lines_of(without);
    lemma_lines_concat(above, blank);
    lemma_single_line(blank);
    if blank.len() == 0 {
        assert(with =~= without);
    } else {
        assert(lines_of(with) =~= top + seq![blank]);
        let head = Seq::new(top.len(), |k: int| parsed_line(k, top[k]));
        let tail = Seq::<ParsedView>::empty();
        assert(parsed_lines(with) =~= head + seq![ParsedView::Skipped] + tail);
        assert(parsed_lines(without) =~= head + tail);
        lemma_skipped_line_changes_nothing(with, without, head, tail);
    }
}

/// If two texts hold the same thing line by line but for one skipped line, they hold
/// the same records, and one is well formed exactly when the other is.
proof fn lemma_skipped_line_changes_nothing(
    with: Seq<char>,
    without: Seq<char>,
    head: Seq<ParsedView>,
    tail: Seq<ParsedView>,
)
    requires
        parsed_lines(with) == head + seq![ParsedView::Skipped] + tail,
        parsed_lines(without) == head + tail,
    ensures
        records_of(with) == records_of(without),
        well_formed(with) <==> well_formed(without),
{
    let skipped = seq![ParsedView::Skipped];
    let n = head.len() as int;
    lemma_records_among_concat(head + skipped, tail);
    lemma_records_among_concat(head, skipped);
    lemma_records_among_concat(head, tail);
    assert(records_among(skipped) =~= Seq::empty()) by {
        assert(records_among(skipped.drop_last()) =~= Seq::empty());
    }
    assert(records_among(head) + Seq::<RecordView>::empty() =~= records_among(head));
    if well_formed(with) {
        assert forall|k: int| !malformed_at(without, k) by {
            if malformed_at(without, k) {
                if k < n {
                    assert(malformed_at(with, k));
                } else {
                    assert(malformed_at(with, k + 1));
                }
            }
        }
    }
    if well_formed(without) {
        assert forall|k: int| !malformed_at(with, k) by {
            if malformed_at(with, k) {
                if k < n {
                    assert(malformed_at(without, k));
                } else {
                    assert(malformed_at(without, k - 1));
                }
            }
        }
    }
}

/// A text has one first malformed line at most, so what `records` returns for a text
/// is settled by the text alone.
pub proof fn lemma_first_malformed_is_unique(text: Seq<char>, a: int, b: int)
    requires
        malformed_at(text, a),
        forall|j: int| 0 <= j < a ==> !malformed_at(text, j),
        malformed_at(text, b),
        forall|j: int| 0 <= j < b ==> !malformed_at(text, j),
    ensures
        a == b,
{
}

} // verus!
