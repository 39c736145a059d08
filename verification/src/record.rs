//! Records: what one line of a block holds.

use vstd::prelude::*;
use vstd::slice::slice_subrange;
use crate::chars::{chars_of, string_of};
use crate::split::{marks_pieces, split, split_bounds};
use crate::whitespace::{is_blank, is_trimmed, lemma_trim_is_trimmed, trim, trim_bounds};

verus! {

/// One record: a name and the length measured for it.
///
/// The length is kept as it was written, trimmed. Whether it reads as a number, and
/// as which, is for the caller to find out.
#[derive(Debug, Clone, PartialEq, Eq)]
pub struct Record {
    pub name: String,
    pub length: String,
}

/// A record as a pair of character sequences.
pub struct RecordView {
    pub name: Seq<char>,
    pub length: Seq<char>,
}

impl View for Record {
    type V = RecordView;

    open spec fn view(&self) -> RecordView {
        RecordView { name: self.name@, length: self.length@ }
    }
}

impl DeepView for Record {
    type V = RecordView;

    open spec fn deep_view(&self) -> RecordView {
        self.view()
    }
}

/// What a line turned out to be.
#[derive(Debug, Clone, PartialEq, Eq)]
pub enum Parsed {
    /// The header, or a blank line: it holds no record and is passed over.
    Skipped,
    /// A line with fewer than two fields.
    Malformed,
    /// A line with a name and a length.
    Record(Record),
}

/// A parsed line over character sequences.
pub enum ParsedView {
    Skipped,
    Malformed,
    Record(RecordView),
}

impl View for Parsed {
    type V = ParsedView;

    open spec fn view(&self) -> ParsedView {
        match self {
            Parsed::Skipped => ParsedView::Skipped,
            Parsed::Malformed => ParsedView::Malformed,
            Parsed::Record(record) => ParsedView::Record(record@),
        }
    }
}

/// The fields of `line`: its pieces between commas, each trimmed.
pub open spec fn fields_of(line: Seq<char>) -> Seq<Seq<char>> {
    let pieces = split(line, ',');
    Seq::new(pieces.len(), |k: int| trim(pieces[k]))
}

/// What the line `line` holds when it is line number `index` of its block.
///
/// Line 0 is the header and is skipped whatever it holds, and so is every blank line.
/// Of any other line the first field is the name and the second the length.
pub open spec fn parsed_line(index: int, line: Seq<char>) -> ParsedView {
    if index == 0 || is_blank(line) {
        ParsedView::Skipped
    } else if fields_of(line).len() < 2 {
        ParsedView::Malformed
    } else {
        ParsedView::Record(RecordView { name: fields_of(line)[0], length: fields_of(line)[1] })
    }
}

/// The piece of `line` between `piece.0` and `piece.1`, trimmed.
fn field_at(line: &[char], piece: (usize, usize)) -> (field: String)
    requires
        piece.0 <= piece.1 <= line@.len(),
    ensures
        field@ == trim(line@.subrange(piece.0 as int, piece.1 as int)),
{
    let part = slice_subrange(line, piece.0, piece.1);
    let (from, to) = trim_bounds(part);
    string_of(slice_subrange(part, from, to))
}

/// The fields of `line`: its pieces between commas, each trimmed.
pub fn split_fields(line: &str) -> (fields: Vec<String>)
    ensures
        fields.deep_view() == fields_of(line@),
{
    let chars = chars_of(line);
    let pieces = split_bounds(chars.as_slice(), ',');
    let mut fields: Vec<String> = Vec::new();
    let mut k: usize = 0;
    while k < pieces.len()
        invariant
            k <= pieces.len(),
            chars@ == line@,
            marks_pieces(pieces@, line@, ','),
            fields.len() == k,
            forall|j: int| 0 <= j < k ==> (#[trigger] fields[j])@ == fields_of(line@)[j],
        decreases pieces.len() - k,
    {
        fields.push(field_at(chars.as_slice(), pieces[k]));
        k += 1;
    }
    assert(fields.deep_view() =~= fields_of(line@));
    fields
}

/// What `line` holds when it is line number `index` of its block.
pub(crate) fn parse_chars(index: usize, line: &[char]) -> (parsed: Parsed)
    ensures
        parsed@ == parsed_line(index as int, line@),
{
    if index == 0 {
        return Parsed::Skipped;
    }
    let (from, to) = trim_bounds(line);
    if from == to {
        return Parsed::Skipped;
    }
    let pieces = split_bounds(line, ',');
    if pieces.len() < 2 {
        return Parsed::Malformed;
    }
    let name = field_at(line, pieces[0]);
    let length = field_at(line, pieces[1]);
    Parsed::Record(Record { name, length })
}

/// What `line` holds when it is line number `index` of its block.
pub fn parse_line(index: usize, line: &str) -> (parsed: Parsed)
    ensures
        parsed@ == parsed_line(index as int, line@),
{
    let chars = chars_of(line);
    parse_chars(index, chars.as_slice())
}

/// The fields of a line are trimmed: none begins or ends with white space. So it is
/// with the name and the length of a record.
pub proof fn lemma_fields_are_trimmed(index: int, line: Seq<char>)
    ensures
        forall|k: int|
            0 <= k < fields_of(line).len() ==> is_trimmed(#[trigger] fields_of(line)[k]),
        parsed_line(index, line) matches ParsedView::Record(record) ==> is_trimmed(record.name)
            && is_trimmed(record.length),
{
    let pieces = split(line, ',');
    assert forall|k: int| 0 <= k < fields_of(line).len() implies is_trimmed(
        #[trigger] fields_of(line)[k],
    ) by {
        lemma_trim_is_trimmed(pieces[k]);
    }
}

/// A line that is the header or blank holds no record, whatever else it holds.
pub proof fn lemma_header_and_blank_lines_hold_nothing(index: int, line: Seq<char>)
    ensures
        index == 0 ==> parsed_line(index, line) is Skipped,
        is_blank(line) ==> parsed_line(index, line) is Skipped,
{
}

} // verus!
