//! The lines of a block of text.

use vstd::prelude::*;
use vstd::slice::slice_subrange;
use crate::chars::{chars_of, string_of};
use crate::split::{
    lemma_pieces_without_sep, lemma_split_concat, lemma_split_without_sep, marks_pieces, split,
    split_bounds,
};

verus! {

/// `line` without the carriage return that ends it, if one does.
pub open spec fn strip_cr(line: Seq<char>) -> Seq<char> {
    if line.len() > 0 && line.last() == '\r' {
        line.drop_last()
    } else {
        line
    }
}

/// The lines of `text`, in order, without their line endings.
///
/// A line ends with a line feed, or with a carriage return and a line feed. What
/// follows the last line feed is a line too unless it is empty, and it keeps a
/// carriage return at its end, since no line feed follows that one.
pub open spec fn lines_of(text: Seq<char>) -> Seq<Seq<char>> {
    let pieces = split(text, '\n');
    let ended = Seq::new((pieces.len() - 1) as nat, |k: int| strip_cr(pieces[k]));
    if pieces.last().len() == 0 {
        ended
    } else {
        ended.push(pieces.last())
    }
}

/// Whether `bounds` marks, line by line, where the lines of `text` lie in `text`.
pub open spec fn marks_lines(bounds: Seq<(usize, usize)>, text: Seq<char>) -> bool {
    &&& bounds.len() == lines_of(text).len()
    &&& forall|k: int|
        0 <= k < bounds.len() ==> {
            &&& (#[trigger] bounds[k]).0 <= bounds[k].1 <= text.len()
            &&& text.subrange(bounds[k].0 as int, bounds[k].1 as int) == lines_of(text)[k]
        }
}

/// Where each line of `text` begins and ends.
pub(crate) fn line_bounds(text: &[char]) -> (bounds: Vec<(usize, usize)>)
    ensures
        marks_lines(bounds@, text@),
{
    let pieces = split_bounds(text, '\n');
    let ghost all = split(text@, '\n');
    let last = pieces.len() - 1;
    let mut bounds: Vec<(usize, usize)> = Vec::new();
    let mut k: usize = 0;
    while k < last
        invariant
            k <= last == pieces.len() - 1,
            all == split(text@, '\n'),
            marks_pieces(pieces@, text@, '\n'),
            bounds.len() == k,
            forall|j: int|
                0 <= j < k ==> {
                    &&& (#[trigger] bounds[j]).0 <= bounds[j].1 <= text@.len()
                    &&& text@.subrange(bounds[j].0 as int, bounds[j].1 as int) == strip_cr(all[j])
                },
        decreases last - k,
    {
        let (from, to) = pieces[k];
        assert(text@.subrange(from as int, to as int) == all[k as int]);
        if from < to && text[to - 1] == '\r' {
            assert(text@.subrange(from as int, to - 1) =~= all[k as int].drop_last());
            bounds.push((from, to - 1));
        } else {
            bounds.push((from, to));
        }
        k += 1;
    }
    let (from, to) = pieces[last];
    assert(text@.subrange(from as int, to as int) == all[last as int]);
    if from < to {
        bounds.push((from, to));
    }
    assert(bounds@.len() == lines_of(text@).len());
    bounds
}

/// The lines of `text`, in order, without their line endings.
pub fn lines(text: &str) -> (out: Vec<String>)
    ensures
        out.deep_view() == lines_of(text@),
{
    let chars = chars_of(text);
    let bounds = line_bounds(chars.as_slice());
    let mut out: Vec<String> = Vec::new();
    let mut k: usize = 0;
    while k < bounds.len()
        invariant
            k <= bounds.len(),
            chars@ == text@,
            marks_lines(bounds@, text@),
            out.len() == k,
            forall|j: int| 0 <= j < k ==> (#[trigger] out[j])@ == lines_of(text@)[j],
        decreases bounds.len() - k,
    {
        let (from, to) = bounds[k];
        out.push(string_of(slice_subrange(chars.as_slice(), from, to)));
        k += 1;
    }
    assert(out.deep_view() =~= lines_of(text@));
    out
}

/// Text that holds no line feed is one line, or none where it is empty; with a line
/// feed behind it, it is one line in either case, less its carriage return.
pub proof fn lemma_single_line(line: Seq<char>)
    requires
        !line.contains('\n'),
    ensures
        lines_of(line) == if line.len() == 0 {
            Seq::<Seq<char>>::empty()
        } else {
            seq![line]
        },
        lines_of(line.push('\n')) == seq![strip_cr(line)],
{
    lemma_split_without_sep(line, '\n');
    assert(lines_of(line) =~= if line.len() == 0 {
        Seq::<Seq<char>>::empty()
    } else {
        seq![line]
    });
    assert(line.push('\n').drop_last() =~= line);
    assert(lines_of(line.push('\n')) =~= seq![strip_cr(line)]);
}

/// The lines of a text whose first part ends with a line feed are the lines of that
/// part, then those of the rest.
pub proof fn lemma_lines_concat(above: Seq<char>, below: Seq<char>)
    ensures
        lines_of(above.push('\n') + below) == lines_of(above.push('\n')) + lines_of(below),
        lines_of(above.push('\n')).len() == split(above, '\n').len(),
{
    lemma_split_concat(above, below, '\n');
    assert(above.push('\n').drop_last() =~= above);
    assert(lines_of(above.push('\n') + below) =~= lines_of(above.push('\n')) + lines_of(below));
}

/// No line holds a line feed.
pub proof fn lemma_lines_hold_no_line_feed(text: Seq<char>)
    ensures
        forall|k: int|
            0 <= k < lines_of(text).len() ==> !(#[trigger] lines_of(text)[k]).contains('\n'),
{
    let pieces = split(text, '\n');
    lemma_pieces_without_sep(text, '\n');
    assert forall|k: int| 0 <= k < lines_of(text).len() implies !(#[trigger] lines_of(
        text,
    )[k]).contains('\n') by {
        let line = lines_of(text)[k];
        if line.contains('\n') {
            let j = choose|j: int| 0 <= j < line.len() && line[j] == '\n';
            assert(pieces[k][j] == '\n');
        }
    }
}

} // verus!
