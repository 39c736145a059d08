//! The trace of a line: the line as it stands and the fields it was cut into.

use vstd::prelude::*;
use vstd::string::StringExecFns;
use crate::record::{fields_of, split_fields};

verus! {

/// What `{:?}` writes for the string slice `text`: the text between double quotes,
/// with escapes for what would not show.
pub uninterp spec fn quoted(text: Seq<char>) -> Seq<char>;

/// What `{:?}` writes for a vector of the strings `items`.
pub uninterp spec fn quoted_list(items: Seq<Seq<char>>) -> Seq<char>;

/// The trace made of a line and of its fields, both as they are written out for
/// tracing: `debug: `, the line, ` -> `, and the fields.
pub open spec fn traced(line: Seq<char>, fields: Seq<char>) -> Seq<char> {
    seq!['d', 'e', 'b', 'u', 'g', ':', ' '] + line + seq![' ', '-', '>', ' '] + fields
}

/// Formats `text` with `{:?}`, the `Debug` form of a string slice. The result is
/// taken to depend on the characters of `text` alone, and is named [`quoted`].
#[verifier::external_body]
fn quote(text: &str) -> (out: String)
    ensures
        out@ == quoted(text@),
{
    format!("{:?}", text)
}

/// Formats `items` with `{:?}`, the `Debug` form of a vector of strings. The result
/// is taken to depend on the characters of the strings alone, and is named
/// [`quoted_list`].
#[verifier::external_body]
fn quote_list(items: &Vec<String>) -> (out: String)
    ensures
        out@ == quoted_list(items.deep_view()),
{
    format!("{:?}", items)
}

/// The trace made of a line and of its fields, both written out already.
pub fn trace_of(line: &str, fields: &str) -> (out: String)
    ensures
        out@ == traced(line@, fields@),
{
    proof {
        reveal_strlit("debug: ");
        reveal_strlit(" -> ");
    }
    let mut out = String::from_str("debug: ");
    out.append(line);
    out.append(" -> ");
    out.append(fields);
    assert("debug: "@ =~= seq!['d', 'e', 'b', 'u', 'g', ':', ' ']);
    assert(" -> "@ =~= seq![' ', '-', '>', ' ']);
    out
}

/// The trace of `line`: the line as it stands, and its fields.
pub fn trace_line(line: &str) -> (out: String)
    ensures
        out@ == traced(quoted(line@), quoted_list(fields_of(line@))),
{
    let fields = split_fields(line);
    let shown = quote(line);
    let parts = quote_list(&fields);
    trace_of(shown.as_str(), parts.as_str())
}

} // verus!
