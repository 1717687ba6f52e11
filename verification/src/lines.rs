//! Where a byte offset of a source file falls, as a line and a column, and
//! the span of a piece of syntax.

use crate::syntax::range::Range;
use crate::trace::Span;
use vstd::prelude::*;
use vstd::utf8::encode_utf8;

verus! {

/// The number of line feeds among the first `index` bytes.
pub open spec fn newlines_before(bytes: Seq<u8>, index: int) -> nat
    decreases index,
{
    if index <= 0 {
        0
    } else if bytes[index - 1] == 10 {
        newlines_before(bytes, index - 1) + 1
    } else {
        newlines_before(bytes, index - 1)
    }
}

/// The offset where the line that holds byte `index` starts: just after the
/// last line feed among the first `index` bytes, or 0.
pub open spec fn line_start(bytes: Seq<u8>, index: int) -> int
    decreases index,
{
    if index <= 0 {
        0
    } else if bytes[index - 1] == 10 {
        index
    } else {
        line_start(bytes, index - 1)
    }
}

/// The line and column, both counted from 1, of byte `index` of `text`;
/// the column counts bytes.
pub open spec fn line_col(text: Seq<char>, index: int) -> (int, int) {
    let bytes = encode_utf8(text);
    ((newlines_before(bytes, index) + 1) as int, index - line_start(bytes, index) + 1)
}

/// `line_col::LineColLookup::get` on a lookup table made by
/// `LineColLookup::new(source)`: the line and column, counted from 1, of
/// byte `index`. The crate's source finds the line by a binary search over
/// the offsets just after each line feed, and counts the column in bytes
/// from the start of that line; it panics on an index past the end.
#[verifier::external_body]
fn line_col_at(source: &str, index: usize) -> (r: (usize, usize))
    requires
        index <= encode_utf8(source@).len(),
    ensures
        r.0 == line_col(source@, index as int).0,
        r.1 == line_col(source@, index as int).1,
{
    line_col::LineColLookup::new(source).get(index)
}

/// The span of a piece of syntax at `range` in the file at `path` whose
/// text is `source`. The range must be known and lie within the text.
pub fn make_span(path: &str, source: &str, range: Range) -> (span: Span)
    requires
        range matches Range::Known(start, end) && start <= encode_utf8(source@).len() && end <= encode_utf8(
            source@,
        ).len(),
    ensures
        range matches Range::Known(start, end) && {
            &&& span.path@ == path@
            &&& span.range.start == start
            &&& span.range.end == end
            &&& span.start_line_col.0 == line_col(source@, start as int).0
            &&& span.start_line_col.1 == line_col(source@, start as int).1
            &&& span.end_line_col.0 == line_col(source@, end as int).0
            &&& span.end_line_col.1 == line_col(source@, end as int).1
        },
{
    match range {
        Range::Known(start, end) => {
            let start_line_col = line_col_at(source, start);
            let end_line_col = line_col_at(source, end);
            Span { path: path.to_owned(), range: std::ops::Range { start, end }, start_line_col, end_line_col }
        },
        Range::Unknown => {
            proof {
                assert(false);
            }
            Span::root(path)
        },
    }
}

} // verus!
