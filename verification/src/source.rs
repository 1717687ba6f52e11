//! The source text and the comments shown for a node: the text of its span
//! without the blank and comment lines that open it, and the comments above
//! a definition, one per line.

use crate::syntax::tokens::Comment;
use crate::text::push_char;
use crate::trace::Span;
use crate::typecheck::debug::joined;
use vstd::prelude::*;
use vstd::utf8::{
    decode_utf8, encode_utf8, encode_utf8_decode_utf8, encode_utf8_valid_utf8, is_char_boundary,
    is_char_boundary_iff_not_is_continuation_byte, is_char_boundary_start_end_of_seq,
    valid_utf8_split,
};

verus! {

/// The pieces of `text` between line feeds, in order: one more than there
/// are line feeds.
pub open spec fn pieces(text: Seq<char>) -> Seq<Seq<char>>
    decreases text.len(),
{
    if text.len() == 0 {
        seq![Seq::empty()]
    } else {
        let rest = pieces(text.drop_last());
        if text.last() == '\n' {
            rest.push(Seq::empty())
        } else {
            rest.update(rest.len() - 1, rest.last().push(text.last()))
        }
    }
}

/// A line that ended with a line feed, without the carriage return before
/// it.
pub open spec fn strip_cr(line: Seq<char>) -> Seq<char> {
    if line.len() > 0 && line.last() == '\r' {
        line.drop_last()
    } else {
        line
    }
}

/// The lines of `text` as `str::lines` gives them: split at each line feed,
/// a carriage return before a line feed dropped, and no last line when the
/// text ends with a line feed or is empty.
pub open spec fn lines_of(text: Seq<char>) -> Seq<Seq<char>> {
    let p = pieces(text);
    let body = p.drop_last().map_values(|l: Seq<char>| strip_cr(l));
    if p.last().len() == 0 {
        body
    } else {
        body.push(p.last())
    }
}

/// A line that is empty or starts with `--`.
pub open spec fn is_blank_or_comment(line: Seq<char>) -> bool {
    line.len() == 0 || (line.len() >= 2 && line[0] == '-' && line[1] == '-')
}

/// The lines from the first one that is neither blank nor a comment on.
pub open spec fn skip_blank_and_comments(lines: Seq<Seq<char>>) -> Seq<Seq<char>>
    decreases lines.len(),
{
    if lines.len() == 0 {
        lines
    } else if is_blank_or_comment(lines[0]) {
        skip_blank_and_comments(lines.drop_first())
    } else {
        lines
    }
}

/// The source shown for a node whose span holds `text`: its lines from the
/// first that is neither blank nor a comment, joined by line feeds.
pub open spec fn shown_source(text: Seq<char>) -> Seq<char> {
    joined(skip_blank_and_comments(lines_of(text)), seq!['\n'])
}

/// `pieces` never gives an empty sequence.
proof fn lemma_pieces_len(text: Seq<char>)
    ensures
        pieces(text).len() >= 1,
    decreases text.len(),
{
    if text.len() > 0 {
        lemma_pieces_len(text.drop_last());
    }
}

/// Skipping from the front: after skipping the first `k` lines, when each
/// of them is blank or a comment, the rest is skipped the same way.
proof fn lemma_skip_from(lines: Seq<Seq<char>>, k: int)
    requires
        0 <= k <= lines.len(),
        forall|j: int| 0 <= j < k ==> is_blank_or_comment(#[trigger] lines[j]),
    ensures
        skip_blank_and_comments(lines) == skip_blank_and_comments(lines.subrange(k, lines.len() as int)),
    decreases k,
{
    if k > 0 {
        assert(is_blank_or_comment(lines[0]));
        let rest = lines.drop_first();
        assert forall|j: int| 0 <= j < k - 1 implies is_blank_or_comment(#[trigger] rest[j]) by {
            assert(rest[j] == lines[j + 1]);
        }
        lemma_skip_from(rest, k - 1);
        assert(rest.subrange(k - 1, rest.len() as int) =~= lines.subrange(k, lines.len() as int));
    } else {
        assert(lines.subrange(0, lines.len() as int) =~= lines);
    }
}

/// The lines of `text` as `lines_of` gives them, each as a sequence of
/// characters.
fn split_lines(text: &str) -> (r: Vec<Vec<char>>)
    ensures
        r@.map_values(|l: Vec<char>| l@) == lines_of(text@),
{
    let n = text.unicode_len();
    let mut done: Vec<Vec<char>> = Vec::new();
    let mut current: Vec<char> = Vec::new();
    let mut i: usize = 0;
    proof {
        assert(text@.take(0) =~= Seq::<char>::empty());
    }
    while i < n
        invariant
            i <= n,
            n == text@.len(),
            pieces(text@.take(i as int)).len() >= 1,
            done@.map_values(|l: Vec<char>| l@) == pieces(text@.take(i as int)).drop_last().map_values(
                |l: Seq<char>| strip_cr(l),
            ),
            current@ == pieces(text@.take(i as int)).last(),
        decreases n - i,
    {
        let c = text.get_char(i);
        let ghost prefix = text@.take(i as int);
        let ghost p = pieces(prefix);
        proof {
            assert(text@.take(i + 1).drop_last() =~= prefix);
            assert(text@.take(i + 1).last() == c);
            lemma_pieces_len(prefix);
        }
        if c == '\n' {
            let mut line = current;
            let len = line.len();
            if len > 0 && line[len - 1] == '\r' {
                line.pop();
            }
            let ghost before = done@;
            proof {
                assert(line@ == strip_cr(p.last()));
            }
            done.push(line);
            current = Vec::new();
            proof {
                let q = pieces(text@.take(i + 1));
                assert(q == p.push(Seq::empty()));
                assert(q.drop_last() =~= p);
                assert(p =~= p.drop_last().push(p.last()));
                assert(done@.map_values(|l: Vec<char>| l@) =~= before.map_values(|l: Vec<char>| l@).push(line@));
                assert(p.map_values(|l: Seq<char>| strip_cr(l)) =~= p.drop_last().map_values(|l: Seq<char>| strip_cr(l)).push(
                    strip_cr(p.last()),
                ));
                assert(current@ =~= q.last());
            }
        } else {
            current.push(c);
            proof {
                let q = pieces(text@.take(i + 1));
                assert(q == p.update(p.len() - 1, p.last().push(c)));
                assert(q.drop_last() =~= p.drop_last());
                assert(current@ =~= q.last());
            }
        }
        i = i + 1;
    }
    proof {
        assert(text@.take(n as int) =~= text@);
    }
    if current.len() > 0 {
        let ghost before = done@;
        done.push(current);
        proof {
            assert(done@.map_values(|l: Vec<char>| l@) =~= before.map_values(|l: Vec<char>| l@).push(
                pieces(text@).last(),
            ));
        }
    }
    done
}

/// Whether a line is blank or a comment.
fn blank_or_comment(line: &Vec<char>) -> (b: bool)
    ensures
        b == is_blank_or_comment(line@),
{
    line.len() == 0 || (line.len() >= 2 && line[0] == '-' && line[1] == '-')
}

/// The shown source of `text`.
fn shown_source_of(text: &str) -> (s: String)
    ensures
        s@ == shown_source(text@),
{
    let lines = split_lines(text);
    let ghost views = lines@.map_values(|l: Vec<char>| l@);
    let mut k: usize = 0;
    while k < lines.len() && blank_or_comment(&lines[k])
        invariant
            k <= lines@.len(),
            views == lines@.map_values(|l: Vec<char>| l@),
            forall|j: int| 0 <= j < k ==> is_blank_or_comment(#[trigger] views[j]),
        decreases lines@.len() - k,
    {
        proof {
            assert(views[k as int] == lines@[k as int]@);
        }
        k = k + 1;
    }
    proof {
        lemma_skip_from(views, k as int);
        let rest = views.subrange(k as int, views.len() as int);
        if k < lines@.len() {
            assert(views[k as int] == lines@[k as int]@);
            assert(rest[0] == views[k as int]);
        }
        assert(skip_blank_and_comments(rest) == rest);
    }
    let ghost rest = views.subrange(k as int, views.len() as int);
    let mut s = String::new();
    let mut j: usize = k;
    while j < lines.len()
        invariant
            k <= j <= lines@.len(),
            views == lines@.map_values(|l: Vec<char>| l@),
            rest == views.subrange(k as int, views.len() as int),
            s@ == joined(rest.take(j - k), seq!['\n']),
        decreases lines@.len() - j,
    {
        let line = &lines[j];
        let ghost before = s@;
        if j > k {
            push_char(&mut s, '\n');
        }
        let mut t: usize = 0;
        while t < line.len()
            invariant
                t <= line@.len(),
                s@ == (if j > k {
                    before.push('\n')
                } else {
                    before
                }) + line@.take(t as int),
            decreases line@.len() - t,
        {
            push_char(&mut s, line[t]);
            proof {
                assert(line@.take(t + 1) =~= line@.take(t as int).push(line[t as int]));
            }
            t = t + 1;
        }
        proof {
            assert(line@.take(line@.len() as int) =~= line@);
            assert(rest[j - k] == views[j as int]);
            assert(views[j as int] == line@);
            assert(rest.take(j - k + 1) =~= rest.take(j - k).push(line@));
            assert(rest.take(j - k + 1).drop_last() =~= rest.take(j - k));
            if j == k {
                assert(rest.take(1)[0] == line@);
            }
        }
        j = j + 1;
    }
    proof {
        assert(rest.take(lines@.len() - k) =~= rest);
    }
    s
}

/// The span of a node and the source text it shows: the text of the span,
/// from the first line that is neither blank nor a comment on. The span
/// must lie within `source` and start and end at character boundaries.
pub fn span_source(source: &str, span: &Span) -> (r: (Span, String))
    requires
        span.range.start <= span.range.end <= encode_utf8(source@).len(),
        is_char_boundary(encode_utf8(source@), span.range.start as int),
        is_char_boundary(encode_utf8(source@), span.range.end as int),
    ensures
        r.0.path@ == span.path@,
        r.0.range == span.range,
        r.0.start_line_col == span.start_line_col,
        r.0.end_line_col == span.end_line_col,
        r.1@ == shown_source(
            decode_utf8(encode_utf8(source@).subrange(span.range.start as int, span.range.end as int)),
        ),
{
    let start = span.range.start;
    let end = span.range.end;
    let ghost bytes = encode_utf8(source@);
    let (_, tail) = source.split_at(start);
    proof {
        encode_utf8_valid_utf8(source@);
        valid_utf8_split(bytes, start as int);
        let tb = encode_utf8(tail@);
        assert(tb =~= bytes.subrange(start as int, bytes.len() as int));
        encode_utf8_valid_utf8(tail@);
        if end == start {
        } else if end as int == bytes.len() {
            is_char_boundary_start_end_of_seq(tb);
        } else {
            is_char_boundary_iff_not_is_continuation_byte(bytes, end as int);
            is_char_boundary_iff_not_is_continuation_byte(tb, end - start);
            assert(tb[end - start] == bytes[end as int]);
        }
    }
    let (text, _) = tail.split_at(end - start);
    proof {
        assert(encode_utf8(text@) =~= bytes.subrange(start as int, end as int));
        encode_utf8_decode_utf8(text@);
    }
    (span.clone(), shown_source_of(text))
}

/// The comments above a definition, one per line.
pub fn comment_text(comments: &Vec<Comment>) -> (s: String)
    ensures
        s@ == joined(comments@.map_values(|c: Comment| c.value@), seq!['\n']),
{
    let ghost values = comments@.map_values(|c: Comment| c.value@);
    let mut s = String::new();
    let mut i: usize = 0;
    while i < comments.len()
        invariant
            i <= comments@.len(),
            values == comments@.map_values(|c: Comment| c.value@),
            s@ == joined(values.take(i as int), seq!['\n']),
        decreases comments@.len() - i,
    {
        if i > 0 {
            push_char(&mut s, '\n');
        }
        s.append(comments[i].value.as_str());
        proof {
            assert(values[i as int] == comments@[i as int].value@);
            assert(values.take(i + 1) =~= values.take(i as int).push(values[i as int]));
            assert(values.take(i + 1).drop_last() =~= values.take(i as int));
            if i == 0 {
                assert(values.take(1)[0] == values[0]);
            }
        }
        i = i + 1;
    }
    proof {
        assert(values.take(comments@.len() as int) =~= values);
    }
    s
}

} // verus!
