//! The tokens of the syntax tree: each is a piece of source text and where
//! it stands.

use crate::syntax::range::Range;
use vstd::prelude::*;
use vstd::utf8::{
    encode_utf8, encode_utf8_valid_utf8, is_char_boundary, is_char_boundary_iff_not_is_continuation_byte,
    is_char_boundary_start_end_of_seq, valid_utf8_split,
};

verus! {

/// A comment, without the `--` that starts it.
#[derive(Debug, Clone, PartialEq)]
pub struct Comment {
    pub range: Range,
    pub value: String,
}

/// A text literal, without its quotes.
#[derive(Debug, Clone, PartialEq)]
pub struct Text {
    pub range: Range,
    pub value: String,
}

/// A number literal.
#[derive(Debug, Clone, PartialEq)]
pub struct Number {
    pub range: Range,
    pub value: String,
}

/// The name of a type or a trait.
#[derive(Debug, Clone, PartialEq)]
pub struct TypeName {
    pub range: Range,
    pub value: String,
}

/// The name of a variant of an enumeration.
#[derive(Debug, Clone, PartialEq)]
pub struct VariantName {
    pub range: Range,
    pub value: String,
}

/// The name of a variable.
#[derive(Debug, Clone, PartialEq)]
pub struct VariableName {
    pub range: Range,
    pub value: String,
}

/// The name of a type parameter.
#[derive(Debug, Clone, PartialEq)]
pub struct TypeParameterName {
    pub range: Range,
    pub value: String,
}

/// The name of an attribute.
#[derive(Debug, Clone, PartialEq)]
pub struct AttributeName {
    pub range: Range,
    pub value: String,
}

/// The text of a comment after the `--` that starts it: `s` without its
/// first two bytes.
pub fn trim_comment(s: String) -> (r: String)
    requires
        is_char_boundary(encode_utf8(s@), 2),
    ensures
        encode_utf8(r@) == encode_utf8(s@).subrange(2, encode_utf8(s@).len() as int),
{
    let (_, rest) = s.as_str().split_at(2);
    rest.to_owned()
}

/// The text between the quotes of a text literal: `s` without its first and
/// last bytes.
pub fn trim_quotes(s: String) -> (r: String)
    requires
        2 <= encode_utf8(s@).len() <= usize::MAX,
        is_char_boundary(encode_utf8(s@), 1),
        is_char_boundary(encode_utf8(s@), encode_utf8(s@).len() - 1),
    ensures
        encode_utf8(r@) == encode_utf8(s@).subrange(1, encode_utf8(s@).len() - 1),
{
    let text = s.as_str();
    let n = text.len();
    let (front, _) = text.split_at(n - 1);
    proof {
        let b = encode_utf8(s@);
        encode_utf8_valid_utf8(s@);
        valid_utf8_split(b, b.len() - 1);
        let f = b.subrange(0, b.len() - 1);
        assert(encode_utf8(front@) == f);
        if f.len() == 1 {
            is_char_boundary_start_end_of_seq(f);
        } else {
            is_char_boundary_iff_not_is_continuation_byte(b, 1);
            is_char_boundary_iff_not_is_continuation_byte(f, 1);
        }
    }
    let (_, inner) = front.split_at(1);
    inner.to_owned()
}

} // verus!
