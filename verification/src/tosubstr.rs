//! Cutting a text down to a part of itself.

use std::ops::Range;
use vstd::prelude::*;
use vstd::utf8::{
    encode_utf8, encode_utf8_valid_utf8, is_char_boundary,
    is_char_boundary_iff_not_is_continuation_byte, is_char_boundary_start_end_of_seq, valid_utf8,
    valid_utf8_split,
};

verus! {

/// A text that can be turned into a part of itself.
pub trait ToSubStr: Sized {
    /// The bytes of the text.
    spec fn bytes(&self) -> Seq<u8>;

    /// `range` lies in the text and begins and ends between two characters.
    spec fn cuts(&self, range: Range<usize>) -> bool;

    /// Turns the text into the part of it that `range` covers, counted in
    /// bytes.
    fn to_substr(&mut self, range: Range<usize>)
        requires
            old(self).cuts(range),
        ensures
            final(self).bytes() == old(self).bytes().subrange(
                range.start as int,
                range.end as int,
            ),
    ;
}

/// A boundary between characters is one in every part of the text that
/// ends at a later boundary.
proof fn lemma_boundary_in_front(bytes: Seq<u8>, start: int, end: int)
    requires
        valid_utf8(bytes),
        0 <= start <= end <= bytes.len(),
        is_char_boundary(bytes, start),
        is_char_boundary(bytes, end),
    ensures
        valid_utf8(bytes.subrange(0, end)),
        is_char_boundary(bytes.subrange(0, end), start),
{
    let front = bytes.subrange(0, end);
    valid_utf8_split(bytes, end);
    if start < end {
        is_char_boundary_iff_not_is_continuation_byte(bytes, start);
        is_char_boundary_iff_not_is_continuation_byte(front, start);
    } else {
        is_char_boundary_start_end_of_seq(front);
    }
}

impl ToSubStr for String {
    open spec fn bytes(&self) -> Seq<u8> {
        encode_utf8(self@)
    }

    open spec fn cuts(&self, range: Range<usize>) -> bool {
        &&& range.start <= range.end <= self.bytes().len()
        &&& is_char_boundary(self.bytes(), range.start as int)
        &&& is_char_boundary(self.bytes(), range.end as int)
    }

    fn to_substr(&mut self, range: Range<usize>) {
        let ghost bytes = self.bytes();
        proof {
            encode_utf8_valid_utf8(self@);
            lemma_boundary_in_front(bytes, range.start as int, range.end as int);
        }
        let (front, _) = self.as_str().split_at(range.end);
        let (_, part) = front.split_at(range.start);
        let cut = part.to_owned();
        proof {
            assert(bytes.subrange(0, range.end as int).subrange(
                range.start as int,
                range.end as int,
            ) =~= bytes.subrange(range.start as int, range.end as int));
        }
        *self = cut;
    }
}

} // verus!
