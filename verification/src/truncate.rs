use vstd::prelude::*;

use crate::bounds::raw_offset_by_count;
use crate::bounds::raw_offset_by_offset;
use crate::bounds::resolve_count;
use crate::bounds::resolve_offset;
use crate::bounds::truncate_by_count;
use crate::bounds::truncate_by_offset;
use crate::segment::grapheme_clusters;
use crate::segment::seg_wf;

verus! {

/// Truncation of a text to a scalar budget or a byte offset, never splitting
/// a grapheme cluster and trimming trailing whitespace after a real cut.
pub trait TruncateToBoundary {
    fn truncate_to_boundary<'a>(&'a self, chars: usize) -> &'a str;

    fn truncate_to_byte_offset<'a>(&'a self, offset: usize) -> &'a str;

    fn slice_indices_at_boundary<'a>(&'a self, boundary: usize) -> (&'a str, usize);

    fn slice_indices_at_offset<'a>(&'a self, offset: usize) -> (&'a str, usize);
}

impl TruncateToBoundary for str {
    /// The longest prefix of at most `chars` scalar values that ends on a
    /// grapheme-cluster boundary, with trailing whitespace clusters trimmed;
    /// the whole text, untrimmed, when it already fits the budget.
    fn truncate_to_boundary<'a>(&'a self, chars: usize) -> (r: &'a str)
        ensures
            r@ == truncate_by_count(self@, chars as int),
    {
        let total = self.unicode_len();
        if chars >= total {
            return self;
        }
        let gs = grapheme_clusters(self);
        proof {
            assert(seg_wf(self@));
        }
        let (tp, _, _) = resolve_count(self, &gs, chars);
        let r = self.substring_char(0, tp);
        proof {
            assert(r@ =~= self@.take(tp as int));
        }
        r
    }

    /// The longest prefix of at most `offset` bytes that ends on a
    /// grapheme-cluster boundary, with trailing whitespace clusters trimmed;
    /// the whole text, untrimmed, when the offset reaches its end or lies
    /// beyond it.
    fn truncate_to_byte_offset<'a>(&'a self, offset: usize) -> (r: &'a str)
        ensures
            r@ == truncate_by_offset(self@, offset as int),
    {
        let total_bytes = self.as_bytes().len();
        if offset >= total_bytes {
            return self;
        }
        let gs = grapheme_clusters(self);
        proof {
            assert(seg_wf(self@));
        }
        let (tp, _, _) = resolve_offset(self, &gs, offset);
        let r = self.substring_char(0, tp);
        proof {
            assert(r@ =~= self@.take(tp as int));
        }
        r
    }

    /// As `truncate_to_boundary`, but also returns the untrimmed byte offset
    /// of the resolved boundary, where a split resumes.
    fn slice_indices_at_boundary<'a>(&'a self, boundary: usize) -> (r: (&'a str, usize))
        ensures
            r.0@ == truncate_by_count(self@, boundary as int),
            r.1 as int == raw_offset_by_count(self@, boundary as int),
    {
        let total = self.unicode_len();
        if boundary >= total {
            return (self, self.as_bytes().len());
        }
        let gs = grapheme_clusters(self);
        proof {
            assert(seg_wf(self@));
        }
        let (tp, _, q) = resolve_count(self, &gs, boundary);
        let r = self.substring_char(0, tp);
        proof {
            assert(r@ =~= self@.take(tp as int));
        }
        (r, q)
    }

    /// As `truncate_to_byte_offset`, but also returns the untrimmed byte
    /// offset of the resolved boundary, where a split resumes.
    fn slice_indices_at_offset<'a>(&'a self, offset: usize) -> (r: (&'a str, usize))
        ensures
            r.0@ == truncate_by_offset(self@, offset as int),
            r.1 as int == raw_offset_by_offset(self@, offset as int),
    {
        let total_bytes = self.as_bytes().len();
        if offset >= total_bytes {
            return (self, total_bytes);
        }
        let gs = grapheme_clusters(self);
        proof {
            assert(seg_wf(self@));
        }
        let (tp, _, q) = resolve_offset(self, &gs, offset);
        let r = self.substring_char(0, tp);
        proof {
            assert(r@ =~= self@.take(tp as int));
        }
        (r, q)
    }
}

} // verus!
