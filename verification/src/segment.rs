use vstd::prelude::*;

verus! {

/// The sequence of grapheme clusters of a text, as Unicode segmentation
/// (UAX #29, extended grapheme clusters) divides it. The division itself is
/// supplied by the `unicode-segmentation` crate; this name stands for its
/// result, which depends on the characters of the text alone.
pub uninterp spec fn graphemes_of(s: Seq<char>) -> Seq<Seq<char>>;

/// A segmentation is well formed when its clusters are non-empty and
/// concatenate back to the text. Every real segmentation satisfies this;
/// `grapheme_clusters` hands the fact to its callers.
pub open spec fn seg_wf(s: Seq<char>) -> bool {
    &&& graphemes_of(s).flatten() == s
    &&& forall|i: int| 0 <= i < graphemes_of(s).len() ==> (#[trigger] graphemes_of(s)[i]).len() > 0
}

/// A segmentation is suffix stable when every remainder that starts on a
/// cluster boundary divides into exactly the remaining clusters. Grapheme
/// segmentation behaves so — its rules consult leftward context that never
/// crosses a cluster boundary — but nothing here claims it of
/// `graphemes_of`: a law that needs it takes it as a hypothesis.
pub open spec fn suffix_stable(s: Seq<char>) -> bool {
    forall|k: int|
        0 <= k <= graphemes_of(s).len() ==> graphemes_of(
            (#[trigger] graphemes_of(s).skip(k)).flatten(),
        ) == graphemes_of(s).skip(k)
}

/// Relies on `unicode_segmentation::UnicodeSegmentation::graphemes` (with
/// extended grapheme clusters): it yields the consecutive, non-empty
/// substrings of `s` that make up its grapheme clusters, in order, covering
/// all of `s`.
#[verifier::external_body]
pub fn grapheme_clusters(s: &str) -> (r: Vec<String>)
    ensures
        r.deep_view() == graphemes_of(s@),
        r.deep_view().flatten() == s@,
        forall|i: int| 0 <= i < r.deep_view().len() ==> (#[trigger] r.deep_view()[i]).len() > 0,
{
    unicode_segmentation::UnicodeSegmentation::graphemes(s, true).map(|g| g.to_string()).collect()
}

} // verus!
