use vstd::prelude::*;

use crate::bounds::count_cut;
use crate::bounds::lemma_count_cut;
use crate::bounds::lemma_offset_cut;
use crate::bounds::lemma_trim_cut;
use crate::bounds::lemma_trim_cut_stop;
use crate::bounds::lemma_trim_cut_ws;
use crate::bounds::offset_cut;
use crate::bounds::trim_cut;
use crate::bounds::trimmed_prefix;
use crate::bounds::truncate_by_count;
use crate::bounds::truncate_by_offset;
use crate::chars::has_content;
use crate::chars::is_ws;
use crate::chars::ws_leading;
use crate::measure::byte_len;
use crate::measure::chars_before;
use crate::measure::lemma_chars_before_mono;
use crate::measure::lemma_flatten_chars;
use crate::measure::lemma_bytes_before_mono;
use crate::measure::lemma_cluster_char;
use crate::measure::lemma_flatten_take;
use crate::measure::lemma_skip_flatten;
use crate::measure::lemma_take_bytes;
use crate::segment::graphemes_of;
use crate::segment::seg_wf;
use crate::segment::suffix_stable;
use crate::split::first_cluster_advance;
use crate::split::resume_chars;
use crate::split::split_all_by_count;

verus! {

/// The boundary a truncation cuts at, as a count of scalar values: the
/// length of what truncation returns.
pub open spec fn cut_len_by_count(s: Seq<char>, n: int) -> int {
    truncate_by_count(s, n).len() as int
}

pub open spec fn cut_len_by_offset(s: Seq<char>, m: int) -> int {
    truncate_by_offset(s, m).len() as int
}

/// Truncation to a scalar budget never splits a grapheme cluster: the cut
/// lies on a cluster boundary, never strictly inside a cluster's span.
pub proof fn lemma_truncate_count_on_cluster_boundary(s: Seq<char>, n: int)
    requires
        seg_wf(s),
        0 <= n,
    ensures
        exists|j: int|
            0 <= j <= graphemes_of(s).len() && cut_len_by_count(s, n) == chars_before(
                #[trigger] graphemes_of(s),
                j,
            ),
        forall|k: int|
            0 <= k < graphemes_of(s).len() ==> !(#[trigger] chars_before(graphemes_of(s), k)
                < cut_len_by_count(s, n) < chars_before(graphemes_of(s), k + 1)),
{
    let gs = graphemes_of(s);
    lemma_flatten_chars(gs);
    let j = if n >= s.len() {
        gs.len() as int
    } else {
        trim_cut(gs, count_cut(gs, n))
    };
    if n < s.len() {
        lemma_count_cut(gs, n);
        lemma_trim_cut(gs, count_cut(gs, n));
        lemma_chars_before_mono(gs, 0, j);
        lemma_chars_before_mono(gs, j, count_cut(gs, n));
    }
    assert(0 <= j <= gs.len() && cut_len_by_count(s, n) == chars_before(gs, j));
    assert forall|k: int| 0 <= k < gs.len() implies !(#[trigger] chars_before(gs, k)
        < cut_len_by_count(s, n) < chars_before(gs, k + 1)) by {
        if j <= k {
            lemma_chars_before_mono(gs, j, k);
        } else {
            lemma_chars_before_mono(gs, k + 1, j);
        }
    }
}

/// Truncation to a byte offset never splits a grapheme cluster either.
pub proof fn lemma_truncate_offset_on_cluster_boundary(s: Seq<char>, m: int)
    requires
        seg_wf(s),
        0 <= m,
    ensures
        exists|j: int|
            0 <= j <= graphemes_of(s).len() && cut_len_by_offset(s, m) == chars_before(
                #[trigger] graphemes_of(s),
                j,
            ),
        forall|k: int|
            0 <= k < graphemes_of(s).len() ==> !(#[trigger] chars_before(graphemes_of(s), k)
                < cut_len_by_offset(s, m) < chars_before(graphemes_of(s), k + 1)),
{
    let gs = graphemes_of(s);
    lemma_flatten_chars(gs);
    let j = if m >= byte_len(s) {
        gs.len() as int
    } else {
        trim_cut(gs, offset_cut(gs, m))
    };
    if m < byte_len(s) {
        lemma_offset_cut(gs, m);
        lemma_trim_cut(gs, offset_cut(gs, m));
        lemma_chars_before_mono(gs, 0, j);
        lemma_chars_before_mono(gs, j, offset_cut(gs, m));
        lemma_chars_before_mono(gs, offset_cut(gs, m), gs.len() as int);
    }
    assert(0 <= j <= gs.len() && cut_len_by_offset(s, m) == chars_before(gs, j));
    assert forall|k: int| 0 <= k < gs.len() implies !(#[trigger] chars_before(gs, k)
        < cut_len_by_offset(s, m) < chars_before(gs, k + 1)) by {
        if j <= k {
            lemma_chars_before_mono(gs, j, k);
        } else {
            lemma_chars_before_mono(gs, k + 1, j);
        }
    }
}

/// No cluster of the text hides a trailing whitespace scalar behind a
/// non-whitespace start. True of ordinary text: a whitespace scalar normally
/// forms its own cluster, so a cluster that ends in whitespace begins with
/// it. (The exception needs a prepend-class scalar directly before a space.)
pub open spec fn ws_ends_marked(s: Seq<char>) -> bool {
    forall|i: int|
        0 <= i < graphemes_of(s).len() && is_ws((#[trigger] graphemes_of(s)[i]).last()) ==> is_ws(
            graphemes_of(s)[i][0],
        )
}

/// After a real cut — truncation returned a strict prefix — the result never
/// ends in a whitespace scalar.
pub proof fn lemma_no_trailing_whitespace(s: Seq<char>, n: int)
    requires
        seg_wf(s),
        ws_ends_marked(s),
        0 <= n,
        cut_len_by_count(s, n) < s.len(),
    ensures
        cut_len_by_count(s, n) > 0 ==> !is_ws(truncate_by_count(s, n).last()),
{
    let gs = graphemes_of(s);
    lemma_flatten_chars(gs);
    assert(n < s.len());
    let k = count_cut(gs, n);
    let j = trim_cut(gs, k);
    lemma_count_cut(gs, n);
    lemma_trim_cut(gs, k);
    lemma_trim_cut_stop(gs, k);
    lemma_chars_before_mono(gs, 0, j);
    lemma_chars_before_mono(gs, j, k);
    if cut_len_by_count(s, n) > 0 {
        assert(chars_before(gs, j) > 0);
        assert(j > 0);
        assert(!ws_leading(gs[j - 1]));
        lemma_flatten_take(gs, j);
        assert(gs.take(j) =~= gs.take(j - 1).push(gs[j - 1]));
        gs.take(j - 1).lemma_flatten_push(gs[j - 1]);
        assert(truncate_by_count(s, n) == gs.take(j - 1).flatten() + gs[j - 1]);
        assert(gs[j - 1].len() > 0);
        assert(truncate_by_count(s, n).last() == gs[j - 1].last());
        assert(!is_ws(gs[j - 1][0]));
    }
}

/// A real cut removes nothing but whitespace: every cluster between the
/// trimmed cut and the boundary where the remainder resumes leads with a
/// whitespace scalar.
pub proof fn lemma_cut_gap_whitespace(s: Seq<char>, n: int)
    requires
        0 <= n < s.len(),
    ensures
        forall|i: int|
            trim_cut(graphemes_of(s), count_cut(graphemes_of(s), n)) <= i < count_cut(
                graphemes_of(s),
                n,
            ) ==> ws_leading(#[trigger] graphemes_of(s)[i]),
{
    lemma_count_cut(graphemes_of(s), n);
    lemma_trim_cut_ws(graphemes_of(s), count_cut(graphemes_of(s), n));
}

/// A text that fits its scalar budget comes back unchanged, whitespace
/// and all.
pub proof fn lemma_fits_identity(s: Seq<char>, n: int)
    requires
        n >= s.len(),
    ensures
        truncate_by_count(s, n) == s,
{
}

/// Truncating to the same scalar budget twice gives what truncating once
/// gives.
pub proof fn lemma_truncate_idempotent(s: Seq<char>, n: int)
    requires
        0 <= n,
    ensures
        truncate_by_count(truncate_by_count(s, n), n) == truncate_by_count(s, n),
{
    if n < s.len() {
        let gs = graphemes_of(s);
        let k = count_cut(gs, n);
        lemma_count_cut(gs, n);
        lemma_trim_cut(gs, k);
        lemma_chars_before_mono(gs, 0, trim_cut(gs, k));
        lemma_chars_before_mono(gs, trim_cut(gs, k), k);
        assert(truncate_by_count(s, n).len() <= n);
    }
}

/// Truncating to the same byte offset twice gives what truncating once
/// gives: the result of a cut is never longer than the offset, so the
/// second application takes the no-cut branch.
pub proof fn lemma_truncate_offset_idempotent(s: Seq<char>, m: int)
    requires
        seg_wf(s),
        0 <= m,
    ensures
        truncate_by_offset(truncate_by_offset(s, m), m) == truncate_by_offset(s, m),
{
    if m < byte_len(s) {
        let gs = graphemes_of(s);
        let k = offset_cut(gs, m);
        let j = trim_cut(gs, k);
        lemma_offset_cut(gs, m);
        lemma_trim_cut(gs, k);
        lemma_chars_before_mono(gs, 0, j);
        lemma_chars_before_mono(gs, j, k);
        lemma_chars_before_mono(gs, k, gs.len() as int);
        lemma_flatten_chars(gs);
        lemma_take_bytes(gs, j);
        lemma_bytes_before_mono(gs, j, k);
        let r = truncate_by_offset(s, m);
        assert(r == s.take(chars_before(gs, j)));
        assert(byte_len(r) <= m);
    }
}

/// The chunks of a sequence are, in order, non-overlapping pieces of the
/// text: the first is a contiguous piece, and the rest lie wholly in the
/// remainder after it.
pub open spec fn chunks_in_order(cs: Seq<Seq<char>>, s: Seq<char>) -> bool
    decreases cs.len(),
{
    if cs.len() == 0 {
        true
    } else {
        exists|a: int, b: int|
            {
                &&& 0 <= a <= b <= s.len()
                &&& cs[0] == #[trigger] s.subrange(a, b)
                &&& chunks_in_order(cs.drop_first(), s.skip(b))
            }
    }
}

/// A chunk layout over a later remainder is also a layout over an earlier
/// one.
proof fn lemma_chunks_shift(cs: Seq<Seq<char>>, t: Seq<char>, d: int, e: int)
    requires
        0 <= e <= d <= t.len(),
        chunks_in_order(cs, t.skip(d)),
    ensures
        chunks_in_order(cs, t.skip(e)),
{
    if cs.len() > 0 {
        let (a, b) = choose|a: int, b: int|
            {
                &&& 0 <= a <= b <= t.skip(d).len()
                &&& cs[0] == #[trigger] t.skip(d).subrange(a, b)
                &&& chunks_in_order(cs.drop_first(), t.skip(d).skip(b))
            };
        let a2 = a + (d - e);
        let b2 = b + (d - e);
        assert(t.skip(d).subrange(a, b) =~= t.skip(e).subrange(a2, b2));
        assert(t.skip(d).skip(b) =~= t.skip(e).skip(b2));
        assert(0 <= a2 <= b2 <= t.skip(e).len());
        assert(cs[0] == t.skip(e).subrange(a2, b2));
        assert(chunks_in_order(cs.drop_first(), t.skip(e).skip(b2)));
    }
}

/// The chunks of `split_all` come from the text in order, each a contiguous
/// piece, no piece reused: concatenating them visits the text left to right.
pub proof fn lemma_split_all_in_order(s: Seq<char>, n: int)
    requires
        0 <= n,
    ensures
        chunks_in_order(split_all_by_count(s, n), s),
    decreases s.len(),
{
    let cs = split_all_by_count(s, n);
    if s.len() == 0 {
    } else if n >= s.len() {
        if has_content(s) {
            assert(cs == seq![s]);
            assert(cs[0] == s.subrange(0, s.len() as int)) by {
                assert(s.subrange(0, s.len() as int) =~= s);
            }
            assert(chunks_in_order(cs.drop_first(), s.skip(s.len() as int))) by {
                assert(cs.drop_first().len() == 0);
            }
        }
    } else {
        let gs = graphemes_of(s);
        let k = count_cut(gs, n);
        lemma_count_cut(gs, n);
        if k == 0 {
            let adv = first_cluster_advance(s);
            assert(1 <= adv <= s.len());
            lemma_split_all_in_order(s.skip(adv), n);
            lemma_chunks_shift(cs, s, adv, 0);
            assert(s.skip(0) =~= s);
        } else {
            let j = trim_cut(gs, k);
            lemma_trim_cut(gs, k);
            lemma_chars_before_mono(gs, 0, j);
            lemma_chars_before_mono(gs, j, k);
            let e = chars_before(gs, j);
            let rc = resume_chars(s, k);
            assert(1 <= rc <= s.len());
            assert(e <= rc);
            let head = s.take(e);
            let rest = split_all_by_count(s.skip(rc), n);
            lemma_split_all_in_order(s.skip(rc), n);
            lemma_chunks_shift(rest, s, rc, e);
            if has_content(head) {
                assert(cs == seq![head] + rest);
                assert(cs[0] == s.subrange(0, e)) by {
                    assert(s.take(e) =~= s.subrange(0, e));
                }
                assert(cs.drop_first() =~= rest);
                assert(chunks_in_order(cs, s));
            } else {
                assert(cs == rest);
                lemma_chunks_shift(rest, s, e, 0);
                assert(s.skip(0) =~= s);
            }
        }
    }
}

/// Every chunk of `split_all` fits the scalar budget and holds at least one
/// non-whitespace scalar.
pub proof fn lemma_split_all_chunks(s: Seq<char>, n: int)
    requires
        0 <= n,
    ensures
        forall|i: int|
            0 <= i < split_all_by_count(s, n).len() ==> (#[trigger] split_all_by_count(s, n)[i]).len()
                <= n && has_content(split_all_by_count(s, n)[i]),
    decreases s.len(),
{
    let cs = split_all_by_count(s, n);
    if s.len() == 0 {
        assert(cs.len() == 0);
    } else if n >= s.len() {
        if has_content(s) {
            assert(cs == seq![s]);
            assert(forall|i: int|
                0 <= i < cs.len() ==> (#[trigger] cs[i]).len() <= n && has_content(cs[i]));
        } else {
            assert(cs.len() == 0);
        }
    } else {
        let gs = graphemes_of(s);
        let k = count_cut(gs, n);
        lemma_count_cut(gs, n);
        if k == 0 {
            let adv = first_cluster_advance(s);
            assert(1 <= adv <= s.len());
            lemma_split_all_chunks(s.skip(adv), n);
            assert(cs == split_all_by_count(s.skip(adv), n));
            assert(forall|i: int|
                0 <= i < cs.len() ==> (#[trigger] cs[i]).len() <= n && has_content(cs[i]));
        } else {
            let j = trim_cut(gs, k);
            lemma_trim_cut(gs, k);
            lemma_chars_before_mono(gs, 0, j);
            lemma_chars_before_mono(gs, j, k);
            let e = chars_before(gs, j);
            let rc = resume_chars(s, k);
            assert(1 <= rc <= s.len());
            let head = s.take(e);
            assert(head.len() <= n);
            lemma_split_all_chunks(s.skip(rc), n);
            let rest = split_all_by_count(s.skip(rc), n);
            if has_content(head) {
                assert(cs == seq![head] + rest);
                assert forall|i: int|
                    0 <= i < cs.len() implies (#[trigger] cs[i]).len() <= n && has_content(
                    cs[i],
                ) by {
                    if i == 0 {
                        assert(cs[i] == head);
                    } else {
                        assert(cs[i] == rest[i - 1]);
                    }
                }
            } else {
                assert(cs == rest);
            }
        }
    }
}

/// How a chunk sequence relates to a cluster sequence: each chunk is the
/// concatenation of a consecutive run of clusters, the runs advance left to
/// right without overlapping, and every cluster outside all runs leads with
/// whitespace. So every cluster that does not lead with whitespace lands
/// whole, unsplit, in exactly one chunk, in the text's order.
pub open spec fn chunks_cover_clusters(cs: Seq<Seq<char>>, gs: Seq<Seq<char>>) -> bool
    decreases cs.len(),
{
    if cs.len() == 0 {
        forall|i: int| 0 <= i < gs.len() ==> ws_leading(#[trigger] gs[i])
    } else {
        exists|a: int, b: int|
            #![trigger gs.subrange(a, b)]
            {
                &&& 0 <= a <= b <= gs.len()
                &&& cs[0] == gs.subrange(a, b).flatten()
                &&& (forall|i: int| 0 <= i < a ==> ws_leading(#[trigger] gs[i]))
                &&& chunks_cover_clusters(cs.drop_first(), gs.skip(b))
            }
    }
}

/// A cover of a later cluster remainder is a cover of an earlier one, as
/// long as the clusters in between lead with whitespace.
proof fn lemma_cover_shift(cs: Seq<Seq<char>>, hs: Seq<Seq<char>>, d: int, e: int)
    requires
        0 <= e <= d <= hs.len(),
        chunks_cover_clusters(cs, hs.skip(d)),
        forall|i: int| e <= i < d ==> ws_leading(#[trigger] hs[i]),
    ensures
        chunks_cover_clusters(cs, hs.skip(e)),
{
    if cs.len() == 0 {
        assert forall|i: int| 0 <= i < hs.skip(e).len() implies ws_leading(hs.skip(e)[i]) by {
            if i < d - e {
                assert(hs.skip(e)[i] == hs[e + i]);
            } else {
                assert(hs.skip(e)[i] == hs.skip(d)[i - (d - e)]);
            }
        }
    } else {
        let (a, b) = choose|a: int, b: int|
            #![trigger hs.skip(d).subrange(a, b)]
            {
                &&& 0 <= a <= b <= hs.skip(d).len()
                &&& cs[0] == hs.skip(d).subrange(a, b).flatten()
                &&& (forall|i: int| 0 <= i < a ==> ws_leading(#[trigger] hs.skip(d)[i]))
                &&& chunks_cover_clusters(cs.drop_first(), hs.skip(d).skip(b))
            };
        let a2 = a + (d - e);
        let b2 = b + (d - e);
        assert(hs.skip(d).subrange(a, b) =~= hs.skip(e).subrange(a2, b2));
        assert(hs.skip(d).skip(b) =~= hs.skip(e).skip(b2));
        assert(cs[0] == hs.skip(e).subrange(a2, b2).flatten());
        assert(chunks_cover_clusters(cs.drop_first(), hs.skip(e).skip(b2)));
        assert forall|i: int| 0 <= i < a2 implies ws_leading(hs.skip(e)[i]) by {
            if i < d - e {
                assert(hs.skip(e)[i] == hs[e + i]);
            } else {
                assert(hs.skip(e)[i] == hs.skip(d)[i - (d - e)]);
            }
        }
        assert(chunks_cover_clusters(cs, hs.skip(e)));
    }
}

/// Under a budget no smaller than any single cluster, chunking a whole text
/// loses nothing but whitespace: the chunks take consecutive runs of the
/// text's clusters in order, and only whitespace-led clusters fall outside
/// them — every other cluster appears whole in exactly one chunk. Each
/// remainder is segmented afresh, so the law takes suffix stability of the
/// segmentation as a hypothesis.
pub proof fn lemma_split_all_cluster_coverage(s: Seq<char>, n: int)
    requires
        seg_wf(s),
        suffix_stable(s),
        1 <= n,
        forall|i: int|
            0 <= i < graphemes_of(s).len() ==> (#[trigger] graphemes_of(s)[i]).len() <= n,
    ensures
        chunks_cover_clusters(split_all_by_count(s, n), graphemes_of(s)),
    decreases s.len(),
{
    let gs = graphemes_of(s);
    let cs = split_all_by_count(s, n);
    lemma_flatten_chars(gs);
    if s.len() == 0 {
        assert(gs.len() == 0) by {
            if gs.len() > 0 {
                lemma_cluster_char(gs, 0, 0);
            }
        }
        assert(cs.len() == 0);
    } else if n >= s.len() {
        if has_content(s) {
            assert(cs == seq![s]);
            assert(gs.subrange(0, gs.len() as int) =~= gs);
            assert(cs[0] == gs.subrange(0, gs.len() as int).flatten());
            assert(cs.drop_first().len() == 0);
            assert(gs.skip(gs.len() as int).len() == 0);
            assert(chunks_cover_clusters(cs.drop_first(), gs.skip(gs.len() as int)));
            assert(chunks_cover_clusters(cs, gs));
        } else {
            assert(cs.len() == 0);
            assert forall|i: int| 0 <= i < gs.len() implies ws_leading(gs[i]) by {
                assert(gs[i].len() > 0);
                lemma_cluster_char(gs, i, 0);
                assert(is_ws(s[chars_before(gs, i)]));
            }
        }
    } else {
        let k = count_cut(gs, n);
        lemma_count_cut(gs, n);
        assert(gs.len() > 0) by {
            if gs.len() == 0 {
                assert(gs.flatten() =~= Seq::<char>::empty());
            }
        }
        if k == 0 {
            assert(gs[0].len() > n) by {
                if gs[0].len() <= n {
                    lemma_count_cut(gs.drop_first(), n - gs[0].len());
                }
            }
            assert(false);
        } else {
            let j = trim_cut(gs, k);
            lemma_trim_cut(gs, k);
            lemma_trim_cut_ws(gs, k);
            lemma_chars_before_mono(gs, 0, j);
            lemma_chars_before_mono(gs, j, k);
            lemma_chars_before_mono(gs, k, gs.len() as int);
            assert(chars_before(gs, 0) == 0);
            assert(chars_before(gs, 1) == gs[0].len());
            lemma_chars_before_mono(gs, 1, k);
            let rc = chars_before(gs, k);
            assert(resume_chars(s, k) == rc);
            let tail = s.skip(rc);
            lemma_skip_flatten(gs, k);
            assert(tail == gs.skip(k).flatten());
            assert(graphemes_of(tail) == gs.skip(k));
            assert(seg_wf(tail)) by {
                assert(graphemes_of(tail).flatten() == tail);
                assert forall|i: int| 0 <= i < graphemes_of(tail).len() implies (#[trigger]
                graphemes_of(tail)[i]).len() > 0 by {
                    assert(graphemes_of(tail)[i] == gs[k + i]);
                }
            }
            assert(suffix_stable(tail)) by {
                assert forall|k2: int| 0 <= k2 <= graphemes_of(tail).len() implies graphemes_of(
                    (#[trigger] graphemes_of(tail).skip(k2)).flatten(),
                ) == graphemes_of(tail).skip(k2) by {
                    assert(graphemes_of(tail).skip(k2) =~= gs.skip(k + k2));
                    assert(graphemes_of(gs.skip(k + k2).flatten()) == gs.skip(k + k2));
                }
            }
            assert forall|i: int|
                0 <= i < graphemes_of(tail).len() implies (#[trigger] graphemes_of(
                tail,
            )[i]).len() <= n by {
                assert(graphemes_of(tail)[i] == gs[k + i]);
            }
            lemma_split_all_cluster_coverage(tail, n);
            let rest = split_all_by_count(tail, n);
            let head = trimmed_prefix(s, k);
            lemma_flatten_take(gs, j);
            assert(head == gs.take(j).flatten());
            if has_content(head) {
                assert(cs == seq![head] + rest);
                lemma_cover_shift(rest, gs, k, j);
                assert(gs.subrange(0, j) =~= gs.take(j));
                assert(cs[0] == gs.subrange(0, j).flatten());
                assert(cs.drop_first() =~= rest);
                assert(chunks_cover_clusters(cs.drop_first(), gs.skip(j)));
                assert(chunks_cover_clusters(cs, gs));
            } else {
                assert(cs == rest);
                assert forall|i: int| 0 <= i < j implies ws_leading(gs[i]) by {
                    if !ws_leading(gs[i]) {
                        assert(gs[i].len() > 0);
                        lemma_cluster_char(gs, i, 0);
                        lemma_chars_before_mono(gs, i + 1, j);
                        assert(head[chars_before(gs, i)] == s[chars_before(gs, i)]);
                        assert(!is_ws(head[chars_before(gs, i)]));
                        assert(has_content(head));
                        assert(false);
                    }
                }
                lemma_cover_shift(rest, gs, k, 0);
                assert(gs.skip(0) =~= gs);
                assert(chunks_cover_clusters(cs, gs));
            }
        }
    }
}

} // verus!
