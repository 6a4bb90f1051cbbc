use vstd::prelude::*;

use crate::chars::char_is_ws;
use crate::chars::ws_leading;
use crate::measure::byte_len;
use crate::measure::bytes_before;
use crate::measure::chars_before;
use crate::measure::lemma_bytes_before_drop_first;
use crate::measure::lemma_bytes_before_mono;
use crate::measure::lemma_chars_before_drop_first;
use crate::measure::lemma_chars_before_mono;
use crate::measure::lemma_flatten_bytes;
use crate::measure::lemma_flatten_chars;
use crate::segment::graphemes_of;
use crate::segment::seg_wf;

verus! {

/// How many leading clusters a scalar budget of `n` wholly includes: the scan
/// stops at the first cluster whose inclusion would exceed the budget.
pub open spec fn count_cut(gs: Seq<Seq<char>>, n: int) -> int
    decreases gs.len(),
{
    if gs.len() == 0 {
        0
    } else if gs[0].len() > n {
        0
    } else {
        1 + count_cut(gs.drop_first(), n - gs[0].len())
    }
}

/// The index of the cluster whose start is the last cluster boundary at or
/// before byte offset `m`. The boundary at the text's very end is never
/// chosen, so a cluster index below `gs.len()` comes back whenever there are
/// clusters at all.
pub open spec fn offset_cut(gs: Seq<Seq<char>>, m: int) -> int
    decreases gs.len(),
{
    if gs.len() <= 1 {
        0
    } else if byte_len(gs[0]) > m {
        0
    } else {
        1 + offset_cut(gs.drop_first(), m - byte_len(gs[0]))
    }
}

/// Walks a cluster boundary backward over whitespace-led clusters, so that a
/// cut prefix never ends with one.
pub open spec fn trim_cut(gs: Seq<Seq<char>>, k: int) -> int
    decreases k,
{
    if k <= 0 {
        0
    } else if ws_leading(gs[k - 1]) {
        trim_cut(gs, k - 1)
    } else {
        k
    }
}

/// The prefix of `s` kept by a cut at cluster index `k`, after the
/// whitespace walk-back.
pub open spec fn trimmed_prefix(s: Seq<char>, k: int) -> Seq<char> {
    s.take(chars_before(graphemes_of(s), trim_cut(graphemes_of(s), k)))
}

/// What truncation to a scalar budget returns: the whole text when it fits
/// (whitespace preserved), else the trimmed prefix at the resolved boundary.
pub open spec fn truncate_by_count(s: Seq<char>, n: int) -> Seq<char> {
    if n >= s.len() {
        s
    } else {
        trimmed_prefix(s, count_cut(graphemes_of(s), n))
    }
}

/// What truncation to a byte offset returns: the whole text when the offset
/// reaches its end or lies beyond it (no cut, whitespace preserved), else
/// the trimmed prefix at the resolved boundary.
pub open spec fn truncate_by_offset(s: Seq<char>, m: int) -> Seq<char> {
    if m >= byte_len(s) {
        s
    } else {
        trimmed_prefix(s, offset_cut(graphemes_of(s), m))
    }
}

/// The untrimmed byte offset of the boundary resolved for a scalar budget;
/// splitting resumes here, so skipped whitespace stays with the remainder.
pub open spec fn raw_offset_by_count(s: Seq<char>, n: int) -> int {
    if n >= s.len() {
        byte_len(s)
    } else {
        bytes_before(graphemes_of(s), count_cut(graphemes_of(s), n))
    }
}

/// The untrimmed byte offset of the boundary resolved for a byte offset.
pub open spec fn raw_offset_by_offset(s: Seq<char>, m: int) -> int {
    if m >= byte_len(s) {
        byte_len(s)
    } else {
        bytes_before(graphemes_of(s), offset_cut(graphemes_of(s), m))
    }
}

pub proof fn lemma_count_cut(gs: Seq<Seq<char>>, n: int)
    requires
        0 <= n,
    ensures
        0 <= count_cut(gs, n) <= gs.len(),
        chars_before(gs, count_cut(gs, n)) <= n,
    decreases gs.len(),
{
    if gs.len() == 0 {
    } else if gs[0].len() > n {
    } else {
        let k = count_cut(gs.drop_first(), n - gs[0].len());
        lemma_count_cut(gs.drop_first(), n - gs[0].len());
        lemma_chars_before_drop_first(gs, k);
    }
}

pub proof fn lemma_offset_cut(gs: Seq<Seq<char>>, m: int)
    requires
        0 <= m,
    ensures
        0 <= offset_cut(gs, m) <= gs.len(),
        gs.len() > 0 ==> offset_cut(gs, m) < gs.len(),
        bytes_before(gs, offset_cut(gs, m)) <= m,
    decreases gs.len(),
{
    if gs.len() <= 1 {
    } else if byte_len(gs[0]) > m {
    } else {
        let k = offset_cut(gs.drop_first(), m - byte_len(gs[0]));
        lemma_offset_cut(gs.drop_first(), m - byte_len(gs[0]));
        lemma_bytes_before_drop_first(gs, k);
    }
}

pub proof fn lemma_trim_cut(gs: Seq<Seq<char>>, k: int)
    requires
        0 <= k,
    ensures
        0 <= trim_cut(gs, k) <= k,
    decreases k,
{
    if k > 0 && ws_leading(gs[k - 1]) {
        lemma_trim_cut(gs, k - 1);
    }
}

/// The walk-back stops either at the start of the text or just after a
/// cluster that does not lead with whitespace.
pub proof fn lemma_trim_cut_stop(gs: Seq<Seq<char>>, k: int)
    requires
        0 <= k,
    ensures
        trim_cut(gs, k) == 0 || !ws_leading(gs[trim_cut(gs, k) - 1]),
    decreases k,
{
    if k > 0 && ws_leading(gs[k - 1]) {
        lemma_trim_cut_stop(gs, k - 1);
    }
}

/// Every cluster the walk-back steps over leads with whitespace.
pub proof fn lemma_trim_cut_ws(gs: Seq<Seq<char>>, k: int)
    requires
        0 <= k,
    ensures
        forall|i: int| trim_cut(gs, k) <= i < k ==> ws_leading(#[trigger] gs[i]),
    decreases k,
{
    if k > 0 && ws_leading(gs[k - 1]) {
        lemma_trim_cut_ws(gs, k - 1);
    }
}

/// Walks the boundary at cluster index `k` back over whitespace-led
/// clusters; returns the trimmed cluster index and its scalar position.
fn resolve_trim(s: &str, gs: &Vec<String>, k: usize, p: usize) -> (r: (usize, usize))
    requires
        gs.deep_view() == graphemes_of(s@),
        seg_wf(s@),
        k <= graphemes_of(s@).len(),
        p == chars_before(graphemes_of(s@), k as int),
    ensures
        r.0 == trim_cut(graphemes_of(s@), k as int),
        r.1 == chars_before(graphemes_of(s@), trim_cut(graphemes_of(s@), k as int)),
        r.1 <= p,
{
    let ghost gsv = graphemes_of(s@);
    let mut j: usize = k;
    let mut tp: usize = p;
    loop
        invariant
            gs.deep_view() == gsv,
            gsv == graphemes_of(s@),
            0 <= j <= k <= gsv.len(),
            tp == chars_before(gsv, j as int),
            tp <= p,
            trim_cut(gsv, k as int) == trim_cut(gsv, j as int),
        ensures
            j == trim_cut(gsv, k as int),
            tp == chars_before(gsv, j as int),
            tp <= p,
        decreases j,
    {
        if j == 0 {
            break ;
        }
        let g0 = gs[j - 1].as_str();
        proof {
            assert(gs.deep_view()[j - 1] == gs@[j - 1]@);
        }
        if !(g0.unicode_len() > 0 && char_is_ws(g0.get_char(0))) {
            proof {
                assert(!ws_leading(gsv[j - 1]));
                assert(trim_cut(gsv, j as int) == j);
            }
            break ;
        }
        let cl = g0.unicode_len();
        proof {
            assert(ws_leading(gsv[j - 1]));
            assert(chars_before(gsv, j as int) == chars_before(gsv, j - 1) + gsv[j - 1].len());
            lemma_chars_before_mono(gsv, 0, j - 1);
        }
        tp = tp - cl;
        j = j - 1;
    }
    (j, tp)
}

/// Resolves a scalar budget to a boundary: returns the trimmed scalar
/// position of the kept prefix, and the raw scalar and byte positions of the
/// untrimmed boundary.
pub(crate) fn resolve_count(s: &str, gs: &Vec<String>, n: usize) -> (r: (usize, usize, usize))
    requires
        gs.deep_view() == graphemes_of(s@),
        seg_wf(s@),
    ensures
        ({
            let gsv = graphemes_of(s@);
            let k = count_cut(gsv, n as int);
            &&& r.0 == chars_before(gsv, trim_cut(gsv, k))
            &&& r.1 == chars_before(gsv, k)
            &&& r.2 == bytes_before(gsv, k)
            &&& r.0 <= r.1 <= s@.len()
            &&& r.2 <= byte_len(s@)
        }),
{
    let ghost gsv = graphemes_of(s@);
    proof {
        lemma_flatten_chars(gsv);
        lemma_flatten_bytes(gsv);
    }
    let gcount = gs.len();
    let total_bytes = s.as_bytes().len();
    let mut k: usize = 0;
    let mut p: usize = 0;
    let mut q: usize = 0;
    proof {
        assert(gsv.skip(0) =~= gsv);
    }
    loop
        invariant
            gs.deep_view() == gsv,
            gsv == graphemes_of(s@),
            seg_wf(s@),
            0 <= k <= gcount,
            gcount == gsv.len(),
            total_bytes == byte_len(s@),
            p == chars_before(gsv, k as int),
            q == bytes_before(gsv, k as int),
            p <= n,
            count_cut(gsv, n as int) == k + count_cut(gsv.skip(k as int), n - p),
        ensures
            k == count_cut(gsv, n as int),
            k <= gcount,
            gcount == gsv.len(),
            p == chars_before(gsv, k as int),
            q == bytes_before(gsv, k as int),
            p <= n,
        decreases gcount - k,
    {
        if k >= gcount {
            proof {
                assert(gsv.skip(k as int) =~= Seq::<Seq<char>>::empty());
                assert(count_cut(gsv.skip(k as int), n - p) == 0);
            }
            break ;
        }
        proof {
            assert(gs.deep_view()[k as int] == gs@[k as int]@);
        }
        let cl = gs[k].as_str().unicode_len();
        if cl > n - p {
            proof {
                assert(gsv.skip(k as int)[0] == gsv[k as int]);
                assert(count_cut(gsv.skip(k as int), n - p) == 0);
            }
            break ;
        }
        let bl = gs[k].as_str().as_bytes().len();
        proof {
            assert(gsv.skip(k as int)[0] == gsv[k as int]);
            assert(gsv.skip(k as int).drop_first() =~= gsv.skip(k + 1));
            assert(chars_before(gsv, k + 1) == chars_before(gsv, k as int) + gsv[k as int].len());
            assert(bytes_before(gsv, k + 1) == bytes_before(gsv, k as int) + byte_len(
                gsv[k as int]));
            lemma_bytes_before_mono(gsv, k + 1, gsv.len() as int);
            lemma_flatten_bytes(gsv);
        }
        p = p + cl;
        q = q + bl;
        k = k + 1;
    }
    proof {
        lemma_flatten_chars(gsv);
        lemma_flatten_bytes(gsv);
        lemma_chars_before_mono(gsv, k as int, gsv.len() as int);
        lemma_bytes_before_mono(gsv, k as int, gsv.len() as int);
    }
    let (_, tp) = resolve_trim(s, gs, k, p);
    proof {
        lemma_trim_cut(gsv, k as int);
        lemma_chars_before_mono(gsv, trim_cut(gsv, k as int), k as int);
    }
    (tp, p, q)
}

/// Resolves a byte offset to a boundary: returns the trimmed scalar position
/// of the kept prefix, and the raw scalar and byte positions of the
/// untrimmed boundary.
pub(crate) fn resolve_offset(s: &str, gs: &Vec<String>, m: usize) -> (r: (usize, usize, usize))
    requires
        gs.deep_view() == graphemes_of(s@),
        seg_wf(s@),
    ensures
        ({
            let gsv = graphemes_of(s@);
            let k = offset_cut(gsv, m as int);
            &&& r.0 == chars_before(gsv, trim_cut(gsv, k))
            &&& r.1 == chars_before(gsv, k)
            &&& r.2 == bytes_before(gsv, k)
            &&& r.0 <= r.1 <= s@.len()
            &&& r.2 <= m
        }),
{
    let ghost gsv = graphemes_of(s@);
    proof {
        lemma_flatten_chars(gsv);
        lemma_flatten_bytes(gsv);
    }
    let gcount = gs.len();
    let total = s.unicode_len();
    let mut k: usize = 0;
    let mut p: usize = 0;
    let mut q: usize = 0;
    proof {
        assert(gsv.skip(0) =~= gsv);
    }
    loop
        invariant
            gs.deep_view() == gsv,
            gsv == graphemes_of(s@),
            seg_wf(s@),
            0 <= k <= gcount,
            gcount == gsv.len(),
            total == s@.len(),
            p == chars_before(gsv, k as int),
            q == bytes_before(gsv, k as int),
            q <= m,
            offset_cut(gsv, m as int) == k + offset_cut(gsv.skip(k as int), m - q),
        ensures
            k == offset_cut(gsv, m as int),
            k <= gcount,
            gcount == gsv.len(),
            p == chars_before(gsv, k as int),
            q == bytes_before(gsv, k as int),
            q <= m,
        decreases gcount - k,
    {
        if gcount - k <= 1 {
            proof {
                assert(gsv.skip(k as int).len() <= 1);
                assert(offset_cut(gsv.skip(k as int), m - q) == 0);
            }
            break ;
        }
        proof {
            assert(gs.deep_view()[k as int] == gs@[k as int]@);
        }
        let bl = gs[k].as_str().as_bytes().len();
        if bl > m - q {
            proof {
                assert(gsv.skip(k as int)[0] == gsv[k as int]);
                assert(offset_cut(gsv.skip(k as int), m - q) == 0);
            }
            break ;
        }
        let cl = gs[k].as_str().unicode_len();
        proof {
            assert(gsv.skip(k as int)[0] == gsv[k as int]);
            assert(gsv.skip(k as int).drop_first() =~= gsv.skip(k + 1));
            assert(chars_before(gsv, k + 1) == chars_before(gsv, k as int) + gsv[k as int].len());
            assert(bytes_before(gsv, k + 1) == bytes_before(gsv, k as int) + byte_len(
                gsv[k as int]));
            lemma_chars_before_mono(gsv, k + 1, gsv.len() as int);
            lemma_chars_before_mono(gsv, 0, k + 1);
            lemma_flatten_chars(gsv);
        }
        p = p + cl;
        q = q + bl;
        k = k + 1;
    }
    proof {
        lemma_flatten_chars(gsv);
        lemma_chars_before_mono(gsv, k as int, gsv.len() as int);
    }
    let (_, tp) = resolve_trim(s, gs, k, p);
    proof {
        lemma_trim_cut(gsv, k as int);
        lemma_chars_before_mono(gsv, trim_cut(gsv, k as int), k as int);
    }
    (tp, p, q)
}

} // verus!
