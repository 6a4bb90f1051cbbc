use vstd::prelude::*;

use crate::bounds::count_cut;
use crate::bounds::lemma_count_cut;
use crate::bounds::offset_cut;
use crate::bounds::resolve_count;
use crate::bounds::resolve_offset;
use crate::bounds::trimmed_prefix;
use crate::chars::has_content;
use crate::chars::leading_ws_count;
use crate::chars::str_has_content;
use crate::chars::trim_leading_ws;
use crate::measure::byte_len;
use crate::measure::chars_before;
use crate::measure::lemma_chars_before_mono;
use crate::measure::lemma_flatten_chars;
use crate::segment::grapheme_clusters;
use crate::segment::graphemes_of;
use crate::segment::seg_wf;

verus! {

/// What splitting at a scalar budget returns: the whole text alone when it
/// fits, else the trimmed head followed by the remainder with its leading
/// whitespace removed.
pub open spec fn split_by_count(s: Seq<char>, n: int) -> Seq<Seq<char>> {
    if n >= s.len() {
        seq![s]
    } else {
        let gs = graphemes_of(s);
        let k = count_cut(gs, n);
        seq![trimmed_prefix(s, k), trim_leading_ws(s.skip(chars_before(gs, k)))]
    }
}

/// What splitting at a byte offset returns: the whole text alone when the
/// offset reaches its end or lies beyond it, else the trimmed head followed
/// by the remainder with its leading whitespace removed.
pub open spec fn split_by_offset(s: Seq<char>, m: int) -> Seq<Seq<char>> {
    if m >= byte_len(s) {
        seq![s]
    } else {
        let gs = graphemes_of(s);
        let k = offset_cut(gs, m);
        seq![trimmed_prefix(s, k), trim_leading_ws(s.skip(chars_before(gs, k)))]
    }
}

/// How far the chunking loop advances when the very first cluster alone
/// exceeds the budget: past that cluster. The guards only rule out
/// segmentations no real text has; they keep the recursion well founded.
pub open spec fn first_cluster_advance(s: Seq<char>) -> int {
    let a = graphemes_of(s)[0].len() as int;
    if 0 < a <= s.len() {
        a
    } else {
        s.len() as int
    }
}

/// The scalar position where chunking resumes after a cut at cluster index
/// `k`: the untrimmed boundary, guarded as in `first_cluster_advance`.
pub open spec fn resume_chars(s: Seq<char>, k: int) -> int {
    let c = chars_before(graphemes_of(s), k);
    if 0 < c <= s.len() {
        c
    } else {
        s.len() as int
    }
}

/// What chunking a whole text at a scalar budget returns: the trimmed heads
/// of repeated splits, in order, keeping only chunks with a non-whitespace
/// scalar. A remainder that fits the budget is kept whole, whitespace and
/// all; a cluster too large for the budget is skipped entirely.
pub open spec fn split_all_by_count(s: Seq<char>, n: int) -> Seq<Seq<char>>
    decreases s.len(),
{
    if s.len() == 0 {
        Seq::<Seq<char>>::empty()
    } else if n >= s.len() {
        if has_content(s) {
            seq![s]
        } else {
            Seq::<Seq<char>>::empty()
        }
    } else {
        let gs = graphemes_of(s);
        let k = count_cut(gs, n);
        if k == 0 {
            split_all_by_count(s.skip(first_cluster_advance(s)), n)
        } else {
            let head = trimmed_prefix(s, k);
            let tail = s.skip(resume_chars(s, k));
            if has_content(head) {
                seq![head] + split_all_by_count(tail, n)
            } else {
                split_all_by_count(tail, n)
            }
        }
    }
}

/// Splitting applied to the last element of a list: the other elements stay,
/// and the split parts replace the last.
pub open spec fn list_split_by_count(l: Seq<Seq<char>>, n: int) -> Seq<Seq<char>> {
    if l.len() == 0 {
        l
    } else {
        l.drop_last() + split_by_count(l.last(), n)
    }
}

pub open spec fn list_split_by_offset(l: Seq<Seq<char>>, m: int) -> Seq<Seq<char>> {
    if l.len() == 0 {
        l
    } else {
        l.drop_last() + split_by_offset(l.last(), m)
    }
}

pub open spec fn list_split_all_by_count(l: Seq<Seq<char>>, n: int) -> Seq<Seq<char>> {
    if l.len() == 0 {
        l
    } else {
        l.drop_last() + split_all_by_count(l.last(), n)
    }
}

/// The marker a finished list ends with: exactly the empty string or a
/// single space. Extending such a list appends two empty placeholders
/// instead of splitting again.
pub open spec fn is_sentinel(t: Seq<char>) -> bool {
    t == Seq::<char>::empty() || t == seq![' ']
}

/// In-place extension: the last element is replaced by what splitting it
/// yields, or by two empty placeholders when it is the sentinel.
pub open spec fn list_extend_by_count(l: Seq<Seq<char>>, n: int) -> Seq<Seq<char>> {
    if l.len() == 0 {
        l
    } else if is_sentinel(l.last()) {
        l.drop_last() + seq![Seq::<char>::empty(), Seq::<char>::empty()]
    } else {
        l.drop_last() + split_by_count(l.last(), n)
    }
}

pub open spec fn list_extend_by_offset(l: Seq<Seq<char>>, m: int) -> Seq<Seq<char>> {
    if l.len() == 0 {
        l
    } else if is_sentinel(l.last()) {
        l.drop_last() + seq![Seq::<char>::empty(), Seq::<char>::empty()]
    } else {
        l.drop_last() + split_by_offset(l.last(), m)
    }
}

/// Splitting a single text, or the last element of a list of texts, at a
/// resolved boundary.
pub trait SplitToBoundary {
    fn split_to_boundary<'a>(&'a self, boundary: usize) -> Vec<&'a str>;

    fn split_to_offset<'a>(&'a self, offset: usize) -> Vec<&'a str>;

    fn split_all_to_boundary<'a>(&'a self, boundary: usize) -> Vec<&'a str>;
}

/// In-place, chainable splitting of the last element of a list of texts:
/// each method hands the list back so calls can be strung together.
pub trait SplitInplaceToBoundary {
    fn split_to_offset_inplace<'a>(&'a mut self, offset: usize) -> &'a mut Self;

    fn split_to_boundary_inplace<'a>(&'a mut self, boundary: usize) -> &'a mut Self;
}

fn is_sentinel_str(s: &str) -> (b: bool)
    ensures
        b == is_sentinel(s@),
{
    let l = s.unicode_len();
    if l == 0 {
        proof {
            assert(s@ =~= Seq::<char>::empty());
        }
        true
    } else if l == 1 {
        let c = s.get_char(0);
        proof {
            if c == ' ' {
                assert(s@ =~= seq![' ']);
            } else {
                assert(s@ != seq![' ']) by {
                    assert(s@[0] == c);
                }
            }
        }
        c == ' '
    } else {
        proof {
            assert(s@.len() != 1 && s@.len() != 0);
        }
        false
    }
}

impl SplitToBoundary for str {
    /// The trimmed head up to a scalar budget, then the remainder with its
    /// leading whitespace removed; just the whole text when it fits the
    /// budget.
    fn split_to_boundary<'a>(&'a self, boundary: usize) -> (r: Vec<&'a str>)
        ensures
            r.deep_view() == split_by_count(self@, boundary as int),
    {
        let total = self.unicode_len();
        let mut out: Vec<&'a str> = Vec::new();
        if boundary >= total {
            out.push(self);
            proof {
                assert(out.deep_view() =~= seq![self@]);
            }
            return out;
        }
        let gs = grapheme_clusters(self);
        proof {
            assert(seg_wf(self@));
        }
        let (tp, rp, _) = resolve_count(self, &gs, boundary);
        let head = self.substring_char(0, tp);
        let rest = self.substring_char(rp, total);
        let lw = leading_ws_count(rest);
        let tail = rest.substring_char(lw, rest.unicode_len());
        out.push(head);
        out.push(tail);
        proof {
            assert(head@ =~= self@.take(tp as int));
            assert(rest@ =~= self@.skip(rp as int));
            assert(tail@ =~= rest@.skip(lw as int));
            assert(out.deep_view() =~= split_by_count(self@, boundary as int));
        }
        out
    }

    /// The trimmed head up to a byte offset, then the remainder with its
    /// leading whitespace removed; just the whole text when the offset
    /// reaches its end or lies beyond it.
    fn split_to_offset<'a>(&'a self, offset: usize) -> (r: Vec<&'a str>)
        ensures
            r.deep_view() == split_by_offset(self@, offset as int),
    {
        let total_bytes = self.as_bytes().len();
        let mut out: Vec<&'a str> = Vec::new();
        if offset >= total_bytes {
            out.push(self);
            proof {
                assert(out.deep_view() =~= seq![self@]);
            }
            return out;
        }
        let total = self.unicode_len();
        let gs = grapheme_clusters(self);
        proof {
            assert(seg_wf(self@));
        }
        let (tp, rp, _) = resolve_offset(self, &gs, offset);
        let head = self.substring_char(0, tp);
        let rest = self.substring_char(rp, total);
        let lw = leading_ws_count(rest);
        let tail = rest.substring_char(lw, rest.unicode_len());
        out.push(head);
        out.push(tail);
        proof {
            assert(head@ =~= self@.take(tp as int));
            assert(rest@ =~= self@.skip(rp as int));
            assert(tail@ =~= rest@.skip(lw as int));
            assert(out.deep_view() =~= split_by_offset(self@, offset as int));
        }
        out
    }

    /// Chunks the whole text: repeated trimmed heads within the budget, with
    /// empty and all-whitespace candidates dropped and oversized clusters
    /// skipped.
    fn split_all_to_boundary<'a>(&'a self, boundary: usize) -> (r: Vec<&'a str>)
        ensures
            r.deep_view() == split_all_by_count(self@, boundary as int),
        decreases self@.len(),
    {
        let total = self.unicode_len();
        if total == 0 {
            let out: Vec<&'a str> = Vec::new();
            proof {
                assert(out.deep_view() =~= split_all_by_count(self@, boundary as int));
            }
            return out;
        }
        if boundary >= total {
            let mut out: Vec<&'a str> = Vec::new();
            if str_has_content(self) {
                out.push(self);
                proof {
                    assert(out.deep_view() =~= seq![self@]);
                }
            } else {
                proof {
                    assert(out.deep_view() =~= Seq::<Seq<char>>::empty());
                }
            }
            return out;
        }
        let gs = grapheme_clusters(self);
        let ghost gsv = graphemes_of(self@);
        proof {
            assert(seg_wf(self@));
            assert(gsv.len() > 0) by {
                if gsv.len() == 0 {
                    assert(gsv.flatten() =~= Seq::<char>::empty());
                }
            }
            lemma_flatten_chars(gsv);
            lemma_chars_before_mono(gsv, 1, gsv.len() as int);
        }
        let (tp, rp, _) = resolve_count(self, &gs, boundary);
        if rp == 0 {
            proof {
                assert(chars_before(gsv, 0) == 0);
                assert(chars_before(gsv, 1) == gsv[0].len());
                assert(gsv[0].len() > 0);
                let cc = count_cut(gsv, boundary as int);
                assert(rp == chars_before(gsv, cc));
                assert(cc >= 0) by {
                    lemma_count_cut(gsv, boundary as int);
                }
                assert(cc == 0) by {
                    if cc > 0 {
                        lemma_chars_before_mono(gsv, 1, cc);
                        assert(chars_before(gsv, cc) == 0);
                    }
                }
                assert(gs.deep_view()[0] == gs@[0]@);
            }
            let a = gs[0].as_str().unicode_len();
            proof {
                assert(a == gsv[0].len());
                assert(0 < a <= self@.len());
                assert(first_cluster_advance(self@) == a);
            }
            let tail = self.substring_char(a, total);
            proof {
                assert(tail@ =~= self@.skip(a as int));
            }
            let r = tail.split_all_to_boundary(boundary);
            return r;
        }
        proof {
            assert(count_cut(gsv, boundary as int) > 0) by {
                if count_cut(gsv, boundary as int) == 0 {
                    assert(chars_before(gsv, 0) == 0);
                }
            }
            assert(resume_chars(self@, count_cut(gsv, boundary as int)) == rp);
        }
        let head = self.substring_char(0, tp);
        let tail = self.substring_char(rp, total);
        proof {
            assert(head@ =~= self@.take(tp as int));
            assert(tail@ =~= self@.skip(rp as int));
            assert(head@ == trimmed_prefix(self@, count_cut(gsv, boundary as int)));
        }
        let mut rest = tail.split_all_to_boundary(boundary);
        let ghost restv = rest.deep_view();
        if str_has_content(head) {
            let mut out: Vec<&'a str> = Vec::new();
            out.push(head);
            out.append(&mut rest);
            proof {
                assert(out.deep_view() =~= seq![head@] + restv);
            }
            out
        } else {
            rest
        }
    }
}

/// Copies every element of a list but the last.
fn list_front<'a>(v: &'a Vec<&'a str>) -> (r: Vec<&'a str>)
    requires
        v@.len() >= 1,
    ensures
        r@ == v@.take(v@.len() - 1),
{
    let len = v.len();
    let mut out: Vec<&'a str> = Vec::new();
    let mut i: usize = 0;
    while i < len - 1
        invariant
            0 <= i <= len - 1,
            len == v@.len(),
            len >= 1,
            out@ == v@.take(i as int),
        decreases len - 1 - i,
    {
        let e = v[i];
        out.push(e);
        proof {
            assert(v@.take(i + 1) =~= v@.take(i as int).push(v@[i as int]));
        }
        i = i + 1;
    }
    out
}

impl SplitToBoundary for Vec<&str> {
    /// Splits the last element at a scalar budget, leaving the others as
    /// they are; the split parts replace it.
    fn split_to_boundary<'a>(&'a self, boundary: usize) -> (r: Vec<&'a str>)
        ensures
            r.deep_view() == list_split_by_count(self.deep_view(), boundary as int),
    {
        let len = self.len();
        if len == 0 {
            let out: Vec<&'a str> = Vec::new();
            proof {
                assert(out.deep_view() =~= self.deep_view());
            }
            return out;
        }
        let mut out = list_front(self);
        let last: &str = self[len - 1];
        let mut parts = last.split_to_boundary(boundary);
        let ghost pdv = parts.deep_view();
        out.append(&mut parts);
        proof {
            assert(self.deep_view().last() == last@);
            assert(out.deep_view() =~= self.deep_view().drop_last() + pdv);
        }
        out
    }

    /// Splits the last element at a byte offset, leaving the others as they
    /// are; the split parts replace it.
    fn split_to_offset<'a>(&'a self, offset: usize) -> (r: Vec<&'a str>)
        ensures
            r.deep_view() == list_split_by_offset(self.deep_view(), offset as int),
    {
        let len = self.len();
        if len == 0 {
            let out: Vec<&'a str> = Vec::new();
            proof {
                assert(out.deep_view() =~= self.deep_view());
            }
            return out;
        }
        let mut out = list_front(self);
        let last: &str = self[len - 1];
        let mut parts = last.split_to_offset(offset);
        let ghost pdv = parts.deep_view();
        out.append(&mut parts);
        proof {
            assert(self.deep_view().last() == last@);
            assert(out.deep_view() =~= self.deep_view().drop_last() + pdv);
        }
        out
    }

    /// Chunks the last element fully, leaving the others as they are; the
    /// chunks replace it.
    fn split_all_to_boundary<'a>(&'a self, boundary: usize) -> (r: Vec<&'a str>)
        ensures
            r.deep_view() == list_split_all_by_count(self.deep_view(), boundary as int),
    {
        let len = self.len();
        if len == 0 {
            let out: Vec<&'a str> = Vec::new();
            proof {
                assert(out.deep_view() =~= self.deep_view());
            }
            return out;
        }
        let mut out = list_front(self);
        let last: &str = self[len - 1];
        let mut parts = last.split_all_to_boundary(boundary);
        let ghost pdv = parts.deep_view();
        out.append(&mut parts);
        proof {
            assert(self.deep_view().last() == last@);
            assert(out.deep_view() =~= self.deep_view().drop_last() + pdv);
        }
        out
    }
}

impl SplitInplaceToBoundary for Vec<&str> {
    /// Replaces the last element by what splitting it at a byte offset
    /// yields, in place; a sentinel last element becomes two empty
    /// placeholders instead.
    fn split_to_offset_inplace<'a>(&'a mut self, offset: usize) -> (ret: &'a mut Self)
        ensures
            (*ret).deep_view() == list_extend_by_offset(old(self).deep_view(), offset as int),
            *final(ret) == *final(self),
    {
        let len = self.len();
        if len == 0 {
            proof {
                assert(self.deep_view() =~= old(self).deep_view());
            }
            return self;
        }
        let last: &str = self[len - 1];
        self.truncate(len - 1);
        proof {
            assert(old(self).deep_view().last() == last@);
        }
        if is_sentinel_str(last) {
            self.push("");
            self.push("");
            proof {
                reveal_strlit("");
                assert(""@ =~= Seq::<char>::empty());
                assert(self.deep_view() =~= old(self).deep_view().drop_last() + seq![
                    Seq::<char>::empty(),
                    Seq::<char>::empty(),
                ]);
            }
        } else {
            let mut parts = last.split_to_offset(offset);
            let ghost pdv = parts.deep_view();
            self.append(&mut parts);
            proof {
                assert(self.deep_view() =~= old(self).deep_view().drop_last() + pdv);
            }
        }
        self
    }

    /// Replaces the last element by what splitting it at a scalar budget
    /// yields, in place; a sentinel last element becomes two empty
    /// placeholders instead.
    fn split_to_boundary_inplace<'a>(&'a mut self, boundary: usize) -> (ret: &'a mut Self)
        ensures
            (*ret).deep_view() == list_extend_by_count(old(self).deep_view(), boundary as int),
            *final(ret) == *final(self),
    {
        let len = self.len();
        if len == 0 {
            proof {
                assert(self.deep_view() =~= old(self).deep_view());
            }
            return self;
        }
        let last: &str = self[len - 1];
        self.truncate(len - 1);
        proof {
            assert(old(self).deep_view().last() == last@);
        }
        if is_sentinel_str(last) {
            self.push("");
            self.push("");
            proof {
                reveal_strlit("");
                assert(""@ =~= Seq::<char>::empty());
                assert(self.deep_view() =~= old(self).deep_view().drop_last() + seq![
                    Seq::<char>::empty(),
                    Seq::<char>::empty(),
                ]);
            }
        } else {
            let mut parts = last.split_to_boundary(boundary);
            let ghost pdv = parts.deep_view();
            self.append(&mut parts);
            proof {
                assert(self.deep_view() =~= old(self).deep_view().drop_last() + pdv);
            }
        }
        self
    }
}

} // verus!
