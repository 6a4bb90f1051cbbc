use vstd::prelude::*;
use vstd::utf8::encode_utf8;
use vstd::utf8::encode_scalar;

verus! {

/// Length in bytes of the UTF-8 encoding of a character sequence.
pub open spec fn byte_len(s: Seq<char>) -> int {
    encode_utf8(s).len() as int
}

/// Number of scalar values in the first `k` clusters.
pub open spec fn chars_before(gs: Seq<Seq<char>>, k: int) -> int
    decreases k,
{
    if k <= 0 {
        0
    } else {
        chars_before(gs, k - 1) + gs[k - 1].len()
    }
}

/// Number of bytes taken by the first `k` clusters.
pub open spec fn bytes_before(gs: Seq<Seq<char>>, k: int) -> int
    decreases k,
{
    if k <= 0 {
        0
    } else {
        bytes_before(gs, k - 1) + byte_len(gs[k - 1])
    }
}

pub proof fn lemma_chars_before_mono(gs: Seq<Seq<char>>, i: int, j: int)
    requires
        i <= j,
    ensures
        chars_before(gs, i) <= chars_before(gs, j),
    decreases j - i,
{
    if i < j {
        lemma_chars_before_mono(gs, i, j - 1);
    }
}

pub proof fn lemma_bytes_before_mono(gs: Seq<Seq<char>>, i: int, j: int)
    requires
        i <= j,
    ensures
        bytes_before(gs, i) <= bytes_before(gs, j),
    decreases j - i,
{
    if i < j {
        lemma_bytes_before_mono(gs, i, j - 1);
    }
}

pub proof fn lemma_chars_before_drop_first(gs: Seq<Seq<char>>, k: int)
    requires
        gs.len() > 0,
        0 <= k,
        k + 1 <= gs.len(),
    ensures
        chars_before(gs, k + 1) == gs[0].len() + chars_before(gs.drop_first(), k),
    decreases k,
{
    if k > 0 {
        lemma_chars_before_drop_first(gs, k - 1);
        assert(gs.drop_first()[k - 1] == gs[k]);
        assert(chars_before(gs, k + 1) == chars_before(gs, k) + gs[k].len());
        assert(chars_before(gs.drop_first(), k) == chars_before(gs.drop_first(), k - 1)
            + gs.drop_first()[k - 1].len());
    } else {
        assert(chars_before(gs, 1) == chars_before(gs, 0) + gs[0].len());
        assert(chars_before(gs.drop_first(), 0) == 0);
    }
}

pub proof fn lemma_bytes_before_drop_first(gs: Seq<Seq<char>>, k: int)
    requires
        gs.len() > 0,
        0 <= k,
        k + 1 <= gs.len(),
    ensures
        bytes_before(gs, k + 1) == byte_len(gs[0]) + bytes_before(gs.drop_first(), k),
    decreases k,
{
    if k > 0 {
        lemma_bytes_before_drop_first(gs, k - 1);
        assert(gs.drop_first()[k - 1] == gs[k]);
        assert(bytes_before(gs, k + 1) == bytes_before(gs, k) + byte_len(gs[k]));
        assert(bytes_before(gs.drop_first(), k) == bytes_before(gs.drop_first(), k - 1)
            + byte_len(gs.drop_first()[k - 1]));
    } else {
        assert(bytes_before(gs, 1) == bytes_before(gs, 0) + byte_len(gs[0]));
        assert(bytes_before(gs.drop_first(), 0) == 0);
    }
}

/// The scalar count of a flattened segmentation is the sum of its clusters'
/// scalar counts.
pub proof fn lemma_flatten_chars(gs: Seq<Seq<char>>)
    ensures
        gs.flatten().len() == chars_before(gs, gs.len() as int),
    decreases gs.len(),
{
    if gs.len() > 0 {
        lemma_flatten_chars(gs.drop_first());
        lemma_chars_before_drop_first(gs, gs.len() - 1);
    }
}

/// UTF-8 encoding distributes over concatenation.
pub proof fn lemma_encode_utf8_concat(a: Seq<char>, b: Seq<char>)
    ensures
        encode_utf8(a + b) == encode_utf8(a) + encode_utf8(b),
    decreases a.len(),
{
    if a.len() == 0 {
        assert(a + b =~= b);
        assert(encode_utf8(a) + encode_utf8(b) =~= encode_utf8(b));
    } else {
        lemma_encode_utf8_concat(a.drop_first(), b);
        assert((a + b).drop_first() =~= a.drop_first() + b);
        assert((a + b)[0] == a[0]);
        assert(encode_utf8(a + b) == encode_scalar(a[0] as u32) + (encode_utf8(a.drop_first())
            + encode_utf8(b)));
        assert(encode_scalar(a[0] as u32) + (encode_utf8(a.drop_first()) + encode_utf8(b))
            =~= (encode_scalar(a[0] as u32) + encode_utf8(a.drop_first())) + encode_utf8(b));
    }
}

/// The byte length of a flattened segmentation is the sum of its clusters'
/// byte lengths.
pub proof fn lemma_flatten_bytes(gs: Seq<Seq<char>>)
    ensures
        byte_len(gs.flatten()) == bytes_before(gs, gs.len() as int),
    decreases gs.len(),
{
    if gs.len() > 0 {
        lemma_flatten_bytes(gs.drop_first());
        lemma_bytes_before_drop_first(gs, gs.len() - 1);
        lemma_encode_utf8_concat(gs[0], gs.drop_first().flatten());
        assert(gs.flatten() == gs[0] + gs.drop_first().flatten());
    }
}

/// Two cluster sequences that agree on their first `k` clusters have the
/// same byte sum over them.
pub proof fn lemma_bytes_before_agree(gs: Seq<Seq<char>>, hs: Seq<Seq<char>>, k: int)
    requires
        forall|i: int| 0 <= i < k ==> #[trigger] gs[i] == hs[i],
    ensures
        bytes_before(gs, k) == bytes_before(hs, k),
    decreases k,
{
    if k > 0 {
        lemma_bytes_before_agree(gs, hs, k - 1);
    }
}

/// Taking the first `k` clusters and flattening gives the same text as taking
/// the first `chars_before(gs, k)` scalars of the whole flattening.
pub proof fn lemma_flatten_take(gs: Seq<Seq<char>>, k: int)
    requires
        0 <= k <= gs.len(),
    ensures
        gs.take(k).flatten() == gs.flatten().take(chars_before(gs, k)),
    decreases gs.len(),
{
    lemma_chars_before_mono(gs, k, gs.len() as int);
    lemma_flatten_chars(gs);
    if k == 0 {
        assert(gs.take(0) =~= Seq::<Seq<char>>::empty());
        assert(gs.take(0).flatten() =~= gs.flatten().take(0));
    } else {
        lemma_flatten_take(gs.drop_first(), k - 1);
        lemma_chars_before_drop_first(gs, k - 1);
        assert(gs.take(k).drop_first() =~= gs.drop_first().take(k - 1));
        assert(gs.take(k).flatten() == gs[0] + gs.drop_first().take(k - 1).flatten());
        assert(gs.flatten() == gs[0] + gs.drop_first().flatten());
        lemma_flatten_chars(gs.drop_first());
        lemma_chars_before_mono(gs.drop_first(), 0, k - 1);
        lemma_chars_before_mono(gs.drop_first(), k - 1, gs.drop_first().len() as int);
        assert(gs.flatten().take(chars_before(gs, k)) =~= gs[0] + gs.drop_first().flatten().take(
            chars_before(gs.drop_first(), k - 1)));
    }
}

/// The byte length of the text up to cluster boundary `k` is the byte sum
/// of the first `k` clusters.
pub proof fn lemma_take_bytes(gs: Seq<Seq<char>>, k: int)
    requires
        0 <= k <= gs.len(),
    ensures
        byte_len(gs.flatten().take(chars_before(gs, k))) == bytes_before(gs, k),
{
    lemma_flatten_take(gs, k);
    lemma_flatten_bytes(gs.take(k));
    assert(gs.take(k).len() == k);
    lemma_bytes_before_agree(gs.take(k), gs, k);
}

/// Two cluster sequences that agree on their first `k` clusters have the
/// same scalar count over them.
pub proof fn lemma_chars_before_agree(gs: Seq<Seq<char>>, hs: Seq<Seq<char>>, k: int)
    requires
        forall|i: int| 0 <= i < k ==> #[trigger] gs[i] == hs[i],
    ensures
        chars_before(gs, k) == chars_before(hs, k),
    decreases k,
{
    if k > 0 {
        lemma_chars_before_agree(gs, hs, k - 1);
    }
}

/// The first `k` clusters flatten to `chars_before(gs, k)` scalars.
pub proof fn lemma_flatten_take_len(gs: Seq<Seq<char>>, k: int)
    requires
        0 <= k <= gs.len(),
    ensures
        gs.take(k).flatten().len() == chars_before(gs, k),
{
    lemma_flatten_chars(gs.take(k));
    assert(gs.take(k).len() == k);
    lemma_chars_before_agree(gs.take(k), gs, k);
}

/// Scalar `w` of cluster `i` sits at position `chars_before(gs, i) + w` of
/// the flattened text.
pub proof fn lemma_cluster_char(gs: Seq<Seq<char>>, i: int, w: int)
    requires
        0 <= i < gs.len(),
        0 <= w < gs[i].len(),
    ensures
        0 <= chars_before(gs, i) + w < gs.flatten().len(),
        chars_before(gs, i) + w < chars_before(gs, i + 1),
        gs.flatten()[chars_before(gs, i) + w] == gs[i][w],
{
    lemma_chars_before_mono(gs, 0, i);
    lemma_chars_before_mono(gs, i + 1, gs.len() as int);
    lemma_flatten_chars(gs);
    lemma_flatten_take(gs, i + 1);
    lemma_flatten_take_len(gs, i);
    assert(gs.take(i + 1) =~= gs.take(i).push(gs[i]));
    gs.take(i).lemma_flatten_push(gs[i]);
    assert(chars_before(gs, i + 1) == chars_before(gs, i) + gs[i].len());
    assert(gs.take(i + 1).flatten() == gs.take(i).flatten() + gs[i]);
    assert(gs.flatten().take(chars_before(gs, i + 1))[chars_before(gs, i) + w] == gs[i][w]);
}

/// Skipping the first `chars_before(gs, k)` scalars of the flattened text
/// leaves the flattening of the remaining clusters.
pub proof fn lemma_skip_flatten(gs: Seq<Seq<char>>, k: int)
    requires
        0 <= k <= gs.len(),
    ensures
        gs.flatten().skip(chars_before(gs, k)) == gs.skip(k).flatten(),
{
    assert(gs =~= gs.take(k) + gs.skip(k));
    vstd::seq_lib::lemma_flatten_concat(gs.take(k), gs.skip(k));
    lemma_flatten_take_len(gs, k);
    assert(gs.flatten() == gs.take(k).flatten() + gs.skip(k).flatten());
    assert(gs.flatten().skip(chars_before(gs, k)) =~= gs.skip(k).flatten());
}

} // verus!
