use vstd::prelude::*;

verus! {

/// Whether a scalar value has the Unicode `White_Space` property; these are
/// the scalars that trimming removes.
pub open spec fn is_ws(c: char) -> bool {
    let u = c as u32;
    ||| u == 0x09
    ||| u == 0x0A
    ||| u == 0x0B
    ||| u == 0x0C
    ||| u == 0x0D
    ||| u == 0x20
    ||| u == 0x85
    ||| u == 0xA0
    ||| u == 0x1680
    ||| (0x2000 <= u && u <= 0x200A)
    ||| u == 0x2028
    ||| u == 0x2029
    ||| u == 0x202F
    ||| u == 0x205F
    ||| u == 0x3000
}

/// Whether a grapheme cluster counts as whitespace for trimming: clusters are
/// classified by their first scalar value.
pub open spec fn ws_leading(g: Seq<char>) -> bool {
    g.len() > 0 && is_ws(g[0])
}

/// Whether a text contains at least one non-whitespace scalar; chunks without
/// any are dropped rather than emitted.
pub open spec fn has_content(s: Seq<char>) -> bool {
    exists|i: int| 0 <= i < s.len() && !is_ws(#[trigger] s[i])
}

/// A text with its leading whitespace scalars removed; the tail of a split
/// is returned in this form.
pub open spec fn trim_leading_ws(s: Seq<char>) -> Seq<char>
    decreases s.len(),
{
    if s.len() > 0 && is_ws(s[0]) {
        trim_leading_ws(s.drop_first())
    } else {
        s
    }
}

pub fn char_is_ws(c: char) -> (b: bool)
    ensures
        b == is_ws(c),
{
    let u = c as u32;
    u == 0x09 || u == 0x0A || u == 0x0B || u == 0x0C || u == 0x0D || u == 0x20 || u == 0x85
        || u == 0xA0 || u == 0x1680 || (0x2000 <= u && u <= 0x200A) || u == 0x2028 || u == 0x2029
        || u == 0x202F || u == 0x205F || u == 0x3000
}

/// Counts the whitespace scalars at the front of a text: the index where
/// its left-trimmed form starts.
pub fn leading_ws_count(s: &str) -> (i: usize)
    ensures
        0 <= i <= s@.len(),
        s@.skip(i as int) == trim_leading_ws(s@),
{
    let total = s.unicode_len();
    let mut i: usize = 0;
    proof {
        assert(s@.skip(0) =~= s@);
    }
    while i < total
        invariant
            0 <= i <= total,
            total == s@.len(),
            trim_leading_ws(s@) == trim_leading_ws(s@.skip(i as int)),
        decreases total - i,
    {
        if !char_is_ws(s.get_char(i)) {
            proof {
                assert(s@.skip(i as int)[0] == s@[i as int]);
                assert(trim_leading_ws(s@.skip(i as int)) == s@.skip(i as int));
            }
            return i;
        }
        proof {
            assert(s@.skip(i as int)[0] == s@[i as int]);
            assert(s@.skip(i as int).drop_first() =~= s@.skip(i + 1));
        }
        i = i + 1;
    }
    proof {
        assert(s@.skip(i as int) =~= Seq::<char>::empty());
    }
    i
}

pub fn str_has_content(s: &str) -> (b: bool)
    ensures
        b == has_content(s@),
{
    let total = s.unicode_len();
    let mut i: usize = 0;
    while i < total
        invariant
            0 <= i <= total,
            total == s@.len(),
            forall|j: int| 0 <= j < i ==> is_ws(#[trigger] s@[j]),
        decreases total - i,
    {
        if !char_is_ws(s.get_char(i)) {
            return true;
        }
        i = i + 1;
    }
    false
}

} // verus!
