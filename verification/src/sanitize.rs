use vstd::prelude::*;

use crate::chars::has_content;
use crate::chars::str_has_content;

verus! {

/// A list with its empty and whitespace-only entries removed.
pub open spec fn sanitized(l: Seq<Seq<char>>) -> Seq<Seq<char>> {
    l.filter(|t: Seq<char>| has_content(t))
}

proof fn lemma_sanitized_snoc(l: Seq<Seq<char>>, x: Seq<char>)
    ensures
        has_content(x) ==> sanitized(l.push(x)) == sanitized(l).push(x),
        !has_content(x) ==> sanitized(l.push(x)) == sanitized(l),
{
    assert(l.push(x).drop_last() =~= l);
    assert(l.push(x).last() == x);
    reveal_with_fuel(Seq::filter, 2);
}

/// Removes the empty and whitespace-only entries from a list of texts,
/// keeping the rest in order.
pub fn sanitize_string_vec<'a>(list: Vec<&'a str>) -> (r: Vec<&'a str>)
    ensures
        r.deep_view() == sanitized(list.deep_view()),
{
    let len = list.len();
    let mut out: Vec<&'a str> = Vec::new();
    let mut i: usize = 0;
    proof {
        assert(list.deep_view().take(0) =~= Seq::<Seq<char>>::empty());
        assert(out.deep_view() =~= sanitized(list.deep_view().take(0)));
    }
    while i < len
        invariant
            0 <= i <= len,
            len == list@.len(),
            out.deep_view() == sanitized(list.deep_view().take(i as int)),
        decreases len - i,
    {
        let e = list[i];
        let ghost outv = out.deep_view();
        proof {
            assert(list.deep_view()[i as int] == list@[i as int]@);
            assert(list.deep_view().take(i + 1) =~= list.deep_view().take(i as int).push(
                list.deep_view()[i as int]));
            lemma_sanitized_snoc(list.deep_view().take(i as int), list.deep_view()[i as int]);
        }
        if str_has_content(e) {
            out.push(e);
            proof {
                assert(out.deep_view() =~= outv.push(e@));
            }
        }
        i = i + 1;
    }
    proof {
        assert(list.deep_view().take(len as int) =~= list.deep_view());
    }
    out
}

} // verus!
