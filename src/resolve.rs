//! Resolve: composite a pixel's captured fragments, back to front.
use vstd::prelude::*;
use crate::color::{Rgba, over, blend_over, lemma_over_premul};
use crate::fragment::Fragment;
use crate::sort::{depth_sorted, sort_by_depth};

verus! {

/// All fragments of `s` carry in-range colours.
pub open spec fn all_wf(s: Seq<Fragment>) -> bool {
    forall|i: int| 0 <= i < s.len() ==> (#[trigger] s[i]).wf()
}

/// The "over" composite of fragments given nearest first: the farthest is
/// laid on transparent black first, and each nearer one over the result.
pub open spec fn composite(s: Seq<Fragment>) -> Rgba
    decreases s.len(),
{
    if s.len() == 0 {
        Rgba::spec_transparent()
    } else {
        over(s[0].color, composite(s.drop_first()))
    }
}

/// The resolved colour of a pixel that holds the fragments `s`, in any order.
pub open spec fn resolved(s: Seq<Fragment>) -> Rgba {
    composite(depth_sorted(s))
}

/// The composite of in-range fragments is a premultiplied colour.
pub proof fn lemma_composite_premul(s: Seq<Fragment>)
    requires
        all_wf(s),
    ensures
        composite(s).premul_wf(),
    decreases s.len(),
{
    if s.len() > 0 {
        let t = s.drop_first();
        assert(all_wf(t)) by {
            assert forall|i: int| 0 <= i < t.len() implies (#[trigger] t[i]).wf() by {
                assert(t[i] == s[i + 1]);
            }
        }
        lemma_composite_premul(t);
        lemma_over_premul(s[0].color, composite(t));
    }
}

/// Sorting keeps fragments in range: each sorted one is one of the input.
pub proof fn lemma_depth_sorted_wf(s: Seq<Fragment>)
    requires
        all_wf(s),
        depth_sorted(s).to_multiset() == s.to_multiset(),
    ensures
        all_wf(depth_sorted(s)),
{
    let t = depth_sorted(s);
    assert forall|i: int| 0 <= i < t.len() implies (#[trigger] t[i]).wf() by {
        vstd::seq_lib::to_multiset_contains(t, t[i]);
        vstd::seq_lib::to_multiset_contains(s, t[i]);
        assert(t.contains(t[i]));
        let k = choose|k: int| 0 <= k < s.len() && s[k] == t[i];
        assert(s[k].wf());
    }
}

/// Composites fragments that are already in depth order, nearest first.
pub fn composite_sorted(s: &Vec<Fragment>) -> (r: Rgba)
    requires
        all_wf(s@),
    ensures
        r == composite(s@),
        r.premul_wf(),
{
    let n = s.len();
    let mut acc = Rgba::transparent();
    let mut i: usize = n;
    assert(s@.subrange(n as int, n as int).len() == 0);
    while i > 0
        invariant
            0 <= i <= n,
            n == s.len(),
            all_wf(s@),
            acc == composite(s@.subrange(i as int, n as int)),
            acc.premul_wf(),
        decreases i,
    {
        i = i - 1;
        proof {
            assert(s@.subrange(i as int, n as int).drop_first() =~= s@.subrange(i as int + 1, n as int));
            assert(s@.subrange(i as int, n as int)[0] == s@[i as int]);
        }
        acc = blend_over(s[i].color, acc);
    }
    assert(s@.subrange(0, n as int) =~= s@);
    acc
}

/// Resolves one pixel: sorts its fragments by depth and composites them.
pub fn resolve_fragments(s: &Vec<Fragment>) -> (r: Rgba)
    requires
        all_wf(s@),
    ensures
        r == resolved(s@),
        r.premul_wf(),
{
    let sorted = sort_by_depth(s);
    proof {
        lemma_depth_sorted_wf(s@);
    }
    composite_sorted(&sorted)
}

} // verus!
