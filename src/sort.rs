//! Insertion sort of a pixel's fragments into depth order.
use vstd::prelude::*;
use vstd::seq_lib::{to_multiset_insert, to_multiset_remove, to_multiset_build, to_multiset_len};
use crate::fragment::{Fragment, frag_lt, frag_le, lemma_frag_order, precedes};

verus! {

/// `s` is in depth order, nearest first.
pub open spec fn sorted(s: Seq<Fragment>) -> bool {
    forall|i: int, j: int| 0 <= i < j < s.len() ==> frag_le(#[trigger] s[i], #[trigger] s[j])
}

/// The arrangement of `s` in depth order: it depends on which fragments `s`
/// holds (its multiset) and not on their order.
pub open spec fn depth_sorted(s: Seq<Fragment>) -> Seq<Fragment> {
    choose|t: Seq<Fragment>| sorted(t) && t.to_multiset() == s.to_multiset()
}

/// Two sorted sequences that hold the same fragments are equal.
pub proof fn lemma_sorted_unique(s1: Seq<Fragment>, s2: Seq<Fragment>)
    requires
        sorted(s1),
        sorted(s2),
        s1.to_multiset() == s2.to_multiset(),
    ensures
        s1 == s2,
    decreases s1.len(),
{
    to_multiset_len(s1);
    to_multiset_len(s2);
    if s1.len() == 0 {
        assert(s1 =~= s2);
    } else {
        let a = s1[0];
        let b = s2[0];
        vstd::seq_lib::to_multiset_contains(s1, a);
        vstd::seq_lib::to_multiset_contains(s2, a);
        vstd::seq_lib::to_multiset_contains(s1, b);
        vstd::seq_lib::to_multiset_contains(s2, b);
        assert(s1.contains(a));
        let k = choose|k: int| 0 <= k < s2.len() && s2[k] == a;
        assert(frag_le(b, a)) by {
            if k > 0 {
                assert(frag_le(s2[0], s2[k]));
            }
        }
        assert(s2.contains(b));
        let k2 = choose|k: int| 0 <= k < s1.len() && s1[k] == b;
        assert(frag_le(a, b)) by {
            if k2 > 0 {
                assert(frag_le(s1[0], s1[k2]));
            }
        }
        lemma_frag_order(a, b, a);
        to_multiset_remove(s1, 0);
        to_multiset_remove(s2, 0);
        let r1 = s1.remove(0);
        let r2 = s2.remove(0);
        assert forall|i: int, j: int| 0 <= i < j < r1.len() implies frag_le(#[trigger] r1[i], #[trigger] r1[j]) by {
            assert(r1[i] == s1[i + 1] && r1[j] == s1[j + 1]);
        }
        assert forall|i: int, j: int| 0 <= i < j < r2.len() implies frag_le(#[trigger] r2[i], #[trigger] r2[j]) by {
            assert(r2[i] == s2[i + 1] && r2[j] == s2[j + 1]);
        }
        lemma_sorted_unique(r1, r2);
        assert forall|i: int| 0 <= i < s1.len() implies s1[i] == s2[i] by {
            if i > 0 {
                assert(s1[i] == r1[i - 1]);
                assert(s2[i] == r2[i - 1]);
            }
        }
        assert(s1 =~= s2);
    }
}

/// A sorted arrangement of `s` is the one `depth_sorted` names.
pub proof fn lemma_depth_sorted_is(s: Seq<Fragment>, t: Seq<Fragment>)
    requires
        sorted(t),
        t.to_multiset() == s.to_multiset(),
    ensures
        depth_sorted(s) == t,
{
    let c = depth_sorted(s);
    assert(sorted(c) && c.to_multiset() == s.to_multiset());
    lemma_sorted_unique(c, t);
}

/// Returns the fragments of `v` in depth order, nearest first.
pub fn sort_by_depth(v: &Vec<Fragment>) -> (r: Vec<Fragment>)
    ensures
        sorted(r@),
        r@.to_multiset() == v@.to_multiset(),
        r@ == depth_sorted(v@),
{
    let mut out: Vec<Fragment> = Vec::new();
    let mut i: usize = 0;
    proof {
        assert(v@.subrange(0, 0) =~= Seq::<Fragment>::empty());
        assert(out@ =~= Seq::<Fragment>::empty());
        vstd::multiset::lemma_multiset_empty_len::<Fragment>(out@.to_multiset());
        to_multiset_len(out@);
        to_multiset_len(v@.subrange(0, 0));
    }
    while i < v.len()
        invariant
            0 <= i <= v.len(),
            sorted(out@),
            out@.to_multiset() == v@.subrange(0, i as int).to_multiset(),
        decreases v.len() - i,
    {
        let x = v[i];
        let mut k: usize = 0;
        while k < out.len() && !precedes(&x, &out[k])
            invariant
                0 <= k <= out.len(),
                forall|j: int| 0 <= j < k ==> frag_le(#[trigger] out@[j], x),
            decreases out.len() - k,
        {
            proof {
                lemma_frag_order(x, out@[k as int], x);
            }
            k = k + 1;
        }
        let ghost before = out@;
        out.insert(k, x);
        proof {
            assert forall|p: int, q: int| 0 <= p < q < out@.len() implies frag_le(#[trigger] out@[p], #[trigger] out@[q]) by {
                if q < k {
                    assert(out@[p] == before[p] && out@[q] == before[q]);
                } else if q == k {
                    assert(out@[p] == before[p]);
                } else if p < k {
                    assert(out@[p] == before[p] && out@[q] == before[q - 1]);
                    assert(frag_lt(x, before[k as int]));
                    if q - 1 > k {
                        assert(frag_le(before[k as int], before[q - 1]));
                    }
                    lemma_frag_order(before[p], x, before[k as int]);
                    lemma_frag_order(x, before[k as int], before[q - 1]);
                    lemma_frag_order(before[p], x, before[q - 1]);
                } else if p == k {
                    assert(out@[q] == before[q - 1]);
                    assert(frag_lt(x, before[k as int]));
                    if q - 1 > k {
                        assert(frag_le(before[k as int], before[q - 1]));
                    }
                    lemma_frag_order(x, before[k as int], before[q - 1]);
                } else {
                    assert(out@[p] == before[p - 1] && out@[q] == before[q - 1]);
                }
            }
            to_multiset_insert(before, k as int, x);
            assert(v@.subrange(0, i as int + 1) =~= v@.subrange(0, i as int).push(x));
            to_multiset_build(v@.subrange(0, i as int), x);
        }
        i = i + 1;
    }
    proof {
        assert(v@.subrange(0, v.len() as int) =~= v@);
        lemma_depth_sorted_is(v@, out@);
    }
    out
}

} // verus!
