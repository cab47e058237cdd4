//! Fragment records and the depth order in which they are composited.
use vstd::prelude::*;
use crate::color::Rgba;

verus! {

/// One captured transparent fragment: its straight-alpha colour and its depth.
///
/// `depth` is an ordered depth key: a smaller value is nearer the camera.
#[derive(Clone, Copy, Debug, PartialEq, Eq, Structural)]
pub struct Fragment {
    pub color: Rgba,
    pub depth: u32,
}

impl Fragment {
    pub open spec fn wf(self) -> bool {
        self.color.wf()
    }
}

/// `a` strictly precedes `b` (is nearer the camera).
///
/// Depth decides; fragments at equal depth are ordered by their colour
/// channels, so that the order is total and a set of fragments has exactly
/// one sorted arrangement.
pub open spec fn frag_lt(a: Fragment, b: Fragment) -> bool {
    if a.depth != b.depth {
        a.depth < b.depth
    } else if a.color.r != b.color.r {
        a.color.r < b.color.r
    } else if a.color.g != b.color.g {
        a.color.g < b.color.g
    } else if a.color.b != b.color.b {
        a.color.b < b.color.b
    } else {
        a.color.a < b.color.a
    }
}

pub open spec fn frag_le(a: Fragment, b: Fragment) -> bool {
    frag_lt(a, b) || a == b
}

/// Exactly one of `a < b`, `a == b`, `b < a` holds, and `<` is transitive.
pub proof fn lemma_frag_order(a: Fragment, b: Fragment, c: Fragment)
    ensures
        frag_lt(a, b) || a == b || frag_lt(b, a),
        !(frag_lt(a, b) && frag_lt(b, a)),
        !frag_lt(a, a),
        frag_lt(a, b) && frag_lt(b, c) ==> frag_lt(a, c),
        frag_le(a, b) && frag_le(b, c) ==> frag_le(a, c),
        frag_le(a, b) && frag_le(b, a) ==> a == b,
{
}

/// Whether `a` is composited in front of `b`.
pub fn precedes(a: &Fragment, b: &Fragment) -> (r: bool)
    ensures
        r == frag_lt(*a, *b),
{
    if a.depth != b.depth {
        a.depth < b.depth
    } else if a.color.r != b.color.r {
        a.color.r < b.color.r
    } else if a.color.g != b.color.g {
        a.color.g < b.color.g
    } else if a.color.b != b.color.b {
        a.color.b < b.color.b
    } else {
        a.color.a < b.color.a
    }
}

/// The index of the farthest fragment of `s`; the first one where several tie.
pub open spec fn farthest_index(s: Seq<Fragment>) -> int
    decreases s.len(),
{
    if s.len() <= 1 {
        0
    } else {
        let m = farthest_index(s.drop_last());
        if frag_lt(s[m], s.last()) {
            s.len() - 1
        } else {
            m
        }
    }
}

/// The farthest index lies in range, and no fragment lies behind it.
pub proof fn lemma_farthest_index(s: Seq<Fragment>)
    requires
        s.len() > 0,
    ensures
        0 <= farthest_index(s) < s.len(),
        forall|j: int| 0 <= j < s.len() ==> frag_le(#[trigger] s[j], s[farthest_index(s)]),
    decreases s.len(),
{
    if s.len() > 1 {
        let t = s.drop_last();
        lemma_farthest_index(t);
        let m = farthest_index(t);
        assert forall|j: int| 0 <= j < s.len() implies frag_le(#[trigger] s[j], s[farthest_index(s)]) by {
            if j < s.len() - 1 {
                assert(t[j] == s[j]);
                lemma_frag_order(s[j], s[m], s.last());
            } else {
                lemma_frag_order(s[m], s.last(), s.last());
            }
        }
    }
}

/// Finds the farthest fragment of a non-empty slice.
pub fn farthest(s: &Vec<Fragment>) -> (m: usize)
    requires
        s.len() > 0,
    ensures
        m as int == farthest_index(s@),
        m < s.len(),
{
    let mut best: usize = 0;
    let mut i: usize = 1;
    assert(s@.subrange(0, 1).len() == 1);
    while i < s.len()
        invariant
            1 <= i <= s.len(),
            best as int == farthest_index(s@.subrange(0, i as int)),
            best < i,
        decreases s.len() - i,
    {
        proof {
            lemma_farthest_index(s@.subrange(0, i as int));
            assert(s@.subrange(0, i as int + 1).drop_last() =~= s@.subrange(0, i as int));
        }
        if precedes(&s[best], &s[i]) {
            best = i;
        }
        i = i + 1;
    }
    assert(s@.subrange(0, s.len() as int) =~= s@);
    best
}

} // verus!
