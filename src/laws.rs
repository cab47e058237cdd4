//! Properties of capture and resolve that relate several operations.
use vstd::prelude::*;
use vstd::seq_lib::to_multiset_build;
use crate::color::{Rgba, UNIT, onto, over, over_channel, lemma_onto_transparent};
use crate::fragment::{Fragment, frag_lt, frag_le, farthest_index, lemma_farthest_index, lemma_frag_order};
use crate::sort::{depth_sorted, sorted, lemma_depth_sorted_is};
use crate::resolve::{composite, resolved};
use crate::store::{StoreModel, captured, record_count};

verus! {

/// A slot after capturing the fragments of `fs` in order, starting from `slot`.
pub open spec fn capture_all(slot: Seq<Fragment>, fs: Seq<Fragment>, layers: nat) -> Seq<Fragment>
    decreases fs.len(),
{
    if fs.len() == 0 {
        slot
    } else {
        captured(capture_all(slot, fs.drop_last(), layers), fs.last(), layers)
    }
}

/// Without overflow, capturing into an empty slot keeps every fragment, in
/// submission order.
pub proof fn lemma_capture_all_fits(fs: Seq<Fragment>, layers: nat)
    requires
        fs.len() <= layers,
    ensures
        capture_all(Seq::empty(), fs, layers) == fs,
    decreases fs.len(),
{
    if fs.len() > 0 {
        lemma_capture_all_fits(fs.drop_last(), layers);
        assert(fs.drop_last().push(fs.last()) =~= fs);
    }
}

/// A slot never holds more than `layers` records: a capture into a slot that
/// respects the bound yields one that does too, and it grows by one exactly
/// while there is room.
pub proof fn law_capture_bounded(slot: Seq<Fragment>, f: Fragment, layers: nat)
    requires
        layers >= 1,
        slot.len() <= layers,
    ensures
        captured(slot, f, layers).len() <= layers,
        slot.len() < layers ==> captured(slot, f, layers).len() == slot.len() + 1,
        slot.len() == layers ==> captured(slot, f, layers).len() == layers,
{
    if slot.len() == layers {
        crate::fragment::lemma_farthest_index(slot);
    }
}

/// In a well-formed store every pixel's count lies in `0 ..= layers`.
pub proof fn law_store_bounded(m: StoreModel, pixel: int)
    requires
        m.wf(),
        0 <= pixel < m.capacity(),
    ensures
        0 <= m.count(pixel) <= m.layers,
{
}

/// Any number of captures into an empty slot leaves at most `layers`
/// records, and exactly `layers` once at least that many were submitted.
pub proof fn law_overflow_saturates(fs: Seq<Fragment>, layers: nat)
    requires
        layers >= 1,
    ensures
        capture_all(Seq::empty(), fs, layers).len() == if fs.len() < layers {
            fs.len()
        } else {
            layers
        },
    decreases fs.len(),
{
    if fs.len() > 0 {
        law_overflow_saturates(fs.drop_last(), layers);
        law_capture_bounded(capture_all(Seq::empty(), fs.drop_last(), layers), fs.last(), layers);
    }
}

/// `kept` holds some of the fragments of `seen` (with multiplicity), and
/// each of them lies at or in front of every fragment of `seen` that was
/// not kept.
pub open spec fn keeps_nearest(kept: Seq<Fragment>, seen: Seq<Fragment>) -> bool {
    &&& kept.to_multiset().subset_of(seen.to_multiset())
    &&& forall|r: Fragment, x: Fragment|
        #![trigger kept.to_multiset().count(r), seen.to_multiset().count(x)]
        kept.to_multiset().count(r) > 0 && seen.to_multiset().count(x) > kept.to_multiset().count(
            x,
        ) ==> frag_le(r, x)
}

/// The overflow policy keeps the nearest fragments: whatever the submission
/// order, a slot holds fragments that were submitted, each at or in front of
/// every submitted fragment it lost; until the slot fills, it holds them all.
pub proof fn law_overflow_keeps_nearest(fs: Seq<Fragment>, layers: nat)
    requires
        layers >= 1,
    ensures
        keeps_nearest(capture_all(Seq::empty(), fs, layers), fs),
        capture_all(Seq::empty(), fs, layers).len() < layers ==> capture_all(
            Seq::empty(),
            fs,
            layers,
        ).to_multiset() == fs.to_multiset(),
    decreases fs.len(),
{
    broadcast use vstd::multiset::group_multiset_axioms;

    let e = Seq::<Fragment>::empty();
    if fs.len() == 0 {
        assert(fs =~= e);
    } else {
        let prev = fs.drop_last();
        let f = fs.last();
        law_overflow_keeps_nearest(prev, layers);
        law_overflow_saturates(prev, layers);
        let r = capture_all(e, prev, layers);
        let m0 = r.to_multiset();
        let s0 = prev.to_multiset();
        assert(prev.push(f) =~= fs);
        to_multiset_build(prev, f);
        let s1 = fs.to_multiset();
        assert(s1 == s0.insert(f));
        let r1 = capture_all(e, fs, layers);
        assert(r1 == captured(r, f, layers));
        if r.len() < layers {
            to_multiset_build(r, f);
            assert(r1.to_multiset() =~= s1);
        } else {
            lemma_farthest_index(r);
            let mi = farthest_index(r);
            let far = r[mi];
            assert(m0.count(far) > 0) by {
                vstd::seq_lib::to_multiset_contains(r, far);
            }
            // every retained fragment lies at or in front of `far`
            assert forall|y: Fragment| m0.count(y) > 0 implies frag_le(y, far) by {
                vstd::seq_lib::to_multiset_contains(r, y);
                let j = choose|j: int| 0 <= j < r.len() && r[j] == y;
            }
            if frag_lt(f, far) {
                vstd::seq_lib::to_multiset_update(r, mi, f);
                let m1 = r1.to_multiset();
                assert(m1 == m0.insert(f).remove(far));
                assert(f != far);
                assert(m1.subset_of(s1));
                assert forall|a: Fragment, x: Fragment|
                    #![trigger m1.count(a), s1.count(x)]
                    m1.count(a) > 0 && s1.count(x) > m1.count(x) implies frag_le(a, x) by {
                    lemma_frag_order(a, far, x);
                    lemma_frag_order(f, far, x);
                    if a != f {
                        assert(m0.count(a) > 0);
                    }
                    if x != far {
                        assert(s0.count(x) > m0.count(x));
                        assert(s0.count(far) > 0);
                        assert(frag_le(far, x)) by {
                            assert(m0.count(far) > 0);
                        }
                    }
                }
            } else {
                lemma_frag_order(f, far, f);
                let m1 = r1.to_multiset();
                assert(m1 == m0);
                assert forall|a: Fragment, x: Fragment|
                    #![trigger m1.count(a), s1.count(x)]
                    m1.count(a) > 0 && s1.count(x) > m1.count(x) implies frag_le(a, x) by {
                    lemma_frag_order(a, far, f);
                    if x != f {
                        assert(s0.count(x) > m0.count(x));
                    }
                }
            }
        }
    }
}

/// Two slots of equal length that each keep the nearest of the same
/// submitted fragments hold the same fragments.
proof fn lemma_nearest_unique(k1: Seq<Fragment>, s1: Seq<Fragment>, k2: Seq<Fragment>, s2: Seq<Fragment>)
    requires
        k1.len() == k2.len(),
        keeps_nearest(k1, s1),
        keeps_nearest(k2, s2),
        s1.to_multiset() == s2.to_multiset(),
    ensures
        k1.to_multiset() == k2.to_multiset(),
{
    broadcast use vstd::multiset::group_multiset_axioms;

    let m1 = k1.to_multiset();
    let m2 = k2.to_multiset();
    let s = s1.to_multiset();
    vstd::seq_lib::to_multiset_len(k1);
    vstd::seq_lib::to_multiset_len(k2);
    if m1 != m2 {
        // one side holds more copies of some fragment; by symmetry say `m1`
        let (ma, mb) = if exists|x: Fragment| m1.count(x) > m2.count(x) {
            (m1, m2)
        } else {
            assert(!(m1 =~= m2));
            (m2, m1)
        };
        assert(exists|x: Fragment| ma.count(x) > mb.count(x)) by {
            if !(exists|x: Fragment| m1.count(x) > m2.count(x)) {
                let w = choose|w: Fragment| m1.count(w) != m2.count(w);
                assert(m2.count(w) > m1.count(w));
            }
        }
        let x = choose|x: Fragment| ma.count(x) > mb.count(x);
        // and the other side holds more copies of some other fragment
        if forall|y: Fragment| #[trigger] mb.count(y) <= ma.count(y) {
            assert(mb.subset_of(ma));
            assert(ma.sub(mb).len() == 0);
            assert(ma.sub(mb).count(x) > 0);
        }
        let y = choose|y: Fragment| mb.count(y) > ma.count(y);
        assert(frag_le(y, x)) by {
            assert(s.count(x) > mb.count(x));
        }
        assert(frag_le(x, y)) by {
            assert(s.count(y) > ma.count(y));
        }
        lemma_frag_order(x, y, x);
    }
}

/// Order independence: two submission orders of the same fragments resolve
/// to the same colour. This holds for any number of fragments: past the
/// layer count, both orders keep the same nearest ones.
pub proof fn law_order_independent(s1: Seq<Fragment>, s2: Seq<Fragment>, layers: nat)
    requires
        s1.to_multiset() == s2.to_multiset(),
        layers >= 1,
    ensures
        resolved(capture_all(Seq::empty(), s1, layers)) == resolved(
            capture_all(Seq::empty(), s2, layers),
        ),
{
    vstd::seq_lib::to_multiset_len(s1);
    vstd::seq_lib::to_multiset_len(s2);
    let k1 = capture_all(Seq::empty(), s1, layers);
    let k2 = capture_all(Seq::empty(), s2, layers);
    law_overflow_saturates(s1, layers);
    law_overflow_saturates(s2, layers);
    law_overflow_keeps_nearest(s1, layers);
    law_overflow_keeps_nearest(s2, layers);
    lemma_nearest_unique(k1, s1, k2, s2);
    assert(depth_sorted(k1) == depth_sorted(k2));
}

pub open spec fn half_red(depth: u32) -> Fragment {
    Fragment { color: Rgba { r: UNIT, g: 0, b: 0, a: UNIT / 2 }, depth }
}

pub open spec fn half_green(depth: u32) -> Fragment {
    Fragment { color: Rgba { r: 0, g: UNIT, b: 0, a: UNIT / 2 }, depth }
}

/// Two layers: half-opaque red in front of half-opaque green resolve, in
/// either submission order, to `green * 0.5 * (1 - 0.5) + red * 0.5`, with
/// alpha `0.5 + 0.5 * (1 - 0.5)`.
pub proof fn law_two_layer_blend(d1: u32, d2: u32, layers: nat)
    requires
        d1 < d2,
        layers >= 2,
    ensures
        resolved(capture_all(Seq::empty(), seq![half_red(d1), half_green(d2)], layers)) == (Rgba {
            r: UNIT / 2,
            g: UNIT / 4,
            b: 0,
            a: (3 * UNIT / 4) as u32,
        }),
        resolved(capture_all(Seq::empty(), seq![half_green(d2), half_red(d1)], layers)) == (Rgba {
            r: UNIT / 2,
            g: UNIT / 4,
            b: 0,
            a: (3 * UNIT / 4) as u32,
        }),
{
    let red = half_red(d1);
    let green = half_green(d2);
    let front = seq![red, green];
    let back = seq![green, red];
    lemma_capture_all_fits(front, layers);
    lemma_capture_all_fits(back, layers);
    let e = Seq::<Fragment>::empty();
    assert(e.push(red) =~= seq![red]);
    assert(e.push(green) =~= seq![green]);
    assert(seq![red].push(green) =~= front);
    assert(seq![green].push(red) =~= back);
    to_multiset_build(e, red);
    to_multiset_build(e, green);
    to_multiset_build(seq![red], green);
    to_multiset_build(seq![green], red);
    assert(front.to_multiset() =~= back.to_multiset());
    assert(sorted(front));
    lemma_depth_sorted_is(front, front);
    lemma_depth_sorted_is(back, front);
    assert(front.drop_first() =~= seq![green]);
    assert(seq![green].drop_first() =~= e);
    let t = Rgba::spec_transparent();
    assert(composite(e) == t);
    assert(composite(seq![green]) == over(green.color, t));
    assert(over_channel(UNIT as int, (UNIT / 2) as int, 0) == UNIT / 2);
    assert(over_channel(0, (UNIT / 2) as int, 0) == 0);
    let mid = Rgba { r: 0, g: UNIT / 2, b: 0, a: UNIT / 2 };
    assert(over(green.color, t) == mid);
    assert(composite(front) == over(red.color, mid));
    assert(over_channel(UNIT as int, (UNIT / 2) as int, (UNIT / 2) as int) == 3 * UNIT / 4) by {
        vstd::arithmetic::div_mod::lemma_div_by_multiple(49152, 65536);
        assert(65536 * 32768 + 32768 * 32768 == 49152 * 65536);
    }
    assert(over_channel(0, (UNIT / 2) as int, (UNIT / 2) as int) == UNIT / 4);
    assert(composite(front) == (Rgba { r: UNIT / 2, g: UNIT / 4, b: 0, a: (3 * UNIT / 4) as u32 }));
}

/// A pixel with no captured fragments resolves to fully transparent black,
/// and laying that onto the target leaves the target's colour unchanged.
pub proof fn law_empty_pixel(m: StoreModel, pixel: int, below: Rgba)
    requires
        m.wf(),
        0 <= pixel < m.capacity(),
        m.count(pixel) == 0,
        below.wf(),
    ensures
        m.resolved_pixel(pixel) == Rgba::spec_transparent(),
        onto(m.resolved_pixel(pixel), below) == below,
{
    let e = Seq::<Fragment>::empty();
    assert(m.slots[pixel] =~= e);
    lemma_depth_sorted_is(e, e);
    lemma_onto_transparent(below);
}

/// The fresh store of a size whose records fit is well formed.
pub proof fn lemma_fresh_wf(width: nat, height: nat, layers: nat)
    requires
        layers >= 1,
        record_count(width, height, layers) <= usize::MAX,
    ensures
        StoreModel::fresh(width, height, layers).wf(),
{
    let f = StoreModel::fresh(width, height, layers);
    assert(record_count(width * height, 1, layers) == record_count(width, height, layers)) by (
    nonlinear_arith);
    assert forall|p: int| 0 <= p < f.slots.len() implies (#[trigger] f.slots[p]).len() <= f.layers
        && crate::resolve::all_wf(f.slots[p]) by {}
}

/// Resize safety: growing the viewport from `(w1, h1)` to `(w2, h2)` leaves
/// a slot for every pixel index below `w2 * h2`, and shrinking back to
/// `(w1, h1)` keeps that allocation, slots and all.
pub proof fn law_resize_safe(m: StoreModel, w2: nat, h2: nat)
    requires
        m.wf(),
        w2 * h2 > m.width * m.height,
        record_count(w2, h2, m.layers) <= usize::MAX,
    ensures
        m.resized(w2, h2).wf(),
        m.resized(w2, h2).pixel_count() == w2 * h2,
        w2 * h2 <= m.resized(w2, h2).capacity(),
        m.resized(w2, h2).resized(m.width, m.height).capacity() == m.resized(w2, h2).capacity(),
        m.resized(w2, h2).resized(m.width, m.height).slots == m.resized(w2, h2).slots,
        m.resized(w2, h2).resized(m.width, m.height).wf(),
{
    let g = m.resized(w2, h2);
    if w2 * h2 > m.capacity() {
        lemma_fresh_wf(w2, h2, m.layers);
    }
    assert(g.wf());
}

/// Resizing to the current size changes nothing.
pub proof fn law_resize_idempotent(m: StoreModel)
    requires
        m.wf(),
    ensures
        m.resized(m.width, m.height) == m,
{
}

} // verus!
