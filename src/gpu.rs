//! The layout the capture and resolve stages share on the device: one flat
//! array of `capacity * layers` records, pixel `p`'s layer `k` at index
//! `p * layers + k`, and one counter per pixel. A record is two words: the
//! colour packed as four 8-bit unorm channels (red in the low byte), and the
//! depth key.
use vstd::prelude::*;
use crate::color::{Rgba, UNIT};
use crate::fragment::Fragment;
use crate::store::LayerStore;

verus! {

/// A channel rounded to 8 bits: `floor(0.5 + 255 * c)`.
pub open spec fn to_unorm8(c: int) -> int {
    (c * 255 + UNIT / 2) / (UNIT as int)
}

/// An 8-bit channel widened to fixed point, rounded to nearest.
pub open spec fn from_unorm8(v: int) -> int {
    (v * UNIT + 127) / 255
}

pub open spec fn packed(c: Rgba) -> u32 {
    (to_unorm8(c.r as int) + to_unorm8(c.g as int) * 256 + to_unorm8(c.b as int) * 65536
        + to_unorm8(c.a as int) * 16777216) as u32
}

pub open spec fn byte_of(w: u32, k: int) -> int {
    (w as int / pow256(k)) % 256
}

pub open spec fn pow256(k: int) -> int {
    if k == 0 {
        1
    } else if k == 1 {
        256
    } else if k == 2 {
        65536
    } else {
        16777216
    }
}

pub open spec fn unpacked(w: u32) -> Rgba {
    Rgba {
        r: from_unorm8(byte_of(w, 0)) as u32,
        g: from_unorm8(byte_of(w, 1)) as u32,
        b: from_unorm8(byte_of(w, 2)) as u32,
        a: from_unorm8(byte_of(w, 3)) as u32,
    }
}

/// The device record of a fragment.
pub open spec fn record(f: Fragment) -> (u32, u32) {
    (packed(f.color), f.depth)
}

/// What the device array holds at layer `k` of a slot: the record of a
/// retained fragment, or zeros past the slot's count.
pub open spec fn slot_record(slot: Seq<Fragment>, k: int) -> (u32, u32) {
    if k < slot.len() {
        record(slot[k])
    } else {
        (0, 0)
    }
}

proof fn lemma_to_unorm8_bound(c: int)
    requires
        0 <= c <= UNIT,
    ensures
        0 <= to_unorm8(c) <= 255,
{
    let u = UNIT as int;
    assert(0 <= c * 255 + u / 2 < 256 * u) by (nonlinear_arith)
        requires
            0 <= c <= u,
            u == 65536,
    ;
    vstd::arithmetic::div_mod::lemma_div_is_ordered(0, c * 255 + u / 2, u);
    vstd::arithmetic::div_mod::lemma_div_is_ordered(c * 255 + u / 2, 256 * u - 1, u);
}

fn unorm8(c: u32) -> (r: u32)
    requires
        c <= UNIT,
    ensures
        r as int == to_unorm8(c as int),
        r <= 255,
{
    proof {
        lemma_to_unorm8_bound(c as int);
    }
    (c * 255 + UNIT / 2) / UNIT
}

/// Packs a colour into one word, as four rounded 8-bit channels.
pub fn pack_color(c: Rgba) -> (r: u32)
    requires
        c.wf(),
    ensures
        r == packed(c),
{
    let r8 = unorm8(c.r);
    let g8 = unorm8(c.g);
    let b8 = unorm8(c.b);
    let a8 = unorm8(c.a);
    r8 + g8 * 256 + b8 * 65536 + a8 * 16777216
}

proof fn lemma_from_unorm8_bound(v: int)
    requires
        0 <= v <= 255,
    ensures
        0 <= from_unorm8(v) <= UNIT,
{
    let u = UNIT as int;
    assert(0 <= v * u + 127 < 255 * u + 255) by (nonlinear_arith)
        requires
            0 <= v <= 255,
            u == 65536,
    ;
    vstd::arithmetic::div_mod::lemma_div_is_ordered(0, v * u + 127, 255);
    vstd::arithmetic::div_mod::lemma_div_is_ordered(v * u + 127, 255 * u + 254, 255);
    vstd::arithmetic::div_mod::lemma_fundamental_div_mod(255 * u + 254, 255);
}

/// Widens a packed word back to a colour.
pub fn unpack_color(w: u32) -> (r: Rgba)
    ensures
        r == unpacked(w),
        r.wf(),
{
    let r8 = w % 256;
    let g8 = (w / 256) % 256;
    let b8 = (w / 65536) % 256;
    let a8 = (w / 16777216) % 256;
    proof {
        lemma_from_unorm8_bound(r8 as int);
        lemma_from_unorm8_bound(g8 as int);
        lemma_from_unorm8_bound(b8 as int);
        lemma_from_unorm8_bound(a8 as int);
    }
    Rgba {
        r: (r8 * UNIT + 127) / 255,
        g: (g8 * UNIT + 127) / 255,
        b: (b8 * UNIT + 127) / 255,
        a: (a8 * UNIT + 127) / 255,
    }
}

/// Widening a packed word and packing it again gives the same word.
pub proof fn law_pack_round_trip(w: u32)
    ensures
        packed(unpacked(w)) == w,
{
    assert(w == w % 256 + ((w / 256) % 256) * 256 + ((w / 65536) % 256) * 65536 + ((w / 16777216)
        % 256) * 16777216) by (bit_vector);
    lemma_unorm8_round_trip(byte_of(w, 0));
    lemma_unorm8_round_trip(byte_of(w, 1));
    lemma_unorm8_round_trip(byte_of(w, 2));
    lemma_unorm8_round_trip(byte_of(w, 3));
}

proof fn lemma_unorm8_round_trip(v: int)
    requires
        0 <= v <= 255,
    ensures
        to_unorm8(from_unorm8(v)) == v,
        0 <= from_unorm8(v) <= UNIT,
{
    lemma_from_unorm8_bound(v);
    let u = UNIT as int;
    let c = from_unorm8(v);
    vstd::arithmetic::div_mod::lemma_fundamental_div_mod(v * u + 127, 255);
    let rem = (v * u + 127) % 255;
    assert(0 <= rem < 255);
    assert(v * u + 127 == 255 * c + rem);
    let x = c * 255 + u / 2;
    assert(x == v * u + (127 - rem + u / 2));
    vstd::arithmetic::div_mod::lemma_fundamental_div_mod_converse(x, u, v, 127 - rem + u / 2);
}

pub open spec fn flat_index(pixel: int, layer: int, layers: int) -> int {
    pixel * layers + layer
}

proof fn lemma_flat_index(q: int, j: int, p: int, k: int, layers: int)
    requires
        0 <= q,
        0 <= j < layers,
        0 <= p,
        0 <= k,
        q < p || (q == p && j < k),
    ensures
        flat_index(q, j, layers) < flat_index(p, k, layers),
        0 <= flat_index(q, j, layers),
{
    if q < p {
        assert(q * layers + j < p * layers + k) by (nonlinear_arith)
            requires
                0 <= j < layers,
                q < p,
                0 <= k,
        ;
    }
    assert(0 <= q * layers) by (nonlinear_arith)
        requires
            0 <= q,
            0 <= layers,
    ;
}

/// The device buffers of a store: the flat record array and the counters.
pub fn device_layers(store: &LayerStore) -> (res: (Vec<(u32, u32)>, Vec<u32>))
    requires
        store.wf(),
        store@.layers <= u32::MAX,
    ensures
        res.0@.len() == store@.capacity() * store@.layers,
        res.1@.len() == store@.capacity(),
        forall|p: int, k: int|
            0 <= p < store@.capacity() && 0 <= k < store@.layers ==> #[trigger] res.0@[flat_index(
                p,
                k,
                store@.layers as int,
            )] == slot_record(store@.slots[p], k),
        forall|p: int| 0 <= p < store@.capacity() ==> #[trigger] res.1@[p] == store@.count(p),
{
    let cap = store.capacity();
    let layers = store.layers();
    let ghost m = store@;
    let ghost l = layers as int;
    let mut records: Vec<(u32, u32)> = Vec::new();
    let mut counts: Vec<u32> = Vec::new();
    let mut p: usize = 0;
    proof {
        assert(m.capacity() * m.layers <= usize::MAX) by {
            assert(crate::store::record_count(m.capacity(), 1, m.layers) == m.capacity() * m.layers) by (nonlinear_arith);
        }
    }
    while p < cap
        invariant
            m == store@,
            store.wf(),
            cap as nat == m.capacity(),
            layers as nat == m.layers,
            l == layers as int,
            l <= u32::MAX,
            cap * l <= usize::MAX,
            p <= cap,
            records@.len() == p * l,
            counts@.len() == p,
            forall|q: int, j: int|
                0 <= q < p && 0 <= j < l ==> #[trigger] records@[flat_index(q, j, l)] == slot_record(
                    m.slots[q],
                    j,
                ),
            forall|q: int| 0 <= q < p ==> #[trigger] counts@[q] == m.count(q),
        decreases cap - p,
    {
        let n = store.count(p);
        let mut k: usize = 0;
        proof {
            assert(p * l + l <= cap * l) by (nonlinear_arith)
                requires
                    p < cap,
                    0 <= l,
            ;
            assert(m.slots[p as int].len() <= m.layers);
        }
        while k < layers
            invariant
                m == store@,
                store.wf(),
                cap as nat == m.capacity(),
                layers as nat == m.layers,
                l == layers as int,
                p < cap,
                p * l + l <= cap * l,
                cap * l <= usize::MAX,
                n as nat == m.count(p as int),
                n <= layers,
                k <= layers,
                records@.len() == p * l + k,
                forall|q: int, j: int|
                    0 <= q < p && 0 <= j < l ==> #[trigger] records@[flat_index(q, j, l)]
                        == slot_record(m.slots[q], j),
                forall|j: int|
                    0 <= j < k ==> #[trigger] records@[flat_index(p as int, j, l)] == slot_record(
                        m.slots[p as int],
                        j,
                    ),
            decreases layers - k,
        {
            let rec = if k < n {
                let f = store.fragment(p, k);
                (pack_color(f.color), f.depth)
            } else {
                (0u32, 0u32)
            };
            let ghost before = records@;
            records.push(rec);
            proof {
                assert(records@[flat_index(p as int, k as int, l)] == rec);
                assert forall|q: int, j: int|
                    0 <= q < p && 0 <= j < l implies #[trigger] records@[flat_index(q, j, l)]
                    == slot_record(m.slots[q], j) by {
                    lemma_flat_index(q, j, p as int, k as int, l);
                    assert(records@[flat_index(q, j, l)] == before[flat_index(q, j, l)]);
                }
                assert forall|j: int| 0 <= j < k + 1 implies #[trigger] records@[flat_index(p as int, j, l)]
                    == slot_record(m.slots[p as int], j) by {
                    if j < k {
                        lemma_flat_index(p as int, j, p as int, k as int, l);
                        assert(records@[flat_index(p as int, j, l)] == before[flat_index(p as int, j, l)]);
                    }
                }
            }
            k = k + 1;
        }
        counts.push(n as u32);
        proof {
            assert(records@.len() == (p + 1) * l) by (nonlinear_arith)
                requires
                    records@.len() == p * l + l,
            ;
            assert forall|q: int, j: int|
                0 <= q < p + 1 && 0 <= j < l implies #[trigger] records@[flat_index(q, j, l)]
                == slot_record(m.slots[q], j) by {
                if q == p {
                }
            }
        }
        p = p + 1;
    }
    (records, counts)
}

} // verus!
