//! Fixed-point RGBA colours and the Porter-Duff "over" operator.
//!
//! Every channel is an integer in `0 ..= UNIT`, where `UNIT` stands for 1.0.
//! `UNIT` is a power of two, so halves, quarters and eighths are exact.
use vstd::prelude::*;

verus! {

/// The channel value that stands for full intensity (1.0).
pub const UNIT: u32 = 65536;

/// A colour with four fixed-point channels.
///
/// Fragment colours carry straight (non-premultiplied) alpha. The result of
/// compositing carries premultiplied colour: each colour channel is at most
/// the alpha channel.
#[derive(Clone, Copy, Debug, PartialEq, Eq, Structural)]
pub struct Rgba {
    pub r: u32,
    pub g: u32,
    pub b: u32,
    pub a: u32,
}

impl Rgba {
    /// Every channel lies in `0 ..= UNIT`.
    pub open spec fn wf(self) -> bool {
        self.r <= UNIT && self.g <= UNIT && self.b <= UNIT && self.a <= UNIT
    }

    /// A premultiplied colour: in range, and no colour channel exceeds alpha.
    pub open spec fn premul_wf(self) -> bool {
        self.wf() && self.r <= self.a && self.g <= self.a && self.b <= self.a
    }

    pub open spec fn spec_transparent() -> Rgba {
        Rgba { r: 0, g: 0, b: 0, a: 0 }
    }

    /// Fully transparent black, the start of every composite.
    pub fn transparent() -> (r: Rgba)
        ensures
            r == Rgba::spec_transparent(),
    {
        Rgba { r: 0, g: 0, b: 0, a: 0 }
    }

    /// Builds a colour, rejecting any channel above `UNIT`.
    pub fn new(r: u32, g: u32, b: u32, a: u32) -> (res: Option<Rgba>)
        ensures
            res is Some <==> (r <= UNIT && g <= UNIT && b <= UNIT && a <= UNIT),
            res matches Some(c) ==> c == (Rgba { r, g, b, a }),
    {
        if r <= UNIT && g <= UNIT && b <= UNIT && a <= UNIT {
            Some(Rgba { r, g, b, a })
        } else {
            None
        }
    }
}

/// One channel of `src over dst`: `(c * a + d * (1 - a))`, rounded down.
pub open spec fn over_channel(c: int, a: int, d: int) -> int {
    (c * a + d * (UNIT - a)) / (UNIT as int)
}

/// `src over dst`, with `src` in straight alpha and `dst` premultiplied.
///
/// `out.rgb = src.rgb * src.a + dst.rgb * (1 - src.a)` and
/// `out.a = src.a + dst.a * (1 - src.a)`.
pub open spec fn over(src: Rgba, dst: Rgba) -> Rgba {
    Rgba {
        r: over_channel(src.r as int, src.a as int, dst.r as int) as u32,
        g: over_channel(src.g as int, src.a as int, dst.g as int) as u32,
        b: over_channel(src.b as int, src.a as int, dst.b as int) as u32,
        a: over_channel(UNIT as int, src.a as int, dst.a as int) as u32,
    }
}

/// One channel of a premultiplied colour laid onto the target:
/// `c + d * (1 - a)`, rounded down.
pub open spec fn onto_channel(c: int, a: int, d: int) -> int {
    (c * UNIT + d * (UNIT - a)) / (UNIT as int)
}

/// The premultiplied colour `top` composited over the target colour `dst`.
pub open spec fn onto(top: Rgba, dst: Rgba) -> Rgba {
    Rgba {
        r: onto_channel(top.r as int, top.a as int, dst.r as int) as u32,
        g: onto_channel(top.g as int, top.a as int, dst.g as int) as u32,
        b: onto_channel(top.b as int, top.a as int, dst.b as int) as u32,
        a: onto_channel(top.a as int, top.a as int, dst.a as int) as u32,
    }
}

proof fn lemma_over_channel_bounds(c: int, a: int, d: int, da: int)
    requires
        0 <= c <= UNIT,
        0 <= a <= UNIT,
        0 <= d <= da,
        da <= UNIT,
    ensures
        0 <= over_channel(c, a, d) <= over_channel(UNIT as int, a, da) <= UNIT,
{
    let u = UNIT as int;
    assert(0 <= c * a <= u * a) by (nonlinear_arith)
        requires
            0 <= c <= u,
            0 <= a,
    ;
    assert(0 <= d * (u - a) <= da * (u - a)) by (nonlinear_arith)
        requires
            0 <= d <= da,
            a <= u,
    ;
    assert(da * (u - a) <= u * (u - a)) by (nonlinear_arith)
        requires
            da <= u,
            a <= u,
    ;
    assert(u * a + u * (u - a) == u * u) by (nonlinear_arith);
    vstd::arithmetic::div_mod::lemma_div_is_ordered(c * a + d * (u - a), u * a + da * (u - a), u);
    vstd::arithmetic::div_mod::lemma_div_is_ordered(u * a + da * (u - a), u * u, u);
    vstd::arithmetic::div_mod::lemma_div_is_ordered(0, c * a + d * (u - a), u);
    vstd::arithmetic::div_mod::lemma_div_by_multiple(u, u);
}

/// Compositing a straight colour over a premultiplied one gives a premultiplied one.
pub proof fn lemma_over_premul(src: Rgba, dst: Rgba)
    requires
        src.wf(),
        dst.premul_wf(),
    ensures
        over(src, dst).premul_wf(),
{
    lemma_over_channel_bounds(src.r as int, src.a as int, dst.r as int, dst.a as int);
    lemma_over_channel_bounds(src.g as int, src.a as int, dst.g as int, dst.a as int);
    lemma_over_channel_bounds(src.b as int, src.a as int, dst.b as int, dst.a as int);
    lemma_over_channel_bounds(UNIT as int, src.a as int, dst.a as int, dst.a as int);
}

fn over_channel_exec(c: u32, a: u32, d: u32, da: u32) -> (r: u32)
    requires
        c <= UNIT,
        a <= UNIT,
        d <= da,
        da <= UNIT,
    ensures
        r as int == over_channel(c as int, a as int, d as int),
{
    proof {
        lemma_over_channel_bounds(c as int, a as int, d as int, da as int);
        assert(c as int * a as int <= UNIT as int * UNIT as int) by (nonlinear_arith)
            requires
                c <= UNIT,
                a <= UNIT,
        ;
        assert(d as int * (UNIT - a) as int <= UNIT as int * UNIT as int) by (nonlinear_arith)
            requires
                d <= UNIT,
                a <= UNIT,
        ;
    }
    let num: u64 = (c as u64) * (a as u64) + (d as u64) * ((UNIT - a) as u64);
    (num / (UNIT as u64)) as u32
}

/// Composites the straight colour `src` over the premultiplied colour `dst`.
pub fn blend_over(src: Rgba, dst: Rgba) -> (r: Rgba)
    requires
        src.wf(),
        dst.premul_wf(),
    ensures
        r == over(src, dst),
        r.premul_wf(),
{
    proof {
        lemma_over_premul(src, dst);
    }
    Rgba {
        r: over_channel_exec(src.r, src.a, dst.r, dst.a),
        g: over_channel_exec(src.g, src.a, dst.g, dst.a),
        b: over_channel_exec(src.b, src.a, dst.b, dst.a),
        a: over_channel_exec(UNIT, src.a, dst.a, dst.a),
    }
}

proof fn lemma_onto_channel_bounds(c: int, a: int, d: int)
    requires
        0 <= c <= a,
        a <= UNIT,
        0 <= d <= UNIT,
    ensures
        0 <= onto_channel(c, a, d) <= UNIT,
        0 <= c * UNIT + d * (UNIT - a) <= UNIT * UNIT,
{
    let u = UNIT as int;
    assert(0 <= c * u <= a * u) by (nonlinear_arith)
        requires
            0 <= c <= a,
            0 <= u,
    ;
    assert(0 <= d * (u - a) <= u * (u - a)) by (nonlinear_arith)
        requires
            0 <= d <= u,
            a <= u,
    ;
    assert(a * u + u * (u - a) == u * u) by (nonlinear_arith);
    vstd::arithmetic::div_mod::lemma_div_is_ordered(c * u + d * (u - a), u * u, u);
    vstd::arithmetic::div_mod::lemma_div_is_ordered(0, c * u + d * (u - a), u);
    vstd::arithmetic::div_mod::lemma_div_by_multiple(u, u);
}

fn onto_channel_exec(c: u32, a: u32, d: u32) -> (r: u32)
    requires
        c <= a,
        a <= UNIT,
        d <= UNIT,
    ensures
        r as int == onto_channel(c as int, a as int, d as int),
        r <= UNIT,
{
    proof {
        lemma_onto_channel_bounds(c as int, a as int, d as int);
    }
    let num: u64 = (c as u64) * (UNIT as u64) + (d as u64) * ((UNIT - a) as u64);
    (num / (UNIT as u64)) as u32
}

/// Lays the premultiplied colour `top` over the target colour `dst`.
/// A fully transparent `top` leaves `dst` as it was.
pub fn composite_onto(top: Rgba, dst: Rgba) -> (r: Rgba)
    requires
        top.premul_wf(),
        dst.wf(),
    ensures
        r == onto(top, dst),
        r.wf(),
{
    Rgba {
        r: onto_channel_exec(top.r, top.a, dst.r),
        g: onto_channel_exec(top.g, top.a, dst.g),
        b: onto_channel_exec(top.b, top.a, dst.b),
        a: onto_channel_exec(top.a, top.a, dst.a),
    }
}

/// Laying fully transparent black onto a colour leaves the colour unchanged.
pub proof fn lemma_onto_transparent(dst: Rgba)
    requires
        dst.wf(),
    ensures
        onto(Rgba::spec_transparent(), dst) == dst,
{
    let u = UNIT as int;
    assert forall|d: int| 0 <= d <= u implies onto_channel(0, 0, d) == d by {
        assert(0 * u + d * (u - 0) == d * u) by (nonlinear_arith);
        vstd::arithmetic::div_mod::lemma_div_by_multiple(d, u);
    }
}

} // verus!
