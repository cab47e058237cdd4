//! The layer store: for each pixel of a viewport, a bounded slot of
//! captured fragments, with capture, per-frame reset, resize and resolve.
use vstd::prelude::*;
use crate::color::{Rgba, onto, composite_onto};
use crate::fragment::{Fragment, frag_lt, farthest_index, lemma_farthest_index, farthest, precedes};
use crate::resolve::{all_wf, resolved, resolve_fragments};

verus! {

/// Errors of the layer store.
#[derive(Clone, Copy, Debug, PartialEq, Eq, Structural)]
pub enum OitError {
    /// A pixel index at or past `width * height`.
    PixelOutOfRange,
    /// A layer count of zero.
    InvalidLayerCount,
    /// `width * height * layers` records do not fit in memory addresses.
    StoreTooLarge,
}

/// What a capture did with the incoming fragment.
#[derive(Clone, Copy, Debug, PartialEq, Eq, Structural)]
pub enum CaptureOutcome {
    /// The slot had room: the fragment was appended.
    Stored,
    /// The slot was full and the fragment was nearer than the farthest
    /// retained record, which it replaced.
    Replaced,
    /// The slot was full and the fragment lay at or behind every retained
    /// record: it was dropped.
    Discarded,
}

/// A pixel's slot after capturing `f` with room for `layers` records.
///
/// Overflow policy: once the slot is full, an incoming fragment replaces the
/// farthest retained record if it lies in front of it, and is dropped
/// otherwise. The slot thus keeps the nearest fragments seen so far.
pub open spec fn captured(slot: Seq<Fragment>, f: Fragment, layers: nat) -> Seq<Fragment> {
    if slot.len() < layers {
        slot.push(f)
    } else if frag_lt(f, slot[farthest_index(slot)]) {
        slot.update(farthest_index(slot), f)
    } else {
        slot
    }
}

pub open spec fn capture_outcome(slot: Seq<Fragment>, f: Fragment, layers: nat) -> CaptureOutcome {
    if slot.len() < layers {
        CaptureOutcome::Stored
    } else if frag_lt(f, slot[farthest_index(slot)]) {
        CaptureOutcome::Replaced
    } else {
        CaptureOutcome::Discarded
    }
}

/// The number of fragment records a store of this size needs.
pub open spec fn record_count(width: nat, height: nat, layers: nat) -> nat {
    width * height * layers
}

/// The mathematical content of a layer store.
pub ghost struct StoreModel {
    pub width: nat,
    pub height: nat,
    /// Records each pixel can hold (`L`).
    pub layers: nat,
    /// One slot per allocated pixel, row-major; there may be more slots than
    /// viewport pixels after a shrink.
    pub slots: Seq<Seq<Fragment>>,
}

impl StoreModel {
    pub open spec fn pixel_count(self) -> nat {
        self.width * self.height
    }

    pub open spec fn capacity(self) -> nat {
        self.slots.len()
    }

    pub open spec fn count(self, pixel: int) -> nat {
        self.slots[pixel].len()
    }

    pub open spec fn wf(self) -> bool {
        &&& self.layers >= 1
        &&& self.pixel_count() <= self.capacity()
        &&& record_count(self.capacity(), 1, self.layers) <= usize::MAX
        &&& forall|p: int|
            0 <= p < self.slots.len() ==> (#[trigger] self.slots[p]).len() <= self.layers && all_wf(
                self.slots[p],
            )
    }

    /// A freshly allocated store: one empty slot per pixel.
    pub open spec fn fresh(width: nat, height: nat, layers: nat) -> StoreModel {
        StoreModel {
            width,
            height,
            layers,
            slots: Seq::new(width * height, |p: int| Seq::<Fragment>::empty()),
        }
    }

    pub open spec fn with_captured(self, pixel: int, f: Fragment) -> StoreModel {
        StoreModel {
            slots: self.slots.update(pixel, captured(self.slots[pixel], f, self.layers)),
            ..self
        }
    }

    /// Every counter back at zero; sizes unchanged.
    pub open spec fn cleared(self) -> StoreModel {
        StoreModel { slots: Seq::new(self.slots.len(), |p: int| Seq::<Fragment>::empty()), ..self }
    }

    /// The store after a viewport change to `width` by `height`: reallocated
    /// and empty when the new pixel count exceeds the capacity, otherwise
    /// unchanged but for the viewport size.
    pub open spec fn resized(self, width: nat, height: nat) -> StoreModel {
        if width * height > self.capacity() {
            StoreModel::fresh(width, height, self.layers)
        } else {
            StoreModel { width, height, ..self }
        }
    }

    /// The resolved colour of one pixel.
    pub open spec fn resolved_pixel(self, pixel: int) -> Rgba {
        resolved(self.slots[pixel])
    }
}

/// A per-camera layer store.
pub struct LayerStore {
    width: u32,
    height: u32,
    layers: usize,
    slots: Vec<Vec<Fragment>>,
}

impl View for LayerStore {
    type V = StoreModel;

    closed spec fn view(&self) -> StoreModel {
        StoreModel {
            width: self.width as nat,
            height: self.height as nat,
            layers: self.layers as nat,
            slots: self.slots@.map_values(|v: Vec<Fragment>| v@),
        }
    }
}

fn empty_slots(n: usize) -> (r: Vec<Vec<Fragment>>)
    ensures
        r@.len() == n,
        forall|p: int| 0 <= p < n ==> (#[trigger] r@[p])@.len() == 0,
{
    let mut r: Vec<Vec<Fragment>> = Vec::new();
    let mut i: usize = 0;
    while i < n
        invariant
            i <= n,
            r@.len() == i,
            forall|p: int| 0 <= p < i ==> (#[trigger] r@[p])@.len() == 0,
        decreases n - i,
    {
        r.push(Vec::new());
        i = i + 1;
    }
    r
}

fn pixels_of(width: u32, height: u32) -> (r: u64)
    ensures
        r as nat == width as nat * height as nat,
{
    proof {
        assert(width as nat * height as nat <= u32::MAX as nat * u32::MAX as nat) by (nonlinear_arith)
            requires
                width <= u32::MAX,
                height <= u32::MAX,
        ;
    }
    (width as u64) * (height as u64)
}

/// `width * height * layers`, or `None` where it exceeds `usize::MAX`.
fn checked_records(width: u32, height: u32, layers: usize) -> (r: Option<usize>)
    ensures
        r is Some <==> record_count(width as nat, height as nat, layers as nat) <= usize::MAX,
        r matches Some(n) ==> n == record_count(width as nat, height as nat, layers as nat),
{
    let pixels: u64 = pixels_of(width, height);
    proof {
        assert(pixels as nat * layers as nat == record_count(width as nat, height as nat, layers as nat));
    }
    match pixels.checked_mul(layers as u64) {
        None => None,
        Some(n) => {
            if n > usize::MAX as u64 {
                None
            } else {
                Some(n as usize)
            }
        },
    }
}

proof fn lemma_pixels_fit(width: nat, height: nat, layers: nat)
    requires
        layers >= 1,
        record_count(width, height, layers) <= usize::MAX,
    ensures
        width * height <= usize::MAX,
        record_count(width * height, 1, layers) == record_count(width, height, layers),
{
    assert(width * height <= width * height * layers) by (nonlinear_arith)
        requires
            layers >= 1,
    ;
}

impl LayerStore {
    pub open spec fn wf(&self) -> bool {
        self@.wf()
    }

    proof fn lemma_view_slot(&self, p: int)
        requires
            0 <= p < self.slots@.len(),
        ensures
            self@.slots[p] == self.slots@[p]@,
            self@.slots.len() == self.slots@.len(),
    {
    }

    /// Allocates a store for a `width` by `height` viewport with room for
    /// `layers` fragments per pixel, every slot empty.
    pub fn new(width: u32, height: u32, layers: usize) -> (res: Result<LayerStore, OitError>)
        ensures
            layers == 0 ==> res == Err::<LayerStore, OitError>(OitError::InvalidLayerCount),
            layers > 0 && record_count(width as nat, height as nat, layers as nat) > usize::MAX
                ==> res == Err::<LayerStore, OitError>(OitError::StoreTooLarge),
            layers > 0 && record_count(width as nat, height as nat, layers as nat) <= usize::MAX
                ==> res is Ok,
            res matches Ok(s) ==> s.wf() && s@ == StoreModel::fresh(
                width as nat,
                height as nat,
                layers as nat,
            ),
    {
        if layers == 0 {
            return Err(OitError::InvalidLayerCount);
        }
        match checked_records(width, height, layers) {
            None => Err(OitError::StoreTooLarge),
            Some(_) => {
                proof {
                    lemma_pixels_fit(width as nat, height as nat, layers as nat);
                }
                let pixels = pixels_of(width, height) as usize;
                let slots = empty_slots(pixels);
                let s = LayerStore { width, height, layers, slots };
                proof {
                    let f = StoreModel::fresh(width as nat, height as nat, layers as nat);
                    assert forall|p: int| 0 <= p < f.slots.len() implies s@.slots[p] == f.slots[p] by {
                        s.lemma_view_slot(p);
                        assert(s.slots@[p]@ =~= Seq::<Fragment>::empty());
                    }
                    assert(s@.slots =~= f.slots);
                    assert forall|p: int| 0 <= p < s@.slots.len() implies (#[trigger] s@.slots[p]).len()
                        <= s@.layers && all_wf(s@.slots[p]) by {
                        s.lemma_view_slot(p);
                    }
                }
                Ok(s)
            },
        }
    }

    pub fn width(&self) -> (r: u32)
        ensures
            r as nat == self@.width,
    {
        self.width
    }

    pub fn height(&self) -> (r: u32)
        ensures
            r as nat == self@.height,
    {
        self.height
    }

    /// Records each pixel can hold.
    pub fn layers(&self) -> (r: usize)
        ensures
            r as nat == self@.layers,
    {
        self.layers
    }

    /// Pixels for which slots are allocated.
    pub fn capacity(&self) -> (r: usize)
        ensures
            r as nat == self@.capacity(),
    {
        self.slots.len()
    }

    /// Pixels of the current viewport.
    pub fn pixel_count(&self) -> (r: usize)
        requires
            self.wf(),
        ensures
            r as nat == self@.pixel_count(),
    {
        let cap = self.slots.len();
        proof {
            assert(self@.slots.len() == self.slots@.len());
        }
        pixels_of(self.width, self.height) as usize
    }

    /// Fragments retained for `pixel` this frame.
    pub fn count(&self, pixel: usize) -> (r: usize)
        requires
            pixel < self@.capacity(),
        ensures
            r as nat == self@.count(pixel as int),
    {
        self.slots[pixel].len()
    }

    /// The record at `layer` of `pixel`'s slot.
    pub fn fragment(&self, pixel: usize, layer: usize) -> (r: Fragment)
        requires
            pixel < self@.capacity(),
            layer < self@.count(pixel as int),
        ensures
            r == self@.slots[pixel as int][layer as int],
    {
        self.slots[pixel][layer]
    }

    /// The retained fragments of `pixel`, in slot order.
    pub fn fragments(&self, pixel: usize) -> (r: Vec<Fragment>)
        requires
            pixel < self@.capacity(),
        ensures
            r@ == self@.slots[pixel as int],
    {
        let src = &self.slots[pixel];
        let mut r: Vec<Fragment> = Vec::new();
        let mut i: usize = 0;
        while i < src.len()
            invariant
                i <= src@.len(),
                r@ == src@.subrange(0, i as int),
            decreases src.len() - i,
        {
            r.push(src[i]);
            i = i + 1;
            assert(r@ =~= src@.subrange(0, i as int));
        }
        assert(src@.subrange(0, src@.len() as int) =~= src@);
        r
    }

    /// Captures one transparent fragment at `pixel` (row-major `y * width + x`).
    ///
    /// The pixel index is checked against the viewport before any write. A
    /// slot with room takes the fragment; a full slot applies the overflow
    /// policy of `captured`, so no slot ever holds more than `layers` records.
    pub fn capture(&mut self, pixel: usize, frag: Fragment) -> (res: Result<CaptureOutcome, OitError>)
        requires
            old(self).wf(),
            frag.wf(),
        ensures
            final(self).wf(),
            res is Ok <==> (pixel as nat) < old(self)@.pixel_count(),
            res matches Ok(o) ==> o == capture_outcome(
                old(self)@.slots[pixel as int],
                frag,
                old(self)@.layers,
            ) && final(self)@ == old(self)@.with_captured(pixel as int, frag),
            res is Err ==> res == Err::<CaptureOutcome, OitError>(OitError::PixelOutOfRange)
                && final(self)@ == old(self)@,
    {
        let pixels = self.pixel_count();
        if pixel >= pixels {
            return Err(OitError::PixelOutOfRange);
        }
        let ghost before = self@;
        let ghost old_slots = self.slots@;
        proof {
            self.lemma_view_slot(pixel as int);
        }
        let mut slot: Vec<Fragment> = Vec::new();
        self.slots.set_and_swap(pixel, &mut slot);
        let ghost s0 = slot@;
        let outcome;
        if slot.len() < self.layers {
            slot.push(frag);
            outcome = CaptureOutcome::Stored;
        } else {
            let m = farthest(&slot);
            proof {
                lemma_farthest_index(s0);
            }
            if precedes(&frag, &slot[m]) {
                slot.set(m, frag);
                outcome = CaptureOutcome::Replaced;
            } else {
                outcome = CaptureOutcome::Discarded;
            }
        }
        self.slots.set_and_swap(pixel, &mut slot);
        proof {
            let after = before.with_captured(pixel as int, frag);
            assert(self.slots@ == old_slots.update(pixel as int, self.slots@[pixel as int]));
            assert(self.slots@[pixel as int]@ == captured(s0, frag, before.layers));
            assert forall|p: int| 0 <= p < after.slots.len() implies self@.slots[p] == after.slots[p] by {
                self.lemma_view_slot(p);
            }
            assert(self@.slots =~= after.slots);
            let c = captured(s0, frag, before.layers);
            assert(all_wf(c)) by {
                assert forall|i: int| 0 <= i < c.len() implies (#[trigger] c[i]).wf() by {
                    if i < s0.len() && c[i] != frag {
                        assert(c[i] == s0[i]);
                    }
                }
            }
        }
        Ok(outcome)
    }

    /// Resets every pixel's counter to zero, as at the start of each frame.
    /// Sizes and capacity stay as they are.
    pub fn begin_frame(&mut self)
        requires
            old(self).wf(),
        ensures
            final(self).wf(),
            final(self)@ == old(self)@.cleared(),
    {
        let ghost before = self@;
        let n = self.slots.len();
        let mut i: usize = 0;
        while i < n
            invariant
                i <= n,
                n == self.slots@.len(),
                self.width == old(self).width,
                self.height == old(self).height,
                self.layers == old(self).layers,
                before == old(self)@,
                forall|p: int| 0 <= p < i ==> (#[trigger] self.slots@[p])@.len() == 0,
                forall|p: int| i <= p < n ==> (#[trigger] self.slots@[p]) == old(self).slots@[p],
            decreases n - i,
        {
            self.slots.set(i, Vec::new());
            i = i + 1;
        }
        proof {
            let after = before.cleared();
            assert forall|p: int| 0 <= p < after.slots.len() implies self@.slots[p] == after.slots[p] by {
                self.lemma_view_slot(p);
                old(self).lemma_view_slot(p);
                assert(self.slots@[p]@ =~= Seq::<Fragment>::empty());
            }
            assert(self@.slots =~= after.slots);
            assert forall|p: int| 0 <= p < self@.slots.len() implies (#[trigger] self@.slots[p]).len()
                <= self@.layers && all_wf(self@.slots[p]) by {
                self.lemma_view_slot(p);
            }
        }
    }

    /// Adapts the store to a viewport of `width` by `height` pixels.
    ///
    /// When the new pixel count exceeds the capacity, the slots are
    /// reallocated to the new size and emptied, and the result is `Ok(true)`.
    /// Otherwise the existing (larger) allocation is kept unchanged, only the
    /// viewport size changes, and the result is `Ok(false)`. A size whose
    /// records would not fit in memory addresses is refused and the store
    /// left as it was.
    pub fn resize(&mut self, width: u32, height: u32) -> (res: Result<bool, OitError>)
        requires
            old(self).wf(),
        ensures
            final(self).wf(),
            record_count(width as nat, height as nat, old(self)@.layers) > usize::MAX ==> res
                == Err::<bool, OitError>(OitError::StoreTooLarge) && final(self)@ == old(self)@,
            record_count(width as nat, height as nat, old(self)@.layers) <= usize::MAX ==> res
                == Ok::<bool, OitError>(width as nat * height as nat > old(self)@.capacity())
                && final(self)@ == old(self)@.resized(width as nat, height as nat),
    {
        match checked_records(width, height, self.layers) {
            None => Err(OitError::StoreTooLarge),
            Some(_) => {
                proof {
                    lemma_pixels_fit(width as nat, height as nat, self.layers as nat);
                }
                let pixels = pixels_of(width, height);
                let ghost before = self@;
                if pixels as usize > self.slots.len() {
                    let fresh = LayerStore::new(width, height, self.layers);
                    match fresh {
                        Ok(f) => {
                            *self = f;
                            Ok(true)
                        },
                        Err(e) => Err(e),
                    }
                } else {
                    self.width = width;
                    self.height = height;
                    proof {
                        assert forall|p: int| 0 <= p < self@.slots.len() implies self@.slots[p]
                            == before.slots[p] by {
                            self.lemma_view_slot(p);
                        }
                        assert(self@.slots =~= before.slots);
                    }
                    Ok(false)
                }
            },
        }
    }

    /// Resolves one pixel: its retained fragments in depth order,
    /// composited back to front over transparent black.
    pub fn resolve_pixel(&self, pixel: usize) -> (r: Rgba)
        requires
            self.wf(),
            (pixel as nat) < self@.pixel_count(),
        ensures
            r == self@.resolved_pixel(pixel as int),
            r.premul_wf(),
    {
        proof {
            self.lemma_view_slot(pixel as int);
        }
        resolve_fragments(&self.slots[pixel])
    }

    /// Resolves every pixel of the viewport and lays the result over the
    /// colour already in `target` (one entry per pixel, row-major).
    pub fn resolve_into(&self, target: &mut Vec<Rgba>)
        requires
            self.wf(),
            old(target)@.len() == self@.pixel_count(),
            forall|p: int| 0 <= p < old(target)@.len() ==> (#[trigger] old(target)@[p]).wf(),
        ensures
            final(target)@.len() == old(target)@.len(),
            forall|p: int|
                0 <= p < final(target)@.len() ==> #[trigger] final(target)@[p] == onto(
                    self@.resolved_pixel(p),
                    old(target)@[p],
                ),
            forall|p: int| 0 <= p < final(target)@.len() ==> (#[trigger] final(target)@[p]).wf(),
    {
        let n = target.len();
        let mut i: usize = 0;
        while i < n
            invariant
                i <= n,
                n == target@.len(),
                n == old(target)@.len(),
                n == self@.pixel_count(),
                self.wf(),
                forall|p: int| 0 <= p < i ==> #[trigger] target@[p] == onto(
                    self@.resolved_pixel(p),
                    old(target)@[p],
                ),
                forall|p: int| 0 <= p < n ==> (#[trigger] target@[p]).wf(),
                forall|p: int| i <= p < n ==> #[trigger] target@[p] == old(target)@[p],
            decreases n - i,
        {
            let top = self.resolve_pixel(i);
            let below = target[i];
            target.set(i, composite_onto(top, below));
            i = i + 1;
        }
    }
}

} // verus!
