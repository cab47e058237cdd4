//! Buffer lifecycle: one layer store per camera, kept in step with the
//! camera's render-target size.
use vstd::prelude::*;
use std::collections::HashMap;
use crate::color::{Rgba, onto};
use crate::fragment::Fragment;
use crate::store::{CaptureOutcome, LayerStore, OitError, StoreModel, record_count};

verus! {

broadcast use vstd::std_specs::hash::group_hash_axioms;

/// The layer stores of every camera that renders with this technique,
/// keyed by camera id. No two cameras share a store.
pub struct OitBuffers {
    stores: HashMap<u64, LayerStore>,
    layers: usize,
}

impl View for OitBuffers {
    type V = Map<u64, StoreModel>;

    closed spec fn view(&self) -> Map<u64, StoreModel> {
        self.stores@.map_values(|s: LayerStore| s@)
    }
}

impl OitBuffers {
    /// Records per pixel that every store of this set is made with.
    pub closed spec fn spec_layers(&self) -> nat {
        self.layers as nat
    }

    pub closed spec fn wf(&self) -> bool {
        &&& self.layers >= 1
        &&& forall|id: u64| #[trigger]
            self.stores@.contains_key(id) ==> self.stores@[id].wf() && self.stores@[id]@.layers
                == self.layers
    }

    /// An empty set; its stores will hold `layers` records per pixel.
    pub fn new(layers: usize) -> (res: Result<OitBuffers, OitError>)
        ensures
            layers == 0 <==> res is Err,
            res is Err ==> res == Err::<OitBuffers, OitError>(OitError::InvalidLayerCount),
            res matches Ok(b) ==> b.wf() && b@ == Map::<u64, StoreModel>::empty()
                && b.spec_layers() == layers,
    {
        if layers == 0 {
            return Err(OitError::InvalidLayerCount);
        }
        let b = OitBuffers { stores: HashMap::new(), layers };
        assert(b@ =~= Map::<u64, StoreModel>::empty());
        Ok(b)
    }

    pub fn layers(&self) -> (r: usize)
        ensures
            r as nat == self.spec_layers(),
    {
        self.layers
    }

    /// Brings `camera`'s store in step with a `width` by `height` target.
    ///
    /// A camera without a store gets a fresh one (`Ok(true)`). A camera with
    /// one has it resized: reallocated only when the pixel count exceeds its
    /// capacity (`Ok(true)`), else kept (`Ok(false)`). A size whose records
    /// do not fit in memory addresses leaves everything unchanged.
    pub fn prepare(&mut self, camera: u64, width: u32, height: u32) -> (res: Result<bool, OitError>)
        requires
            old(self).wf(),
        ensures
            final(self).wf(),
            final(self).spec_layers() == old(self).spec_layers(),
            record_count(width as nat, height as nat, old(self).spec_layers()) > usize::MAX ==> res
                == Err::<bool, OitError>(OitError::StoreTooLarge) && final(self)@ == old(self)@,
            record_count(width as nat, height as nat, old(self).spec_layers()) <= usize::MAX ==> {
                if old(self)@.contains_key(camera) {
                    &&& res == Ok::<bool, OitError>(
                        width as nat * height as nat > old(self)@[camera].capacity(),
                    )
                    &&& final(self)@ == old(self)@.insert(
                        camera,
                        old(self)@[camera].resized(width as nat, height as nat),
                    )
                } else {
                    &&& res == Ok::<bool, OitError>(true)
                    &&& final(self)@ == old(self)@.insert(
                        camera,
                        StoreModel::fresh(width as nat, height as nat, old(self).spec_layers()),
                    )
                }
            },
    {
        match self.stores.remove(&camera) {
            Some(mut s) => {
                let r = s.resize(width, height);
                self.stores.insert(camera, s);
                proof {
                    assert(self@ =~= old(self)@.insert(camera, s@));
                    if r is Err {
                        assert(self@ =~= old(self)@);
                    }
                }
                r
            },
            None => {
                match LayerStore::new(width, height, self.layers) {
                    Ok(s) => {
                        self.stores.insert(camera, s);
                        assert(self@ =~= old(self)@.insert(camera, s@));
                        Ok(true)
                    },
                    Err(e) => Err(e),
                }
            },
        }
    }

    /// Drops `camera`'s store, as when the camera goes away.
    pub fn release(&mut self, camera: u64)
        requires
            old(self).wf(),
        ensures
            final(self).wf(),
            final(self).spec_layers() == old(self).spec_layers(),
            final(self)@ == old(self)@.remove(camera),
    {
        self.stores.remove(&camera);
        assert(self@ =~= old(self)@.remove(camera));
    }

    /// The store of `camera`, if it has one.
    pub fn get(&self, camera: u64) -> (r: Option<&LayerStore>)
        requires
            self.wf(),
        ensures
            r is Some <==> self@.contains_key(camera),
            r matches Some(s) ==> s@ == self@[camera] && s.wf(),
    {
        self.stores.get(&camera)
    }

    /// Starts a frame for `camera`: its counters go back to zero. A camera
    /// without a store is left alone (`false`).
    pub fn begin_frame(&mut self, camera: u64) -> (found: bool)
        requires
            old(self).wf(),
        ensures
            final(self).wf(),
            final(self).spec_layers() == old(self).spec_layers(),
            found == old(self)@.contains_key(camera),
            found ==> final(self)@ == old(self)@.insert(camera, old(self)@[camera].cleared()),
            !found ==> final(self)@ == old(self)@,
    {
        match self.stores.remove(&camera) {
            Some(mut s) => {
                s.begin_frame();
                self.stores.insert(camera, s);
                assert(self@ =~= old(self)@.insert(camera, s@));
                true
            },
            None => false,
        }
    }

    /// Captures a fragment into `camera`'s store; `None` where the camera has
    /// no store, else what `LayerStore::capture` returned.
    pub fn capture(&mut self, camera: u64, pixel: usize, frag: Fragment) -> (res: Option<
        Result<CaptureOutcome, OitError>,
    >)
        requires
            old(self).wf(),
            frag.wf(),
        ensures
            final(self).wf(),
            final(self).spec_layers() == old(self).spec_layers(),
            res is Some <==> old(self)@.contains_key(camera),
            res is None ==> final(self)@ == old(self)@,
            res matches Some(r) ==> {
                &&& (r is Ok <==> (pixel as nat) < old(self)@[camera].pixel_count())
                &&& r is Ok ==> final(self)@ == old(self)@.insert(
                    camera,
                    old(self)@[camera].with_captured(pixel as int, frag),
                )
                &&& r is Err ==> final(self)@ == old(self)@
            },
    {
        match self.stores.remove(&camera) {
            Some(mut s) => {
                let r = s.capture(pixel, frag);
                self.stores.insert(camera, s);
                proof {
                    assert(self@ =~= old(self)@.insert(camera, s@));
                    if r is Err {
                        assert(self@ =~= old(self)@);
                    }
                }
                Some(r)
            },
            None => None,
        }
    }

    /// Resolves `camera`'s frame onto `target`. A camera whose store is not
    /// there yet skips this frame's resolve: `target` stays as it was and the
    /// result is `false`.
    pub fn resolve_into(&self, camera: u64, target: &mut Vec<Rgba>) -> (done: bool)
        requires
            self.wf(),
            self@.contains_key(camera) ==> old(target)@.len() == self@[camera].pixel_count(),
            forall|p: int| 0 <= p < old(target)@.len() ==> (#[trigger] old(target)@[p]).wf(),
        ensures
            done == self@.contains_key(camera),
            !done ==> final(target)@ == old(target)@,
            done ==> final(target)@.len() == old(target)@.len() && forall|p: int|
                0 <= p < final(target)@.len() ==> #[trigger] final(target)@[p] == onto(
                    self@[camera].resolved_pixel(p),
                    old(target)@[p],
                ),
    {
        match self.stores.get(&camera) {
            Some(s) => {
                s.resolve_into(target);
                true
            },
            None => false,
        }
    }
}

} // verus!
