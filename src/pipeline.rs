//! Pipeline variants: each distinct key (layer count, sample count, tail
//! blending) is compiled once and then found again by its id.
use vstd::prelude::*;

verus! {

/// The render state a draw pipeline is specialised for.
#[derive(Clone, Copy, Debug, PartialEq, Eq, Hash, Structural)]
pub struct OitKey {
    /// Records per pixel the shaders are built for.
    pub layers: u32,
    /// Multisample count of the colour target.
    pub msaa_samples: u32,
    /// Whether the shader variant with tail blending is selected.
    pub tail_blend: bool,
}

/// A memo from pipeline keys to variant ids: the id of a key is its
/// position, and no key appears twice.
pub struct PipelineCache {
    keys: Vec<OitKey>,
}

pub open spec fn no_duplicates(keys: Seq<OitKey>) -> bool {
    forall|i: int, j: int| 0 <= i < j < keys.len() ==> keys[i] != keys[j]
}

impl View for PipelineCache {
    type V = Seq<OitKey>;

    closed spec fn view(&self) -> Seq<OitKey> {
        self.keys@
    }
}

impl PipelineCache {
    pub open spec fn wf(&self) -> bool {
        no_duplicates(self@)
    }

    pub fn new() -> (r: PipelineCache)
        ensures
            r.wf(),
            r@ == Seq::<OitKey>::empty(),
    {
        PipelineCache { keys: Vec::new() }
    }

    /// The number of variants compiled so far.
    pub fn len(&self) -> (r: usize)
        ensures
            r as nat == self@.len(),
    {
        self.keys.len()
    }

    /// The id of `key` if it has been specialised.
    pub fn find(&self, key: OitKey) -> (r: Option<usize>)
        requires
            self.wf(),
        ensures
            r is Some <==> self@.contains(key),
            r matches Some(id) ==> id < self@.len() && self@[id as int] == key,
    {
        let mut i: usize = 0;
        while i < self.keys.len()
            invariant
                i <= self@.len(),
                forall|j: int| 0 <= j < i ==> self@[j] != key,
            decreases self@.len() - i,
        {
            if self.keys[i] == key {
                return Some(i);
            }
            i = i + 1;
        }
        None
    }

    /// Returns the variant id of `key`, adding the key if it is new.
    pub fn specialize(&mut self, key: OitKey) -> (id: usize)
        requires
            old(self).wf(),
            old(self)@.len() < usize::MAX,
        ensures
            final(self).wf(),
            id < final(self)@.len(),
            final(self)@[id as int] == key,
            old(self)@.contains(key) ==> final(self)@ == old(self)@,
            !old(self)@.contains(key) ==> final(self)@ == old(self)@.push(key) && id == old(self)@.len(),
    {
        match self.find(key) {
            Some(id) => id,
            None => {
                let id = self.keys.len();
                self.keys.push(key);
                id
            },
        }
    }

    /// The key that variant `id` was specialised for.
    pub fn key(&self, id: usize) -> (r: Option<OitKey>)
        ensures
            r is Some <==> id < self@.len(),
            r matches Some(k) ==> k == self@[id as int],
    {
        if id < self.keys.len() {
            Some(self.keys[id])
        } else {
            None
        }
    }
}

/// In a cache without duplicate keys, a key has one id: specialising a key
/// that is already present returns the id it had.
pub proof fn law_variant_id_unique(keys: Seq<OitKey>, i: int, j: int)
    requires
        no_duplicates(keys),
        0 <= i < keys.len(),
        0 <= j < keys.len(),
        keys[i] == keys[j],
    ensures
        i == j,
{
}

} // verus!
