use bevy_oit::buffers::OitBuffers;
use bevy_oit::color::{Rgba, UNIT};
use bevy_oit::fragment::Fragment;
use bevy_oit::pipeline::{OitKey, PipelineCache};
use bevy_oit::store::{CaptureOutcome, LayerStore, OitError};
use bevy_oit::OIT_LAYERS;

fn frag(r: u32, g: u32, b: u32, a: u32, depth: u32) -> Fragment {
    Fragment { color: Rgba::new(r, g, b, a).unwrap(), depth }
}

fn half(r: bool, g: bool, b: bool, depth: u32) -> Fragment {
    let c = |on: bool| if on { UNIT } else { 0 };
    frag(c(r), c(g), c(b), UNIT / 2, depth)
}

#[test]
fn new_store_is_empty() {
    let s = LayerStore::new(4, 3, 8).unwrap();
    assert_eq!(s.width(), 4);
    assert_eq!(s.height(), 3);
    assert_eq!(s.layers(), 8);
    assert_eq!(s.pixel_count(), 12);
    assert_eq!(s.capacity(), 12);
    for p in 0..12 {
        assert_eq!(s.count(p), 0);
    }
}

#[test]
fn new_rejects_zero_layers() {
    assert_eq!(LayerStore::new(4, 4, 0).err(), Some(OitError::InvalidLayerCount));
}

#[test]
fn new_rejects_unaddressable_size() {
    assert_eq!(
        LayerStore::new(u32::MAX, u32::MAX, OIT_LAYERS).err(),
        Some(OitError::StoreTooLarge)
    );
}

#[test]
fn capture_out_of_range_pixel_is_refused() {
    let mut s = LayerStore::new(2, 2, 4).unwrap();
    assert_eq!(s.capture(4, half(true, false, false, 1)), Err(OitError::PixelOutOfRange));
    assert_eq!(s.capture(3, half(true, false, false, 1)), Ok(CaptureOutcome::Stored));
    assert_eq!(s.count(3), 1);
}

#[test]
fn empty_pixel_resolves_transparent_and_keeps_target() {
    let mut s = LayerStore::new(2, 1, 4).unwrap();
    s.capture(1, half(true, false, false, 5)).unwrap();
    assert_eq!(s.resolve_pixel(0), Rgba::transparent());
    let below = Rgba { r: UNIT / 4, g: UNIT / 2, b: UNIT, a: UNIT };
    let mut target = vec![below, below];
    s.resolve_into(&mut target);
    assert_eq!(target[0], below);
    // the covered pixel: red at half opacity over the opaque target colour
    assert_eq!(target[1], Rgba { r: UNIT / 2 + UNIT / 8, g: UNIT / 4, b: UNIT / 2, a: UNIT });
}

#[test]
fn every_submission_order_resolves_alike() {
    let fs = [
        half(true, false, false, 10),
        half(false, true, false, 20),
        half(false, false, true, 30),
    ];
    let orders = [[0, 1, 2], [0, 2, 1], [1, 0, 2], [1, 2, 0], [2, 0, 1], [2, 1, 0]];
    let mut results = Vec::new();
    for order in orders.iter() {
        let mut s = LayerStore::new(1, 1, 3).unwrap();
        for &i in order.iter() {
            assert_eq!(s.capture(0, fs[i]), Ok(CaptureOutcome::Stored));
        }
        results.push(s.resolve_pixel(0));
    }
    for r in results.iter() {
        assert_eq!(*r, Rgba { r: UNIT / 2, g: UNIT / 4, b: UNIT / 8, a: 7 * UNIT / 8 });
    }
}

#[test]
fn overflow_keeps_count_at_layers() {
    let mut s = LayerStore::new(1, 1, 8).unwrap();
    // thirteen fragments, farthest first, so every later one is nearer
    for k in 0..13u32 {
        let out = s.capture(0, half(true, false, false, 100 - k)).unwrap();
        if k < 8 {
            assert_eq!(out, CaptureOutcome::Stored);
        } else {
            assert_eq!(out, CaptureOutcome::Replaced);
        }
        assert!(s.count(0) <= 8);
    }
    assert_eq!(s.count(0), 8);
    let mut depths: Vec<u32> = s.fragments(0).iter().map(|f| f.depth).collect();
    depths.sort();
    assert_eq!(depths, (88..=95).collect::<Vec<u32>>());
}

#[test]
fn overflow_discards_fragments_behind_every_record() {
    let mut s = LayerStore::new(1, 1, 8).unwrap();
    for k in 0..13u32 {
        let out = s.capture(0, half(false, true, false, k)).unwrap();
        if k < 8 {
            assert_eq!(out, CaptureOutcome::Stored);
        } else {
            assert_eq!(out, CaptureOutcome::Discarded);
        }
    }
    assert_eq!(s.count(0), 8);
    let depths: Vec<u32> = s.fragments(0).iter().map(|f| f.depth).collect();
    assert_eq!(depths, (0..8).collect::<Vec<u32>>());
}

#[test]
fn begin_frame_resets_counters() {
    let mut s = LayerStore::new(2, 2, 4).unwrap();
    s.capture(0, half(true, false, false, 1)).unwrap();
    s.capture(3, half(true, false, false, 1)).unwrap();
    s.begin_frame();
    for p in 0..4 {
        assert_eq!(s.count(p), 0);
    }
    assert_eq!(s.capacity(), 4);
}

#[test]
fn resize_grow_then_shrink_keeps_allocation() {
    let mut s = LayerStore::new(2, 2, 4).unwrap();
    assert_eq!(s.resize(4, 3), Ok(true));
    assert_eq!(s.capacity(), 12);
    for p in 0..12 {
        assert_eq!(s.capture(p, half(false, false, true, 7)), Ok(CaptureOutcome::Stored));
    }
    assert_eq!(s.capture(12, half(false, false, true, 7)), Err(OitError::PixelOutOfRange));
    assert_eq!(s.resize(2, 2), Ok(false));
    assert_eq!(s.capacity(), 12);
    assert_eq!(s.pixel_count(), 4);
    assert_eq!(s.count(0), 1);
    assert_eq!(s.count(11), 1);
}

#[test]
fn resize_to_same_size_is_a_no_op() {
    let mut s = LayerStore::new(3, 3, 2).unwrap();
    s.capture(4, half(true, true, false, 3)).unwrap();
    assert_eq!(s.resize(3, 3), Ok(false));
    assert_eq!(s.resize(3, 3), Ok(false));
    assert_eq!(s.count(4), 1);
    assert_eq!(s.capacity(), 9);
}

#[test]
fn resize_refuses_unaddressable_size() {
    let mut s = LayerStore::new(2, 2, 4).unwrap();
    assert_eq!(s.resize(u32::MAX, u32::MAX), Err(OitError::StoreTooLarge));
    assert_eq!(s.pixel_count(), 4);
}

#[test]
fn buffers_follow_camera_size() {
    let mut b = OitBuffers::new(4).unwrap();
    assert_eq!(b.layers(), 4);
    assert!(b.get(7).is_none());
    assert_eq!(b.prepare(7, 2, 2), Ok(true));
    assert_eq!(b.get(7).unwrap().capacity(), 4);
    assert_eq!(b.prepare(7, 2, 2), Ok(false));
    assert_eq!(b.prepare(7, 3, 2), Ok(true));
    assert_eq!(b.prepare(7, 1, 1), Ok(false));
    assert_eq!(b.get(7).unwrap().capacity(), 6);
    assert_eq!(b.prepare(9, 1, 1), Ok(true));
    assert_eq!(b.get(9).unwrap().capacity(), 1);
    assert_eq!(b.capture(9, 0, half(true, false, false, 1)), Some(Ok(CaptureOutcome::Stored)));
    assert_eq!(b.capture(9, 1, half(true, false, false, 1)), Some(Err(OitError::PixelOutOfRange)));
    assert_eq!(b.capture(8, 0, half(true, false, false, 1)), None);
    assert!(b.begin_frame(9));
    assert_eq!(b.get(9).unwrap().count(0), 0);
    assert!(!b.begin_frame(8));
    b.release(7);
    assert!(b.get(7).is_none());
    assert!(b.get(9).is_some());
}

#[test]
fn buffers_reject_zero_layers() {
    assert_eq!(OitBuffers::new(0).err(), Some(OitError::InvalidLayerCount));
}

#[test]
fn pipeline_cache_memoizes_keys() {
    let mut c = PipelineCache::new();
    let k1 = OitKey { layers: 8, msaa_samples: 4, tail_blend: false };
    let k2 = OitKey { layers: 8, msaa_samples: 4, tail_blend: true };
    assert_eq!(c.find(k1), None);
    let a = c.specialize(k1);
    let b = c.specialize(k2);
    assert_ne!(a, b);
    assert_eq!(c.specialize(k1), a);
    assert_eq!(c.len(), 2);
    assert_eq!(c.find(k2), Some(b));
    assert_eq!(c.key(b), Some(k2));
    assert_eq!(c.key(5), None);
}

#[test]
fn buffers_resolve_skips_camera_without_store() {
    let mut b = OitBuffers::new(2).unwrap();
    let below = Rgba { r: 0, g: 0, b: UNIT, a: UNIT };
    let mut target = vec![below; 2];
    assert!(!b.resolve_into(3, &mut target));
    assert_eq!(target, vec![below; 2]);
    b.prepare(3, 2, 1).unwrap();
    b.capture(3, 1, half(true, false, false, 4)).unwrap().unwrap();
    assert!(b.resolve_into(3, &mut target));
    assert_eq!(target[0], below);
    assert_eq!(target[1], Rgba { r: UNIT / 2, g: 0, b: UNIT / 2, a: UNIT });
}

#[test]
fn overflow_resolves_alike_in_reversed_order() {
    let fs: Vec<Fragment> = (0..13u32)
        .map(|k| frag((k * 5000) % (UNIT + 1), UNIT / 3, (k * 7919) % (UNIT + 1), UNIT / 2, (k * 37) % 11))
        .collect();
    let mut forward = LayerStore::new(1, 1, 8).unwrap();
    let mut backward = LayerStore::new(1, 1, 8).unwrap();
    for f in fs.iter() {
        forward.capture(0, *f).unwrap();
    }
    for f in fs.iter().rev() {
        backward.capture(0, *f).unwrap();
    }
    assert_eq!(forward.count(0), 8);
    assert_eq!(backward.count(0), 8);
    assert_eq!(forward.resolve_pixel(0), backward.resolve_pixel(0));
}
