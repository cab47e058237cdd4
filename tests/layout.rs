use bevy_oit::color::{Rgba, UNIT};
use bevy_oit::fragment::Fragment;
use bevy_oit::gpu::{device_layers, pack_color, unpack_color};
use bevy_oit::graph::RenderGraph;
use bevy_oit::store::LayerStore;

#[test]
fn pack_rounds_each_channel_to_eight_bits() {
    let c = Rgba { r: UNIT, g: UNIT / 2, b: 0, a: UNIT / 4 };
    // 255, round(127.5) = 128, 0, round(63.75) = 64
    assert_eq!(pack_color(c), 255 | (128 << 8) | (64 << 24));
}

#[test]
fn unpack_widens_each_byte() {
    let c = unpack_color(0xFF80_00FF);
    assert_eq!(c.r, UNIT);
    assert_eq!(c.g, 0);
    assert_eq!(c.b, (128 * UNIT + 127) / 255);
    assert_eq!(c.a, UNIT);
}

#[test]
fn pack_after_unpack_gives_back_the_word() {
    for w in [0u32, 1, 0x7F, 0x80, 0xFF, 0x0102_0304, 0xDEAD_BEEF, u32::MAX] {
        assert_eq!(pack_color(unpack_color(w)), w);
    }
}

#[test]
fn device_layers_are_flat_and_zero_padded() {
    let mut s = LayerStore::new(2, 1, 3).unwrap();
    let red = Fragment { color: Rgba { r: UNIT, g: 0, b: 0, a: UNIT }, depth: 42 };
    let blue = Fragment { color: Rgba { r: 0, g: 0, b: UNIT, a: UNIT }, depth: 7 };
    s.capture(1, red).unwrap();
    s.capture(1, blue).unwrap();
    let (records, counts) = device_layers(&s);
    assert_eq!(records.len(), 6);
    assert_eq!(counts, vec![0, 2]);
    assert_eq!(&records[0..3], &[(0, 0), (0, 0), (0, 0)]);
    assert_eq!(records[3], (0xFF00_00FF, 42));
    assert_eq!(records[4], (0xFFFF_0000, 7));
    assert_eq!(records[5], (0, 0));
}

#[test]
fn schedule_puts_capture_before_resolve() {
    // stages: 0 resolve, 1 clear counters, 2 capture
    let mut g = RenderGraph::new(3);
    assert!(g.add_edge(1, 2));
    assert!(g.add_edge(2, 0));
    assert_eq!(g.stage_count(), 3);
    assert_eq!(g.schedule(), Some(vec![1, 2, 0]));
}

#[test]
fn schedule_without_edges_keeps_every_stage() {
    let g = RenderGraph::new(4);
    let mut order = g.schedule().unwrap();
    order.sort();
    assert_eq!(order, vec![0, 1, 2, 3]);
}

#[test]
fn schedule_refuses_a_cycle() {
    let mut g = RenderGraph::new(3);
    assert!(g.add_edge(0, 1));
    assert!(g.add_edge(1, 2));
    assert!(g.add_edge(2, 1));
    assert_eq!(g.schedule(), None);
}

#[test]
fn add_edge_refuses_unknown_stage() {
    let mut g = RenderGraph::new(2);
    assert!(!g.add_edge(0, 2));
    assert_eq!(g.schedule().map(|o| o.len()), Some(2));
}
