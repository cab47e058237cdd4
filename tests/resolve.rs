use bevy_oit::color::{blend_over, composite_onto, Rgba, UNIT};
use bevy_oit::fragment::{farthest, precedes, Fragment};
use bevy_oit::resolve::{composite_sorted, resolve_fragments};
use bevy_oit::sort::sort_by_depth;

fn fixed(x: f64) -> u32 {
    (x * UNIT as f64).round() as u32
}

fn as_unit(c: u32) -> f64 {
    c as f64 / UNIT as f64
}

fn rgba(r: f64, g: f64, b: f64, a: f64) -> Rgba {
    Rgba::new(fixed(r), fixed(g), fixed(b), fixed(a)).unwrap()
}

fn frag(r: f64, g: f64, b: f64, a: f64, depth: u32) -> Fragment {
    Fragment { color: rgba(r, g, b, a), depth }
}

/// Back-to-front "over" in floating point, fragments given nearest first.
fn reference_over(layers: &[(f64, f64, f64, f64)]) -> (f64, f64, f64, f64) {
    let mut acc = (0.0, 0.0, 0.0, 0.0);
    for &(r, g, b, a) in layers.iter().rev() {
        acc = (
            r * a + acc.0 * (1.0 - a),
            g * a + acc.1 * (1.0 - a),
            b * a + acc.2 * (1.0 - a),
            a + acc.3 * (1.0 - a),
        );
    }
    acc
}

fn assert_close(c: Rgba, want: (f64, f64, f64, f64)) {
    let got = (as_unit(c.r), as_unit(c.g), as_unit(c.b), as_unit(c.a));
    assert!((got.0 - want.0).abs() <= 1e-5, "r {} vs {}", got.0, want.0);
    assert!((got.1 - want.1).abs() <= 1e-5, "g {} vs {}", got.1, want.1);
    assert!((got.2 - want.2).abs() <= 1e-5, "b {} vs {}", got.2, want.2);
    assert!((got.3 - want.3).abs() <= 1e-5, "a {} vs {}", got.3, want.3);
}

#[test]
fn rgba_new_rejects_out_of_range_channel() {
    assert!(Rgba::new(UNIT, 0, 0, UNIT).is_some());
    assert!(Rgba::new(UNIT + 1, 0, 0, UNIT).is_none());
    assert!(Rgba::new(0, 0, 0, UNIT + 1).is_none());
}

#[test]
fn over_half_green_on_transparent() {
    let g = rgba(0.0, 1.0, 0.0, 0.5);
    let out = blend_over(g, Rgba::transparent());
    assert_eq!(out, Rgba { r: 0, g: UNIT / 2, b: 0, a: UNIT / 2 });
}

#[test]
fn over_opaque_source_hides_destination() {
    let dst = Rgba { r: UNIT / 2, g: UNIT / 2, b: 0, a: UNIT / 2 };
    let src = rgba(0.0, 0.0, 1.0, 1.0);
    assert_eq!(blend_over(src, dst), Rgba { r: 0, g: 0, b: UNIT, a: UNIT });
}

#[test]
fn onto_transparent_keeps_target() {
    let below = rgba(0.2, 0.4, 0.6, 1.0);
    assert_eq!(composite_onto(Rgba::transparent(), below), below);
}

#[test]
fn onto_half_covered_target() {
    let top = Rgba { r: UNIT / 2, g: 0, b: 0, a: UNIT / 2 };
    let below = rgba(0.0, 0.0, 1.0, 1.0);
    assert_eq!(composite_onto(top, below), Rgba { r: UNIT / 2, g: 0, b: UNIT / 2, a: UNIT });
}

#[test]
fn precedes_orders_by_depth_then_colour() {
    let near = frag(1.0, 0.0, 0.0, 0.5, 1);
    let far = frag(0.0, 1.0, 0.0, 0.5, 2);
    assert!(precedes(&near, &far));
    assert!(!precedes(&far, &near));
    assert!(!precedes(&near, &near));
    let tie = frag(0.5, 0.0, 0.0, 0.5, 1);
    assert!(precedes(&tie, &near));
}

#[test]
fn farthest_picks_first_of_the_deepest() {
    let v = vec![
        frag(1.0, 0.0, 0.0, 0.5, 3),
        frag(0.0, 1.0, 0.0, 0.5, 9),
        frag(0.0, 0.0, 1.0, 0.5, 2),
        frag(0.0, 1.0, 0.0, 0.5, 9),
    ];
    assert_eq!(farthest(&v), 1);
}

#[test]
fn sort_by_depth_orders_nearest_first() {
    let v = vec![
        frag(0.0, 0.0, 1.0, 0.5, 30),
        frag(1.0, 0.0, 0.0, 0.5, 10),
        frag(0.0, 1.0, 0.0, 0.5, 20),
    ];
    let s = sort_by_depth(&v);
    let depths: Vec<u32> = s.iter().map(|f| f.depth).collect();
    assert_eq!(depths, vec![10, 20, 30]);
}

#[test]
fn two_layer_closed_form() {
    // red nearer than green, both half transparent
    let red = frag(1.0, 0.0, 0.0, 0.5, 100);
    let green = frag(0.0, 1.0, 0.0, 0.5, 200);
    let want = (0.5, 0.0 * 0.5 + 1.0 * 0.5 * (1.0 - 0.5), 0.0, 0.5 + 0.5 * (1.0 - 0.5));
    assert_close(resolve_fragments(&vec![red, green]), want);
    assert_close(resolve_fragments(&vec![green, red]), want);
}

#[test]
fn three_spheres_center_pixel() {
    let red = frag(1.0, 0.0, 0.0, 0.5, 10);
    let green = frag(0.0, 1.0, 0.0, 0.5, 20);
    let blue = frag(0.0, 0.0, 1.0, 0.5, 30);
    let want = reference_over(&[
        (1.0, 0.0, 0.0, 0.5),
        (0.0, 1.0, 0.0, 0.5),
        (0.0, 0.0, 1.0, 0.5),
    ]);
    let got = resolve_fragments(&vec![blue, red, green]);
    assert_close(got, want);
    assert_eq!(got, Rgba { r: UNIT / 2, g: UNIT / 4, b: UNIT / 8, a: 7 * UNIT / 8 });
}

#[test]
fn composite_sorted_of_nothing_is_transparent() {
    assert_eq!(composite_sorted(&Vec::new()), Rgba::transparent());
    assert_eq!(resolve_fragments(&Vec::new()), Rgba::transparent());
}

#[test]
fn equal_depths_resolve_alike_in_any_order() {
    let a = frag(1.0, 0.0, 0.0, 0.25, 5);
    let b = frag(0.0, 1.0, 0.0, 0.75, 5);
    assert_eq!(resolve_fragments(&vec![a, b]), resolve_fragments(&vec![b, a]));
}
