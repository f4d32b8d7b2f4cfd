//! The paint-pass helpers on concrete values: what is cleared and what each
//! element is asked to draw.

use damage_tracker::geometry::{Point, Rect, Size};
use damage_tracker::tracker::{compute_clear_damage, compute_element_damage};

fn rect(x: i32, y: i32, w: i32, h: i32) -> Rect {
    Rect { loc: Point { x, y }, size: Size { w, h } }
}

fn covers_px(rects: &[Rect], px: i32, py: i32) -> bool {
    rects.iter().any(|r| {
        r.loc.x <= px && px < r.loc.x + r.size.w && r.loc.y <= py && py < r.loc.y + r.size.h
    })
}

#[test]
fn clear_damage_avoids_every_opaque_pixel() {
    let damage = vec![rect(0, 0, 10, 10)];
    let opaques = vec![rect(2, 2, 2, 2), rect(8, 0, 2, 10)];
    let clear = compute_clear_damage(&damage, &opaques);
    for px in 0..12 {
        for py in 0..12 {
            let in_damage = covers_px(&damage, px, py);
            let in_opaque = covers_px(&opaques, px, py);
            assert_eq!(covers_px(&clear, px, py), in_damage && !in_opaque);
        }
    }
}

#[test]
fn element_damage_is_local_clipped_and_unoccluded() {
    let damage = vec![rect(0, 0, 105, 200)];
    let geometry = rect(100, 100, 10, 10);
    let front = vec![rect(100, 100, 3, 3)];
    let ed = compute_element_damage(&damage, geometry, &front);
    // In element-local coordinates: the damage reaches 5 columns into the
    // element, minus the occluded top-left corner.
    for px in -2..14 {
        for py in -2..14 {
            let on_output = (px + 100, py + 100);
            let expected = (0..5).contains(&px) && (0..10).contains(&py)
                && !((0..3).contains(&px) && (0..3).contains(&py));
            assert_eq!(
                covers_px(&ed, px, py),
                expected,
                "local pixel {px},{py} (output {on_output:?})"
            );
        }
    }
}

#[test]
fn element_damage_empty_when_fully_occluded() {
    let damage = vec![rect(0, 0, 200, 200)];
    let geometry = rect(10, 10, 4, 4);
    let front = vec![rect(10, 10, 4, 4)];
    let ed = compute_element_damage(&damage, geometry, &front);
    assert!(ed.iter().all(|r| r.size.w <= 0 || r.size.h <= 0) || ed.is_empty());
}
