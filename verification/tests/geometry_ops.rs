//! Exact values for the rectangle algebra.

use damage_tracker::geometry::{
    canonicalize, subtract_rect, subtract_rects, sum_areas, Point, Rect, Size, Transform,
};

fn rect(x: i32, y: i32, w: i32, h: i32) -> Rect {
    Rect { loc: Point { x, y }, size: Size { w, h } }
}

fn covers_px(rects: &[Rect], px: i32, py: i32) -> bool {
    rects.iter().any(|r| {
        r.loc.x <= px && px < r.loc.x + r.size.w && r.loc.y <= py && py < r.loc.y + r.size.h
    })
}

#[test]
fn intersection_exact() {
    let a = rect(0, 0, 10, 10);
    let b = rect(5, 5, 10, 10);
    assert_eq!(a.intersection(b), Some(rect(5, 5, 5, 5)));
    assert_eq!(a.intersection(rect(10, 0, 5, 5)), None);
    assert_eq!(a.intersection(rect(0, 0, 0, 5)), None);
}

#[test]
fn overlaps_is_symmetric_on_samples() {
    let a = rect(0, 0, 10, 10);
    let b = rect(9, 9, 1, 1);
    assert!(a.overlaps(b) && b.overlaps(a));
    let c = rect(10, 10, 1, 1);
    assert!(!a.overlaps(c) && !c.overlaps(a));
}

#[test]
fn subtract_center_gives_four_strips() {
    let outer = rect(0, 0, 10, 10);
    let hole = rect(3, 3, 4, 4);
    let parts = subtract_rect(outer, hole);
    assert_eq!(parts.len(), 4);
    let total: i64 = parts.iter().map(|r| (r.size.w as i64) * (r.size.h as i64)).sum();
    assert_eq!(total, 100 - 16);
    for px in 0..10 {
        for py in 0..10 {
            let in_hole = (3..7).contains(&px) && (3..7).contains(&py);
            assert_eq!(covers_px(&parts, px, py), !in_hole);
        }
    }
    // Parts are pairwise disjoint.
    for i in 0..parts.len() {
        for j in 0..parts.len() {
            if i != j {
                assert!(!parts[i].overlaps(parts[j]));
            }
        }
    }
}

#[test]
fn subtract_disjoint_keeps_rect() {
    let a = rect(0, 0, 4, 4);
    assert_eq!(subtract_rect(a, rect(4, 0, 4, 4)), vec![a]);
}

#[test]
fn subtract_all_of_it_gives_nothing() {
    let a = rect(2, 2, 4, 4);
    assert_eq!(subtract_rect(a, rect(0, 0, 10, 10)), Vec::<Rect>::new());
}

#[test]
fn subtract_rects_folds_regions() {
    let base = vec![rect(0, 0, 10, 1)];
    let regions = vec![rect(0, 0, 3, 1), rect(7, 0, 3, 1)];
    let parts = subtract_rects(base, &regions);
    assert_eq!(parts, vec![rect(3, 0, 4, 1)]);
}

#[test]
fn merge_is_bounding_box() {
    let a = rect(0, 0, 2, 2);
    let b = rect(5, 1, 1, 4);
    assert_eq!(a.merge(b), rect(0, 0, 6, 5));
}

#[test]
fn area_exact_and_empty() {
    assert_eq!(rect(1, 1, 7, 3).area(), 21);
    assert_eq!(rect(1, 1, 0, 3).area(), 0);
    assert_eq!(rect(1, 1, -2, 3).area(), 0);
}

#[test]
fn sum_areas_saturates_nothing_small() {
    let v = vec![rect(0, 0, 2, 2), rect(10, 10, 3, 1)];
    assert_eq!(sum_areas(&v), 7);
}

#[test]
fn canonicalize_splits_overlaps_exactly() {
    let geo = rect(0, 0, 100, 100);
    let input = vec![rect(0, 0, 4, 4), rect(2, 2, 4, 4)];
    let out = canonicalize(&input, geo);
    // Exactly the input pixels, as disjoint rectangles: no bounding-box
    // filler pixels appear.
    for px in -1..8 {
        for py in -1..8 {
            let expected = covers_px(&input, px, py);
            assert_eq!(covers_px(&out, px, py), expected, "pixel {px},{py}");
        }
    }
    for i in 0..out.len() {
        for j in 0..out.len() {
            if i != j {
                assert!(!out[i].overlaps(out[j]));
            }
        }
    }
}

#[test]
fn canonicalize_clips_and_drops() {
    let geo = rect(0, 0, 10, 10);
    let input = vec![rect(8, 8, 10, 10), rect(50, 50, 5, 5), rect(3, 3, 0, 5)];
    let out = canonicalize(&input, geo);
    assert_eq!(out, vec![rect(8, 8, 2, 2)]);
}

#[test]
fn canonicalize_keeps_duplicates_once() {
    let geo = rect(0, 0, 100, 100);
    let input = vec![rect(0, 0, 2, 2), rect(6, 0, 2, 2), rect(1, 0, 6, 1), rect(0, 0, 2, 2)];
    let out = canonicalize(&input, geo);
    for px in -1..10 {
        for py in -1..4 {
            let expected = covers_px(&input, px, py);
            assert_eq!(covers_px(&out, px, py), expected, "pixel {px},{py}");
        }
    }
    for i in 0..out.len() {
        for j in 0..out.len() {
            if i != j {
                assert!(!out[i].overlaps(out[j]));
            }
        }
    }
}

#[test]
fn transform_size_swaps_quarter_turns() {
    let s = Size { w: 800, h: 600 };
    assert_eq!(Transform::Normal.transform_size(s), s);
    assert_eq!(Transform::Rotate90.transform_size(s), Size { w: 600, h: 800 });
    assert_eq!(Transform::Rotate180.transform_size(s), s);
    assert_eq!(Transform::Flipped270.transform_size(s), Size { w: 600, h: 800 });
}
