//! The concrete element and the modifier bookkeeping.

use damage_tracker::element::{Element, StaticElement};
use damage_tracker::geometry::{Point, Rect, Scale, Size};
use damage_tracker::modifiers::{ModifiersState, SerializedMods};

fn rect(x: i32, y: i32, w: i32, h: i32) -> Rect {
    Rect { loc: Point { x, y }, size: Size { w, h } }
}

#[test]
fn element_reports_its_parts() {
    let e = StaticElement::new(7, 3, rect(10, 20, 30, 40), vec![rect(0, 0, 30, 40)], Vec::new())
        .unwrap();
    assert_eq!(e.id(), 7);
    assert_eq!(e.current_commit(), 3);
    assert_eq!(e.geometry(Scale::one()), rect(10, 20, 30, 40));
    assert_eq!(e.opaque_regions(Scale::one()), vec![rect(0, 0, 30, 40)]);
}

#[test]
fn element_damage_since() {
    let e = StaticElement::new(7, 3, rect(10, 20, 30, 40), Vec::new(), vec![rect(1, 1, 2, 2)])
        .unwrap();
    // Unchanged commit: no damage.  Older commit: the stored damage.
    // Unknown baseline: the full extent.
    assert_eq!(e.damage_since(Scale::one(), Some(3)), Vec::<Rect>::new());
    assert_eq!(e.damage_since(Scale::one(), Some(2)), vec![rect(1, 1, 2, 2)]);
    assert_eq!(e.damage_since(Scale::one(), None), vec![rect(0, 0, 30, 40)]);
}

#[test]
fn element_rejects_out_of_range() {
    assert!(StaticElement::new(1, 1, rect(0x3000_0000, 0, 1, 1), Vec::new(), Vec::new()).is_none());
    assert!(StaticElement::new(1, 1, rect(0, 0, -1, 1), Vec::new(), Vec::new()).is_none());
    assert!(
        StaticElement::new(1, 1, rect(0, 0, 1, 1), vec![rect(0, 0x3000_0000, 1, 1)], Vec::new())
            .is_none()
    );
}

#[test]
fn bump_commit_advances_and_replaces_damage() {
    let mut e = StaticElement::new(7, 3, rect(10, 20, 30, 40), Vec::new(), Vec::new()).unwrap();
    assert!(e.bump_commit(vec![rect(0, 0, 5, 5)]));
    assert_eq!(e.current_commit(), 4);
    assert_eq!(e.damage_since(Scale::one(), Some(3)), vec![rect(0, 0, 5, 5)]);
    assert_eq!(e.damage_since(Scale::one(), Some(4)), Vec::<Rect>::new());
}

#[test]
fn bump_commit_rejects_out_of_range_damage() {
    let mut e = StaticElement::new(7, 3, rect(10, 20, 30, 40), Vec::new(), Vec::new()).unwrap();
    assert!(!e.bump_commit(vec![rect(0, 0x3000_0000, 1, 1)]));
    assert_eq!(e.current_commit(), 3);
}

#[test]
fn modifiers_apply_sets_all_fields() {
    let mut m = ModifiersState::default();
    let ser = SerializedMods { depressed: 5, latched: 0, locked: 2, layout_effective: 1 };
    m.apply(true, false, true, false, false, true, ser);
    assert!(m.ctrl && !m.alt && m.shift && !m.caps_lock && !m.logo && m.num_lock);
    assert_eq!(m.serialized, ser);
}
