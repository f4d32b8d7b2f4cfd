//! End-to-end frames through the damage tracker, on a 800x600 output at
//! scale one with the identity transform.

use damage_tracker::backend::{Backend, Color, RenderElement};
use damage_tracker::element::{Element, StaticElement};
use damage_tracker::geometry::{Point, Rect, Scale, Size, Transform};
use damage_tracker::tracker::{
    DamageTrackedRenderer, DamageTrackedRendererError, OutputState, RenderElementState,
};

fn rect(x: i32, y: i32, w: i32, h: i32) -> Rect {
    Rect { loc: Point { x, y }, size: Size { w, h } }
}

fn output() -> DamageTrackedRenderer {
    DamageTrackedRenderer::new(Size { w: 800, h: 600 }, Scale::one(), Transform::Normal)
}

fn elem(id: u64, commit: u64, geometry: Rect) -> StaticElement {
    StaticElement::new(id, commit, geometry, Vec::new(), Vec::new()).unwrap()
}

fn same_rect_set(mut a: Vec<Rect>, mut b: Vec<Rect>) -> bool {
    let key = |r: &Rect| (r.loc.x, r.loc.y, r.size.w, r.size.h);
    a.sort_by_key(key);
    b.sort_by_key(key);
    a == b
}

#[test]
fn first_frame_one_element() {
    let mut t = output();
    let elems = vec![elem(1, 1, rect(100, 100, 10, 10))];
    let (damage, states) = t.damage_output(0, &elems).unwrap();
    assert_eq!(damage, Some(vec![rect(0, 0, 800, 600)]));
    assert_eq!(states.get(1), Some(RenderElementState::Rendered { visible_area: 100 }));
}

#[test]
fn unchanged_second_frame() {
    let mut t = output();
    let elems = vec![elem(1, 1, rect(100, 100, 10, 10))];
    let _ = t.damage_output(0, &elems).unwrap();
    let (damage, states) = t.damage_output(1, &elems).unwrap();
    assert_eq!(damage, None);
    assert_eq!(states.get(1), Some(RenderElementState::Rendered { visible_area: 100 }));
}

#[test]
fn element_moves() {
    let mut t = output();
    let mut a = elem(1, 1, rect(100, 100, 10, 10));
    let _ = t.damage_output(0, &vec![a.clone_for_frame()]).unwrap();
    let _ = t.damage_output(1, &vec![a.clone_for_frame()]).unwrap();
    assert!(a.set_location(150, 100));
    let (damage, states) = t.damage_output(1, &vec![a]).unwrap();
    let damage = damage.expect("a moved element must produce damage");
    assert!(
        same_rect_set(damage.clone(), vec![rect(150, 100, 10, 10), rect(100, 100, 10, 10)])
            || damage == vec![rect(100, 100, 60, 10)],
        "unexpected damage {damage:?}"
    );
    assert_eq!(states.get(1), Some(RenderElementState::Rendered { visible_area: 100 }));
}

#[test]
fn element_content_change_only() {
    let mut t = output();
    let mut a = elem(1, 1, rect(100, 100, 10, 10));
    let _ = t.damage_output(0, &vec![a.clone_for_frame()]).unwrap();
    let _ = t.damage_output(1, &vec![a.clone_for_frame()]).unwrap();
    assert!(a.bump_commit(vec![rect(0, 0, 5, 5)]));
    let (damage, _) = t.damage_output(1, &vec![a]).unwrap();
    assert_eq!(damage, Some(vec![rect(100, 100, 5, 5)]));
}

#[test]
fn full_occlusion() {
    let mut t = output();
    let b = StaticElement::new(2, 1, rect(100, 100, 10, 10), vec![rect(0, 0, 10, 10)], Vec::new())
        .unwrap();
    let a = elem(1, 1, rect(100, 100, 10, 10));
    let (_, states) = t.damage_output(0, &vec![b, a]).unwrap();
    assert_eq!(states.get(1), Some(RenderElementState::Skipped));
    assert_eq!(states.get(2), Some(RenderElementState::Rendered { visible_area: 100 }));
}

#[test]
fn buffer_age_fallback() {
    let mut t = output();
    let elems = vec![elem(1, 1, rect(100, 100, 10, 10))];
    let _ = t.damage_output(0, &elems).unwrap();
    let _ = t.damage_output(1, &elems).unwrap();
    let (damage, _) = t.damage_output(5, &elems).unwrap();
    assert_eq!(damage, Some(vec![rect(0, 0, 800, 600)]));
}

#[test]
fn output_resize() {
    let mut t = DamageTrackedRenderer::from_output(&OutputState {
        current_mode: Some(Size { w: 800, h: 600 }),
        scale: Scale::one(),
        transform: Transform::Normal,
    });
    let elems = vec![elem(1, 1, rect(100, 100, 10, 10))];
    let _ = t.damage_output(0, &elems).unwrap();
    let _ = t.damage_output(1, &elems).unwrap();
    t.update_output(OutputState {
        current_mode: Some(Size { w: 1024, h: 768 }),
        scale: Scale::one(),
        transform: Transform::Normal,
    });
    let (damage, _) = t.damage_output(1, &elems).unwrap();
    assert_eq!(damage, Some(vec![rect(0, 0, 1024, 768)]));
}

#[test]
fn damage_rects_are_disjoint_and_on_screen() {
    let mut t = output();
    let mut a = elem(1, 1, rect(-20, -20, 50, 50));
    let b = elem(2, 1, rect(700, 500, 300, 300));
    let _ = t.damage_output(0, &vec![a.clone_for_frame(), b.clone_for_frame()]).unwrap();
    assert!(a.set_location(10, 10));
    let (damage, _) = t.damage_output(1, &vec![a, b]).unwrap();
    let damage = damage.unwrap();
    let screen = rect(0, 0, 800, 600);
    for (i, r) in damage.iter().enumerate() {
        assert!(r.size.w > 0 && r.size.h > 0);
        assert!(
            screen.loc.x <= r.loc.x
                && r.loc.x + r.size.w <= screen.loc.x + screen.size.w
                && screen.loc.y <= r.loc.y
                && r.loc.y + r.size.h <= screen.loc.y + screen.size.h
        );
        for (j, q) in damage.iter().enumerate() {
            if i != j {
                assert!(!overlaps(r, q), "damage rectangles {r:?} and {q:?} overlap");
            }
        }
    }
}

#[test]
fn buffer_age_uses_history() {
    let mut t = output();
    let mut a = elem(1, 1, rect(100, 100, 10, 10));
    let _ = t.damage_output(0, &vec![a.clone_for_frame()]).unwrap();
    assert!(a.bump_commit(vec![rect(0, 0, 5, 5)]));
    let (d2, _) = t.damage_output(1, &vec![a.clone_for_frame()]).unwrap();
    assert_eq!(d2, Some(vec![rect(100, 100, 5, 5)]));
    assert!(a.bump_commit(vec![rect(0, 0, 1, 1)]));
    // The buffer is two frames stale: it needs this frame's damage and the
    // stored damage of the frame it missed — together exactly the pixels of
    // the previous frame's rectangle.
    let (d3, _) = t.damage_output(2, &vec![a]).unwrap();
    let d3 = d3.unwrap();
    for px in 95..115 {
        for py in 95..115 {
            let expected = (100..105).contains(&px) && (100..105).contains(&py);
            let got = d3.iter().any(|r| {
                r.loc.x <= px && px < r.loc.x + r.size.w && r.loc.y <= py
                    && py < r.loc.y + r.size.h
            });
            assert_eq!(got, expected, "pixel {px},{py}");
        }
    }
}

#[test]
fn vanished_instance_damaged_behind_surviving_opaque() {
    // One id appears twice, with an opaque element between its instances.
    // When both instances vanish and a new element takes the front slot,
    // the frontmost old instance sat in front of the opaque element, so its
    // pixels changed and must be damaged — only the rear old instance was
    // behind the opaque element.
    let mut t = output();
    let a_front = elem(1, 1, rect(0, 0, 10, 10));
    let b = StaticElement::new(2, 1, rect(0, 0, 10, 10), vec![rect(0, 0, 10, 10)], Vec::new())
        .unwrap();
    let a_rear = elem(1, 1, rect(20, 0, 10, 10));
    let _ = t
        .damage_output(0, &vec![a_front, b.clone_for_frame(), a_rear])
        .unwrap();
    // Both instances of the id vanish; a fresh element takes the front
    // scene slot, so the opaque element keeps its position.
    let n = elem(3, 1, rect(100, 100, 5, 5));
    let (damage, _) = t.damage_output(1, &vec![n, b]).unwrap();
    let damage = damage.unwrap();
    let covered = |px: i32, py: i32| {
        damage.iter().any(|r| {
            r.loc.x <= px && px < r.loc.x + r.size.w && r.loc.y <= py && py < r.loc.y + r.size.h
        })
    };
    // The frontmost vanished instance is damaged although the opaque
    // element now covers its spot ...
    assert!(covered(5, 5), "front old instance must be damaged");
    // ... and the rear one, never visible through the opaque element's
    // region, is damaged where it showed.
    assert!(covered(25, 5), "rear old instance must be damaged");
    // The fresh element's spot is damaged too.
    assert!(covered(102, 102));
}

#[test]
fn output_without_mode_is_refused() {
    let mut t = DamageTrackedRenderer::from_output(&OutputState {
        current_mode: None,
        scale: Scale::one(),
        transform: Transform::Normal,
    });
    let elems = vec![elem(1, 1, rect(100, 100, 10, 10))];
    assert!(t.damage_output(0, &elems).is_err());
}

/// A backend that records what it is asked to do, and can be told to fail
/// on element draws.
#[derive(Debug, Clone, PartialEq)]
enum Event {
    Clear(Vec<Rect>),
    Draw(u64, Rect, Vec<Rect>),
}

struct TestBackend {
    fail_draws: bool,
    log: std::rc::Rc<std::cell::RefCell<Vec<Event>>>,
}

impl TestBackend {
    fn new(fail_draws: bool) -> TestBackend {
        TestBackend { fail_draws, log: std::rc::Rc::new(std::cell::RefCell::new(Vec::new())) }
    }

    fn events(&self) -> Vec<Event> {
        self.log.borrow().clone()
    }
}

struct TestFrame {
    log: std::rc::Rc<std::cell::RefCell<Vec<Event>>>,
    fail_draws: bool,
}

impl Backend for TestBackend {
    type Frame = TestFrame;
    type Error = String;

    fn render(&mut self, _size: Size, _transform: Transform) -> Result<TestFrame, String> {
        Ok(TestFrame { log: self.log.clone(), fail_draws: self.fail_draws })
    }

    fn clear(frame: &mut TestFrame, _color: Color, damage: &Vec<Rect>) -> Result<(), String> {
        frame.log.borrow_mut().push(Event::Clear(damage.clone()));
        Ok(())
    }
}

impl RenderElement<TestBackend> for StaticElement {
    fn draw(
        &self,
        frame: &mut TestFrame,
        _src: Rect,
        dst: Rect,
        damage: &Vec<Rect>,
        _scale: Scale,
    ) -> Result<(), String> {
        if frame.fail_draws {
            return Err("draw failed".to_string());
        }
        frame.log.borrow_mut().push(Event::Draw(self.id(), dst, damage.clone()));
        Ok(())
    }
}

fn overlaps(a: &Rect, b: &Rect) -> bool {
    a.size.w > 0 && a.size.h > 0 && b.size.w > 0 && b.size.h > 0
        && a.loc.x < b.loc.x + b.size.w && b.loc.x < a.loc.x + a.size.w
        && a.loc.y < b.loc.y + b.size.h && b.loc.y < a.loc.y + a.size.h
}

fn color() -> Color {
    Color { r: 200, g: 200, b: 230, a: 255 }
}

#[test]
fn render_first_frame() {
    let mut t = output();
    let mut b = TestBackend::new(false);
    let elems = vec![elem(1, 1, rect(100, 100, 10, 10))];
    let (damage, states) = t.render_output(&mut b, 0, &elems, color()).unwrap();
    assert_eq!(damage, Some(vec![rect(0, 0, 800, 600)]));
    assert_eq!(states.get(1), Some(RenderElementState::Rendered { visible_area: 100 }));
    let events = b.events();
    assert!(matches!(events[0], Event::Clear(_)));
    assert_eq!(
        events[1],
        Event::Draw(1, rect(100, 100, 10, 10), vec![rect(0, 0, 10, 10)])
    );
    // Per-element damage is handed over in element-local coordinates and
    // stays within the element's extent.
    for ev in &events {
        if let Event::Draw(_, dst, dmg) = ev {
            let extent = rect(0, 0, dst.size.w, dst.size.h);
            for r in dmg {
                assert!(r.loc.x >= 0 && r.loc.y >= 0);
                assert!(r.loc.x + r.size.w <= extent.size.w);
                assert!(r.loc.y + r.size.h <= extent.size.h);
            }
        }
    }
}

#[test]
fn render_skips_backend_without_damage() {
    let mut t = output();
    let mut b = TestBackend::new(true);
    let elems = vec![elem(1, 1, rect(100, 100, 10, 10))];
    let _ = t.damage_output(0, &elems).unwrap();
    // No damage: the backend (which would fail any draw) is never touched.
    let (damage, _) = t.render_output(&mut b, 1, &elems, color()).unwrap();
    assert_eq!(damage, None);
}

#[test]
fn occluded_element_is_not_drawn() {
    let mut t = output();
    let mut b = TestBackend::new(false);
    let front = StaticElement::new(
        2,
        1,
        rect(100, 100, 10, 10),
        vec![rect(0, 0, 10, 10)],
        Vec::new(),
    )
    .unwrap();
    let back = elem(1, 1, rect(100, 100, 10, 10));
    let _ = t.render_output(&mut b, 0, &vec![front, back], color()).unwrap();
    let events = b.events();
    // The occluded element behind is never drawn, and no cleared pixel lies
    // under the front element's opaque region.
    let opaque_on_output = rect(100, 100, 10, 10);
    for ev in &events {
        match ev {
            Event::Draw(id, _, _) => assert_eq!(*id, 2),
            Event::Clear(rects) => {
                for r in rects {
                    assert!(!overlaps(r, &opaque_on_output), "cleared {r:?} under opaque");
                }
            }
        }
    }
    assert!(events.iter().any(|e| matches!(e, Event::Draw(2, _, _))));
}

#[test]
fn error_recovery_forces_full_redraw() {
    let mut t = output();
    let elems = vec![elem(1, 1, rect(100, 100, 10, 10))];
    let _ = t.damage_output(0, &elems).unwrap();
    let _ = t.damage_output(1, &elems).unwrap();
    // Make some damage so the paint pass runs, and let the draw fail.
    let mut moved = elem(1, 1, rect(100, 100, 10, 10));
    assert!(moved.set_location(150, 100));
    let mut failing = TestBackend::new(true);
    let err = t.render_output(&mut failing, 1, &vec![moved.clone_for_frame()], color());
    assert!(matches!(err, Err(DamageTrackedRendererError::Rendering(_))));
    // The next frame repaints everything, whatever changed.
    let (damage, _) = t.damage_output(1, &vec![moved]).unwrap();
    assert_eq!(damage, Some(vec![rect(0, 0, 800, 600)]));
}
