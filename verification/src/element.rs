//! Scene elements: what the damage tracker knows about the things it draws.
//!
//! An element has a stable identity, a commit counter that advances whenever
//! its content changes, a geometry on the output, opaque regions inside that
//! geometry, and a way to report the regions dirtied since a given commit.

use vstd::prelude::*;
use crate::geometry::{Point, Rect, Scale, all_bounded};

verus! {

/// What an element looks like to the damage analysis: a pure snapshot of its
/// identity, commit, geometry and opaque regions.
#[verifier::ext_equal]
pub ghost struct ElemInfo {
    /// Stable identity; several instances of one id may appear per frame.
    pub id: u64,
    /// Content version at the time of the frame.
    pub commit: u64,
    /// Geometry on the output, in physical pixels (possibly partly outside).
    pub geometry: Rect,
    /// Fully opaque regions, in element-local coordinates.
    pub opaque: Seq<Rect>,
    /// Damage reported for this frame, in element-local coordinates.
    pub damage: Seq<Rect>,
}

/// A scene element, described to the tracker once per frame.
///
/// The `spec_*` functions are the element's mathematical face: each exec
/// method returns exactly its spec counterpart, so the tracker's contracts
/// can speak about elements by value.
pub trait Element: Sized {
    /// Stable identity of the element.
    spec fn spec_id(&self) -> u64;

    /// Current commit counter.
    spec fn spec_commit(&self) -> u64;

    /// Geometry on the output for a scale, in physical pixels.
    spec fn spec_geometry(&self, scale: Scale) -> Rect;

    /// Source rectangle within the element's own buffer.
    spec fn spec_src(&self) -> Rect;

    /// Opaque regions for a scale, in element-local coordinates.
    spec fn spec_opaque_regions(&self, scale: Scale) -> Seq<Rect>;

    /// Regions dirtied since `commit`, in element-local coordinates;
    /// `None` asks for the element's full extent.
    spec fn spec_damage_since(&self, scale: Scale, commit: Option<u64>) -> Seq<Rect>;

    /// Stable identity of the element.
    fn id(&self) -> (r: u64)
        ensures
            r == self.spec_id(),
    ;

    /// Current commit counter.
    fn current_commit(&self) -> (r: u64)
        ensures
            r == self.spec_commit(),
    ;

    /// Geometry on the output for a scale, in physical pixels.
    fn geometry(&self, scale: Scale) -> (r: Rect)
        ensures
            r == self.spec_geometry(scale),
            r.bounded(0x2000_0000),
    ;

    /// Source rectangle within the element's own buffer.
    fn src(&self) -> (r: Rect)
        ensures
            r == self.spec_src(),
    ;

    /// Opaque regions for a scale, in element-local coordinates.
    fn opaque_regions(&self, scale: Scale) -> (r: Vec<Rect>)
        ensures
            r@ == self.spec_opaque_regions(scale),
            all_bounded(r@, 0x2000_0000),
    ;

    /// Regions dirtied since `commit`, in element-local coordinates.
    /// An element unchanged since `commit` reports no damage.
    fn damage_since(&self, scale: Scale, commit: Option<u64>) -> (r: Vec<Rect>)
        ensures
            r@ == self.spec_damage_since(scale, commit),
            all_bounded(r@, 0x2000_0000),
            commit == Some(self.spec_commit()) ==> r@.len() == 0,
    ;
}

/// Check that every rectangle of a list is in range.
fn check_all_in_range(rects: &Vec<Rect>) -> (r: bool)
    ensures
        r == all_bounded(rects@, 0x2000_0000),
{
    let mut k: usize = 0;
    while k < rects.len()
        invariant
            k <= rects@.len(),
            all_bounded(rects@.take(k as int), 0x2000_0000),
        decreases rects@.len() - k,
    {
        if !rects[k].in_range() {
            return false;
        }
        proof {
            assert(forall|i: int| 0 <= i < k + 1 ==> rects@.take(k as int + 1)[i] == rects@[i]);
        }
        k = k + 1;
    }
    proof {
        assert(rects@.take(rects@.len() as int) == rects@);
    }
    true
}

/// A concrete element with fixed geometry and damage lists, the simplest
/// thing a caller (or a test) can hand to the tracker.
///
/// Its damage report is all-or-nothing: if the queried commit equals the
/// current commit it reports nothing, otherwise it reports its stored
/// damage list (or its full extent when asked with `None`).
pub struct StaticElement {
    id: u64,
    commit: u64,
    geometry: Rect,
    opaque: Vec<Rect>,
    damage: Vec<Rect>,
}

impl StaticElement {
    /// All stored rectangles are in range.
    #[verifier::type_invariant]
    spec fn wf(self) -> bool {
        &&& self.geometry.bounded(0x2000_0000)
        &&& (Rect { loc: Point { x: 0, y: 0 }, size: self.geometry.size }).bounded(0x2000_0000)
        &&& all_bounded(self.opaque@, 0x2000_0000)
        &&& all_bounded(self.damage@, 0x2000_0000)
    }

    /// Build an element; rejects out-of-range rectangles.
    pub fn new(id: u64, commit: u64, geometry: Rect, opaque: Vec<Rect>, damage: Vec<Rect>) -> (r:
        Option<StaticElement>)
        ensures
            r is Some <==> (geometry.bounded(0x2000_0000) && (Rect {
                loc: Point { x: 0, y: 0 },
                size: geometry.size,
            }).bounded(0x2000_0000) && all_bounded(opaque@, 0x2000_0000) && all_bounded(
                damage@,
                0x2000_0000,
            )),
            r matches Some(e) ==> {
                &&& e.spec_id() == id
                &&& e.spec_commit() == commit
                &&& forall|s: Scale| #[trigger] e.spec_geometry(s) == geometry
                &&& forall|s: Scale| #[trigger] e.spec_opaque_regions(s) == opaque@
                &&& forall|s: Scale, c: u64|
                    #[trigger] e.spec_damage_since(s, Some(c)) == if c == commit {
                        Seq::<Rect>::empty()
                    } else {
                        damage@
                    }
                &&& forall|s: Scale|
                    #[trigger] e.spec_damage_since(s, None) == seq![
                        Rect { loc: Point { x: 0, y: 0 }, size: geometry.size },
                    ]
            },
    {
        let full = Rect { loc: Point { x: 0, y: 0 }, size: geometry.size };
        if geometry.in_range() && full.in_range() && check_all_in_range(&opaque)
            && check_all_in_range(&damage) {
            Some(StaticElement { id, commit, geometry, opaque, damage })
        } else {
            None
        }
    }

    /// Advance the commit counter and replace the damage list, as a content
    /// change would.  Fails on out-of-range damage or an exhausted counter;
    /// the element is then unchanged.
    pub fn bump_commit(&mut self, damage: Vec<Rect>) -> (ok: bool)
        ensures
            ok <==> (old(self).spec_commit() < u64::MAX && all_bounded(damage@, 0x2000_0000)),
            ok ==> final(self).spec_commit() == old(self).spec_commit() + 1,
            ok ==> forall|s: Scale, c: u64|
                #[trigger] final(self).spec_damage_since(s, Some(c)) == if c == old(
                    self,
                ).spec_commit() + 1 {
                    Seq::<Rect>::empty()
                } else {
                    damage@
                },
            !ok ==> *final(self) == *old(self),
            final(self).spec_id() == old(self).spec_id(),
            forall|s: Scale| #[trigger] final(self).spec_geometry(s) == old(self).spec_geometry(s),
            forall|s: Scale|
                #[trigger] final(self).spec_opaque_regions(s) == old(self).spec_opaque_regions(s),
    {
        proof {
            use_type_invariant(&*self);
        }
        if self.commit == u64::MAX || !check_all_in_range(&damage) {
            return false;
        }
        self.commit = self.commit + 1;
        self.damage = damage;
        true
    }

    /// A copy of the element, to hand to another frame.
    pub fn clone_for_frame(&self) -> (r: StaticElement)
        ensures
            r.spec_id() == self.spec_id(),
            r.spec_commit() == self.spec_commit(),
            forall|s: Scale| #[trigger] r.spec_geometry(s) == self.spec_geometry(s),
            forall|s: Scale| #[trigger] r.spec_opaque_regions(s) == self.spec_opaque_regions(s),
            forall|s: Scale, c: Option<u64>|
                #[trigger] r.spec_damage_since(s, c) == self.spec_damage_since(s, c),
    {
        proof {
            use_type_invariant(&*self);
        }
        StaticElement {
            id: self.id,
            commit: self.commit,
            geometry: self.geometry,
            opaque: crate::geometry::copy_rects(&self.opaque),
            damage: crate::geometry::copy_rects(&self.damage),
        }
    }

    /// Move the element to a new location.  Fails out of range; the element
    /// is then unchanged.
    pub fn set_location(&mut self, x: i32, y: i32) -> (ok: bool)
        ensures
            ok ==> forall|s: Scale|
                #[trigger] final(self).spec_geometry(s) == (Rect {
                    loc: Point { x, y },
                    size: old(self).spec_geometry(s).size,
                }),
            !ok ==> *final(self) == *old(self),
            final(self).spec_id() == old(self).spec_id(),
            final(self).spec_commit() == old(self).spec_commit(),
            forall|s: Scale|
                #[trigger] final(self).spec_opaque_regions(s) == old(self).spec_opaque_regions(s),
            forall|s: Scale, c: Option<u64>|
                #[trigger] final(self).spec_damage_since(s, c) == if c is None {
                    seq![
                        Rect {
                            loc: Point { x: 0, y: 0 },
                            size: old(self).spec_geometry(s).size,
                        },
                    ]
                } else {
                    old(self).spec_damage_since(s, c)
                },
    {
        proof {
            use_type_invariant(&*self);
        }
        let moved = Rect { loc: Point { x, y }, size: self.geometry.size };
        if moved.in_range() {
            self.geometry = moved;
            true
        } else {
            false
        }
    }
}

impl Element for StaticElement {
    closed spec fn spec_id(&self) -> u64 {
        self.id
    }

    closed spec fn spec_commit(&self) -> u64 {
        self.commit
    }

    closed spec fn spec_geometry(&self, scale: Scale) -> Rect {
        self.geometry
    }

    closed spec fn spec_src(&self) -> Rect {
        Rect { loc: Point { x: 0, y: 0 }, size: self.geometry.size }
    }

    closed spec fn spec_opaque_regions(&self, scale: Scale) -> Seq<Rect> {
        self.opaque@
    }

    closed spec fn spec_damage_since(&self, scale: Scale, commit: Option<u64>) -> Seq<Rect> {
        match commit {
            Some(c) => if c == self.commit {
                Seq::empty()
            } else {
                self.damage@
            },
            None => seq![Rect { loc: Point { x: 0, y: 0 }, size: self.geometry.size }],
        }
    }

    fn id(&self) -> (r: u64) {
        self.id
    }

    fn current_commit(&self) -> (r: u64) {
        self.commit
    }

    fn geometry(&self, scale: Scale) -> (r: Rect) {
        proof {
            use_type_invariant(&*self);
        }
        self.geometry
    }

    fn src(&self) -> (r: Rect) {
        Rect { loc: Point { x: 0, y: 0 }, size: self.geometry.size }
    }

    fn opaque_regions(&self, scale: Scale) -> (r: Vec<Rect>) {
        proof {
            use_type_invariant(&*self);
        }
        crate::geometry::copy_rects(&self.opaque)
    }

    fn damage_since(&self, scale: Scale, commit: Option<u64>) -> (r: Vec<Rect>) {
        proof {
            use_type_invariant(&*self);
        }
        match commit {
            Some(c) => if c == self.commit {
                Vec::new()
            } else {
                crate::geometry::copy_rects(&self.damage)
            },
            None => {
                let mut v: Vec<Rect> = Vec::new();
                v.push(Rect { loc: Point { x: 0, y: 0 }, size: self.geometry.size });
                v
            },
        }
    }
}

} // verus!
