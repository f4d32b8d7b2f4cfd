//! Axis-aligned integer rectangles in the output's physical-pixel space.
//!
//! All rectangles are inclusive-exclusive: a rectangle at `(x, y)` of size
//! `w x h` covers the pixels `(px, py)` with `x <= px < x + w` and
//! `y <= py < y + h`.  Every operation is specified against that pixel set.

use vstd::prelude::*;

verus! {

/// Bound on the coordinates of rectangles the tracker stores: generous
/// enough for any real output, small enough that sums of two coordinates
/// never overflow `i32`.
pub const COORD_LIMIT: i32 = 0x2000_0000;

/// A scale of one, in the fixed-point units of [`Scale`].
pub const SCALE_ONE: u32 = 120;

/// Fractional output scale, fixed-point in 120ths per axis: a value of
/// [`SCALE_ONE`] is a scale of one.  The tracker never computes with the
/// scale; it hands it to the elements, which present their geometry already
/// in physical pixels.
#[derive(Clone, Copy, Debug, PartialEq, Eq, Structural)]
pub struct Scale {
    /// Horizontal scale, in 120ths.
    pub x: u32,
    /// Vertical scale, in 120ths.
    pub y: u32,
}

impl Scale {
    /// The scale of one on both axes.
    pub fn one() -> (r: Scale)
        ensures
            r == (Scale { x: SCALE_ONE, y: SCALE_ONE }),
    {
        Scale { x: SCALE_ONE, y: SCALE_ONE }
    }
}

/// Orientation of the output: a rotation, optionally after a flip.
#[derive(Clone, Copy, Debug, PartialEq, Eq, Structural)]
pub enum Transform {
    /// No rotation, no flip.
    Normal,
    /// Rotated by 90 degrees.
    Rotate90,
    /// Rotated by 180 degrees.
    Rotate180,
    /// Rotated by 270 degrees.
    Rotate270,
    /// Flipped horizontally.
    Flipped,
    /// Flipped, then rotated by 90 degrees.
    Flipped90,
    /// Flipped, then rotated by 180 degrees.
    Flipped180,
    /// Flipped, then rotated by 270 degrees.
    Flipped270,
}

impl Transform {
    /// Whether the transform swaps the two axes.
    pub open spec fn swaps_axes(self) -> bool {
        self is Rotate90 || self is Rotate270 || self is Flipped90 || self is Flipped270
    }

    /// A size, as it comes out of the transform.
    pub open spec fn spec_transform_size(self, size: Size) -> Size {
        if self.swaps_axes() {
            Size { w: size.h, h: size.w }
        } else {
            size
        }
    }

    /// Apply the transform to a size: a quarter rotation swaps the axes.
    pub fn transform_size(self, size: Size) -> (r: Size)
        ensures
            r == self.spec_transform_size(size),
    {
        match self {
            Transform::Rotate90 | Transform::Rotate270 | Transform::Flipped90
                | Transform::Flipped270 => Size { w: size.h, h: size.w },
            _ => size,
        }
    }
}

/// Location of a rectangle's top-left corner, in physical pixels.
#[derive(Clone, Copy, Debug, PartialEq, Eq, Structural)]
pub struct Point {
    /// Horizontal coordinate, growing rightwards.
    pub x: i32,
    /// Vertical coordinate, growing downwards.
    pub y: i32,
}

/// Extent of a rectangle, in physical pixels.
#[derive(Clone, Copy, Debug, PartialEq, Eq, Structural)]
pub struct Size {
    /// Width.
    pub w: i32,
    /// Height.
    pub h: i32,
}

/// An axis-aligned rectangle: a location and a size.
#[derive(Clone, Copy, Debug, PartialEq, Eq, Structural)]
pub struct Rect {
    /// Top-left corner.
    pub loc: Point,
    /// Extent; a rectangle with a non-positive width or height is empty.
    pub size: Size,
}

impl Rect {
    /// The size is non-negative and all four edges lie within `bound`,
    /// so that coordinate sums stay representable.
    pub open spec fn bounded(self, bound: int) -> bool {
        &&& 0 <= self.size.w
        &&& 0 <= self.size.h
        &&& -bound <= self.loc.x
        &&& self.loc.x + self.size.w <= bound
        &&& -bound <= self.loc.y
        &&& self.loc.y + self.size.h <= bound
    }

    /// Rectangles the tracker stores keep their edges within [`COORD_LIMIT`].
    pub open spec fn valid(self) -> bool {
        self.bounded(COORD_LIMIT as int)
    }

    /// The pixel `(px, py)` lies inside `self`.
    pub open spec fn has_px(self, px: int, py: int) -> bool {
        &&& self.loc.x <= px < self.loc.x + self.size.w
        &&& self.loc.y <= py < self.loc.y + self.size.h
    }

    /// `self` covers no pixel.
    pub open spec fn spec_is_empty(self) -> bool {
        self.size.w <= 0 || self.size.h <= 0
    }

    /// Every pixel of `self` also lies in `other`.
    pub open spec fn spec_contained_in(self, other: Rect) -> bool {
        self.spec_is_empty() || {
            &&& other.loc.x <= self.loc.x
            &&& self.loc.x + self.size.w <= other.loc.x + other.size.w
            &&& other.loc.y <= self.loc.y
            &&& self.loc.y + self.size.h <= other.loc.y + other.size.h
        }
    }

    /// `self` and `other` share at least one pixel.
    pub open spec fn spec_overlaps(self, other: Rect) -> bool {
        &&& self.loc.x < other.loc.x + other.size.w
        &&& other.loc.x < self.loc.x + self.size.w
        &&& self.loc.y < other.loc.y + other.size.h
        &&& other.loc.y < self.loc.y + self.size.h
        &&& !self.spec_is_empty()
        &&& !other.spec_is_empty()
    }

    /// Number of pixels `self` covers.
    pub open spec fn spec_area(self) -> int {
        if self.spec_is_empty() {
            0
        } else {
            self.size.w * self.size.h
        }
    }

    /// Build a rectangle from its corner coordinates and extent.
    pub fn new(x: i32, y: i32, w: i32, h: i32) -> (r: Rect)
        ensures
            r == (Rect { loc: Point { x, y }, size: Size { w, h } }),
    {
        Rect { loc: Point { x, y }, size: Size { w, h } }
    }

    /// Whether the rectangle's edges stay within [`COORD_LIMIT`].
    pub fn in_range(&self) -> (r: bool)
        ensures
            r == self.bounded(0x2000_0000),
    {
        let x = self.loc.x as i64;
        let y = self.loc.y as i64;
        let w = self.size.w as i64;
        let h = self.size.h as i64;
        0 <= w && 0 <= h && -0x2000_0000 <= x && x + w <= 0x2000_0000 && -0x2000_0000 <= y && y + h
            <= 0x2000_0000
    }

    /// Whether `self` covers no pixel.
    pub fn is_empty(&self) -> (r: bool)
        ensures
            r == self.spec_is_empty(),
    {
        self.size.w <= 0 || self.size.h <= 0
    }

    /// Whether `self` and `other` share a pixel.
    pub fn overlaps(&self, other: Rect) -> (r: bool)
        requires
            self.bounded(0x4000_0000),
            other.bounded(0x4000_0000),
        ensures
            r == self.spec_overlaps(other),
    {
        self.size.w > 0 && self.size.h > 0 && other.size.w > 0 && other.size.h > 0
            && self.loc.x < other.loc.x + other.size.w
            && other.loc.x < self.loc.x + self.size.w
            && self.loc.y < other.loc.y + other.size.h
            && other.loc.y < self.loc.y + self.size.h
    }

    /// Whether every pixel of `self` lies in `other`.
    pub fn contained_in(&self, other: Rect) -> (r: bool)
        requires
            self.bounded(0x4000_0000),
            other.bounded(0x4000_0000),
        ensures
            r == self.spec_contained_in(other),
    {
        (self.size.w <= 0 || self.size.h <= 0) || {
            other.loc.x <= self.loc.x
                && self.loc.x + self.size.w <= other.loc.x + other.size.w
                && other.loc.y <= self.loc.y
                && self.loc.y + self.size.h <= other.loc.y + other.size.h
        }
    }

    /// The common part of `self` and `other`, or `None` if they share no pixel.
    pub fn intersection(&self, other: Rect) -> (r: Option<Rect>)
        requires
            self.bounded(0x4000_0000),
            other.bounded(0x4000_0000),
        ensures
            r is Some <==> self.spec_overlaps(other),
            r matches Some(i) ==> {
                &&& i == spec_intersection(*self, other)
                &&& forall|px: int, py: int|
                    i.has_px(px, py) <==> (self.has_px(px, py) && other.has_px(px, py))
                &&& !i.spec_is_empty()
                &&& i.spec_contained_in(*self)
                &&& i.spec_contained_in(other)
                &&& self.valid() ==> i.valid()
                &&& other.valid() ==> i.valid()
            },
    {
        if self.overlaps(other) {
            let x = if self.loc.x > other.loc.x { self.loc.x } else { other.loc.x };
            let y = if self.loc.y > other.loc.y { self.loc.y } else { other.loc.y };
            let sr = self.loc.x + self.size.w;
            let or = other.loc.x + other.size.w;
            let right = if sr < or { sr } else { or };
            let sb = self.loc.y + self.size.h;
            let ob = other.loc.y + other.size.h;
            let bottom = if sb < ob { sb } else { ob };
            Some(Rect { loc: Point { x, y }, size: Size { w: right - x, h: bottom - y } })
        } else {
            None
        }
    }

    /// Smallest rectangle covering both `self` and `other`.
    pub fn merge(&self, other: Rect) -> (r: Rect)
        requires
            self.bounded(0x2000_0000),
            other.bounded(0x2000_0000),
            !self.spec_is_empty(),
            !other.spec_is_empty(),
        ensures
            forall|px: int, py: int|
                (self.has_px(px, py) || other.has_px(px, py)) ==> r.has_px(px, py),
            self.spec_contained_in(r),
            other.spec_contained_in(r),
            forall|c: Rect|
                (self.spec_contained_in(c) && other.spec_contained_in(c))
                    ==> r.spec_contained_in(c),
            !r.spec_is_empty(),
            self.valid() && other.valid() ==> r.valid(),
    {
        let x = if self.loc.x < other.loc.x { self.loc.x } else { other.loc.x };
        let y = if self.loc.y < other.loc.y { self.loc.y } else { other.loc.y };
        let sr = self.loc.x + self.size.w;
        let or = other.loc.x + other.size.w;
        let right = if sr > or { sr } else { or };
        let sb = self.loc.y + self.size.h;
        let ob = other.loc.y + other.size.h;
        let bottom = if sb > ob { sb } else { ob };
        Rect { loc: Point { x, y }, size: Size { w: right - x, h: bottom - y } }
    }

    /// `self` shifted by `delta`; pixels shift with it.
    pub fn translate(&self, delta: Point) -> (r: Rect)
        requires
            self.bounded(0x2000_0000),
            -0x2000_0000 <= delta.x <= 0x2000_0000,
            -0x2000_0000 <= delta.y <= 0x2000_0000,
        ensures
            r.loc.x == self.loc.x + delta.x,
            r.loc.y == self.loc.y + delta.y,
            r.size == self.size,
            r.bounded(0x4000_0000),
            forall|px: int, py: int|
                r.has_px(px, py) <==> self.has_px(px - delta.x, py - delta.y),
    {
        Rect {
            loc: Point { x: self.loc.x + delta.x, y: self.loc.y + delta.y },
            size: self.size,
        }
    }

    /// Number of pixels `self` covers, saturating at `usize::MAX`.
    pub fn area(&self) -> (r: usize)
        requires
            self.bounded(0x4000_0000),
        ensures
            self.spec_area() <= usize::MAX ==> r == self.spec_area(),
            self.spec_area() > usize::MAX ==> r == usize::MAX,
    {
        if self.size.w <= 0 || self.size.h <= 0 {
            0
        } else {
            let wu = self.size.w as u64;
            let hu = self.size.h as u64;
            proof {
                assert(wu * hu < 0x8000_0000u64 * 0x8000_0000u64) by (nonlinear_arith)
                    requires
                        wu < 0x8000_0000u64,
                        hu < 0x8000_0000u64,
                ;
            }
            let a = wu * hu;
            if a > (usize::MAX as u64) {
                usize::MAX
            } else {
                a as usize
            }
        }
    }
}

/// Some rectangle of `s` covers the pixel `(px, py)`.
pub open spec fn covers(s: Seq<Rect>, px: int, py: int) -> bool {
    exists|i: int| 0 <= i < s.len() && s[i].has_px(px, py)
}

/// Every rectangle of `s` satisfies [`Rect::bounded`] for `bound`.
pub open spec fn all_bounded(s: Seq<Rect>, bound: int) -> bool {
    forall|i: int| 0 <= i < s.len() ==> s[i].bounded(bound)
}

/// Every rectangle of `s` is valid.
pub open spec fn all_valid(s: Seq<Rect>) -> bool {
    forall|i: int| 0 <= i < s.len() ==> s[i].valid()
}

/// No two rectangles of `s` share a pixel.
pub open spec fn pairwise_disjoint(s: Seq<Rect>) -> bool {
    forall|i: int, j: int| 0 <= i < j < s.len() ==> !s[i].spec_overlaps(s[j])
}

/// Every rectangle of `s` lies within `r`.
pub open spec fn all_contained_in(s: Seq<Rect>, r: Rect) -> bool {
    forall|i: int| 0 <= i < s.len() ==> s[i].spec_contained_in(r)
}

/// Every rectangle of `s` covers at least one pixel.
pub open spec fn all_nonempty(s: Seq<Rect>) -> bool {
    forall|i: int| 0 <= i < s.len() ==> !s[i].spec_is_empty()
}

/// An overlap between two rectangles is the same thing as a shared pixel.
pub proof fn lemma_overlaps_px(a: Rect, b: Rect)
    ensures
        a.spec_overlaps(b) <==> exists|px: int, py: int| a.has_px(px, py) && b.has_px(px, py),
{
    if a.spec_overlaps(b) {
        let px = if a.loc.x > b.loc.x { a.loc.x as int } else { b.loc.x as int };
        let py = if a.loc.y > b.loc.y { a.loc.y as int } else { b.loc.y as int };
        assert(a.has_px(px, py) && b.has_px(px, py));
    }
}

/// A non-empty rectangle covers its top-left pixel.
pub proof fn lemma_nonempty_px(a: Rect)
    requires
        !a.spec_is_empty(),
    ensures
        a.has_px(a.loc.x as int, a.loc.y as int),
{
}

/// Rectangles within disjoint containers are disjoint.
pub proof fn lemma_disjoint_containers(p: Rect, q: Rect, a: Rect, b: Rect)
    requires
        p.spec_contained_in(a),
        q.spec_contained_in(b),
        !a.spec_overlaps(b),
    ensures
        !p.spec_overlaps(q),
{
    if p.spec_overlaps(q) {
        lemma_overlaps_px(p, q);
        let (px, py) = choose|px: int, py: int| p.has_px(px, py) && q.has_px(px, py);
        assert(a.has_px(px, py) && b.has_px(px, py));
        lemma_overlaps_px(a, b);
    }
}

/// The common part of two overlapping rectangles, as a value.
pub open spec fn spec_intersection(a: Rect, b: Rect) -> Rect {
    let x = if a.loc.x > b.loc.x { a.loc.x } else { b.loc.x };
    let y = if a.loc.y > b.loc.y { a.loc.y } else { b.loc.y };
    let right = if a.loc.x + a.size.w < b.loc.x + b.size.w {
        a.loc.x + a.size.w
    } else {
        b.loc.x + b.size.w
    };
    let bottom = if a.loc.y + a.size.h < b.loc.y + b.size.h {
        a.loc.y + a.size.h
    } else {
        b.loc.y + b.size.h
    };
    Rect {
        loc: Point { x, y },
        size: Size { w: (right - x) as i32, h: (bottom - y) as i32 },
    }
}

/// `s` with `r` appended, unless `r` is empty.
pub open spec fn push_if_nonempty(s: Seq<Rect>, r: Rect) -> Seq<Rect> {
    if r.spec_is_empty() {
        s
    } else {
        s.push(r)
    }
}

/// The pixels of `a` not in `b`, as up to four disjoint strips: the parts of
/// `a` above and below the overlap, and the parts to its left and right.
pub open spec fn spec_subtract_rect(a: Rect, b: Rect) -> Seq<Rect> {
    if !a.spec_overlaps(b) {
        if a.spec_is_empty() {
            Seq::empty()
        } else {
            seq![a]
        }
    } else {
        let ib = spec_intersection(a, b);
        let top = Rect {
            loc: a.loc,
            size: Size { w: a.size.w, h: (ib.loc.y - a.loc.y) as i32 },
        };
        let bottom = Rect {
            loc: Point { x: a.loc.x, y: (ib.loc.y + ib.size.h) as i32 },
            size: Size {
                w: a.size.w,
                h: ((a.loc.y + a.size.h) - (ib.loc.y + ib.size.h)) as i32,
            },
        };
        let left = Rect {
            loc: Point { x: a.loc.x, y: ib.loc.y },
            size: Size { w: (ib.loc.x - a.loc.x) as i32, h: ib.size.h },
        };
        let right = Rect {
            loc: Point { x: (ib.loc.x + ib.size.w) as i32, y: ib.loc.y },
            size: Size {
                w: ((a.loc.x + a.size.w) - (ib.loc.x + ib.size.w)) as i32,
                h: ib.size.h,
            },
        };
        push_if_nonempty(
            push_if_nonempty(push_if_nonempty(push_if_nonempty(Seq::empty(), top), bottom), left),
            right,
        )
    }
}

/// Appending a rectangle (unless empty) adds exactly its pixels to the cover.
pub proof fn lemma_push_if_covers(s: Seq<Rect>, r: Rect)
    ensures
        forall|px: int, py: int|
            covers(push_if_nonempty(s, r), px, py) <==> (covers(s, px, py) || r.has_px(px, py)),
{
    if r.spec_is_empty() {
        assert forall|px: int, py: int|
            covers(push_if_nonempty(s, r), px, py)
                <==> (covers(s, px, py) || r.has_px(px, py)) by {
            assert(!r.has_px(px, py));
        }
    } else {
        let t = s.push(r);
        assert forall|px: int, py: int|
            covers(push_if_nonempty(s, r), px, py)
                <==> (covers(s, px, py) || r.has_px(px, py)) by {
            if covers(t, px, py) {
                let i = choose|i: int| 0 <= i < t.len() && t[i].has_px(px, py);
                if i < s.len() {
                    assert(s[i].has_px(px, py));
                } else {
                    assert(t[i] == r);
                }
            }
            if covers(s, px, py) {
                let i = choose|i: int| 0 <= i < s.len() && s[i].has_px(px, py);
                assert(t[i].has_px(px, py));
            }
            if r.has_px(px, py) {
                assert(t[s.len() as int].has_px(px, py));
            }
        }
    }
}

/// What the subtraction of one rectangle from another yields: exactly the
/// pixels of `a` outside `b`, as disjoint non-empty parts of `a`.
pub proof fn lemma_subtract_rect_props(a: Rect, b: Rect)
    requires
        a.bounded(0x2000_0000),
        b.bounded(0x2000_0000),
    ensures
        forall|px: int, py: int|
            covers(spec_subtract_rect(a, b), px, py) <==> (a.has_px(px, py) && !b.has_px(px, py)),
        pairwise_disjoint(spec_subtract_rect(a, b)),
        all_nonempty(spec_subtract_rect(a, b)),
        all_contained_in(spec_subtract_rect(a, b), a),
        all_bounded(spec_subtract_rect(a, b), 0x2000_0000),
        a.valid() ==> all_valid(spec_subtract_rect(a, b)),
{
    let s = spec_subtract_rect(a, b);
    if !a.spec_overlaps(b) {
        lemma_overlaps_px(a, b);
        if a.spec_is_empty() {
            assert forall|px: int, py: int|
                covers(s, px, py) <==> (a.has_px(px, py) && !b.has_px(px, py)) by {
                assert(!a.has_px(px, py));
            }
        } else {
            assert forall|px: int, py: int|
                covers(s, px, py) <==> (a.has_px(px, py) && !b.has_px(px, py)) by {
                if a.has_px(px, py) {
                    assert(s[0].has_px(px, py));
                }
            }
        }
    } else {
        let ib = spec_intersection(a, b);
        let top = Rect {
            loc: a.loc,
            size: Size { w: a.size.w, h: (ib.loc.y - a.loc.y) as i32 },
        };
        let bottom = Rect {
            loc: Point { x: a.loc.x, y: (ib.loc.y + ib.size.h) as i32 },
            size: Size {
                w: a.size.w,
                h: ((a.loc.y + a.size.h) - (ib.loc.y + ib.size.h)) as i32,
            },
        };
        let left = Rect {
            loc: Point { x: a.loc.x, y: ib.loc.y },
            size: Size { w: (ib.loc.x - a.loc.x) as i32, h: ib.size.h },
        };
        let right = Rect {
            loc: Point { x: (ib.loc.x + ib.size.w) as i32, y: ib.loc.y },
            size: Size {
                w: ((a.loc.x + a.size.w) - (ib.loc.x + ib.size.w)) as i32,
                h: ib.size.h,
            },
        };
        let s0 = Seq::<Rect>::empty();
        let s1 = push_if_nonempty(s0, top);
        let s2 = push_if_nonempty(s1, bottom);
        let s3 = push_if_nonempty(s2, left);
        let s4 = push_if_nonempty(s3, right);
        lemma_push_if_covers(s0, top);
        lemma_push_if_covers(s1, bottom);
        lemma_push_if_covers(s2, left);
        lemma_push_if_covers(s3, right);
        assert(s == s4);
        assert forall|px: int, py: int|
            covers(s, px, py) <==> (a.has_px(px, py) && !b.has_px(px, py)) by {
            assert(covers(s0, px, py) == false);
            assert(covers(s4, px, py) <==> (top.has_px(px, py) || bottom.has_px(px, py)
                || left.has_px(px, py) || right.has_px(px, py)));
        }
    }
}

/// Subtract `b` from `a`, yielding the pixels of `a` outside `b` as a list
/// of disjoint rectangles.
pub fn subtract_rect(a: Rect, b: Rect) -> (r: Vec<Rect>)
    requires
        a.bounded(0x2000_0000),
        b.bounded(0x2000_0000),
    ensures
        r@ == spec_subtract_rect(a, b),
{
    let mut out: Vec<Rect> = Vec::new();
    let ib = match a.intersection(b) {
        None => {
            if !a.is_empty() {
                out.push(a);
            }
            return out;
        },
        Some(ib) => ib,
    };
    let top = Rect {
        loc: a.loc,
        size: Size { w: a.size.w, h: ib.loc.y - a.loc.y },
    };
    if !top.is_empty() {
        out.push(top);
    }
    let bottom = Rect {
        loc: Point { x: a.loc.x, y: ib.loc.y + ib.size.h },
        size: Size { w: a.size.w, h: (a.loc.y + a.size.h) - (ib.loc.y + ib.size.h) },
    };
    if !bottom.is_empty() {
        out.push(bottom);
    }
    let left = Rect {
        loc: Point { x: a.loc.x, y: ib.loc.y },
        size: Size { w: ib.loc.x - a.loc.x, h: ib.size.h },
    };
    if !left.is_empty() {
        out.push(left);
    }
    let right = Rect {
        loc: Point { x: ib.loc.x + ib.size.w, y: ib.loc.y },
        size: Size { w: (a.loc.x + a.size.w) - (ib.loc.x + ib.size.w), h: ib.size.h },
    };
    if !right.is_empty() {
        out.push(right);
    }
    out
}

/// The pixels of every rectangle of `base` outside `b`.
pub open spec fn spec_subtract_list(base: Seq<Rect>, b: Rect) -> Seq<Rect>
    decreases base.len(),
{
    if base.len() == 0 {
        Seq::empty()
    } else {
        spec_subtract_rect(base[0], b) + spec_subtract_list(base.skip(1), b)
    }
}

/// The pixels of `base` outside every rectangle of `regions`, subtracted
/// one region at a time.
pub open spec fn spec_subtract_all(base: Seq<Rect>, regions: Seq<Rect>) -> Seq<Rect>
    decreases regions.len(),
{
    if regions.len() == 0 {
        base
    } else {
        spec_subtract_all(spec_subtract_list(base, regions[0]), regions.skip(1))
    }
}

/// The `k`-th rectangle of `s` lies within some rectangle of `base`.
pub open spec fn contained_in_one_of(s: Seq<Rect>, base: Seq<Rect>, k: int) -> bool {
    exists|j: int| 0 <= j < base.len() && s[k].spec_contained_in(#[trigger] base[j])
}

/// Subtracting one region from a list keeps exactly the uncovered pixels,
/// and keeps the parts disjoint, bounded and inside their sources.
pub proof fn lemma_subtract_list_props(base: Seq<Rect>, b: Rect)
    requires
        all_bounded(base, 0x2000_0000),
        b.bounded(0x2000_0000),
    ensures
        forall|px: int, py: int|
            covers(spec_subtract_list(base, b), px, py)
                <==> (covers(base, px, py) && !b.has_px(px, py)),
        all_nonempty(spec_subtract_list(base, b)),
        all_bounded(spec_subtract_list(base, b), 0x2000_0000),
        all_valid(base) ==> all_valid(spec_subtract_list(base, b)),
        forall|k: int|
            0 <= k < spec_subtract_list(base, b).len() ==> #[trigger] contained_in_one_of(
                spec_subtract_list(base, b),
                base,
                k,
            ),
        pairwise_disjoint(base) ==> pairwise_disjoint(spec_subtract_list(base, b)),
    decreases base.len(),
{
    let s = spec_subtract_list(base, b);
    if base.len() == 0 {
        assert forall|px: int, py: int|
            covers(s, px, py) <==> (covers(base, px, py) && !b.has_px(px, py)) by {
            assert(!covers(base, px, py));
        }
    } else {
        let head = spec_subtract_rect(base[0], b);
        let rest = base.skip(1);
        let tail = spec_subtract_list(rest, b);
        lemma_subtract_rect_props(base[0], b);
        lemma_subtract_list_props(rest, b);
        assert(s == head + tail);
        assert forall|px: int, py: int|
            covers(s, px, py) <==> (covers(base, px, py) && !b.has_px(px, py)) by {
            if covers(s, px, py) {
                let i = choose|i: int| 0 <= i < s.len() && s[i].has_px(px, py);
                if i < head.len() {
                    assert(head[i].has_px(px, py));
                    assert(covers(head, px, py));
                    assert(base[0].has_px(px, py));
                } else {
                    assert(tail[i - head.len()].has_px(px, py));
                    assert(covers(tail, px, py));
                    assert(covers(rest, px, py));
                    let j = choose|j: int| 0 <= j < rest.len() && (#[trigger] rest[j]).has_px(
                        px,
                        py,
                    );
                    assert(base[j + 1].has_px(px, py));
                    assert(covers(base, px, py));
                }
            }
            if covers(base, px, py) && !b.has_px(px, py) {
                let i = choose|i: int| 0 <= i < base.len() && base[i].has_px(px, py);
                if i == 0 {
                    assert(covers(head, px, py));
                    let k = choose|k: int| 0 <= k < head.len() && head[k].has_px(px, py);
                    assert(s[k].has_px(px, py));
                } else {
                    assert(rest[i - 1].has_px(px, py));
                    assert(covers(rest, px, py));
                    assert(covers(tail, px, py));
                    let k = choose|k: int| 0 <= k < tail.len() && tail[k].has_px(px, py);
                    assert(s[k + head.len()].has_px(px, py));
                }
            }
        }
        assert forall|k: int|
            0 <= k < s.len() implies #[trigger] contained_in_one_of(s, base, k) by {
            if k < head.len() {
                assert(s[k].spec_contained_in(base[0]));
            } else {
                let kk = k - head.len();
                assert(contained_in_one_of(tail, rest, kk));
                let j = choose|j: int| 0 <= j < rest.len() && tail[kk].spec_contained_in(
                    #[trigger] rest[j],
                );
                assert(s[k].spec_contained_in(base[j + 1]));
            }
        }
        if pairwise_disjoint(base) {
            assert forall|i: int, j: int| 0 <= i < j < s.len() implies !s[i].spec_overlaps(
                s[j],
            ) by {
                if j < head.len() {
                    assert(!head[i].spec_overlaps(head[j]));
                } else if i >= head.len() {
                    assert(pairwise_disjoint(rest));
                    assert(!tail[i - head.len()].spec_overlaps(tail[j - head.len()]));
                } else {
                    let kk = j - head.len();
                    assert(contained_in_one_of(tail, rest, kk));
                    let jj = choose|jj: int| 0 <= jj < rest.len() && tail[kk].spec_contained_in(
                        #[trigger] rest[jj],
                    );
                    assert(s[i].spec_contained_in(base[0]));
                    assert(s[j].spec_contained_in(base[jj + 1]));
                    assert(!base[0].spec_overlaps(base[jj + 1]));
                    lemma_disjoint_containers(s[i], s[j], base[0], base[jj + 1]);
                }
            }
        }
    }
}

/// Subtracting a list of regions keeps exactly the uncovered pixels, and
/// keeps the parts disjoint, bounded and inside their sources.
pub proof fn lemma_subtract_all_props(base: Seq<Rect>, regions: Seq<Rect>)
    requires
        all_bounded(base, 0x2000_0000),
        all_bounded(regions, 0x2000_0000),
    ensures
        forall|px: int, py: int|
            covers(spec_subtract_all(base, regions), px, py)
                <==> (covers(base, px, py) && !covers(regions, px, py)),
        regions.len() > 0 ==> all_nonempty(spec_subtract_all(base, regions)),
        all_nonempty(base) ==> all_nonempty(spec_subtract_all(base, regions)),
        all_bounded(spec_subtract_all(base, regions), 0x2000_0000),
        all_valid(base) ==> all_valid(spec_subtract_all(base, regions)),
        forall|k: int|
            0 <= k < spec_subtract_all(base, regions).len() ==> #[trigger] contained_in_one_of(
                spec_subtract_all(base, regions),
                base,
                k,
            ),
        pairwise_disjoint(base) ==> pairwise_disjoint(spec_subtract_all(base, regions)),
    decreases regions.len(),
{
    let s = spec_subtract_all(base, regions);
    if regions.len() == 0 {
        assert forall|px: int, py: int|
            covers(s, px, py) <==> (covers(base, px, py) && !covers(regions, px, py)) by {
            assert(!covers(regions, px, py));
        }
        assert forall|k: int|
            0 <= k < s.len() implies #[trigger] contained_in_one_of(s, base, k) by {
            assert(s[k].spec_contained_in(base[k]));
        }
    } else {
        let mid = spec_subtract_list(base, regions[0]);
        let rest = regions.skip(1);
        lemma_subtract_list_props(base, regions[0]);
        lemma_subtract_all_props(mid, rest);
        assert forall|px: int, py: int|
            covers(s, px, py) <==> (covers(base, px, py) && !covers(regions, px, py)) by {
            assert(covers(s, px, py) <==> (covers(mid, px, py) && !covers(rest, px, py)));
            assert(covers(mid, px, py) <==> (covers(base, px, py) && !regions[0].has_px(px, py)));
            if covers(rest, px, py) {
                let i = choose|i: int| 0 <= i < rest.len() && rest[i].has_px(px, py);
                assert(regions[i + 1].has_px(px, py));
                assert(covers(regions, px, py));
            }
            if covers(regions, px, py) {
                let i = choose|i: int| 0 <= i < regions.len() && regions[i].has_px(px, py);
                if i > 0 {
                    assert(rest[i - 1].has_px(px, py));
                    assert(covers(rest, px, py));
                }
            }
        }
        assert forall|k: int|
            0 <= k < s.len() implies #[trigger] contained_in_one_of(s, base, k) by {
            assert(contained_in_one_of(s, mid, k));
            let m = choose|m: int| 0 <= m < mid.len() && s[k].spec_contained_in(#[trigger] mid[m]);
            assert(contained_in_one_of(mid, base, m));
            let j = choose|j: int| 0 <= j < base.len() && mid[m].spec_contained_in(
                #[trigger] base[j],
            );
            assert(s[k].spec_contained_in(base[j]));
        }
    }
}

/// Copy a list of rectangles.
pub fn copy_rects(v: &Vec<Rect>) -> (r: Vec<Rect>)
    ensures
        r@ == v@,
{
    let mut out: Vec<Rect> = Vec::new();
    for k in 0..v.len()
        invariant
            out@ == v@.take(k as int),
    {
        out.push(v[k]);
        proof {
            assert(v@.take(k as int + 1).drop_last() == v@.take(k as int));
            assert(v@.take(k as int + 1).last() == v@[k as int]);
        }
    }
    proof {
        assert(v@.take(v@.len() as int) == v@);
    }
    out
}

/// Subtract every rectangle of `regions` from every rectangle of `base`.
pub fn subtract_rects(base: Vec<Rect>, regions: &Vec<Rect>) -> (r: Vec<Rect>)
    requires
        all_bounded(base@, 0x2000_0000),
        all_bounded(regions@, 0x2000_0000),
    ensures
        r@ == spec_subtract_all(base@, regions@),
{
    let mut cur = base;
    let ghost base0 = cur@;
    for i in 0..regions.len()
        invariant
            all_bounded(cur@, 0x2000_0000),
            all_bounded(regions@, 0x2000_0000),
            cur@ == spec_subtract_all(base0, regions@.take(i as int)),
    {
        let ghost pre = cur@;
        let mut next: Vec<Rect> = Vec::new();
        for k in 0..cur.len()
            invariant
                all_bounded(cur@, 0x2000_0000),
                all_bounded(regions@, 0x2000_0000),
                i < regions.len(),
                next@ == spec_subtract_list(cur@.take(k as int), regions@[i as int]),
        {
            let mut parts = subtract_rect(cur[k], regions[i]);
            next.append(&mut parts);
            proof {
                lemma_subtract_list_snoc(cur@.take(k as int + 1), regions@[i as int]);
                assert(cur@.take(k as int + 1).drop_last() == cur@.take(k as int));
                assert(cur@.take(k as int + 1).last() == cur@[k as int]);
            }
        }
        proof {
            assert(cur@.take(cur@.len() as int) == cur@);
            lemma_subtract_list_props(cur@, regions@[i as int]);
            lemma_subtract_all_snoc(base0, regions@.take(i as int + 1));
            assert(regions@.take(i as int + 1).drop_last() == regions@.take(i as int));
            assert(regions@.take(i as int + 1).last() == regions@[i as int]);
        }
        cur = next;
    }
    proof {
        assert(regions@.take(regions@.len() as int) == regions@);
    }
    cur
}

/// Subtracting from a list with one more rectangle at the end appends the
/// last rectangle's parts.
pub proof fn lemma_subtract_list_snoc(base: Seq<Rect>, b: Rect)
    requires
        base.len() > 0,
    ensures
        spec_subtract_list(base, b) == spec_subtract_list(base.drop_last(), b)
            + spec_subtract_rect(base.last(), b),
    decreases base.len(),
{
    if base.len() == 1 {
        assert(base.drop_last().len() == 0);
        assert(spec_subtract_list(base.drop_last(), b) == Seq::<Rect>::empty());
        assert(base.skip(1).len() == 0);
        assert(spec_subtract_list(base.skip(1), b) == Seq::<Rect>::empty());
        assert(spec_subtract_list(base, b) == spec_subtract_rect(base[0], b)
            + Seq::<Rect>::empty());
        assert(spec_subtract_rect(base[0], b) + Seq::<Rect>::empty()
            == spec_subtract_rect(base[0], b));
        assert(base.last() == base[0]);
        assert(spec_subtract_list(base.drop_last(), b) + spec_subtract_rect(base.last(), b)
            == spec_subtract_rect(base[0], b));
    } else {
        let rest = base.skip(1);
        lemma_subtract_list_snoc(rest, b);
        assert(rest.drop_last() == base.drop_last().skip(1));
        assert(rest.last() == base.last());
        assert(spec_subtract_list(base, b) == spec_subtract_rect(base[0], b)
            + (spec_subtract_list(rest.drop_last(), b) + spec_subtract_rect(rest.last(), b)));
        assert(spec_subtract_list(base.drop_last(), b) == spec_subtract_rect(base[0], b)
            + spec_subtract_list(base.drop_last().skip(1), b));
        assert(spec_subtract_rect(base[0], b) + (spec_subtract_list(rest.drop_last(), b)
            + spec_subtract_rect(rest.last(), b)) == (spec_subtract_rect(base[0], b)
            + spec_subtract_list(rest.drop_last(), b)) + spec_subtract_rect(base.last(), b));
    }
}

/// `r` shifted by `delta`, truncating on overflow; meaningful while the
/// coordinates stay in bounds.
pub open spec fn spec_translate(r: Rect, delta: Point) -> Rect {
    Rect {
        loc: Point { x: (r.loc.x + delta.x) as i32, y: (r.loc.y + delta.y) as i32 },
        size: r.size,
    }
}

/// Each rectangle shifted by `delta` and clipped to `geo`; those that leave
/// `geo` entirely are dropped.
pub open spec fn spec_clip_translate(rects: Seq<Rect>, delta: Point, geo: Rect) -> Seq<Rect>
    decreases rects.len(),
{
    if rects.len() == 0 {
        Seq::empty()
    } else {
        let t = spec_translate(rects.last(), delta);
        let init = spec_clip_translate(rects.drop_last(), delta, geo);
        if t.spec_overlaps(geo) {
            init.push(spec_intersection(t, geo))
        } else {
            init
        }
    }
}

/// Clipped translation covers exactly the shifted pixels that fall in `geo`.
pub proof fn lemma_clip_translate_cover(
    rects: Seq<Rect>,
    delta: Point,
    geo: Rect,
    px: int,
    py: int,
)
    requires
        all_bounded(rects, 0x2000_0000),
        -0x2000_0000 <= delta.x <= 0x2000_0000,
        -0x2000_0000 <= delta.y <= 0x2000_0000,
        geo.valid(),
    ensures
        covers(spec_clip_translate(rects, delta, geo), px, py)
            <==> (covers(rects, px - delta.x, py - delta.y) && geo.has_px(px, py)),
    decreases rects.len(),
{
    let s = spec_clip_translate(rects, delta, geo);
    if rects.len() == 0 {
        assert(!covers(rects, px - delta.x, py - delta.y));
        assert(!covers(s, px, py));
    } else {
        let t = spec_translate(rects.last(), delta);
        let init = spec_clip_translate(rects.drop_last(), delta, geo);
        lemma_clip_translate_cover(rects.drop_last(), delta, geo, px, py);
        if covers(s, px, py) {
            let i = choose|i: int| 0 <= i < s.len() && (#[trigger] s[i]).has_px(px, py);
            if i < init.len() {
                assert(init[i].has_px(px, py));
                assert(covers(init, px, py));
                assert(covers(rects.drop_last(), px - delta.x, py - delta.y));
                let j = choose|j: int|
                    0 <= j < rects.drop_last().len() && (#[trigger] rects.drop_last()[j]).has_px(
                        px - delta.x,
                        py - delta.y,
                    );
                assert(rects.drop_last()[j] == rects[j]);
                assert(rects[j].has_px(px - delta.x, py - delta.y));
                assert(covers(rects, px - delta.x, py - delta.y));
            } else {
                assert(t.spec_overlaps(geo));
                assert(s[i] == spec_intersection(t, geo));
                assert(rects.last().has_px(px - delta.x, py - delta.y));
                assert(rects[rects.len() - 1].has_px(px - delta.x, py - delta.y));
                assert(covers(rects, px - delta.x, py - delta.y));
            }
        }
        if covers(rects, px - delta.x, py - delta.y) && geo.has_px(px, py) {
            let j = choose|j: int|
                0 <= j < rects.len() && (#[trigger] rects[j]).has_px(px - delta.x, py - delta.y);
            if j < rects.len() - 1 {
                assert(rects.drop_last()[j].has_px(px - delta.x, py - delta.y));
                assert(covers(rects.drop_last(), px - delta.x, py - delta.y));
                assert(covers(init, px, py));
                let i = choose|i: int| 0 <= i < init.len() && (#[trigger] init[i]).has_px(px, py);
                assert(s[i].has_px(px, py));
                assert(covers(s, px, py));
            } else {
                assert(t.has_px(px, py));
                lemma_overlaps_px(t, geo);
                assert(t.spec_overlaps(geo));
                assert(s[s.len() - 1].has_px(px, py));
                assert(covers(s, px, py));
            }
        }
    }
}

/// The rectangles of a clipped translation are valid, non-empty parts of
/// `geo`.
pub proof fn lemma_clip_translate_props(rects: Seq<Rect>, delta: Point, geo: Rect)
    requires
        all_bounded(rects, 0x2000_0000),
        -0x2000_0000 <= delta.x <= 0x2000_0000,
        -0x2000_0000 <= delta.y <= 0x2000_0000,
        geo.valid(),
    ensures
        all_valid(spec_clip_translate(rects, delta, geo)),
        all_nonempty(spec_clip_translate(rects, delta, geo)),
        all_contained_in(spec_clip_translate(rects, delta, geo), geo),
    decreases rects.len(),
{
    if rects.len() > 0 {
        lemma_clip_translate_props(rects.drop_last(), delta, geo);
    }
}

/// Whatever the inputs, a clipped translation stays within `geo`: each kept
/// rectangle is an intersection with `geo`.
pub proof fn lemma_clip_translate_in_geo(rects: Seq<Rect>, delta: Point, geo: Rect)
    requires
        geo.valid(),
    ensures
        all_valid(spec_clip_translate(rects, delta, geo)),
        all_nonempty(spec_clip_translate(rects, delta, geo)),
        all_contained_in(spec_clip_translate(rects, delta, geo), geo),
    decreases rects.len(),
{
    if rects.len() > 0 {
        lemma_clip_translate_in_geo(rects.drop_last(), delta, geo);
    }
}

/// Shift every rectangle by `delta` and clip it to `geo`.
pub fn clip_translate(rects: &Vec<Rect>, delta: Point, geo: Rect) -> (r: Vec<Rect>)
    requires
        all_bounded(rects@, 0x2000_0000),
        -0x2000_0000 <= delta.x <= 0x2000_0000,
        -0x2000_0000 <= delta.y <= 0x2000_0000,
        geo.valid(),
    ensures
        r@ == spec_clip_translate(rects@, delta, geo),
{
    let mut out: Vec<Rect> = Vec::new();
    for k in 0..rects.len()
        invariant
            all_bounded(rects@, 0x2000_0000),
            -0x2000_0000 <= delta.x <= 0x2000_0000,
            -0x2000_0000 <= delta.y <= 0x2000_0000,
            geo.valid(),
            out@ == spec_clip_translate(rects@.take(k as int), delta, geo),
    {
        let t = rects[k].translate(delta);
        if let Some(c) = t.intersection(geo) {
            out.push(c);
        }
        proof {
            assert(rects@.take(k as int + 1).drop_last() == rects@.take(k as int));
            assert(rects@.take(k as int + 1).last() == rects@[k as int]);
        }
    }
    proof {
        assert(rects@.take(rects@.len() as int) == rects@);
    }
    out
}

/// Total pixel count of a list of rectangles, counting every rectangle
/// separately.
pub open spec fn spec_sum_areas(s: Seq<Rect>) -> int
    decreases s.len(),
{
    if s.len() == 0 {
        0
    } else {
        spec_sum_areas(s.drop_last()) + s.last().spec_area()
    }
}

/// A rectangle's area is non-negative, and positive when it is non-empty.
pub proof fn lemma_area_sign(r: Rect)
    ensures
        r.spec_area() >= 0,
        !r.spec_is_empty() ==> r.spec_area() >= 1,
{
    if !r.spec_is_empty() {
        assert(r.size.w * r.size.h >= 1) by (nonlinear_arith)
            requires
                r.size.w >= 1,
                r.size.h >= 1,
        ;
    }
}

/// A sum of areas is non-negative, and positive when the list holds a
/// non-empty rectangle.
pub proof fn lemma_sum_areas_sign(s: Seq<Rect>)
    ensures
        spec_sum_areas(s) >= 0,
        all_nonempty(s) && s.len() > 0 ==> spec_sum_areas(s) >= 1,
    decreases s.len(),
{
    if s.len() > 0 {
        lemma_sum_areas_sign(s.drop_last());
        lemma_area_sign(s.last());
        if all_nonempty(s) {
            assert(all_nonempty(s.drop_last()));
        }
    }
}

/// Total pixel count of a list of rectangles, saturating at `usize::MAX`.
pub fn sum_areas(s: &Vec<Rect>) -> (r: usize)
    requires
        all_bounded(s@, 0x4000_0000),
    ensures
        spec_sum_areas(s@) <= usize::MAX ==> r == spec_sum_areas(s@),
        spec_sum_areas(s@) > usize::MAX ==> r == usize::MAX,
{
    let mut acc: usize = 0;
    for k in 0..s.len()
        invariant
            all_bounded(s@, 0x4000_0000),
            spec_sum_areas(s@.take(k as int)) <= usize::MAX ==> acc == spec_sum_areas(
                s@.take(k as int),
            ),
            spec_sum_areas(s@.take(k as int)) > usize::MAX ==> acc == usize::MAX,
            acc <= spec_sum_areas(s@.take(k as int)),
    {
        let a = s[k].area();
        acc = if acc > usize::MAX - a {
            usize::MAX
        } else {
            acc + a
        };
        proof {
            assert(s@.take(k as int + 1).drop_last() == s@.take(k as int));
            assert(s@.take(k as int + 1).last() == s@[k as int]);
            lemma_sum_areas_sign(s@.take(k as int));
            lemma_area_sign(s@[k as int]);
        }
    }
    proof {
        assert(s@.take(s@.len() as int) == s@);
    }
    acc
}

/// Clip every rectangle to `geo`, drop the empty ones, and split away the
/// parts already covered, so that the result holds exactly the input pixels
/// inside `geo`, as disjoint non-empty rectangles.
pub fn canonicalize(input: &Vec<Rect>, geo: Rect) -> (r: Vec<Rect>)
    requires
        all_bounded(input@, 0x4000_0000),
        geo.valid(),
    ensures
        pairwise_disjoint(r@),
        all_valid(r@),
        all_nonempty(r@),
        all_contained_in(r@, geo),
        forall|px: int, py: int| #![trigger covers(r@, px, py)]
            covers(r@, px, py) <==> (covers(input@, px, py) && geo.has_px(px, py)),
        forall|px: int, py: int|
            covers(input@, px, py) && geo.has_px(px, py) ==> covers(r@, px, py),
        r@.len() > 0 ==> exists|px: int, py: int| covers(input@, px, py) && geo.has_px(px, py),
{
    let mut out: Vec<Rect> = Vec::new();
    for k in 0..input.len()
        invariant
            all_bounded(input@, 0x4000_0000),
            geo.valid(),
            pairwise_disjoint(out@),
            all_valid(out@),
            all_nonempty(out@),
            all_contained_in(out@, geo),
            forall|px: int, py: int| #![trigger covers(out@, px, py)]
                covers(out@, px, py) <==> (covers(input@.take(k as int), px, py) && geo.has_px(
                    px,
                    py,
                )),
    {
        let ghost out0 = out@;
        proof {
            assert forall|ii: int| 0 <= ii < out@.len() implies (#[trigger] out@[ii]).bounded(
                0x2000_0000,
            ) by {
                assert(out@[ii].valid());
            }
            assert forall|px: int, py: int|
                covers(out0, px, py) <==> (covers(input@.take(k as int), px, py) && geo.has_px(
                    px,
                    py,
                )) by {
                assert(covers(out@, px, py) <==> (covers(input@.take(k as int), px, py)
                    && geo.has_px(px, py)));
            }
        }
        let clip = input[k].intersection(geo);
        if let Some(c) = clip {
            let mut base: Vec<Rect> = Vec::new();
            base.push(c);
            proof {
                assert(seq![c] =~= Seq::<Rect>::empty().push(c));
                assert(base@ == seq![c]);
                assert(all_bounded(base@, 0x2000_0000)) by {
                    assert(base@[0] == c);
                }
            }
            proof {
                assert(all_bounded(out@, 0x2000_0000));
            }
            let mut parts = subtract_rects(base, &out);
            proof {
                lemma_subtract_all_props(seq![c], out0);
                assert(parts@ == spec_subtract_all(seq![c], out0));
            }
            out.append(&mut parts);
            proof {
                let pieces = spec_subtract_all(seq![c], out0);
                assert(out@ == out0 + pieces);
                assert forall|i: int| 0 <= i < out@.len() implies ((#[trigger] out@[i]).valid()
                    && !out@[i].spec_is_empty() && out@[i].spec_contained_in(geo)) by {
                    if i >= out0.len() {
                        let pc = pieces[i - out0.len()];
                        assert(contained_in_one_of(pieces, seq![c], i - out0.len()));
                        let j = choose|j: int|
                            0 <= j < seq![c].len() && pc.spec_contained_in(#[trigger] seq![c][j]);
                        assert(pc.spec_contained_in(c));
                    }
                }
                assert forall|i: int, j: int| 0 <= i < j < out@.len() implies !(
                #[trigger] out@[i]).spec_overlaps(#[trigger] out@[j]) by {
                    if i < out0.len() && j >= out0.len() {
                        if out@[i].spec_overlaps(out@[j]) {
                            lemma_overlaps_px(out@[i], out@[j]);
                            let (px, py) = choose|px: int, py: int|
                                out@[i].has_px(px, py) && out@[j].has_px(px, py);
                            assert(covers(out0, px, py));
                            assert(pieces[j - out0.len()].has_px(px, py));
                            assert(covers(pieces, px, py));
                        }
                    } else if i >= out0.len() {
                        assert(!pieces[i - out0.len()].spec_overlaps(pieces[j - out0.len()]));
                    }
                }
                assert forall|px: int, py: int| #![trigger covers(out@, px, py)]
                    covers(out@, px, py) <==> (covers(input@.take(k as int + 1), px, py)
                        && geo.has_px(px, py)) by {
                    lemma_covers_concat_px(out0, pieces, px, py);
                    lemma_take_one_more(input@, k as int, px, py);
                    assert(covers(out@, px, py) <==> (covers(out0, px, py) || covers(
                        pieces,
                        px,
                        py,
                    )));
                    assert(covers(out0, px, py) <==> (covers(input@.take(k as int), px, py)
                        && geo.has_px(px, py)));
                    assert(covers(pieces, px, py) <==> (covers(seq![c], px, py) && !covers(
                        out0,
                        px,
                        py,
                    )));
                    assert(covers(seq![c], px, py) <==> c.has_px(px, py)) by {
                        if covers(seq![c], px, py) {
                            let i = choose|i: int|
                                0 <= i < seq![c].len() && (#[trigger] seq![c][i]).has_px(px, py);
                            assert(seq![c][i] == c);
                        }
                        if c.has_px(px, py) {
                            assert(seq![c][0].has_px(px, py));
                        }
                    }
                    assert(c.has_px(px, py) <==> (input@[k as int].has_px(px, py) && geo.has_px(
                        px,
                        py,
                    )));
                }
            }
        } else {
            proof {
                lemma_overlaps_px(input@[k as int], geo);
                assert forall|px: int, py: int| #![trigger covers(out@, px, py)]
                    covers(out@, px, py) <==> (covers(input@.take(k as int + 1), px, py)
                        && geo.has_px(px, py)) by {
                    lemma_take_one_more(input@, k as int, px, py);
                    if input@[k as int].has_px(px, py) && geo.has_px(px, py) {
                        assert(input@[k as int].spec_overlaps(geo));
                    }
                }
            }
        }
    }
    proof {
        assert(input@.take(input@.len() as int) == input@);
        if out@.len() > 0 {
            lemma_nonempty_px(out@[0]);
            assert(covers(out@, out@[0].loc.x as int, out@[0].loc.y as int));
        }
    }
    out
}

/// A concatenation covers a pixel exactly when one of its parts does.
pub proof fn lemma_covers_concat_px(a: Seq<Rect>, b: Seq<Rect>, px: int, py: int)
    ensures
        covers(a + b, px, py) <==> (covers(a, px, py) || covers(b, px, py)),
{
    if covers(a + b, px, py) {
        let i = choose|i: int| 0 <= i < (a + b).len() && (#[trigger] (a + b)[i]).has_px(px, py);
        if i < a.len() {
            assert(a[i].has_px(px, py));
        } else {
            assert(b[i - a.len()].has_px(px, py));
        }
    }
    if covers(a, px, py) {
        let i = choose|i: int| 0 <= i < a.len() && (#[trigger] a[i]).has_px(px, py);
        assert((a + b)[i].has_px(px, py));
    }
    if covers(b, px, py) {
        let i = choose|i: int| 0 <= i < b.len() && (#[trigger] b[i]).has_px(px, py);
        assert((a + b)[i + a.len()].has_px(px, py));
    }
}

/// One more prefix element covers its own pixels and nothing else new.
pub proof fn lemma_take_one_more(s: Seq<Rect>, k: int, px: int, py: int)
    requires
        0 <= k < s.len(),
    ensures
        covers(s.take(k + 1), px, py) <==> (covers(s.take(k), px, py) || s[k].has_px(px, py)),
{
    if covers(s.take(k + 1), px, py) {
        let i = choose|i: int| 0 <= i < s.take(k + 1).len() && (#[trigger] s.take(k + 1)[i]).has_px(
            px,
            py,
        );
        if i < k {
            assert(s.take(k)[i].has_px(px, py));
        } else {
            assert(s[k].has_px(px, py));
        }
    }
    if covers(s.take(k), px, py) {
        let i = choose|i: int| 0 <= i < s.take(k).len() && (#[trigger] s.take(k)[i]).has_px(px, py);
        assert(s.take(k + 1)[i].has_px(px, py));
    }
    if s[k].has_px(px, py) {
        assert(s.take(k + 1)[k].has_px(px, py));
    }
}

/// Subtracting one more region applies it to the previous result.
pub proof fn lemma_subtract_all_snoc(base: Seq<Rect>, regions: Seq<Rect>)
    requires
        regions.len() > 0,
    ensures
        spec_subtract_all(base, regions) == spec_subtract_list(
            spec_subtract_all(base, regions.drop_last()),
            regions.last(),
        ),
    decreases regions.len(),
{
    if regions.len() == 1 {
        assert(regions.drop_last().len() == 0);
        assert(spec_subtract_all(base, regions.drop_last()) == base);
        assert(regions.skip(1).len() == 0);
        assert(spec_subtract_all(base, regions) == spec_subtract_all(
            spec_subtract_list(base, regions[0]),
            regions.skip(1),
        ));
        assert(spec_subtract_all(spec_subtract_list(base, regions[0]), regions.skip(1))
            == spec_subtract_list(base, regions[0]));
        assert(regions.last() == regions[0]);
    } else {
        let mid = spec_subtract_list(base, regions[0]);
        let rest = regions.skip(1);
        lemma_subtract_all_snoc(mid, rest);
        assert(rest.drop_last() == regions.drop_last().skip(1));
        assert(rest.last() == regions.last());
        assert(spec_subtract_all(base, regions.drop_last()) == spec_subtract_all(
            mid,
            regions.drop_last().skip(1),
        ));
    }
}

} // verus!
