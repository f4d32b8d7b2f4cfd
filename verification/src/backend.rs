//! The narrow contract the tracker paints through.
//!
//! The tracker never touches pixels itself: a caller supplies a backend that
//! opens a frame, clears rectangles, and lets elements draw themselves.  The
//! tracker's guarantees are about the rectangles it hands these calls.

use vstd::prelude::*;
use crate::geometry::{Rect, Size, Transform, Scale};
use crate::element::Element;

verus! {

/// A clear color, in the backend's own component encoding.
#[derive(Clone, Copy, Debug, PartialEq, Eq, Structural)]
pub struct Color {
    /// Red component.
    pub r: u32,
    /// Green component.
    pub g: u32,
    /// Blue component.
    pub b: u32,
    /// Alpha component.
    pub a: u32,
}

/// A render backend: opens one frame per call and clears parts of it.
/// Everything behind these calls is the caller's business; the tracker
/// promises only what rectangles it passes (see
/// [`compute_clear_damage`](crate::tracker::compute_clear_damage) and
/// [`compute_element_damage`](crate::tracker::compute_element_damage)).
pub trait Backend: Sized {
    /// One frame being rendered.
    type Frame;

    /// The backend's error.
    type Error;

    /// Open a frame of the given (pre-transform) size.
    fn render(&mut self, size: Size, transform: Transform) -> Result<Self::Frame, Self::Error>;

    /// Fill the given rectangles of the frame with a color.
    fn clear(frame: &mut Self::Frame, color: Color, damage: &Vec<Rect>) -> Result<
        (),
        Self::Error,
    >;
}

/// An element that can draw itself into a backend's frame.
pub trait RenderElement<B: Backend>: Element {
    /// Draw the element: `src` names the part of its buffer, `dst` its
    /// geometry on the output, and `damage` the parts to repaint, in
    /// element-local coordinates.
    fn draw(&self, frame: &mut B::Frame, src: Rect, dst: Rect, damage: &Vec<Rect>, scale: Scale)
        -> Result<(), B::Error>;
}

} // verus!
