//! Damage-tracked rendering for a single output.
//!
//! The central type, [`DamageTrackedRenderer`](tracker::DamageTrackedRenderer),
//! keeps per-element state between frames and computes, for each new frame,
//! the minimal set of screen-aligned rectangles that must be repainted.
//! It fuses four sources of damage: per-element content changes (tracked by
//! commit counters), element motion or reordering, buffer-age reuse of stale
//! back buffers, and output geometry changes, while honouring per-element
//! opaque regions so occluded pixels are never repainted.
//!
//! [`geometry`] holds the rectangle algebra everything rests on;
//! [`element`] describes what the tracker asks of a scene element;
//! [`backend`] the narrow contract it paints through.  [`modifiers`] and
//! [`dnd`] are small verified cores for keyboard-modifier bookkeeping and
//! server-side drag-and-drop offers.

pub mod backend;
pub mod dnd;
pub mod element;
pub mod geometry;
mod index_map;
pub mod modifiers;
pub mod tracker;
