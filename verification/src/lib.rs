//! Core logic of an interactive particle-emitter parameter editor:
//! a control-point curve editor, an HSL/RGB color picker, and the
//! frame-persistent widget state store that backs both.
//!
//! All quantities that the surrounding GUI handles as floating-point
//! values in [0, 1] are modelled here as fixed-point integers with
//! denominator [`units::UNIT`], so that every rule of the editor can be
//! stated and checked exactly.

pub mod color;
pub mod curve;
pub mod picker;
pub mod store;
pub mod units;

use vstd::prelude::*;

verus! {

} // verus!
