//! Core logic of a small interactive 3D scene editor, verified.
//!
//! The editor itself is a thin shell around a game engine: rendering, the
//! entity store, the immediate-mode UI and the physics controller all live
//! there. What is this project's own — the orbit-camera rig, ray-vs-box
//! picking, the inspector's selection state, and the scene file format — is
//! gathered here and proved correct.
//!
//! All continuous quantities are held in fixed point: an `i64` counts
//! thousandths of a unit for world coordinates, colours and material
//! parameters, and microradians for the camera rig's angles. The shell
//! converts to and from the engine's native floats at its edge; every rule
//! below is exact integer arithmetic.

use vstd::prelude::*;

pub mod codec;
pub mod geom;
pub mod inspect;
pub mod panel;
pub mod pick;
pub mod rig;
pub mod scene;

verus! {

/// Thousandths of a unit: the denominator of every fixed-point quantity.
pub const FX_ONE: i64 = 1000;

} // verus!
