//! Rope, spring and grapple constraints for a two-dimensional game engine.
//!
//! A distance or spring constraint gives the impulse that pulls a point back to a length from its
//! anchor. A grapple is a rope to swing on: it corrects position and velocity after the physics has
//! moved a body. The plugin keeps the grapples of a scene, takes commands that attach, release and
//! set them, and enforces all of them once a frame.
//!
//! All numbers are single-precision ones, computed bit for bit as IEEE 754 says, so that a
//! simulation replays alike on every machine.

pub mod float;
pub mod rounding;
pub mod scalar;
pub mod plane;
pub mod arithmetic;
pub mod link;
pub mod grapple;
pub mod laws;
pub mod precision;
pub mod swing;
pub mod names;
pub mod scene;
pub mod plugin;
pub mod plugin_laws;
