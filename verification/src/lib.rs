//! Content-aware image resizing by seam carving.
//!
//! The engine works on an in-memory matrix of RGBA pixels. [`grid::Grid`] is the
//! rectangular container with logical rotation, row shifts, column growth and
//! identity tracking. [`carve::Carver`] drives the energy and path-cost passes,
//! picks seams and removes or inserts them; [`model`] says in plain mathematics
//! what each of its steps does. [`picture`] reads a pixel matrix out of a decoded
//! image and builds an image from one, [`change`] reads the sizes that a user
//! asks for, and [`debug`] marks the pixels that a resizing touched.

pub mod carve;
pub mod change;
pub mod debug;
pub mod energy;
pub mod grid;
pub mod math;
pub mod model;
pub mod picture;
pub mod point;
pub mod point_stack;
