//! Verified core of an offline Monte-Carlo path tracer.
//!
//! The crate holds the discrete decisions of the renderer: how an image is
//! cut into tiles and put together again, how the bounding-volume hierarchy
//! is built and walked, which hit is the nearest, and how a scene description
//! is laid out. Lengths and coordinates enter as `i64` keys: the caller maps
//! its scalar type to keys through a strictly increasing map, so that
//! comparing two keys compares the two scalars they stand for.

pub mod acceleration_structure;
pub mod geometry;
pub mod hierarchy;
pub mod integrator;
pub mod path_tracer;
pub mod renderable;
pub mod scene;
pub mod scene_loader;
pub mod text;
pub mod walk;
