//! Half-edge mesh topology and one level of Catmull-Clark subdivision.
//!
//! The library works on connectivity only: vertex positions are carried by
//! the caller, and every vertex that a subdivision creates is described by a
//! [`subdivide::PointSource`] saying which input entity it stands for.
use vstd::prelude::*;

pub mod mesh;
pub mod subdivide;
