//! Bounded-capacity particle growth: free-moving particles drift over a
//! planar field until they come close to a fixed "static" particle and snap
//! into place through an angular port-matching rule, forming a growing
//! crystalline structure.
//!
//! All geometry is modelled with integers: coordinates are fixed-point
//! values in a caller-chosen unit, and angles are whole degrees.  The host
//! environment (a renderer or driver) supplies randomness and carries out
//! floating-point motion; everything that decides — the spatial grid, the
//! index-stable container, and the binding state machine — lives here.

pub mod container;
pub mod field;
pub mod particle;
pub mod trig;
pub mod vector;

pub use vector::Vector;
pub use vector::COORD_LIMIT;
