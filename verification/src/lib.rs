//! Fixed-point arithmetic gadgets over a rank-1 constraint system, used to
//! arithmetize a ray/sphere intersection so that an external zk-SNARK backend
//! can prove a pixel's color was derived correctly from secret scene geometry.
//!
//! The library models the constraint system itself: variables carry integer
//! witness values (representatives of elements of a large prime field), and
//! every gadget's contract states exactly which constraints it emits and that
//! the witness it computes satisfies them.

pub mod r1cs;
pub mod float;
pub mod geometry;
pub mod tracer;
pub mod render;
