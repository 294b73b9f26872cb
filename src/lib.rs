//! Discrete core of a 2D soft-body simulation: the ring topology of each
//! body, the keyed collections of bodies and constraints, the constraint
//! membership rules, the attachment-point connection protocol, the
//! connection-state propagation between attached bodies, the build-time
//! rules of a body's internal springs, and the loop-drawing grid.
pub mod builder;
pub mod constraint;
pub mod loop_crafting;
pub mod ring;
pub mod rotate;
pub mod simulation;
pub mod slots;
pub mod soft_body;
