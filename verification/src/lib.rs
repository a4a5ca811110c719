//! An incremental linear feasibility solver over rational numbers.
//!
//! The engine maintains linear constraints over variables and keeps the
//! current assignment consistent with the tableau while bounds are asserted
//! and retracted, restoring feasibility with the simplex method.

pub mod answers;
pub mod bounds;
pub mod constraint;
pub mod enclose;
pub mod engine;
pub mod exact;
pub mod inf_rational;
pub mod laws;
pub mod lin;
pub mod numtheory;
pub mod rational;
pub mod rows;
pub mod terms;
pub mod text;
pub mod traits;
pub mod var;

pub use constraint::{Constraint, ConstraintId};
pub use engine::{Engine, Notification, PropagationError};
pub use inf_rational::{InfRational, inf, inf_i};
pub use lin::{Lin, v, vc};
pub use rational::Rational;
pub use var::{GuardId, VarId};
