//! Allocation of a linear extent (terminal columns, pixels, ...) among
//! an ordered list of "children", each with a minimum size, an optional
//! maximum, an optional/required flag with a priority, and a growth
//! weight.
//!
//! A build seats the required children at their minimum (failing when
//! one does not fit), then the optional children in descending priority
//! order (skipping those that do not fit), and finally distributes the
//! remaining space to the seated children in proportion to their growth
//! weights and capacities, handing out the rounding remainder one unit
//! at a time.

pub mod types;
pub mod model;
pub mod lemmas;
pub mod solve;
pub mod container;
pub mod laws;

pub use types::Child;
pub use types::ChildConstraints;
pub use types::Error;
pub use types::Optionality;
pub use container::Container;
pub use container::ContainerBuilder;
