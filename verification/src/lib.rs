//! A LIFO stack with hazard-pointer-style deferred reclamation.
//!
//! Nodes live in an arena of slots; a popped node is only unlinked and
//! retired, never freed on the spot, because the hazard registry may still
//! protect it. A later garbage-collection pass frees exactly the retired
//! slots that no alive hazard record publishes.

pub mod laws;
pub mod stack;

pub use stack::Hazard;
pub use stack::Node;
pub use stack::Slot;
pub use stack::Stack;
pub use stack::StackHandle;
