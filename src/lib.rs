//! A LIFO stack whose nodes live in an arena, with a popper-counted deferred
//! reclamation protocol that frees unlinked nodes only at quiescent points.

pub mod stack;

pub use stack::Stack;
