//! A DOM-like document tree: an arena of element and text nodes addressed by
//! opaque ids, with attribute mutation, tree restructuring, a small selector
//! query engine, and a finalization entry point for a host runtime whose
//! garbage collector owns the wrapper objects.

pub mod node;
pub mod document;
pub mod selector;
