//! Casting to a renderer.

pub mod dlna;
pub mod flow;
