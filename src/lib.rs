//! Encoding and decoding of timeline assets: a named list of moments, each
//! carrying a list of actions, in a compact versioned binary layout.

pub mod bytes;
pub mod action;
pub mod timeline;
