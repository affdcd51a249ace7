//! Core logic of a reference-manager backend: a directory statistics
//! scanner driven by filesystem events, settings resolution with safe
//! defaults, and the interface-selection rules of the front end.

pub mod extension;
pub mod scanner;
pub mod settings;
pub mod stats;
pub mod ui;
