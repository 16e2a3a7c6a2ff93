//! A hotkey daemon core: a line-oriented hotkey configuration grammar
//! (modes, unbind directives, imports, templated chord expansion) and the
//! runtime engine that matches live key transitions against the active mode,
//! drives the mode stack, and decides which events are forwarded.
//!
//! All device and socket I/O lives outside this crate; the library works on
//! plain values (key codes, strings, event transitions).

pub mod config;
pub mod engine;
pub mod environ;
pub mod front;
pub mod keys;
pub mod laws;
pub mod parser;
pub mod text;

use vstd::prelude::*;

verus! {

} // verus!
