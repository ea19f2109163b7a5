//! Core of a bidirectional RTT console for embedded targets.
//!
//! Everything that decides or computes something lives here with a contract:
//! command line rules, control block discovery, decoding, line assembly,
//! rendering, logging and keyboard routing. Reading a probe, a keyboard or a
//! file is left to the program around this library, which hands plain values in
//! and performs the plain actions it gets back.
use vstd::prelude::*;

pub mod text;
pub mod channel;
pub mod ordered;
pub mod terminal;
pub mod cli;
pub mod formats;
pub mod defmt;
pub mod rtt;
pub mod renderer;
pub mod input;
pub mod target;
pub mod session;
pub mod diagnostics;
pub mod logger;

verus! {

} // verus!
