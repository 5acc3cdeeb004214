//! A nondeterministic one-bit machine.
//!
//! The machine has a register stack of `n` binary cells. Instead of a single
//! configuration it holds a set of configurations at once, and every
//! instruction acts on all of them in parallel. The set is packed into
//! `2^(n-6)` machine words, one presence bit per configuration.
use vstd::prelude::*;

pub mod word;
pub mod config;
pub mod state;
pub mod laws;
