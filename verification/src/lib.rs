//! A command runner in the style of GNU parallel: a command template is expanded over the
//! cartesian product of the input value sets, the resulting jobs are dispatched with bounded
//! parallelism, and a whole invocation can be handed to a remote peer over a framed channel.
//!
//! This crate holds the rules of that system: template expansion, result ordering, the
//! framing of the channel and the handshake of its two roles. Each of them is a function
//! from plain values to plain values; spawning processes and moving bytes is left to the
//! caller.

pub mod entrycmd;
pub mod interpretor;
pub mod job;
pub mod jobmanager;
pub mod parallel;
pub mod remote;
pub mod text;
