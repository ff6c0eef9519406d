//! In-process diagnostics recorder: bounded rings of log lines, trace output
//! and HTTP call outcomes, with self-delimiting frames for the byte rings.
pub mod call;
pub mod descriptors;
pub mod frame;
pub mod ring;
pub mod text;
pub mod trace;
