//! wasamix mixes the selected microphone with the sound the computer is
//! playing and hands the result to a virtual audio cable.
//!
//! This crate holds everything the mixer decides and computes: the ring
//! buffers and sample arithmetic, the choice of devices, the step functions
//! that drive the capture and render loops, and the state of the tray
//! application.  Audio devices, threads, files and the tray itself are driven
//! from outside.

pub mod audio;
pub mod config;
pub mod text;
pub mod tray;
