//! Audio: sample formats, buffering, mixing, and device selection.

pub mod capture;
pub mod devices;
pub mod mixer;
pub mod pipeline;
pub mod samples;
pub mod single;
