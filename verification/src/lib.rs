//! Companion library for a multi-knob hardware volume mixer.
//!
//! The library is the routing engine: it classifies lines read from the
//! serial link, smooths and debounces channel values, decides which audio
//! targets receive which volume, resolves output-device names, and carries
//! the reload policy for the shared configuration. All values are held in
//! fixed-point micro-units (1.0 == 1_000_000), so every step of the engine
//! is exact integer arithmetic with a proved contract.
//!
//! Everything that touches the operating system (the serial port, the audio
//! session API, process-name resolution, spawning the device-switch helper)
//! stays outside: callers hand the engine plain bytes and integers and carry
//! out the actions it returns.

pub mod cache;
pub mod config;
pub mod devices;
pub mod engine;
pub mod num;
pub mod protocol;
pub mod smooth;
pub mod text;
