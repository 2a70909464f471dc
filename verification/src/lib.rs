//! Multi-channel serial packet capture: fixed-length frame parsing, the
//! `.srp` capture log format, replay scheduling and per-channel export, with
//! their contracts proved by Verus.

pub mod byte_codec;
pub mod config;
pub mod log_format;
pub mod matlab_export;
pub mod packet;
pub mod recorder;
pub mod replay;
pub mod sorting;
pub mod text;
