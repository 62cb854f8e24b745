//! Framing, reassembly and fan-out rules of a best-effort screen stream carried over UDP.

pub mod client;
pub mod comm;
pub mod commands;
pub mod fanout;
pub mod frame_buffer;
pub mod frame_model;
pub mod packet;
pub mod registry;
pub mod server;
pub mod sweep;
