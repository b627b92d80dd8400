//! A server that hands account updates out to its clients, over TCP or UDP.

pub mod redacted_tcp_types;
pub mod wire;
pub mod packet;
pub mod redacted_memory_pool;
pub mod channel;
pub mod program_list;
pub mod redacted_tcp_server;
pub mod redacted_udp_server;
