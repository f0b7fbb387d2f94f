//! Verified core of a serial / CAN debugging assistant: frame checksums,
//! HEX parsing, frame schema definitions and encoding, CAN / logic-analyzer
//! buffers and bus-load windows, raw-byte history with cursor reads,
//! diagnostic code tables, ISO-TP segmentation, the byte plane of the node
//! graph (port domains, routes, topological order), queries on a compiled
//! graph, and waveform time windows.

pub mod checksum;
pub mod hex;
pub mod bytes;
pub mod config;
pub mod logic;
pub mod can;
pub mod diagnostic;
pub mod decoder_block;
pub mod protocol_config;
pub mod schema_frame;
pub mod ring_buffer;
pub mod raw;
pub mod raw_filter;
pub mod isotp;
pub mod frame;
pub mod update;
pub mod frame_encoder;
pub mod transport;
pub mod byte_plan;
pub mod compiled_graph;
pub mod can_load;
pub mod topo;
pub mod window;
