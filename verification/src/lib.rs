//! Host side of the NoC protocol that an FPGA speaks over UDP.

pub mod communicator;
pub mod decode;
pub mod laws;
pub mod packet;
pub mod read;
pub mod read_laws;
pub mod read_requests;
pub mod read_runs;
pub mod read_wire;
pub mod receive;
pub mod receive_wire;
pub mod self_test;
pub mod transmit;
pub mod wire;
pub mod write;
pub mod write_wire;
