//! Encoding and decoding of RTCP packets: the common header, the feedback
//! header, NACK bitmask blocks, transport-wide congestion-control status
//! chunks with their greedy packer, the per-type packet codecs and the
//! compound-packet dispatcher.
pub mod error;
pub mod wire;
pub mod header;
pub mod fb_header;
pub mod nack;
pub mod chunk;
pub mod packer;
pub mod tcc;
pub mod tcc_builder;
pub mod report;
pub mod text;
pub mod bye;
pub mod sdes;
pub mod fir;
pub mod packet;
pub mod round_trip;
pub mod util;
pub mod with_context;
