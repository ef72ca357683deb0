//! A content-addressable object store and transfer engine: the packfile
//! codec, the delta resolver, the pack index builder, the pkt-line
//! transport framing and the decisions of a clone, each with a contract
//! over sequences of bytes.

pub mod error;
pub mod stream;
pub mod bytes;
pub mod text;
pub mod zlib;
pub mod digest;
pub mod git;
pub mod objects;
pub mod index;
pub mod transport;
pub mod commands;
