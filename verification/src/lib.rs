//! A codec for a line-oriented, length-prefixed, recursively structured wire
//! protocol (RESP-style), as used by a sharded key-value store's transport.
//!
//! The crate converts between an in-memory tree of typed values ([`types::Frame`])
//! and their byte-exact wire representation, classifies textual error frames
//! that carry cluster redirection signals, and maps keys to cluster hash slots.

pub mod buffer;
pub mod decimal;
pub mod decode;
pub mod encode;
pub mod format;
pub mod laws;
pub mod parsing;
pub mod redirect;
pub mod render;
pub mod text;
pub mod types;
pub mod utils;

pub use decode::decode;
pub use decode::decode_bytes;
pub use encode::encode;
pub use encode::write_frame;
pub use types::Error;
pub use types::Frame;
pub use types::Redirection;
pub use utils::redis_keyslot;
pub use utils::string_to_redirection;
