//! A growable, UTF-8 text buffer whose backing memory comes from
//! `allocator_api2`'s pluggable allocation strategy. The buffer offers
//! codepoint-aware mutation (`push`, `insert`, `remove`, `pop`, ...) and is
//! verified to keep its contents a valid UTF-8 encoding at every observable
//! boundary.

pub mod buffer;
pub mod codec;
pub mod storage;

pub use buffer::RedString;
