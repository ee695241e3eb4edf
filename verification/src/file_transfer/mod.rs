//! The transfer of one file over an open path.
pub mod bit_array;
pub mod block;
pub mod message;
pub mod receive;
pub mod send;

pub use crate::file_transfer::message::{Chunk, Message, Request, Response};
