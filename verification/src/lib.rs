//! Two peers behind NATs find each other through a rendezvous server, open
//! a direct UDP path by punching through their NATs, and send a file over
//! it in blocks and chunks, with what is lost sent again.
//!
//! This crate holds the rules of both protocols: the wire forms, the state
//! machines of server, peers, sender and receiver, and the arithmetic of
//! blocks and chunks. It opens no socket and reads no clock; what uses it
//! hands it datagrams and times and does what it answers.
pub mod addr;
pub mod assoc;
pub mod error;
pub mod file_transfer;
pub mod message;
pub mod operation;
pub mod peer;
pub mod server;
pub mod socket;
pub mod text;
pub mod wire;

pub use crate::addr::{Addr, AddrV4, AddrV6};
pub use crate::error::{Error, WithContext};
pub use crate::message::Message;
pub use crate::operation::{
    Failure, Operation, Resolved, Retry, Timeout, RETRY_COUNT, RETRY_DURATION,
};
pub use crate::socket::{Decode, Encode};
