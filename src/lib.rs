//! The server half of the Wayland wire protocol: framing of the byte stream into
//! messages, the receive buffer with its queue of passed file descriptors, resumable
//! decoders of message arguments, protocol descriptions read from their XML and the
//! request signatures they give, and the rules of binding a listening socket.
use vstd::prelude::*;

pub mod wire;
pub mod framer;
pub mod control;
pub mod buffer;
pub mod parse;
pub mod types;
pub mod leaves;
pub mod listener;
pub mod request;
pub mod protocol;
pub mod xml;
pub mod scan;
