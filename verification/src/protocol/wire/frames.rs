//! The payloads of the two directions.

use vstd::prelude::*;

use crate::protocol::error::ProtocolError;
use crate::protocol::version::{ClientAuth, ClientHello, ServerHello};
use crate::protocol::wire::event::Event;
use crate::protocol::wire::request::{Reply, Request};

verus! {

/// What a client sends.
#[derive(Debug, Clone, PartialEq, Eq)]
pub enum ClientFrame {
    Hello(ClientHello),
    Auth(ClientAuth),
    Request(Request),
    Error(ProtocolError),
}

/// What the runtime sends.
#[derive(Debug, Clone, PartialEq, Eq)]
pub enum ServerFrame {
    Hello(ServerHello),
    Reply(Reply),
    Event(Event),
    Error(ProtocolError),
}

} // verus!
