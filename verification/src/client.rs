//! The client side's view of the bridge traffic: the message envelope a
//! desktop front end exchanges with the bridge and the payload of a resize
//! request.

use vstd::prelude::*;

verus! {

/// What kind of traffic a client-side message carries.
#[derive(Clone, Copy, Debug, PartialEq, Eq, Structural)]
pub enum PTYMessageType {
    Input,
    Output,
    Resize,
    Connect,
    Disconnect,
    Ping,
    Pong,
}

/// One client-side message: its kind, the session it belongs to, its payload
/// and the sender's clock in milliseconds.
#[derive(Clone, Debug)]
pub struct PTYMessage {
    pub message_type: PTYMessageType,
    pub session_id: String,
    pub data: String,
    pub timestamp: u64,
}

/// The payload of a resize request, in the column-first order the client
/// writes it.
#[derive(Clone, Copy, Debug, PartialEq, Eq, Structural)]
pub struct PTYResizeData {
    pub cols: u16,
    pub rows: u16,
}

impl PTYMessage {
    /// Assemble a message; every field is taken as given.
    pub fn new(message_type: PTYMessageType, session_id: String, data: String, timestamp: u64) -> (r:
        PTYMessage)
        ensures
            r.message_type == message_type,
            r.session_id@ == session_id@,
            r.data@ == data@,
            r.timestamp == timestamp,
    {
        PTYMessage { message_type, session_id, data, timestamp }
    }
}

impl PTYResizeData {
    /// The geometry a resize payload asks for, as the bridge's control
    /// message states it: rows and columns carried unchanged.
    pub fn to_control(&self) -> (r: crate::codec::ControlMessage)
        ensures
            r matches crate::codec::ControlMessage::Resize { rows, cols } && rows == self.rows
                && cols == self.cols,
    {
        crate::codec::ControlMessage::Resize { rows: self.rows, cols: self.cols }
    }
}

} // verus!