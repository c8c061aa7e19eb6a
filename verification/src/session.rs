//! One chat session's protocol logic.
//!
//! A session is created when a connection upgrade names a room and a display
//! name; its registry id is assigned by connect before any frame is read,
//! and all three are fixed for the session's lifetime. The session owns no
//! shared state: each inbound frame is turned into an instruction for its
//! caller — broadcast a payload, or close the connection.

use crate::frames::broadcast_frame;
use crate::frames::parse_message;
use crate::frames::parse_message_frame;
use crate::frames::render_broadcast;
use vstd::prelude::*;

verus! {

/// The fixed identity of one live chat session.
pub struct WsChatSession {
    /// The registry-assigned session id (from connect).
    pub id: u64,
    /// The room named in the connection's addressing, joined before any
    /// frame is relayed.
    pub room: i32,
    /// The display name named in the connection's addressing, as UTF-8.
    pub name: Vec<u8>,
}

/// What one inbound text frame makes a session do.
pub enum FrameAction {
    /// The frame was malformed: a protocol error, fatal to this one session.
    /// The caller closes the connection (which disconnects the session from
    /// the registry) and sends no error payload.
    Close,
    /// Relay `payload` to the other members of `room` through the registry,
    /// and deliver the same `payload` back to the sender as its local echo.
    /// Both copies are wire-identical by construction: there is only the one
    /// payload.
    Broadcast { room: i32, sender: u64, payload: Vec<u8> },
}

impl WsChatSession {
    /// A session as the connection upgrade creates it.
    pub fn new(id: u64, room: i32, name: Vec<u8>) -> (s: WsChatSession)
        ensures
            s.id == id,
            s.room == room,
            s.name == name,
    {
        WsChatSession { id, room, name }
    }

    /// Decide what one inbound text frame does: a well-formed
    /// `{"message": <text>}` becomes one `{"user": <name>, "message": <text>}`
    /// broadcast for this session's room, sent by this session's id;
    /// anything else closes the session.
    pub fn handle_text(&self, text: &Vec<u8>) -> (act: FrameAction)
        ensures
            (match act {
                FrameAction::Close => parse_message_frame(text@) is None,
                FrameAction::Broadcast { room, sender, payload } => {
                    &&& room == self.room
                    &&& sender == self.id
                    &&& parse_message_frame(text@) matches Some(m) && payload@ == broadcast_frame(
                        self.name@,
                        m,
                    )
                },
            }),
    {
        match parse_message(text) {
            None => FrameAction::Close,
            Some(m) => FrameAction::Broadcast {
                room: self.room,
                sender: self.id,
                payload: render_broadcast(&self.name, &m),
            },
        }
    }
}

} // verus!
