//! What a peer session decides: how it answers the engine's commands and the peer's messages.
//!
//! The session itself (the socket, the timers, the channels) runs in the application; each
//! command and each message goes through the functions here, which update the session's state
//! and say what to send or report.
use vstd::prelude::*;
use crate::peer::message::{Message, Msg, MAX_FRAME_SIZE};

verus! {

/// Bytes asked for in one block request: 256 KiB.
pub const BLOCK_SIZE: u32 = 262144;

/// Seconds between keep-alive messages.
pub const KEEP_ALIVE_INTERVAL_SECS: u64 = 60;

/// Block requests kept in flight to one peer.
pub const MAX_INFLIGHT_REQUESTS: usize = 16;

/// Commands from the engine to a peer session.
#[derive(Debug, Clone)]
pub enum PeerCommand {
    Choke,
    Unchoke,
    Interested,
    NotInterested,
    Request { index: u32, begin: u32, length: u32 },
    Cancel { index: u32, begin: u32, length: u32 },
    SendPiece { index: u32, begin: u32, block: Vec<u8> },
    SendHave { index: u32 },
    SendBitfield(Vec<u8>),
    SendExtended { msg_id: u8, payload: Vec<u8> },
    Disconnect,
}

/// The choke and interest flags of both sides of a connection.
#[derive(Debug, Clone, Copy, PartialEq, Eq, Structural)]
pub struct PeerState {
    pub am_choking: bool,
    pub am_interested: bool,
    pub peer_choking: bool,
    pub peer_interested: bool,
}

impl PeerState {
    /// A fresh connection: each side chokes the other, neither is interested.
    pub fn new() -> (s: Self)
        ensures
            s == (PeerState {
                am_choking: true,
                am_interested: false,
                peer_choking: true,
                peer_interested: false,
            }),
    {
        PeerState { am_choking: true, am_interested: false, peer_choking: true, peer_interested: false }
    }
}

impl Default for PeerState {
    /// All flags clear.
    fn default() -> (s: Self)
        ensures
            s == (PeerState {
                am_choking: false,
                am_interested: false,
                peer_choking: false,
                peer_interested: false,
            }),
    {
        PeerState {
            am_choking: false,
            am_interested: false,
            peer_choking: false,
            peer_interested: false,
        }
    }
}

/// What a session does with a command: send a message, or close the connection.
#[derive(Debug)]
pub enum CommandAction {
    Send(Message),
    Disconnect,
}

/// What a session reports to the engine about a message from the peer.
#[derive(Debug)]
pub enum SessionReport {
    Choked,
    Unchoked,
    Interested,
    NotInterested,
    HaveReceived { piece_index: u32 },
    BitfieldReceived { bitfield: Vec<u8> },
    BlockReceived { index: u32, begin: u32, block: Vec<u8> },
    RequestReceived { index: u32, begin: u32, length: u32 },
    ExtendedHandshakeReceived { p: Vec<u8> },
    ExtendedMessageReceived { msg_id: u8, p: Vec<u8> },
}

/// The message a command sends, and the state after it; `None` for a disconnect.
pub open spec fn command_effect(s: PeerState, c: PeerCommand) -> Option<(Msg, PeerState)> {
    match c {
        PeerCommand::Choke => Some((Msg::Choke, PeerState { am_choking: true, ..s })),
        PeerCommand::Unchoke => Some((Msg::Unchoke, PeerState { am_choking: false, ..s })),
        PeerCommand::Interested => Some((Msg::Interested, PeerState { am_interested: true, ..s })),
        PeerCommand::NotInterested => Some(
            (Msg::NotInterested, PeerState { am_interested: false, ..s }),
        ),
        PeerCommand::Request { index, begin, length } => Some(
            (Msg::Request { index, begin, length }, s),
        ),
        PeerCommand::Cancel { index, begin, length } => Some(
            (Msg::Cancel { index, begin, length }, s),
        ),
        PeerCommand::SendPiece { index, begin, block } => Some(
            (Msg::Piece { index, begin, block: block@ }, s),
        ),
        PeerCommand::SendHave { index } => Some((Msg::Have { piece_index: index }, s)),
        PeerCommand::SendBitfield(b) => Some((Msg::Bitfield(b@), s)),
        PeerCommand::SendExtended { msg_id, payload } => Some(
            (Msg::Extended { msg_id, payload: payload@ }, s),
        ),
        PeerCommand::Disconnect => None,
    }
}

/// A request from the peer is passed on only while we do not choke it and its length is
/// positive and within the frame limit.
pub open spec fn request_accepted(s: PeerState, length: u32) -> bool {
    !s.am_choking && length > 0 && length <= MAX_FRAME_SIZE
}

impl PeerState {
    /// Applies a command from the engine: updates our flags and gives the message to send.
    pub fn handle_command(&mut self, cmd: PeerCommand) -> (r: CommandAction)
        ensures
            match command_effect(*old(self), cmd) {
                Some((m, s)) => r matches CommandAction::Send(x) && x@ == m && *final(self) == s,
                None => r is Disconnect && *final(self) == *old(self),
            },
    {
        match cmd {
            PeerCommand::Choke => {
                self.am_choking = true;
                CommandAction::Send(Message::Choke)
            },
            PeerCommand::Unchoke => {
                self.am_choking = false;
                CommandAction::Send(Message::Unchoke)
            },
            PeerCommand::Interested => {
                self.am_interested = true;
                CommandAction::Send(Message::Interested)
            },
            PeerCommand::NotInterested => {
                self.am_interested = false;
                CommandAction::Send(Message::NotInterested)
            },
            PeerCommand::Request { index, begin, length } => CommandAction::Send(
                Message::Request { index, begin, length },
            ),
            PeerCommand::Cancel { index, begin, length } => CommandAction::Send(
                Message::Cancel { index, begin, length },
            ),
            PeerCommand::SendPiece { index, begin, block } => CommandAction::Send(
                Message::Piece { index, begin, block },
            ),
            PeerCommand::SendHave { index } => CommandAction::Send(
                Message::Have { piece_index: index },
            ),
            PeerCommand::SendBitfield(bitfield) => CommandAction::Send(Message::Bitfield(bitfield)),
            PeerCommand::SendExtended { msg_id, payload } => CommandAction::Send(
                Message::Extended { msg_id, payload },
            ),
            PeerCommand::Disconnect => CommandAction::Disconnect,
        }
    }

    /// Applies a message from the peer: updates the peer's flags and gives what to report.
    pub fn handle_message(&mut self, msg: Message) -> (r: Option<SessionReport>)
        ensures
            match msg@ {
                Msg::KeepAlive => r is None && *final(self) == *old(self),
                Msg::Choke => r matches Some(SessionReport::Choked) && *final(self) == (PeerState {
                    peer_choking: true,
                    ..*old(self)
                }),
                Msg::Unchoke => r matches Some(SessionReport::Unchoked) && *final(self) == (
                PeerState { peer_choking: false, ..*old(self) }),
                Msg::Interested => r matches Some(SessionReport::Interested) && *final(self) == (
                PeerState { peer_interested: true, ..*old(self) }),
                Msg::NotInterested => r matches Some(SessionReport::NotInterested) && *final(self)
                    == (PeerState { peer_interested: false, ..*old(self) }),
                Msg::Have { piece_index } => r matches Some(
                    SessionReport::HaveReceived { piece_index: p },
                ) && p == piece_index && *final(self) == *old(self),
                Msg::Bitfield(b) => r matches Some(SessionReport::BitfieldReceived { bitfield })
                    && bitfield@ == b && *final(self) == *old(self),
                Msg::Request { index, begin, length } => *final(self) == *old(self) && if request_accepted(*old(self), length) {
                    r matches Some(SessionReport::RequestReceived { index: i, begin: b, length: l })
                        && i == index && b == begin && l == length
                } else {
                    r is None
                },
                Msg::Piece { index, begin, block } => r matches Some(
                    SessionReport::BlockReceived { index: i, begin: b, block: d },
                ) && i == index && b == begin && d@ == block && *final(self) == *old(self),
                Msg::Cancel { .. } => r is None && *final(self) == *old(self),
                Msg::Port { .. } => r is None && *final(self) == *old(self),
                Msg::Extended { msg_id, payload } => *final(self) == *old(self) && if msg_id == 0 {
                    r matches Some(SessionReport::ExtendedHandshakeReceived { p }) && p@ == payload
                } else {
                    r matches Some(SessionReport::ExtendedMessageReceived { msg_id: m, p }) && m
                        == msg_id && p@ == payload
                },
            },
    {
        match msg {
            Message::KeepAlive => None,
            Message::Choke => {
                self.peer_choking = true;
                Some(SessionReport::Choked)
            },
            Message::Unchoke => {
                self.peer_choking = false;
                Some(SessionReport::Unchoked)
            },
            Message::Interested => {
                self.peer_interested = true;
                Some(SessionReport::Interested)
            },
            Message::NotInterested => {
                self.peer_interested = false;
                Some(SessionReport::NotInterested)
            },
            Message::Have { piece_index } => Some(SessionReport::HaveReceived { piece_index }),
            Message::Bitfield(bitfield) => Some(SessionReport::BitfieldReceived { bitfield }),
            Message::Request { index, begin, length } => {
                if !self.am_choking && length > 0 && length <= MAX_FRAME_SIZE as u32 {
                    Some(SessionReport::RequestReceived { index, begin, length })
                } else {
                    None
                }
            },
            Message::Piece { index, begin, block } => Some(
                SessionReport::BlockReceived { index, begin, block },
            ),
            Message::Cancel { .. } => None,
            Message::Port { .. } => None,
            Message::Extended { msg_id, payload } => {
                if msg_id == 0 {
                    Some(SessionReport::ExtendedHandshakeReceived { p: payload })
                } else {
                    Some(SessionReport::ExtendedMessageReceived { msg_id, p: payload })
                }
            },
        }
    }
}

} // verus!
