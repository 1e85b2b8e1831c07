//! Trackers: announce requests and responses, over HTTP and UDP.
pub mod http;
pub mod udp;

use vstd::prelude::*;

verus! {

/// What a client tells a tracker when it announces.
#[derive(Debug, Clone)]
pub struct AnnounceRequest {
    pub info_hash: [u8; 20],
    pub peer_id: [u8; 20],
    pub port: u16,
    pub uploaded: u64,
    pub downloaded: u64,
    pub left: u64,
    pub event: AnnounceEvent,
    pub num_want: i32,
}

/// Why a client announces; `Empty` is a regular announce with no event.
#[derive(Debug, Clone, Copy, PartialEq, Eq, Structural)]
pub enum AnnounceEvent {
    Empty,
    Started,
    Stopped,
    Completed,
}

/// The name an event is announced under; empty for a regular announce.
pub open spec fn event_name(e: AnnounceEvent) -> Seq<char> {
    match e {
        AnnounceEvent::Empty => ""@,
        AnnounceEvent::Started => "started"@,
        AnnounceEvent::Stopped => "stopped"@,
        AnnounceEvent::Completed => "completed"@,
    }
}

impl AnnounceEvent {
    pub fn as_str(&self) -> (r: &'static str)
        ensures
            r@ == event_name(*self),
    {
        match self {
            AnnounceEvent::Empty => "",
            AnnounceEvent::Started => "started",
            AnnounceEvent::Stopped => "stopped",
            AnnounceEvent::Completed => "completed",
        }
    }
}

/// Where a peer that a tracker names can be reached: four address bytes, or the text the
/// tracker gave, which the application parses as an IP address and drops when it is none.
#[derive(Debug, Clone)]
pub enum PeerHost {
    V4([u8; 4]),
    Named(String),
}

/// A peer that a tracker names.
#[derive(Debug, Clone)]
pub struct TrackerPeer {
    pub ip: PeerHost,
    pub port: u16,
}

/// A tracker's answer to an announce.
#[derive(Debug, Clone)]
pub struct AnnounceResponse {
    pub interval: u32,
    pub seeders: u32,
    pub leechers: u32,
    pub peers: Vec<TrackerPeer>,
}

pub enum HostView {
    V4(Seq<u8>),
    Named(Seq<char>),
}

pub struct PeerView {
    pub host: HostView,
    pub port: u16,
}

pub struct ResponseView {
    pub interval: u32,
    pub seeders: u32,
    pub leechers: u32,
    pub peers: Seq<PeerView>,
}

impl View for TrackerPeer {
    type V = PeerView;

    open spec fn view(&self) -> PeerView {
        PeerView {
            host: match self.ip {
                PeerHost::V4(a) => HostView::V4(a@),
                PeerHost::Named(s) => HostView::Named(s@),
            },
            port: self.port,
        }
    }
}

pub open spec fn peers_view(v: Seq<TrackerPeer>) -> Seq<PeerView> {
    v.map_values(|p: TrackerPeer| p@)
}

impl View for AnnounceResponse {
    type V = ResponseView;

    open spec fn view(&self) -> ResponseView {
        ResponseView {
            interval: self.interval,
            seeders: self.seeders,
            leechers: self.leechers,
            peers: peers_view(self.peers@),
        }
    }
}

} // verus!
