//! The library's error type.
use vstd::prelude::*;
use crate::decimal::{nat_string, nat_text};
use crate::text::ascii_chars_of;

verus! {

/// Everything that can go wrong in the engine, one variant per kind of failure.
#[derive(Debug)]
pub enum CoreError {
    BencodePrematureEnd,
    BencodeInvalid(String),
    TorrentMissingField(&'static str),
    TorrentInvalidField(&'static str, String),
    MagnetInvalid(String),
    TrackerHttp(String),
    TrackerUdp(String),
    TrackerFailure(String),
    TrackerTimeout,
    PeerHandshake(String),
    PeerDisconnected,
    PeerProtocol(String),
    PeerIo(String),
    PieceHashMismatch(u32),
    StorageIo(String),
    TorrentNotFound(usize),
    TorrentAlreadyExists,
    Config(String),
    Other(String),
}

/// The text that describes an error to a person.
pub open spec fn error_text(e: CoreError) -> Seq<char> {
    match e {
        CoreError::BencodePrematureEnd => "bencode: premature end of data"@,
        CoreError::BencodeInvalid(s) => "bencode: invalid data — "@ + s@,
        CoreError::TorrentMissingField(f) => "torrent: missing field '"@ + f@ + "'"@,
        CoreError::TorrentInvalidField(f, s) => "torrent: invalid field '"@ + f@ + "' — "@ + s@,
        CoreError::MagnetInvalid(s) => "magnet: invalid URI — "@ + s@,
        CoreError::TrackerHttp(s) => "tracker: HTTP error — "@ + s@,
        CoreError::TrackerUdp(s) => "tracker: UDP error — "@ + s@,
        CoreError::TrackerFailure(s) => "tracker: failure response — "@ + s@,
        CoreError::TrackerTimeout => "tracker: timeout"@,
        CoreError::PeerHandshake(s) => "peer: handshake failed — "@ + s@,
        CoreError::PeerDisconnected => "peer: connection closed"@,
        CoreError::PeerProtocol(s) => "peer: protocol error — "@ + s@,
        CoreError::PeerIo(s) => "peer: IO error — "@ + s@,
        CoreError::PieceHashMismatch(n) => "storage: piece "@ + ascii_chars_of(nat_text(n as nat))
            + " hash mismatch"@,
        CoreError::StorageIo(s) => "storage: IO error — "@ + s@,
        CoreError::TorrentNotFound(n) => "engine: torrent "@ + ascii_chars_of(nat_text(n as nat))
            + " not found"@,
        CoreError::TorrentAlreadyExists => "engine: torrent already exists"@,
        CoreError::Config(s) => "config: "@ + s@,
        CoreError::Other(s) => s@,
    }
}

/// `a`, `b` and `c` joined.
fn join3(a: &str, b: &str, c: &str) -> (r: String)
    ensures
        r@ == a@ + b@ + c@,
{
    let mut r = String::from_str(a);
    r.append(b);
    r.append(c);
    r
}

/// `a` and `b` joined.
fn join2(a: &str, b: &str) -> (r: String)
    ensures
        r@ == a@ + b@,
{
    let mut r = String::from_str(a);
    r.append(b);
    r
}

impl CoreError {
    /// The text that describes this error to a person.
    pub fn message(&self) -> (r: String)
        ensures
            r@ == error_text(*self),
    {
        match self {
            CoreError::BencodePrematureEnd => String::from_str("bencode: premature end of data"),
            CoreError::BencodeInvalid(s) => join2("bencode: invalid data — ", s.as_str()),
            CoreError::TorrentMissingField(f) => join3("torrent: missing field '", f, "'"),
            CoreError::TorrentInvalidField(f, s) => {
                let mut r = join3("torrent: invalid field '", f, "' — ");
                r.append(s.as_str());
                r
            },
            CoreError::MagnetInvalid(s) => join2("magnet: invalid URI — ", s.as_str()),
            CoreError::TrackerHttp(s) => join2("tracker: HTTP error — ", s.as_str()),
            CoreError::TrackerUdp(s) => join2("tracker: UDP error — ", s.as_str()),
            CoreError::TrackerFailure(s) => join2("tracker: failure response — ", s.as_str()),
            CoreError::TrackerTimeout => String::from_str("tracker: timeout"),
            CoreError::PeerHandshake(s) => join2("peer: handshake failed — ", s.as_str()),
            CoreError::PeerDisconnected => String::from_str("peer: connection closed"),
            CoreError::PeerProtocol(s) => join2("peer: protocol error — ", s.as_str()),
            CoreError::PeerIo(s) => join2("peer: IO error — ", s.as_str()),
            CoreError::PieceHashMismatch(n) => {
                let d = nat_string(*n as u64);
                join3("storage: piece ", d.as_str(), " hash mismatch")
            },
            CoreError::StorageIo(s) => join2("storage: IO error — ", s.as_str()),
            CoreError::TorrentNotFound(n) => {
                let d = nat_string(*n as u64);
                join3("engine: torrent ", d.as_str(), " not found")
            },
            CoreError::TorrentAlreadyExists => String::from_str("engine: torrent already exists"),
            CoreError::Config(s) => join2("config: ", s.as_str()),
            CoreError::Other(s) => String::from_str(s.as_str()),
        }
    }
}

} // verus!
