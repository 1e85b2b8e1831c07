//! The handshake that opens a peer connection.
//!
//! Format: <pstrlen = 19><pstr = "BitTorrent protocol"><8 reserved bytes><info_hash><peer_id>
use vstd::prelude::*;
use crate::decimal::{nat_string, nat_text};
use crate::endian::copy_into;
use crate::error::CoreError;
use crate::hexcode::{hex_encode, hex_lower};
use crate::text::ascii_chars_of;

verus! {

pub const HANDSHAKE_LEN: usize = 68;

/// "BitTorrent protocol".
pub const PROTOCOL_STRING: [u8; 19] = [
    66u8,
    105,
    116,
    84,
    111,
    114,
    114,
    101,
    110,
    116,
    32,
    112,
    114,
    111,
    116,
    111,
    99,
    111,
    108,
];

/// The bytes of "BitTorrent protocol".
pub open spec fn protocol_bytes() -> Seq<u8> {
    seq![66u8, 105, 116, 84, 111, 114, 114, 101, 110, 116, 32, 112, 114, 111, 116, 111, 99, 111, 108]
}

#[derive(Debug, Clone)]
pub struct Handshake {
    pub info_hash: [u8; 20],
    pub peer_id: [u8; 20],
    pub reserved: [u8; 8],
}

/// The 68 bytes of a handshake.
pub open spec fn handshake_bytes(h: Handshake) -> Seq<u8> {
    seq![19u8] + protocol_bytes() + h.reserved@ + h.info_hash@ + h.peer_id@
}

/// The handshake that 68 or more bytes hold: pstrlen 19 and the protocol string, then the
/// fields; `None` when the bytes are no handshake.
pub open spec fn handshake_fields(buf: Seq<u8>) -> Option<(Seq<u8>, Seq<u8>, Seq<u8>)> {
    if buf.len() >= 68 && buf[0] == 19 && buf.subrange(1, 20) == protocol_bytes() {
        Some((buf.subrange(20, 28), buf.subrange(28, 48), buf.subrange(48, 68)))
    } else {
        None
    }
}

fn protocol_ok(buf: &[u8]) -> (r: bool)
    requires
        buf@.len() >= 20,
    ensures
        r == (buf@.subrange(1, 20) == protocol_bytes()),
{
    let p: [u8; 19] = PROTOCOL_STRING;
    assert(p@ =~= protocol_bytes());
    let mut i: usize = 0;
    while i < 19
        invariant
            0 <= i <= 19,
            buf@.len() >= 20,
            p@ == protocol_bytes(),
            forall|j: int| 0 <= j < i ==> buf@[1 + j] == p@[j],
        decreases 19 - i,
    {
        if buf[1 + i] != p[i] {
            assert(buf@.subrange(1, 20)[i as int] != protocol_bytes()[i as int]);
            return false;
        }
        i = i + 1;
    }
    assert(buf@.subrange(1, 20) =~= protocol_bytes());
    true
}

/// Message text: "invalid pstrlen: " and the length in decimal.
pub open spec fn pstrlen_message(n: u8) -> Seq<char> {
    "invalid pstrlen: "@ + ascii_chars_of(nat_text(n as nat))
}

impl Handshake {
    /// Our handshake, advertising extension-protocol support in the reserved bytes.
    pub fn new(info_hash: [u8; 20], peer_id: [u8; 20]) -> (h: Self)
        ensures
            h.info_hash == info_hash,
            h.peer_id == peer_id,
            h.reserved@ == seq![0u8, 0, 0, 0, 0, 0x10, 0, 0],
    {
        let h = Self { info_hash, peer_id, reserved: [0, 0, 0, 0, 0, 0x10, 0, 0] };
        assert(h.reserved@ =~= seq![0u8, 0, 0, 0, 0, 0x10, 0, 0]);
        h
    }

    pub fn to_bytes(&self) -> (r: [u8; 68])
        ensures
            r@ == handshake_bytes(*self),
    {
        let mut buf = [0u8; 68];
        let p: [u8; 19] = PROTOCOL_STRING;
        assert(p@ =~= protocol_bytes());
        let ghost want = handshake_bytes(*self);
        buf.set(0, 19);
        let mut i: usize = 0;
        while i < 67
            invariant
                0 <= i <= 67,
                buf@.len() == 68,
                want == handshake_bytes(*self),
                want.len() == 68,
                p@ == protocol_bytes(),
                buf@[0] == 19u8,
                forall|j: int| 1 <= j < 1 + i ==> buf@[j] == want[j],
            decreases 67 - i,
        {
            let k = i + 1;
            let b = if k < 20 {
                p[k - 1]
            } else if k < 28 {
                self.reserved[k - 20]
            } else if k < 48 {
                self.info_hash[k - 28]
            } else {
                self.peer_id[k - 48]
            };
            buf.set(k, b);
            i = i + 1;
        }
        assert(buf@ =~= want);
        buf
    }

    pub fn from_bytes(buf: &[u8]) -> (r: Result<Self, CoreError>)
        ensures
            match handshake_fields(buf@) {
                Some((reserved, info_hash, peer_id)) => r matches Ok(h) && h.reserved@ == reserved
                    && h.info_hash@ == info_hash && h.peer_id@ == peer_id,
                None => r matches Err(CoreError::PeerHandshake(msg)) && msg@ == (if buf@.len()
                    < 68 {
                    "buffer too small"@
                } else if buf@[0] != 19 {
                    pstrlen_message(buf@[0])
                } else {
                    "invalid protocol string"@
                }),
            },
    {
        if buf.len() < HANDSHAKE_LEN {
            return Err(CoreError::PeerHandshake(String::from_str("buffer too small")));
        }
        let pstrlen = buf[0];
        if pstrlen != 19 {
            let mut msg = String::from_str("invalid pstrlen: ");
            let d = nat_string(pstrlen as u64);
            msg.append(d.as_str());
            return Err(CoreError::PeerHandshake(msg));
        }
        if !protocol_ok(buf) {
            return Err(CoreError::PeerHandshake(String::from_str("invalid protocol string")));
        }
        let mut reserved = [0u8; 8];
        copy_into(&mut reserved, buf, 20);
        let mut info_hash = [0u8; 20];
        copy_into(&mut info_hash, buf, 28);
        let mut peer_id = [0u8; 20];
        copy_into(&mut peer_id, buf, 48);
        Ok(Self { info_hash, peer_id, reserved })
    }

    /// Checks a peer's reply to our handshake: it must be a handshake for the same torrent.
    pub fn check_reply(&self, resp: &[u8]) -> (r: Result<Handshake, CoreError>)
        ensures
            match handshake_fields(resp@) {
                Some((reserved, info_hash, peer_id)) => if info_hash == self.info_hash@ {
                    r matches Ok(h) && h.reserved@ == reserved && h.info_hash@ == info_hash
                        && h.peer_id@ == peer_id
                } else {
                    r matches Err(CoreError::PeerHandshake(msg)) && msg@ == "info_hash mismatch! expected "@
                        + hex_lower(self.info_hash@) + ", got "@ + hex_lower(info_hash)
                },
                None => r matches Err(CoreError::PeerHandshake(_)),
            },
    {
        let peer = match Handshake::from_bytes(resp) {
            Ok(h) => h,
            Err(e) => return Err(e),
        };
        if !crate::hash::digest_eq(&peer.info_hash, &self.info_hash) {
            let mut msg = String::from_str("info_hash mismatch! expected ");
            let a = hex_encode(&self.info_hash);
            msg.append(a.as_str());
            msg.append(", got ");
            let b = hex_encode(&peer.info_hash);
            msg.append(b.as_str());
            return Err(CoreError::PeerHandshake(msg));
        }
        Ok(peer)
    }
}

/// Reading back a handshake's bytes gives the handshake.
pub proof fn law_handshake_roundtrip(h: Handshake)
    ensures
        handshake_fields(handshake_bytes(h)) == Some((h.reserved@, h.info_hash@, h.peer_id@)),
{
    let b = handshake_bytes(h);
    assert(b.subrange(1, 20) =~= protocol_bytes());
    assert(b.subrange(20, 28) =~= h.reserved@);
    assert(b.subrange(28, 48) =~= h.info_hash@);
    assert(b.subrange(48, 68) =~= h.peer_id@);
}

} // verus!
