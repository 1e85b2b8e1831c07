//! BitTorrent message framing.
//!
//! A frame is a 4-byte big-endian length, then that many bytes: a message id and its payload.
//! A zero length is a keep-alive.
use vstd::prelude::*;
use crate::endian::{be16, be16_bytes, be32, be32_bytes, lemma_be16_roundtrip, lemma_be32_roundtrip, push_be16, push_be32, read_be16, read_be32};

verus! {

broadcast use vstd::seq_lib::group_seq_properties;

/// Upper limit on a frame's length, against abusive peers.
pub const MAX_FRAME_SIZE: usize = 1048576;

#[derive(Debug, Clone, PartialEq)]
pub enum Message {
    KeepAlive,
    Choke,
    Unchoke,
    Interested,
    NotInterested,
    Have { piece_index: u32 },
    Bitfield(Vec<u8>),
    Request { index: u32, begin: u32, length: u32 },
    Piece { index: u32, begin: u32, block: Vec<u8> },
    Cancel { index: u32, begin: u32, length: u32 },
    Port { listen_port: u16 },
    /// An extension-protocol message.
    Extended { msg_id: u8, payload: Vec<u8> },
}

/// The mathematical model of a message.
pub enum Msg {
    KeepAlive,
    Choke,
    Unchoke,
    Interested,
    NotInterested,
    Have { piece_index: u32 },
    Bitfield(Seq<u8>),
    Request { index: u32, begin: u32, length: u32 },
    Piece { index: u32, begin: u32, block: Seq<u8> },
    Cancel { index: u32, begin: u32, length: u32 },
    Port { listen_port: u16 },
    Extended { msg_id: u8, payload: Seq<u8> },
}

impl View for Message {
    type V = Msg;

    open spec fn view(&self) -> Msg {
        match self {
            Message::KeepAlive => Msg::KeepAlive,
            Message::Choke => Msg::Choke,
            Message::Unchoke => Msg::Unchoke,
            Message::Interested => Msg::Interested,
            Message::NotInterested => Msg::NotInterested,
            Message::Have { piece_index } => Msg::Have { piece_index: *piece_index },
            Message::Bitfield(b) => Msg::Bitfield(b@),
            Message::Request { index, begin, length } => Msg::Request {
                index: *index,
                begin: *begin,
                length: *length,
            },
            Message::Piece { index, begin, block } => Msg::Piece {
                index: *index,
                begin: *begin,
                block: block@,
            },
            Message::Cancel { index, begin, length } => Msg::Cancel {
                index: *index,
                begin: *begin,
                length: *length,
            },
            Message::Port { listen_port } => Msg::Port { listen_port: *listen_port },
            Message::Extended { msg_id, payload } => Msg::Extended {
                msg_id: *msg_id,
                payload: payload@,
            },
        }
    }
}

/// Why a frame was refused.
#[derive(Debug)]
pub struct FrameError {
    pub reason: &'static str,
}

/// What decoding the front of a buffer gives.
pub enum FrameOutcome {
    /// Not a whole frame yet.
    NeedMore,
    /// A message and the number of bytes its frame takes.
    Frame(Msg, nat),
    Invalid(Seq<char>),
}

/// The message that id `id` with payload `p` stands for.
pub open spec fn message_of(id: u8, p: Seq<u8>) -> Result<Msg, Seq<char>> {
    if id == 0 {
        if p.len() != 0 { Err("Choke payload must be 0"@) } else { Ok(Msg::Choke) }
    } else if id == 1 {
        if p.len() != 0 { Err("Unchoke payload must be 0"@) } else { Ok(Msg::Unchoke) }
    } else if id == 2 {
        if p.len() != 0 { Err("Interested payload must be 0"@) } else { Ok(Msg::Interested) }
    } else if id == 3 {
        if p.len() != 0 {
            Err("NotInterested payload must be 0"@)
        } else {
            Ok(Msg::NotInterested)
        }
    } else if id == 4 {
        if p.len() != 4 {
            Err("Have must have 4 byte payload"@)
        } else {
            Ok(Msg::Have { piece_index: be32(p) as u32 })
        }
    } else if id == 5 {
        Ok(Msg::Bitfield(p))
    } else if id == 6 {
        if p.len() != 12 {
            Err("Request must have 12 byte payload"@)
        } else {
            Ok(
                Msg::Request {
                    index: be32(p) as u32,
                    begin: be32(p.subrange(4, 8)) as u32,
                    length: be32(p.subrange(8, 12)) as u32,
                },
            )
        }
    } else if id == 7 {
        if p.len() < 8 {
            Err("Piece must have at least 8 bytes payload"@)
        } else {
            Ok(
                Msg::Piece {
                    index: be32(p) as u32,
                    begin: be32(p.subrange(4, 8)) as u32,
                    block: p.subrange(8, p.len() as int),
                },
            )
        }
    } else if id == 8 {
        if p.len() != 12 {
            Err("Cancel must have 12 byte payload"@)
        } else {
            Ok(
                Msg::Cancel {
                    index: be32(p) as u32,
                    begin: be32(p.subrange(4, 8)) as u32,
                    length: be32(p.subrange(8, 12)) as u32,
                },
            )
        }
    } else if id == 9 {
        if p.len() != 2 {
            Err("Port must have 2 byte payload"@)
        } else {
            Ok(Msg::Port { listen_port: be16(p) as u16 })
        }
    } else if id == 20 {
        if p.len() < 1 {
            Err("Extended message needs extended msg_id"@)
        } else {
            Ok(Msg::Extended { msg_id: p[0], payload: p.subrange(1, p.len() as int) })
        }
    } else {
        // unknown ids are skipped, standing in as a keep-alive
        Ok(Msg::KeepAlive)
    }
}

/// Decoding the frame at the front of `s`.
pub open spec fn spec_decode_frame(s: Seq<u8>) -> FrameOutcome {
    if s.len() < 4 {
        FrameOutcome::NeedMore
    } else {
        let length = be32(s.subrange(0, 4));
        if length > MAX_FRAME_SIZE {
            FrameOutcome::Invalid("frame too large"@)
        } else if s.len() < 4 + length {
            FrameOutcome::NeedMore
        } else if length == 0 {
            FrameOutcome::Frame(Msg::KeepAlive, 4)
        } else {
            match message_of(s[4], s.subrange(5, (4 + length) as int)) {
                Ok(m) => FrameOutcome::Frame(m, 4 + length),
                Err(e) => FrameOutcome::Invalid(e),
            }
        }
    }
}

/// The frame of a message.
pub open spec fn spec_encode_message(m: Msg) -> Seq<u8> {
    match m {
        Msg::KeepAlive => be32_bytes(0),
        Msg::Choke => be32_bytes(1) + seq![0u8],
        Msg::Unchoke => be32_bytes(1) + seq![1u8],
        Msg::Interested => be32_bytes(1) + seq![2u8],
        Msg::NotInterested => be32_bytes(1) + seq![3u8],
        Msg::Have { piece_index } => be32_bytes(5) + seq![4u8] + be32_bytes(piece_index),
        Msg::Bitfield(b) => be32_bytes((1 + (b.len() as u32)) as u32) + seq![5u8] + b,
        Msg::Request { index, begin, length } => be32_bytes(13) + seq![6u8] + be32_bytes(index)
            + be32_bytes(begin) + be32_bytes(length),
        Msg::Piece { index, begin, block } => be32_bytes((9 + (block.len() as u32)) as u32) + seq![
            7u8,
        ] + be32_bytes(index) + be32_bytes(begin) + block,
        Msg::Cancel { index, begin, length } => be32_bytes(13) + seq![8u8] + be32_bytes(index)
            + be32_bytes(begin) + be32_bytes(length),
        Msg::Port { listen_port } => be32_bytes(3) + seq![9u8] + be16_bytes(listen_port),
        Msg::Extended { msg_id, payload } => be32_bytes((2 + (payload.len() as u32)) as u32)
            + seq![20u8, msg_id] + payload,
    }
}

/// The length field of a message's frame does not overflow `u32`.
pub open spec fn encodable(m: Msg) -> bool {
    match m {
        Msg::Bitfield(b) => (b.len() as u32) + 1 <= u32::MAX,
        Msg::Piece { block, .. } => (block.len() as u32) + 9 <= u32::MAX,
        Msg::Extended { payload, .. } => (payload.len() as u32) + 2 <= u32::MAX,
        _ => true,
    }
}

fn bad_data(reason: &'static str) -> (e: FrameError)
    ensures
        e.reason@ == reason@,
{
    FrameError { reason }
}

fn copy_range(s: &[u8], from: usize, to: usize) -> (r: Vec<u8>)
    requires
        from <= to <= s@.len(),
    ensures
        r@ == s@.subrange(from as int, to as int),
{
    vstd::slice::slice_to_vec(&s[from..to])
}

pub struct MessageCodec {}

impl MessageCodec {
    pub fn new() -> Self {
        Self {}
    }

    /// Decodes the frame at the front of `src`: `None` while it is incomplete, otherwise the
    /// message and the number of bytes it takes.
    pub fn decode(&mut self, src: &[u8]) -> (r: Result<Option<(Message, usize)>, FrameError>)
        ensures
            match (r, spec_decode_frame(src@)) {
                (Ok(None), FrameOutcome::NeedMore) => true,
                (Ok(Some((m, n))), FrameOutcome::Frame(mv, k)) => m@ == mv && n == k,
                (Err(e), FrameOutcome::Invalid(reason)) => e.reason@ == reason,
                _ => false,
            },
    {
        if src.len() < 4 {
            return Ok(None);
        }
        let length = read_be32(src, 0) as usize;
        if length > MAX_FRAME_SIZE {
            return Err(bad_data("frame too large"));
        }
        if src.len() < 4 + length {
            return Ok(None);
        }
        if length == 0 {
            return Ok(Some((Message::KeepAlive, 4)));
        }
        let msg_id = src[4];
        let payload_len = length - 1;
        let end = 4 + length;
        let ghost p = src@.subrange(5, end as int);
        let msg = if msg_id == 0 {
            if payload_len != 0 {
                return Err(bad_data("Choke payload must be 0"));
            }
            Message::Choke
        } else if msg_id == 1 {
            if payload_len != 0 {
                return Err(bad_data("Unchoke payload must be 0"));
            }
            Message::Unchoke
        } else if msg_id == 2 {
            if payload_len != 0 {
                return Err(bad_data("Interested payload must be 0"));
            }
            Message::Interested
        } else if msg_id == 3 {
            if payload_len != 0 {
                return Err(bad_data("NotInterested payload must be 0"));
            }
            Message::NotInterested
        } else if msg_id == 4 {
            if payload_len != 4 {
                return Err(bad_data("Have must have 4 byte payload"));
            }
            assert(src@.subrange(5, 9) =~= p);
            Message::Have { piece_index: read_be32(src, 5) }
        } else if msg_id == 5 {
            Message::Bitfield(copy_range(src, 5, end))
        } else if msg_id == 6 {
            if payload_len != 12 {
                return Err(bad_data("Request must have 12 byte payload"));
            }
            assert(src@.subrange(5, 9) =~= p.subrange(0, 4));
            assert(src@.subrange(9, 13) =~= p.subrange(4, 8));
            assert(src@.subrange(13, 17) =~= p.subrange(8, 12));
            Message::Request {
                index: read_be32(src, 5),
                begin: read_be32(src, 9),
                length: read_be32(src, 13),
            }
        } else if msg_id == 7 {
            if payload_len < 8 {
                return Err(bad_data("Piece must have at least 8 bytes payload"));
            }
            assert(src@.subrange(5, 9) =~= p.subrange(0, 4));
            assert(src@.subrange(9, 13) =~= p.subrange(4, 8));
            assert(src@.subrange(13, end as int) =~= p.subrange(8, p.len() as int));
            let index = read_be32(src, 5);
            let begin = read_be32(src, 9);
            Message::Piece { index, begin, block: copy_range(src, 13, end) }
        } else if msg_id == 8 {
            if payload_len != 12 {
                return Err(bad_data("Cancel must have 12 byte payload"));
            }
            assert(src@.subrange(5, 9) =~= p.subrange(0, 4));
            assert(src@.subrange(9, 13) =~= p.subrange(4, 8));
            assert(src@.subrange(13, 17) =~= p.subrange(8, 12));
            Message::Cancel {
                index: read_be32(src, 5),
                begin: read_be32(src, 9),
                length: read_be32(src, 13),
            }
        } else if msg_id == 9 {
            if payload_len != 2 {
                return Err(bad_data("Port must have 2 byte payload"));
            }
            assert(src@.subrange(5, 7) =~= p);
            Message::Port { listen_port: read_be16(src, 5) }
        } else if msg_id == 20 {
            if payload_len < 1 {
                return Err(bad_data("Extended message needs extended msg_id"));
            }
            assert(src@.subrange(6, end as int) =~= p.subrange(1, p.len() as int));
            Message::Extended { msg_id: src[5], payload: copy_range(src, 6, end) }
        } else {
            Message::KeepAlive
        };
        Ok(Some((msg, end)))
    }

    /// Appends the frame of `item` to `dst`.
    pub fn encode(&mut self, item: Message, dst: &mut Vec<u8>) -> (r: Result<(), FrameError>)
        requires
            encodable(item@),
        ensures
            r is Ok,
            final(dst)@ == old(dst)@ + spec_encode_message(item@),
    {
        encode_message(&item, dst);
        Ok(())
    }
}

impl Default for MessageCodec {
    fn default() -> (r: Self)
        ensures
            r == (MessageCodec {}),
    {
        Self::new()
    }
}

fn push_slice(out: &mut Vec<u8>, b: &[u8])
    ensures
        final(out)@ == old(out)@ + b@,
{
    let mut i: usize = 0;
    while i < b.len()
        invariant
            0 <= i <= b.len(),
            out@ == old(out)@ + b@.subrange(0, i as int),
        decreases b.len() - i,
    {
        out.push(b[i]);
        i = i + 1;
        assert(out@ =~= old(out)@ + b@.subrange(0, i as int));
    }
    assert(b@.subrange(0, b.len() as int) =~= b@);
}

/// Appends the frame of `item` to `dst`.
pub fn encode_message(item: &Message, dst: &mut Vec<u8>)
    requires
        encodable(item@),
    ensures
        final(dst)@ == old(dst)@ + spec_encode_message(item@),
{
    match item {
        Message::KeepAlive => {
            push_be32(dst, 0);
        },
        Message::Choke => {
            push_be32(dst, 1);
            dst.push(0);
        },
        Message::Unchoke => {
            push_be32(dst, 1);
            dst.push(1);
        },
        Message::Interested => {
            push_be32(dst, 1);
            dst.push(2);
        },
        Message::NotInterested => {
            push_be32(dst, 1);
            dst.push(3);
        },
        Message::Have { piece_index } => {
            push_be32(dst, 5);
            dst.push(4);
            push_be32(dst, *piece_index);
        },
        Message::Bitfield(bitfield) => {
            push_be32(dst, 1 + bitfield.len() as u32);
            dst.push(5);
            push_slice(dst, bitfield.as_slice());
        },
        Message::Request { index, begin, length } => {
            push_be32(dst, 13);
            dst.push(6);
            push_be32(dst, *index);
            push_be32(dst, *begin);
            push_be32(dst, *length);
        },
        Message::Piece { index, begin, block } => {
            push_be32(dst, 9 + block.len() as u32);
            dst.push(7);
            push_be32(dst, *index);
            push_be32(dst, *begin);
            push_slice(dst, block.as_slice());
        },
        Message::Cancel { index, begin, length } => {
            push_be32(dst, 13);
            dst.push(8);
            push_be32(dst, *index);
            push_be32(dst, *begin);
            push_be32(dst, *length);
        },
        Message::Port { listen_port } => {
            push_be32(dst, 3);
            dst.push(9);
            push_be16(dst, *listen_port);
        },
        Message::Extended { msg_id, payload } => {
            push_be32(dst, 2 + payload.len() as u32);
            dst.push(20);
            dst.push(*msg_id);
            push_slice(dst, payload.as_slice());
        },
    }
    assert(dst@ =~= old(dst)@ + spec_encode_message(item@));
}

/// A frame fits the decoder's size limit.
pub open spec fn frame_fits(m: Msg) -> bool {
    spec_encode_message(m).len() <= 4 + MAX_FRAME_SIZE
}

/// Decoding gives back what encoding wrote: the frame of every message within the size limit
/// decodes to that message and is consumed whole.
pub proof fn law_message_roundtrip(m: Msg)
    requires
        frame_fits(m),
    ensures
        spec_decode_frame(spec_encode_message(m)) == FrameOutcome::Frame(
            m,
            spec_encode_message(m).len(),
        ),
{
    let e = spec_encode_message(m);
    let z = be32_bytes(0);
    lemma_be32_roundtrip(0);
    match m {
        Msg::KeepAlive => {
            assert(e.subrange(0, 4) =~= z);
        },
        Msg::Choke | Msg::Unchoke | Msg::Interested | Msg::NotInterested => {
            lemma_be32_roundtrip(1);
            assert(e.subrange(0, 4) =~= be32_bytes(1));
            assert(e.subrange(5, 5) =~= Seq::<u8>::empty());
        },
        Msg::Have { piece_index } => {
            lemma_be32_roundtrip(5);
            lemma_be32_roundtrip(piece_index);
            assert(e.subrange(0, 4) =~= be32_bytes(5));
            assert(e.subrange(5, 9) =~= be32_bytes(piece_index));
        },
        Msg::Bitfield(b) => {
            let l = (1 + (b.len() as u32)) as u32;
            assert(l == 1 + b.len());
            lemma_be32_roundtrip(l);
            assert(e.subrange(0, 4) =~= be32_bytes(l));
            assert(e.subrange(5, 4 + l) =~= b);
        },
        Msg::Request { index, begin, length } | Msg::Cancel { index, begin, length } => {
            lemma_be32_roundtrip(13);
            lemma_be32_roundtrip(index);
            lemma_be32_roundtrip(begin);
            lemma_be32_roundtrip(length);
            assert(e.subrange(0, 4) =~= be32_bytes(13));
            let p = e.subrange(5, 17);
            assert(p.subrange(0, 4) =~= be32_bytes(index));
            assert(p.subrange(4, 8) =~= be32_bytes(begin));
            assert(p.subrange(8, 12) =~= be32_bytes(length));
        },
        Msg::Piece { index, begin, block } => {
            let l = (9 + (block.len() as u32)) as u32;
            assert(l == 9 + block.len());
            lemma_be32_roundtrip(l);
            lemma_be32_roundtrip(index);
            lemma_be32_roundtrip(begin);
            assert(e.subrange(0, 4) =~= be32_bytes(l));
            let p = e.subrange(5, 4 + l);
            assert(p.subrange(0, 4) =~= be32_bytes(index));
            assert(p.subrange(4, 8) =~= be32_bytes(begin));
            assert(p.subrange(8, p.len() as int) =~= block);
        },
        Msg::Port { listen_port } => {
            lemma_be32_roundtrip(3);
            lemma_be16_roundtrip(listen_port);
            assert(e.subrange(0, 4) =~= be32_bytes(3));
            assert(e.subrange(5, 7) =~= be16_bytes(listen_port));
        },
        Msg::Extended { msg_id, payload } => {
            let l = (2 + (payload.len() as u32)) as u32;
            assert(l == 2 + payload.len());
            lemma_be32_roundtrip(l);
            assert(e.subrange(0, 4) =~= be32_bytes(l));
            let p = e.subrange(5, 4 + l);
            assert(p.subrange(1, p.len() as int) =~= payload);
        },
    }
}

/// Every message but the keep-alive is framed with its fixed wire id (BEP 3) at byte 4:
/// choke 0, unchoke 1, interested 2, not interested 3, have 4, bitfield 5, request 6, piece 7,
/// cancel 8, port 9, extended 20.
pub proof fn law_message_ids(m: Msg)
    requires
        !(m is KeepAlive),
    ensures
        spec_encode_message(m).len() >= 5,
        spec_encode_message(m)[4] == (match m {
            Msg::Choke => 0u8,
            Msg::Unchoke => 1u8,
            Msg::Interested => 2u8,
            Msg::NotInterested => 3u8,
            Msg::Have { .. } => 4u8,
            Msg::Bitfield(_) => 5u8,
            Msg::Request { .. } => 6u8,
            Msg::Piece { .. } => 7u8,
            Msg::Cancel { .. } => 8u8,
            Msg::Port { .. } => 9u8,
            Msg::Extended { .. } => 20u8,
            Msg::KeepAlive => 0u8,
        }),
{
}

/// A frame decodes to a message other than the keep-alive only from the wire id (BEP 3) of that
/// message at byte 4; a request's and a cancel's fields are read from bytes 5, 9 and 13.
pub proof fn law_frame_ids(s: Seq<u8>)
    ensures
        match spec_decode_frame(s) {
            FrameOutcome::Frame(m, _) => !(m is KeepAlive) ==> s.len() >= 5 && s[4] == (match m {
            Msg::Choke => 0u8,
            Msg::Unchoke => 1u8,
            Msg::Interested => 2u8,
            Msg::NotInterested => 3u8,
            Msg::Have { .. } => 4u8,
            Msg::Bitfield(_) => 5u8,
            Msg::Request { .. } => 6u8,
            Msg::Piece { .. } => 7u8,
            Msg::Cancel { .. } => 8u8,
            Msg::Port { .. } => 9u8,
            Msg::Extended { .. } => 20u8,
            Msg::KeepAlive => 0u8,
            }),
            _ => true,
        },
        spec_decode_frame(s) matches FrameOutcome::Frame(Msg::Request { index, begin, length }, n) ==> n
            == 17 && index == be32(s.subrange(5, 9)) && begin == be32(s.subrange(9, 13)) && length
            == be32(s.subrange(13, 17)),
        spec_decode_frame(s) matches FrameOutcome::Frame(Msg::Cancel { index, begin, length }, n) ==> n
            == 17 && index == be32(s.subrange(5, 9)) && begin == be32(s.subrange(9, 13)) && length
            == be32(s.subrange(13, 17)),
{
    if s.len() >= 4 {
        let length = be32(s.subrange(0, 4));
        if length <= MAX_FRAME_SIZE && s.len() >= 4 + length && length != 0 {
            let p = s.subrange(5, (4 + length) as int);
            if p.len() == 12 {
                assert(p.subrange(0, 4) =~= s.subrange(5, 9));
                assert(p.subrange(4, 8) =~= s.subrange(9, 13));
                assert(p.subrange(8, 12) =~= s.subrange(13, 17));
                assert(be32(p) == be32(p.subrange(0, 4)));
            }
        }
    }
}

} // verus!
