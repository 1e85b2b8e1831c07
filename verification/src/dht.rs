//! The DHT (BEP 5): node identity and the kind of an incoming KRPC message.
use vstd::prelude::*;
use crate::bencode::{decode, reports_fault, spec_decode, BVal, DecodeFault};
use crate::error::CoreError;
use crate::random::random_u8;
use crate::torrent::{field, opt_text};

verus! {

/// A DHT node: its 160-bit id and the port it listens on.
pub struct DhtNode {
    pub id: [u8; 20],
    pub port: u16,
}

/// The kind of a KRPC message, from its `y` field.
#[derive(Debug, Clone, Copy, PartialEq, Eq, Structural)]
pub enum KrpcMessage {
    Query,
    Response,
    Error,
}

/// Why a KRPC message is refused.
pub enum KrpcFault {
    Decode(DecodeFault),
    Other(Seq<char>),
}

/// What a KRPC message's bytes say it is.
pub open spec fn spec_krpc(data: Seq<u8>) -> Result<KrpcMessage, KrpcFault> {
    match spec_decode(data) {
        Err(f) => Err(KrpcFault::Decode(f)),
        Ok(BVal::Dict(d)) => match opt_text(field(d, "y"@)) {
            None => Err(KrpcFault::Other("DHT missing y"@)),
            Some(y) => if y == "q"@ {
                Ok(KrpcMessage::Query)
            } else if y == "r"@ {
                Ok(KrpcMessage::Response)
            } else if y == "e"@ {
                Ok(KrpcMessage::Error)
            } else {
                Err(KrpcFault::Other("DHT unknown type"@))
            },
        },
        Ok(_) => Err(KrpcFault::Other("DHT non-dict"@)),
    }
}

impl DhtNode {
    /// A node listening on `port`, with a random id.
    pub fn new(port: u16) -> (n: Self)
        ensures
            n.port == port,
    {
        let mut id = [0u8; 20];
        let mut i: usize = 0;
        while i < 20
            invariant
                0 <= i <= 20,
                id@.len() == 20,
            decreases 20 - i,
        {
            id.set(i, random_u8());
            i = i + 1;
        }
        DhtNode { id, port }
    }

    /// Reads the kind of an incoming KRPC query, response or error.
    pub fn parse_krpc(data: &[u8]) -> (r: Result<KrpcMessage, CoreError>)
        ensures
            match spec_krpc(data@) {
                Ok(m) => r == Ok::<KrpcMessage, CoreError>(m),
                Err(KrpcFault::Decode(f)) => r matches Err(e) && reports_fault(e, f),
                Err(KrpcFault::Other(m)) => r matches Err(CoreError::Other(s)) && s@ == m,
            },
    {
        let root = match decode(data) {
            Ok(v) => v,
            Err(e) => return Err(e),
        };
        let dict = match root.as_dict() {
            Some(d) => d,
            None => return Err(CoreError::Other(String::from_str("DHT non-dict"))),
        };
        let msg_type = match dict.get("y".as_bytes()) {
            Some(v) => match v.as_str() {
                Some(t) => t,
                None => return Err(CoreError::Other(String::from_str("DHT missing y"))),
            },
            None => return Err(CoreError::Other(String::from_str("DHT missing y"))),
        };
        let t = String::from_str(msg_type);
        if t == String::from_str("q") {
            Ok(KrpcMessage::Query)
        } else if t == String::from_str("r") {
            Ok(KrpcMessage::Response)
        } else if t == String::from_str("e") {
            Ok(KrpcMessage::Error)
        } else {
            Err(CoreError::Other(String::from_str("DHT unknown type")))
        }
    }
}

} // verus!
