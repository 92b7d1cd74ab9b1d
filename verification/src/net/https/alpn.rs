//! Application protocols and their names in TLS.
use vstd::prelude::*;

use crate::bytes::{constant_time_eq, push_bytes};
use crate::text::is_text;

verus! {

/// An application protocol.
#[derive(Debug, Clone, Copy, PartialEq, Eq, Hash, Structural)]
pub enum AlpnProtocol {
    Http2,
    Http11,
    Http10,
    Http3,
}

impl View for AlpnProtocol {
    type V = AlpnProtocol;

    open spec fn view(&self) -> AlpnProtocol {
        *self
    }
}

/// The name of a protocol.
pub open spec fn protocol_name(p: AlpnProtocol) -> Seq<char> {
    match p {
        AlpnProtocol::Http2 => "h2"@,
        AlpnProtocol::Http11 => "http/1.1"@,
        AlpnProtocol::Http10 => "http/1.0"@,
        AlpnProtocol::Http3 => "h3"@,
    }
}

/// The protocol with a name.
pub open spec fn protocol_named(s: Seq<char>) -> Option<AlpnProtocol> {
    if s == "h2"@ {
        Some(AlpnProtocol::Http2)
    } else if s == "http/1.1"@ {
        Some(AlpnProtocol::Http11)
    } else if s == "http/1.0"@ {
        Some(AlpnProtocol::Http10)
    } else if s == "h3"@ {
        Some(AlpnProtocol::Http3)
    } else {
        None
    }
}

/// The name of a protocol in octets.
pub open spec fn protocol_octets(p: AlpnProtocol) -> Seq<u8> {
    match p {
        AlpnProtocol::Http2 => seq![104u8, 50],
        AlpnProtocol::Http11 => seq![104u8, 116, 116, 112, 47, 49, 46, 49],
        AlpnProtocol::Http10 => seq![104u8, 116, 116, 112, 47, 49, 46, 48],
        AlpnProtocol::Http3 => seq![104u8, 51],
    }
}

/// The protocol with a name in octets.
pub open spec fn protocol_in(s: Seq<u8>) -> Option<AlpnProtocol> {
    if s == protocol_octets(AlpnProtocol::Http2) {
        Some(AlpnProtocol::Http2)
    } else if s == protocol_octets(AlpnProtocol::Http11) {
        Some(AlpnProtocol::Http11)
    } else if s == protocol_octets(AlpnProtocol::Http10) {
        Some(AlpnProtocol::Http10)
    } else if s == protocol_octets(AlpnProtocol::Http3) {
        Some(AlpnProtocol::Http3)
    } else {
        None
    }
}

/// The names of the first `n` protocols, each behind its length.
pub open spec fn protocol_list(protocols: Seq<AlpnProtocol>, n: int) -> Seq<u8>
    decreases n,
{
    if n <= 0 {
        seq![]
    } else {
        protocol_list(protocols, n - 1).push(protocol_octets(protocols[n - 1]).len() as u8)
            + protocol_octets(protocols[n - 1])
    }
}

impl AlpnProtocol {
    pub fn name(&self) -> (r: &'static str)
        ensures
            r@ == protocol_name(*self),
    {
        match self {
            AlpnProtocol::Http2 => "h2",
            AlpnProtocol::Http11 => "http/1.1",
            AlpnProtocol::Http10 => "http/1.0",
            AlpnProtocol::Http3 => "h3",
        }
    }

    pub fn from_name(s: &[char]) -> (r: Option<Self>)
        ensures
            r == protocol_named(s@),
    {
        if is_text(s, "h2") {
            Some(AlpnProtocol::Http2)
        } else if is_text(s, "http/1.1") {
            Some(AlpnProtocol::Http11)
        } else if is_text(s, "http/1.0") {
            Some(AlpnProtocol::Http10)
        } else if is_text(s, "h3") {
            Some(AlpnProtocol::Http3)
        } else {
            None
        }
    }

    /// The name in octets.
    pub fn wire_format(&self) -> (r: Vec<u8>)
        ensures
            r@ == protocol_octets(*self),
    {
        let out = match self {
            AlpnProtocol::Http2 => vec![104u8, 50],
            AlpnProtocol::Http11 => vec![104u8, 116, 116, 112, 47, 49, 46, 49],
            AlpnProtocol::Http10 => vec![104u8, 116, 116, 112, 47, 49, 46, 48],
            AlpnProtocol::Http3 => vec![104u8, 51],
        };
        assert(out@ =~= protocol_octets(*self));
        out
    }

    pub fn from_wire(s: &[u8]) -> (r: Option<Self>)
        ensures
            r == protocol_in(s@),
    {
        if constant_time_eq(s, AlpnProtocol::Http2.wire_format().as_slice()) {
            Some(AlpnProtocol::Http2)
        } else if constant_time_eq(s, AlpnProtocol::Http11.wire_format().as_slice()) {
            Some(AlpnProtocol::Http11)
        } else if constant_time_eq(s, AlpnProtocol::Http10.wire_format().as_slice()) {
            Some(AlpnProtocol::Http10)
        } else if constant_time_eq(s, AlpnProtocol::Http3.wire_format().as_slice()) {
            Some(AlpnProtocol::Http3)
        } else {
            None
        }
    }
}

/// Writes a list of protocols, each name behind its length.
pub fn supported_protocols_wire(protocols: &Vec<AlpnProtocol>) -> (r: Vec<u8>)
    ensures
        r@ == protocol_list(protocols@, protocols@.len() as int),
{
    let mut out: Vec<u8> = Vec::new();
    let mut i: usize = 0;
    while i < protocols.len()
        invariant
            i <= protocols@.len(),
            out@ == protocol_list(protocols@, i as int),
        decreases protocols@.len() - i,
    {
        let name = protocols[i].wire_format();
        assert(name@.len() <= 8);
        out.push(name.len() as u8);
        push_bytes(&mut out, name.as_slice());
        i = i + 1;
    }
    out
}

/// A protocol is found again by its name, in words and in octets.
pub proof fn law_protocol_names(p: AlpnProtocol)
    ensures
        protocol_named(protocol_name(p)) == Some(p),
        protocol_in(protocol_octets(p)) == Some(p),
{
    reveal_strlit("h2");
    reveal_strlit("http/1.1");
    reveal_strlit("http/1.0");
    reveal_strlit("h3");
    assert("h2"@[1] == '2' && "h3"@[1] == '3');
    assert("http/1.1"@[7] == '1' && "http/1.0"@[7] == '0');
    assert("h2"@.len() == 2 && "http/1.1"@.len() == 8);
    assert(protocol_octets(AlpnProtocol::Http2)[1] == 50 && protocol_octets(AlpnProtocol::Http3)[1] == 51);
    assert(protocol_octets(AlpnProtocol::Http11)[7] == 49 && protocol_octets(AlpnProtocol::Http10)[7]
        == 48);
    assert(protocol_octets(AlpnProtocol::Http2).len() == 2 && protocol_octets(
        AlpnProtocol::Http11,
    ).len() == 8);
}

}
