//! Hello messages and the extensions in them.
use vstd::prelude::*;
use vstd::slice::slice_subrange;
use vstd::string::StringSliceAdditionalSpecFns;
use vstd::utf8::encode_utf8;

use crate::bytes::{
    be16, be32, constant_time_eq, copy_range, from_be16, law_be16_roundtrip, push_be16, push_be32,
    push_bytes, read_be16,
};
use crate::net::https::alpn::{
    protocol_in, protocol_list, protocol_octets, supported_protocols_wire, AlpnProtocol,
};
use crate::net::https::tls::certificate::{cut16, push_cut16};
use crate::net::https::tls::config::{
    DecodeFault, HandshakeFault, TlsError, TlsVersion, TLS_VERSION_1_2, TLS_VERSION_1_3,
};
use crate::net::https::tls::session::{age_of, TlsSession};

verus! {

/// The group of the keys that are exchanged.
pub const GROUP_X25519: u16 = 0x001d;

/// An extension.
pub open spec fn extension(t: u16, data: Seq<u8>) -> Seq<u8> {
    be16(t) + be16(cut16(data.len())) + data
}

pub fn push_extension(out: &mut Vec<u8>, t: u16, data: &[u8])
    ensures
        final(out)@ == old(out)@ + extension(t, data@),
{
    push_be16(out, t);
    push_cut16(out, data.len());
    push_bytes(out, data);
    assert(out@ =~= old(out)@ + extension(t, data@));
}

/// The octets of the first `n` suites.
pub open spec fn suite_octets(suites: Seq<u16>, n: int) -> Seq<u8>
    decreases n,
{
    if n <= 0 {
        seq![]
    } else {
        suite_octets(suites, n - 1) + be16(suites[n - 1])
    }
}

/// The extension that names the server; nothing where there is no name.
pub open spec fn name_extension(server_name: Option<Seq<char>>) -> Seq<u8> {
    match server_name {
        Some(n) => if n.len() == 0 {
            seq![]
        } else {
            let host = encode_utf8(n);
            extension(
                0,
                be16(cut16(3 + host.len())) + seq![0u8] + be16(cut16(host.len())) + host,
            )
        },
        None => seq![],
    }
}

pub open spec fn groups_extension() -> Seq<u8> {
    extension(10, be16(2) + be16(GROUP_X25519))
}

pub open spec fn signatures_extension() -> Seq<u8> {
    extension(13, be16(6) + be16(0x0804) + be16(0x0401) + be16(0x0403))
}

/// The extension that offers protocols; nothing where there are none.
pub open spec fn protocols_extension(protocols: Seq<AlpnProtocol>) -> Seq<u8> {
    if protocols.len() == 0 {
        seq![]
    } else {
        alpn_extension(protocols)
    }
}

/// The extension that offers protocols.
pub open spec fn alpn_extension(protocols: Seq<AlpnProtocol>) -> Seq<u8> {
    let list = protocol_list(protocols, protocols.len() as int);
    extension(16, be16(cut16(list.len())) + list)
}

pub open spec fn versions_extension() -> Seq<u8> {
    extension(43, seq![2u8] + be16(TLS_VERSION_1_3))
}

/// The extension that offers a key.
pub open spec fn key_extension(key: Seq<u8>) -> Seq<u8> {
    extension(
        51,
        be16(cut16(4 + key.len())) + be16(GROUP_X25519) + be16(cut16(key.len())) + key,
    )
}

pub open spec fn modes_extension() -> Seq<u8> {
    extension(45, seq![1u8, 1u8])
}

/// The extension that offers to resume a session; nothing where there is no ticket.
pub open spec fn resumption_extension(ticket: Option<Seq<u8>>, age: u32) -> Seq<u8> {
    match ticket {
        Some(t) => extension(
            41,
            be16(cut16(6 + t.len())) + be16(cut16(t.len())) + t + be32(age) + be16(33) + seq![32u8]
                + Seq::new(32, |i: int| 0u8),
        ),
        None => seq![],
    }
}

/// A client's hello.
pub open spec fn client_hello(random: Seq<u8>, session_id: Seq<u8>, suites: Seq<u16>, extensions: Seq<u8>) -> Seq<
    u8,
> {
    be16(TLS_VERSION_1_2) + random + seq![(session_id.len() % 0x100) as u8] + session_id + be16(
        cut16(suites.len() * 2),
    ) + suite_octets(suites, suites.len() as int) + seq![1u8, 0u8] + be16(cut16(extensions.len()))
        + extensions
}

/// The extensions of a client that begins a session.
pub open spec fn first_extensions(
    server_name: Option<Seq<char>>,
    protocols: Seq<AlpnProtocol>,
    key: Seq<u8>,
) -> Seq<u8> {
    name_extension(server_name) + groups_extension() + signatures_extension() + protocols_extension(
        protocols,
    ) + versions_extension() + key_extension(key) + modes_extension()
}

/// The extensions of a client that resumes a session.
pub open spec fn resuming_extensions(
    server_name: Option<Seq<char>>,
    ticket: Option<Seq<u8>>,
    age: u32,
    key: Seq<u8>,
) -> Seq<u8> {
    versions_extension() + key_extension(key) + modes_extension() + resumption_extension(ticket, age)
        + name_extension(server_name)
}

pub open spec fn opt_name(o: Option<String>) -> Option<Seq<char>> {
    match o {
        Some(s) => Some(s@),
        None => None,
    }
}

fn push_name_extension(out: &mut Vec<u8>, server_name: &Option<String>)
    ensures
        final(out)@ == old(out)@ + name_extension(opt_name(*server_name)),
{
    match server_name {
        Some(n) => {
            let chars = crate::text::chars_of(n.as_str());
            if chars.len() > 0 {
                let host = n.as_str().as_bytes();
                let mut data: Vec<u8> = Vec::new();
                let size: usize = host.len() % 0x1_0000;
                push_be16(&mut data, ((3 + size) % 0x1_0000) as u16);
                data.push(0);
                push_cut16(&mut data, host.len());
                push_bytes(&mut data, host);
                assert(cut16(3 + host@.len()) == ((3 + size) % 0x1_0000) as u16);
                assert(data@ =~= be16(cut16(3 + host@.len())) + seq![0u8] + be16(cut16(host@.len()))
                    + host@);
                push_extension(out, 0, data.as_slice());
            } else {
                assert(out@ =~= old(out)@ + name_extension(opt_name(*server_name)));
            }
        },
        None => {
            assert(out@ =~= old(out)@ + name_extension(opt_name(*server_name)));
        },
    }
}

fn push_groups_extension(out: &mut Vec<u8>)
    ensures
        final(out)@ == old(out)@ + groups_extension(),
{
    let mut data: Vec<u8> = Vec::new();
    push_be16(&mut data, 2);
    push_be16(&mut data, GROUP_X25519);
    assert(data@ =~= be16(2) + be16(GROUP_X25519));
    push_extension(out, 10, data.as_slice());
}

fn push_signatures_extension(out: &mut Vec<u8>)
    ensures
        final(out)@ == old(out)@ + signatures_extension(),
{
    let mut data: Vec<u8> = Vec::new();
    push_be16(&mut data, 6);
    push_be16(&mut data, 0x0804);
    push_be16(&mut data, 0x0401);
    push_be16(&mut data, 0x0403);
    assert(data@ =~= be16(6) + be16(0x0804) + be16(0x0401) + be16(0x0403));
    push_extension(out, 13, data.as_slice());
}

/// Writes the extension that offers protocols.
pub fn build_alpn_extension(protocols: &Vec<AlpnProtocol>) -> (r: Vec<u8>)
    ensures
        r@ == alpn_extension(protocols@),
{
    let list = supported_protocols_wire(protocols);
    let mut data: Vec<u8> = Vec::new();
    push_cut16(&mut data, list.len());
    push_bytes(&mut data, list.as_slice());
    assert(data@ =~= be16(cut16(list@.len())) + list@);
    let mut out: Vec<u8> = Vec::new();
    push_extension(&mut out, 16, data.as_slice());
    assert(out@ =~= alpn_extension(protocols@));
    out
}

fn push_versions_extension(out: &mut Vec<u8>)
    ensures
        final(out)@ == old(out)@ + versions_extension(),
{
    let mut data: Vec<u8> = Vec::new();
    data.push(2);
    push_be16(&mut data, TLS_VERSION_1_3);
    assert(data@ =~= seq![2u8] + be16(TLS_VERSION_1_3));
    push_extension(out, 43, data.as_slice());
}

fn push_key_extension(out: &mut Vec<u8>, key: &[u8])
    ensures
        final(out)@ == old(out)@ + key_extension(key@),
{
    let mut data: Vec<u8> = Vec::new();
    let size: usize = key.len() % 0x1_0000;
    push_be16(&mut data, ((4 + size) % 0x1_0000) as u16);
    push_be16(&mut data, GROUP_X25519);
    push_cut16(&mut data, key.len());
    push_bytes(&mut data, key);
    assert(cut16(4 + key@.len()) == ((4 + size) % 0x1_0000) as u16);
    assert(data@ =~= be16(cut16(4 + key@.len())) + be16(GROUP_X25519) + be16(cut16(key@.len())) + key@);
    push_extension(out, 51, data.as_slice());
}

fn push_modes_extension(out: &mut Vec<u8>)
    ensures
        final(out)@ == old(out)@ + modes_extension(),
{
    let data = vec![1u8, 1u8];
    assert(data@ =~= seq![1u8, 1u8]);
    push_extension(out, 45, data.as_slice());
}

fn push_resumption_extension(out: &mut Vec<u8>, ticket: &Option<Vec<u8>>, age: u32)
    ensures
        final(out)@ == old(out)@ + resumption_extension(
            crate::net::https::tls::session::opt_octets(*ticket),
            age,
        ),
{
    match ticket {
        Some(t) => {
            let mut data: Vec<u8> = Vec::new();
            let size: usize = t.len() % 0x1_0000;
            push_be16(&mut data, ((6 + size) % 0x1_0000) as u16);
            push_cut16(&mut data, t.len());
            push_bytes(&mut data, t.as_slice());
            push_be32(&mut data, age);
            push_be16(&mut data, 33);
            data.push(32);
            assert(cut16(6 + t@.len()) == ((6 + size) % 0x1_0000) as u16);
            let ghost lead = data@;
            assert(lead =~= be16(cut16(6 + t@.len())) + be16(cut16(t@.len())) + t@ + be32(age) + be16(33)
                + seq![32u8]);
            let mut i: usize = 0;
            while i < 32
                invariant
                    i <= 32,
                    data@ =~= lead + Seq::new(i as nat, |k: int| 0u8),
                decreases 32 - i,
            {
                data.push(0);
                i = i + 1;
            }
            push_extension(out, 41, data.as_slice());
        },
        None => {
            assert(out@ =~= old(out)@ + seq![]);
        },
    }
}

proof fn lemma_half(n: nat)
    ensures
        cut16(n * 2) == ((n % 0x8000) * 2) as u16,
{
    assert((n * 2) % 0x1_0000 == (n % 0x8000) * 2);
}

fn finish_client_hello(random: &[u8], session_id: &[u8], suites: &Vec<u16>, extensions: &[u8]) -> (r: Vec<
    u8,
>)
    ensures
        r@ == client_hello(random@, session_id@, suites@, extensions@),
{
    let mut out: Vec<u8> = Vec::new();
    push_be16(&mut out, TLS_VERSION_1_2);
    push_bytes(&mut out, random);
    out.push((session_id.len() % 0x100) as u8);
    push_bytes(&mut out, session_id);
    let half: usize = suites.len() % 0x8000;
    push_be16(&mut out, (half * 2) as u16);
    proof {
        lemma_half(suites@.len());
    }
    let ghost lead = be16(TLS_VERSION_1_2) + random@ + seq![(session_id@.len() % 0x100) as u8] + session_id@
        + be16(cut16(suites@.len() * 2));
    assert(out@ =~= lead);
    let mut i: usize = 0;
    assert(out@ =~= lead + suite_octets(suites@, 0));
    while i < suites.len()
        invariant
            i <= suites@.len(),
            out@ == lead + suite_octets(suites@, i as int),
        decreases suites@.len() - i,
    {
        push_be16(&mut out, suites[i]);
        assert(out@ =~= lead + suite_octets(suites@, i + 1));
        i = i + 1;
    }
    let ghost middle = out@;
    out.push(1);
    out.push(0);
    assert(out@ =~= middle + seq![1u8, 0u8]);
    push_cut16(&mut out, extensions.len());
    push_bytes(&mut out, extensions);
    out
}

/// Writes the hello of a client that begins a session.
pub fn build_client_hello(
    client_random: &[u8],
    suites: &Vec<u16>,
    server_name: &Option<String>,
    protocols: &Vec<AlpnProtocol>,
    public_key: &[u8],
) -> (r: Vec<u8>)
    ensures
        r@ == client_hello(
            client_random@,
            seq![],
            suites@,
            first_extensions(opt_name(*server_name), protocols@, public_key@),
        ),
{
    let mut ext: Vec<u8> = Vec::new();
    push_name_extension(&mut ext, server_name);
    push_groups_extension(&mut ext);
    push_signatures_extension(&mut ext);
    if protocols.len() > 0 {
        let alpn = build_alpn_extension(protocols);
        push_bytes(&mut ext, alpn.as_slice());
    }
    push_versions_extension(&mut ext);
    push_key_extension(&mut ext, public_key);
    push_modes_extension(&mut ext);
    assert(ext@ =~= first_extensions(opt_name(*server_name), protocols@, public_key@));
    let none: Vec<u8> = Vec::new();
    assert(none@ =~= seq![]);
    finish_client_hello(client_random, none.as_slice(), suites, ext.as_slice())
}

/// Writes the hello of a client that resumes a session.
pub fn build_resumption_client_hello(
    client_random: &[u8],
    suites: &Vec<u16>,
    server_name: &Option<String>,
    public_key: &[u8],
    session: &TlsSession,
    now: u128,
) -> (r: Vec<u8>)
    ensures
        r@ == client_hello(
            client_random@,
            session@.session_id,
            suites@,
            resuming_extensions(
                opt_name(*server_name),
                session@.ticket,
                age_of(session@.created_at, now),
                public_key@,
            ),
        ),
{
    let mut ext: Vec<u8> = Vec::new();
    push_versions_extension(&mut ext);
    push_key_extension(&mut ext, public_key);
    push_modes_extension(&mut ext);
    push_resumption_extension(&mut ext, &session.ticket, session.age(now));
    push_name_extension(&mut ext, server_name);
    assert(ext@ =~= resuming_extensions(
        opt_name(*server_name),
        session@.ticket,
        age_of(session@.created_at, now),
        public_key@,
    ));
    finish_client_hello(client_random, session.session_id.as_slice(), suites, ext.as_slice())
}

/// The extension with which a server tells the protocol it chose.
pub open spec fn chosen_extension(p: Option<AlpnProtocol>) -> Seq<u8> {
    match p {
        Some(p) => extension(16, be16(cut16(protocol_octets(p).len())) + protocol_octets(p)),
        None => seq![],
    }
}

/// A server's hello.
pub open spec fn server_hello(random: Seq<u8>, suite: u16, key: Seq<u8>, chosen: Option<AlpnProtocol>) -> Seq<
    u8,
> {
    let ext = extension(43, be16(TLS_VERSION_1_3)) + extension(
        51,
        be16(GROUP_X25519) + be16(cut16(key.len())) + key,
    ) + chosen_extension(chosen);
    be16(TLS_VERSION_1_2) + random + seq![0u8] + be16(suite) + seq![0u8] + be16(cut16(ext.len())) + ext
}

fn push_chosen_extension(out: &mut Vec<u8>, chosen: Option<AlpnProtocol>)
    ensures
        final(out)@ == old(out)@ + chosen_extension(chosen),
{
    match chosen {
        Some(p) => {
            let name = p.wire_format();
            let mut data: Vec<u8> = Vec::new();
            push_cut16(&mut data, name.len());
            push_bytes(&mut data, name.as_slice());
            assert(data@ =~= be16(cut16(name@.len())) + name@);
            push_extension(out, 16, data.as_slice());
        },
        None => {
            assert(out@ =~= old(out)@ + seq![]);
        },
    }
}

/// Writes a server's hello.
pub fn build_server_hello(
    server_random: &[u8],
    cipher_suite: u16,
    public_key: &[u8],
    negotiated: Option<AlpnProtocol>,
) -> (r: Vec<u8>)
    ensures
        r@ == server_hello(server_random@, cipher_suite, public_key@, negotiated),
{
    let mut ext: Vec<u8> = Vec::new();
    let mut data: Vec<u8> = Vec::new();
    push_be16(&mut data, TLS_VERSION_1_3);
    assert(data@ =~= be16(TLS_VERSION_1_3));
    push_extension(&mut ext, 43, data.as_slice());
    let mut share: Vec<u8> = Vec::new();
    push_be16(&mut share, GROUP_X25519);
    push_cut16(&mut share, public_key.len());
    push_bytes(&mut share, public_key);
    assert(share@ =~= be16(GROUP_X25519) + be16(cut16(public_key@.len())) + public_key@);
    push_extension(&mut ext, 51, share.as_slice());
    push_chosen_extension(&mut ext, negotiated);
    let mut out: Vec<u8> = Vec::new();
    push_be16(&mut out, TLS_VERSION_1_2);
    push_bytes(&mut out, server_random);
    out.push(0);
    push_be16(&mut out, cipher_suite);
    out.push(0);
    push_cut16(&mut out, ext.len());
    push_bytes(&mut out, ext.as_slice());
    assert(ext@ =~= extension(43, be16(TLS_VERSION_1_3)) + extension(51, share@) + chosen_extension(
        negotiated,
    ));
    assert(out@ =~= server_hello(server_random@, cipher_suite, public_key@, negotiated));
    out
}

/// The extensions that a server sends enciphered.
pub open spec fn encrypted_extensions(is_client: bool, chosen: Option<AlpnProtocol>, named: bool) -> Seq<u8> {
    let ext = if is_client {
        seq![]
    } else {
        chosen_extension(chosen) + (if named {
            extension(0, seq![])
        } else {
            seq![]
        })
    };
    be16(cut16(ext.len())) + ext
}

/// Writes the extensions that a server sends enciphered; `named` tells whether a server name is known.
pub fn build_encrypted_extensions(is_client: bool, negotiated: Option<AlpnProtocol>, named: bool) -> (r: Vec<
    u8,
>)
    ensures
        r@ == encrypted_extensions(is_client, negotiated, named),
{
    let mut ext: Vec<u8> = Vec::new();
    if !is_client {
        push_chosen_extension(&mut ext, negotiated);
        if named {
            let none: Vec<u8> = Vec::new();
            assert(none@ =~= seq![]);
            push_extension(&mut ext, 0, none.as_slice());
        }
    }
    let ghost e = if is_client {
        Seq::<u8>::empty()
    } else {
        chosen_extension(negotiated) + (if named {
            extension(0, seq![])
        } else {
            seq![]
        })
    };
    assert(ext@ =~= e);
    let mut out: Vec<u8> = Vec::new();
    push_cut16(&mut out, ext.len());
    push_bytes(&mut out, ext.as_slice());
    assert(out@ =~= encrypted_extensions(is_client, negotiated, named));
    out
}

/// What a client's hello says.
#[derive(Debug, Clone)]
pub struct ClientHello {
    pub random: Vec<u8>,
    pub ciphers: Vec<u16>,
    pub public_key: Vec<u8>,
    pub versions: Vec<u16>,
}

#[verifier::ext_equal]
pub struct ClientHelloView {
    pub random: Seq<u8>,
    pub ciphers: Seq<u16>,
    pub public_key: Seq<u8>,
    pub versions: Seq<u16>,
}

impl View for ClientHello {
    type V = ClientHelloView;

    open spec fn view(&self) -> ClientHelloView {
        ClientHelloView {
            random: self.random@,
            ciphers: self.ciphers@,
            public_key: self.public_key@,
            versions: self.versions@,
        }
    }
}

/// The numbers of two octets that stand at the beginning, as many as `room` octets begin and are all there.
pub open spec fn numbers_in(s: Seq<u8>, room: int) -> Seq<u16>
    decreases s.len(),
{
    if room <= 0 || s.len() < 2 {
        seq![]
    } else {
        seq![from_be16(s[0], s[1]) as u16] + numbers_in(s.skip(2), room - 2)
    }
}

/// The numbers of two octets that stand at the beginning, as many as `room` octets hold and are all there.
pub open spec fn whole_numbers_in(s: Seq<u8>, room: int) -> Seq<u16>
    decreases s.len(),
{
    if room < 2 || s.len() < 2 {
        seq![]
    } else {
        seq![from_be16(s[0], s[1]) as u16] + whole_numbers_in(s.skip(2), room - 2)
    }
}

/// The key that a client's extension offers; `known` where it offers none that is all there.
pub open spec fn client_key(data: Seq<u8>, known: Seq<u8>) -> Seq<u8> {
    if data.len() < 6 {
        known
    } else {
        let n = from_be16(data[4], data[5]) as int;
        if 6 + n > data.len() {
            known
        } else {
            data.subrange(6, 6 + n)
        }
    }
}

/// Key and versions that extensions give, added to those before. `room` is the length that was announced
/// for the extensions; a list of versions is read past the end of its extension, where it says so.
pub open spec fn client_extensions(
    rest: Seq<u8>,
    room: int,
    key: Seq<u8>,
    versions: Seq<u16>,
) -> (Seq<u8>, Seq<u16>)
    decreases rest.len(),
{
    if room < 4 || rest.len() < 4 {
        (key, versions)
    } else {
        let t = from_be16(rest[0], rest[1]);
        let n = from_be16(rest[2], rest[3]) as int;
        let tail = rest.skip(4);
        if n > tail.len() {
            (key, versions)
        } else {
            client_extensions(
                tail.skip(n),
                room - 4 - n,
                if t == 51 {
                    client_key(tail.take(n), key)
                } else {
                    key
                },
                if t == 43 && n >= 1 {
                    versions + whole_numbers_in(tail.skip(1), tail[0] as int)
                } else {
                    versions
                },
            )
        }
    }
}

/// What a client's hello says, if it can be read.
pub open spec fn client_hello_in(data: Seq<u8>) -> Result<ClientHelloView, TlsError> {
    if data.len() < 38 {
        Err(TlsError::DecodeError(DecodeFault::ClientHelloTooShort))
    } else {
        let at = 35 + data[34];
        if at + 2 > data.len() {
            Err(TlsError::DecodeError(DecodeFault::BadClientHello))
        } else {
            let n = from_be16(data[at], data[at + 1]) as int;
            let after = at + 2 + n;
            if after >= data.len() {
                Err(TlsError::DecodeError(DecodeFault::BadClientHello))
            } else {
                let ext = after + 1 + data[after];
                let (public_key, versions) = if ext + 2 <= data.len() {
                    client_extensions(
                        data.skip(ext + 2),
                        from_be16(data[ext], data[ext + 1]) as int,
                        seq![],
                        seq![],
                    )
                } else {
                    (seq![], seq![])
                };
                Ok(
                    ClientHelloView {
                        random: data.subrange(2, 34),
                        ciphers: numbers_in(data.skip(at + 2), n),
                        public_key,
                        versions: if versions.len() == 0 {
                            seq![from_be16(data[0], data[1]) as u16]
                        } else {
                            versions
                        },
                    },
                )
            }
        }
    }
}

fn read_numbers(s: &[u8], room: usize) -> (r: Vec<u16>)
    ensures
        r@ == numbers_in(s@, room as int),
{
    let mut out: Vec<u16> = Vec::new();
    let end: usize = s.len();
    let mut pos: usize = 0;
    let mut left: usize = room;
    assert(s@.skip(0) =~= s@);
    assert(out@ + numbers_in(s@, room as int) =~= numbers_in(s@, room as int));
    while left > 0 && end - pos >= 2
        invariant
            pos <= end == s@.len(),
            out@ + numbers_in(s@.skip(pos as int), left as int) == numbers_in(s@, room as int),
        decreases end - pos,
    {
        let ghost rest = s@.skip(pos as int);
        let n = read_be16(s, pos);
        let ghost was = out@;
        out.push(n);
        assert(s@.skip(pos + 2) =~= rest.skip(2));
        proof {
            if left < 2 {
                assert(numbers_in(rest.skip(2), left - 2) =~= seq![]);
                assert(numbers_in(rest.skip(2), 0) =~= seq![]);
            }
            assert(was + (seq![n] + numbers_in(rest.skip(2), left - 2)) =~= out@ + numbers_in(
                rest.skip(2),
                left - 2,
            ));
        }
        pos = pos + 2;
        left = if left >= 2 {
            left - 2
        } else {
            0
        };
    }
    assert(out@ + seq![] =~= out@);
    out
}

fn read_whole_numbers(s: &[u8], room: usize, before: &Vec<u16>) -> (r: Vec<u16>)
    ensures
        r@ == before@ + whole_numbers_in(s@, room as int),
{
    let mut out: Vec<u16> = Vec::new();
    let mut i: usize = 0;
    while i < before.len()
        invariant
            i <= before@.len(),
            out@ == before@.take(i as int),
        decreases before@.len() - i,
    {
        out.push(before[i]);
        assert(out@ =~= before@.take(i + 1));
        i = i + 1;
    }
    assert(out@ =~= before@);
    let end: usize = s.len();
    let mut pos: usize = 0;
    let mut left: usize = room;
    assert(s@.skip(0) =~= s@);
    let ghost all = before@ + whole_numbers_in(s@, room as int);
    while left >= 2 && end - pos >= 2
        invariant
            pos <= end == s@.len(),
            out@ + whole_numbers_in(s@.skip(pos as int), left as int) == all,
        decreases end - pos,
    {
        let ghost rest = s@.skip(pos as int);
        let n = read_be16(s, pos);
        let ghost was = out@;
        out.push(n);
        assert(s@.skip(pos + 2) =~= rest.skip(2));
        assert(was + (seq![n] + whole_numbers_in(rest.skip(2), left - 2)) =~= out@ + whole_numbers_in(
            rest.skip(2),
            left - 2,
        ));
        pos = pos + 2;
        left = left - 2;
    }
    assert(out@ + seq![] =~= out@);
    out
}

fn read_client_key(data: &[u8], known: Vec<u8>) -> (r: Vec<u8>)
    ensures
        r@ == client_key(data@, known@),
{
    if data.len() < 6 {
        return known;
    }
    let n = read_be16(data, 4) as usize;
    if n > data.len() - 6 {
        return known;
    }
    let key = copy_range(data, 6, 6 + n);
    assert(key@ =~= data@.subrange(6, 6 + n as int));
    key
}

fn read_client_extensions(rest: &[u8], announced: usize) -> (r: (Vec<u8>, Vec<u16>))
    ensures
        (r.0@, r.1@) == client_extensions(rest@, announced as int, seq![], seq![]),
{
    let end: usize = rest.len();
    let mut key: Vec<u8> = Vec::new();
    let mut versions: Vec<u16> = Vec::new();
    let mut pos: usize = 0;
    let mut room: usize = announced;
    let ghost whole = client_extensions(rest@, announced as int, seq![], seq![]);
    assert(rest@.skip(0) =~= rest@);
    while room >= 4 && end - pos >= 4
        invariant_except_break
            client_extensions(rest@.skip(pos as int), room as int, key@, versions@) == whole,
        invariant
            pos <= end == rest@.len(),
        ensures
            (key@, versions@) == whole,
        decreases end - pos,
    {
        let ghost here = rest@.skip(pos as int);
        let ghost tail = here.skip(4);
        let t = read_be16(rest, pos);
        let n = read_be16(rest, pos + 2) as usize;
        let at = pos + 4;
        assert(rest@.skip(at as int) =~= tail);
        if n > end - at {
            break ;
        }
        if t == 51 {
            let data = slice_subrange(rest, at, at + n);
            assert(data@ =~= tail.take(n as int));
            key = read_client_key(data, key);
        }
        if t == 43 && n >= 1 {
            let list = slice_subrange(rest, at + 1, end);
            assert(list@ =~= tail.skip(1));
            versions = read_whole_numbers(list, rest[at] as usize, &versions);
        }
        pos = at + n;
        assert(rest@.skip(pos as int) =~= tail.skip(n as int));
        if room - 4 < n {
            proof {
                assert(client_extensions(tail.skip(n as int), room - 4 - n, key@, versions@) == (
                    key@,
                    versions@,
                ));
            }
            break ;
        }
        room = room - 4 - n;
    }
    (key, versions)
}

/// Reads a client's hello.
pub fn parse_client_hello(data: &[u8]) -> (r: Result<ClientHello, TlsError>)
    ensures
        match r {
            Ok(h) => client_hello_in(data@) == Ok::<ClientHelloView, TlsError>(h@),
            Err(e) => client_hello_in(data@) == Err::<ClientHelloView, TlsError>(e),
        },
{
    let end: usize = data.len();
    if end < 38 {
        return Err(TlsError::DecodeError(DecodeFault::ClientHelloTooShort));
    }
    let random = copy_range(data, 2, 34);
    let sid = data[34] as usize;
    if sid > end - 37 {
        return Err(TlsError::DecodeError(DecodeFault::BadClientHello));
    }
    let at = 35 + sid;
    let n = read_be16(data, at) as usize;
    if n >= end - (at + 2) {
        return Err(TlsError::DecodeError(DecodeFault::BadClientHello));
    }
    let list = slice_subrange(data, at + 2, end);
    assert(list@ =~= data@.skip(at + 2));
    let ciphers = read_numbers(list, n);
    let after = at + 2 + n;
    let skip = data[after] as usize;
    let mut public_key: Vec<u8> = Vec::new();
    let mut versions: Vec<u16> = Vec::new();
    if end - after >= 3 && skip <= end - after - 3 {
        let ext = after + 1 + skip;
        let room = read_be16(data, ext) as usize;
        let rest = slice_subrange(data, ext + 2, end);
        assert(rest@ =~= data@.skip(ext + 2));
        let (k, v) = read_client_extensions(rest, room);
        public_key = k;
        versions = v;
    }
    if versions.len() == 0 {
        versions.push(read_be16(data, 0));
        assert(versions@ =~= seq![from_be16(data@[0], data@[1]) as u16]);
    }
    Ok(ClientHello { random, ciphers, public_key, versions })
}

/// What a server's hello says.
#[derive(Debug, Clone)]
pub struct ServerHello {
    pub random: Vec<u8>,
    pub cipher: u16,
    pub public_key: Vec<u8>,
    pub version: TlsVersion,
    pub session_resumed: bool,
}

#[verifier::ext_equal]
pub struct ServerHelloView {
    pub random: Seq<u8>,
    pub cipher: u16,
    pub public_key: Seq<u8>,
    pub version: TlsVersion,
    pub session_resumed: bool,
}

impl View for ServerHello {
    type V = ServerHelloView;

    open spec fn view(&self) -> ServerHelloView {
        ServerHelloView {
            random: self.random@,
            cipher: self.cipher,
            public_key: self.public_key@,
            version: self.version,
            session_resumed: self.session_resumed,
        }
    }
}

/// The key that a server's extension gives behind two octets that are passed over; `known` where it gives
/// none of the group in use that is all there.
pub open spec fn server_key(data: Seq<u8>, known: Seq<u8>) -> Seq<u8> {
    if data.len() < 6 || from_be16(data[2], data[3]) != GROUP_X25519 {
        known
    } else {
        let n = from_be16(data[4], data[5]) as int;
        if 6 + n > data.len() {
            known
        } else {
            data.subrange(6, 6 + n)
        }
    }
}

/// The version that a number denotes.
pub open spec fn version_coded(n: nat) -> Option<TlsVersion> {
    if n == TLS_VERSION_1_3 {
        Some(TlsVersion::Tls1_3)
    } else if n == TLS_VERSION_1_2 {
        Some(TlsVersion::Tls1_2)
    } else {
        None
    }
}

/// Key and version that extensions give; those before where they give none. Fails on an unknown version.
pub open spec fn server_extensions(rest: Seq<u8>, room: int, key: Seq<u8>, version: TlsVersion) -> Result<
    (Seq<u8>, TlsVersion),
    TlsError,
>
    decreases rest.len(),
{
    if room < 4 || rest.len() < 4 {
        Ok((key, version))
    } else {
        let t = from_be16(rest[0], rest[1]);
        let n = from_be16(rest[2], rest[3]) as int;
        let tail = rest.skip(4);
        if n > tail.len() {
            Ok((key, version))
        } else if t == 43 && n >= 2 && version_coded(from_be16(tail[0], tail[1])) is None {
            Err(TlsError::UnsupportedVersion)
        } else {
            server_extensions(
                tail.skip(n),
                room - 4 - n,
                if t == 51 {
                    server_key(tail.take(n), key)
                } else {
                    key
                },
                if t == 43 && n >= 2 {
                    version_coded(from_be16(tail[0], tail[1]))->0
                } else {
                    version
                },
            )
        }
    }
}

/// What a server's hello says to a client with this session, if it can be read.
pub open spec fn server_hello_in(data: Seq<u8>, session_id: Seq<u8>) -> Result<
    ServerHelloView,
    TlsError,
> {
    if data.len() < 38 {
        Err(TlsError::DecodeError(DecodeFault::ServerHelloTooShort))
    } else {
        let n = data[34] as int;
        let at = 35 + n;
        if at + 2 > data.len() {
            Err(TlsError::DecodeError(DecodeFault::BadServerHello))
        } else {
            let ext = at + 3;
            let given = if ext + 2 <= data.len() {
                server_extensions(
                    data.skip(ext + 2),
                    from_be16(data[ext], data[ext + 1]) as int,
                    seq![],
                    TlsVersion::Tls1_2,
                )
            } else {
                Ok((seq![], TlsVersion::Tls1_2))
            };
            match given {
                Err(e) => Err(e),
                Ok((public_key, version)) => Ok(
                    ServerHelloView {
                        random: data.subrange(2, 34),
                        cipher: from_be16(data[at], data[at + 1]) as u16,
                        public_key,
                        version,
                        session_resumed: session_id.len() > 0 && data.subrange(35, at) == session_id,
                    },
                ),
            }
        }
    }
}

fn read_server_key(data: &[u8], known: Vec<u8>) -> (r: Vec<u8>)
    ensures
        r@ == server_key(data@, known@),
{
    if data.len() < 6 || read_be16(data, 2) != GROUP_X25519 {
        return known;
    }
    let n = read_be16(data, 4) as usize;
    if n > data.len() - 6 {
        return known;
    }
    let key = copy_range(data, 6, 6 + n);
    assert(key@ =~= data@.subrange(6, 6 + n as int));
    key
}

fn read_server_extensions(rest: &[u8], announced: usize) -> (r: Result<(Vec<u8>, TlsVersion), TlsError>)
    ensures
        match r {
            Ok((k, v)) => server_extensions(rest@, announced as int, seq![], TlsVersion::Tls1_2) == Ok::<
                (Seq<u8>, TlsVersion),
                TlsError,
            >((k@, v)),
            Err(e) => server_extensions(rest@, announced as int, seq![], TlsVersion::Tls1_2) == Err::<
                (Seq<u8>, TlsVersion),
                TlsError,
            >(e),
        },
{
    let end: usize = rest.len();
    let mut key: Vec<u8> = Vec::new();
    let mut version = TlsVersion::Tls1_2;
    let mut pos: usize = 0;
    let mut room: usize = announced;
    let ghost whole = server_extensions(rest@, announced as int, seq![], TlsVersion::Tls1_2);
    assert(rest@.skip(0) =~= rest@);
    while room >= 4 && end - pos >= 4
        invariant_except_break
            server_extensions(rest@.skip(pos as int), room as int, key@, version) == whole,
        invariant
            pos <= end == rest@.len(),
            whole == server_extensions(rest@, announced as int, seq![], TlsVersion::Tls1_2),
        ensures
            whole == Ok::<(Seq<u8>, TlsVersion), TlsError>((key@, version)),
        decreases end - pos,
    {
        let ghost here = rest@.skip(pos as int);
        let ghost tail = here.skip(4);
        let t = read_be16(rest, pos);
        let n = read_be16(rest, pos + 2) as usize;
        let at = pos + 4;
        assert(rest@.skip(at as int) =~= tail);
        if n > end - at {
            break ;
        }
        if t == 43 && n >= 2 {
            let code = read_be16(rest, at);
            assert(code == from_be16(tail[0], tail[1]));
            if code == TLS_VERSION_1_3 {
                version = TlsVersion::Tls1_3;
            } else if code == TLS_VERSION_1_2 {
                version = TlsVersion::Tls1_2;
            } else {
                return Err(TlsError::UnsupportedVersion);
            }
        }
        if t == 51 {
            let data = slice_subrange(rest, at, at + n);
            assert(data@ =~= tail.take(n as int));
            key = read_server_key(data, key);
        }
        pos = at + n;
        assert(rest@.skip(pos as int) =~= tail.skip(n as int));
        if room - 4 < n {
            assert(server_extensions(tail.skip(n as int), room - 4 - n, key@, version) == Ok::<
                (Seq<u8>, TlsVersion),
                TlsError,
            >((key@, version)));
            break ;
        }
        room = room - 4 - n;
    }
    Ok((key, version))
}

/// Reads a server's hello; `session_id` is that of the session that the client offered to resume, empty where
/// it offered none.
pub fn parse_server_hello(data: &[u8], session_id: &[u8]) -> (r: Result<ServerHello, TlsError>)
    ensures
        match r {
            Ok(h) => server_hello_in(data@, session_id@) == Ok::<ServerHelloView, TlsError>(h@),
            Err(e) => server_hello_in(data@, session_id@) == Err::<ServerHelloView, TlsError>(e),
        },
{
    let end: usize = data.len();
    if end < 38 {
        return Err(TlsError::DecodeError(DecodeFault::ServerHelloTooShort));
    }
    let random = copy_range(data, 2, 34);
    let n = data[34] as usize;
    if n > end - 37 {
        return Err(TlsError::DecodeError(DecodeFault::BadServerHello));
    }
    let at = 35 + n;
    let echoed = slice_subrange(data, 35, at);
    let session_resumed = session_id.len() > 0 && constant_time_eq(echoed, session_id);
    let cipher = read_be16(data, at);
    if end - at >= 5 {
        let ext = at + 3;
        let room = read_be16(data, ext) as usize;
        let rest = slice_subrange(data, ext + 2, end);
        assert(rest@ =~= data@.skip(ext + 2));
        match read_server_extensions(rest, room) {
            Ok((public_key, version)) => Ok(
                ServerHello { random, cipher, public_key, version, session_resumed },
            ),
            Err(e) => Err(e),
        }
    } else {
        let none: Vec<u8> = Vec::new();
        assert(none@ =~= seq![]);
        Ok(
            ServerHello {
                random,
                cipher,
                public_key: none,
                version: TlsVersion::Tls1_2,
                session_resumed,
            },
        )
    }
}

/// The ticket that a message gives; none where it is not all there.
pub open spec fn ticket_in(data: Seq<u8>) -> Result<Option<Seq<u8>>, TlsError> {
    if data.len() < 8 {
        Err(TlsError::DecodeError(DecodeFault::TicketTooShort))
    } else if data.len() == 8 {
        Ok(None)
    } else {
        let at = 9 + data[8];
        if at + 2 > data.len() {
            Ok(None)
        } else {
            let n = from_be16(data[at], data[at + 1]) as int;
            if at + 2 + n > data.len() {
                Ok(None)
            } else {
                Ok(Some(data.subrange(at + 2, at + 2 + n)))
            }
        }
    }
}

/// Reads the ticket that a message gives.
pub fn parse_new_session_ticket(data: &[u8]) -> (r: Result<Option<Vec<u8>>, TlsError>)
    ensures
        match r {
            Ok(Some(t)) => ticket_in(data@) == Ok::<Option<Seq<u8>>, TlsError>(Some(t@)),
            Ok(None) => ticket_in(data@) == Ok::<Option<Seq<u8>>, TlsError>(None),
            Err(e) => ticket_in(data@) == Err::<Option<Seq<u8>>, TlsError>(e),
        },
{
    let end: usize = data.len();
    if end < 8 {
        return Err(TlsError::DecodeError(DecodeFault::TicketTooShort));
    }
    if end == 8 {
        return Ok(None);
    }
    let skip = data[8] as usize;
    if end - 9 < 2 || skip > end - 11 {
        return Ok(None);
    }
    let at = 9 + skip;
    let n = read_be16(data, at) as usize;
    if n > end - at - 2 {
        return Ok(None);
    }
    let t = copy_range(data, at + 2, at + 2 + n);
    assert(t@ =~= data@.subrange(at + 2, at + 2 + n as int));
    Ok(Some(t))
}

/// The data of the first extension for protocols; empty where there is none.
pub open spec fn alpn_among(ext: Seq<u8>) -> Result<Seq<u8>, TlsError>
    decreases ext.len(),
{
    if ext.len() < 4 {
        Ok(seq![])
    } else {
        let t = from_be16(ext[0], ext[1]);
        let n = from_be16(ext[2], ext[3]) as int;
        if 4 + n > ext.len() {
            Err(TlsError::HandshakeFailed(HandshakeFault::ExtensionOverrun))
        } else if t == 16 {
            Ok(ext.subrange(4, 4 + n))
        } else {
            alpn_among(ext.skip(4 + n))
        }
    }
}

/// The data of the extension for protocols in a server's hello.
pub open spec fn alpn_in(data: Seq<u8>) -> Result<Seq<u8>, TlsError> {
    if data.len() < 38 {
        Err(TlsError::HandshakeFailed(HandshakeFault::ServerHelloTooShort))
    } else {
        let at = 35 + data[34];
        if at + 4 > data.len() {
            Err(TlsError::HandshakeFailed(HandshakeFault::NoExtensions))
        } else if at + 5 > data.len() {
            Err(TlsError::HandshakeFailed(HandshakeFault::NoExtensionsLength))
        } else {
            let n = from_be16(data[at + 3], data[at + 4]) as int;
            if at + 5 + n > data.len() {
                Err(TlsError::HandshakeFailed(HandshakeFault::ExtensionsTruncated))
            } else {
                alpn_among(data.subrange(at + 5, at + 5 + n))
            }
        }
    }
}

/// Reads the data of the extension for protocols out of a server's hello.
pub fn extract_alpn_from_handshake(server_hello_data: &[u8]) -> (r: Result<Vec<u8>, TlsError>)
    ensures
        match r {
            Ok(d) => alpn_in(server_hello_data@) == Ok::<Seq<u8>, TlsError>(d@),
            Err(e) => alpn_in(server_hello_data@) == Err::<Seq<u8>, TlsError>(e),
        },
{
    let data = server_hello_data;
    let end: usize = data.len();
    if end < 38 {
        return Err(TlsError::HandshakeFailed(HandshakeFault::ServerHelloTooShort));
    }
    let skip = data[34] as usize;
    if end - 35 < 4 || skip > end - 39 {
        return Err(TlsError::HandshakeFailed(HandshakeFault::NoExtensions));
    }
    let at = 35 + skip;
    if end - at < 5 {
        return Err(TlsError::HandshakeFailed(HandshakeFault::NoExtensionsLength));
    }
    let n = read_be16(data, at + 3) as usize;
    if n > end - at - 5 {
        return Err(TlsError::HandshakeFailed(HandshakeFault::ExtensionsTruncated));
    }
    let ext = slice_subrange(data, at + 5, at + 5 + n);
    let stop: usize = ext.len();
    let mut pos: usize = 0;
    assert(ext@.skip(0) =~= ext@);
    while stop - pos >= 4
        invariant
            pos <= stop == ext@.len(),
            alpn_among(ext@.skip(pos as int)) == alpn_among(ext@),
            alpn_in(data@) == alpn_among(ext@),
            data == server_hello_data,
        decreases stop - pos,
    {
        let ghost rest = ext@.skip(pos as int);
        let t = read_be16(ext, pos);
        let m = read_be16(ext, pos + 2) as usize;
        if m > stop - pos - 4 {
            return Err(TlsError::HandshakeFailed(HandshakeFault::ExtensionOverrun));
        }
        if t == 16 {
            let d = copy_range(ext, pos + 4, pos + 4 + m);
            assert(d@ =~= rest.subrange(4, 4 + m as int));
            return Ok(d);
        }
        pos = pos + 4 + m;
        assert(ext@.skip(pos as int) =~= rest.skip(4 + m as int));
    }
    let none: Vec<u8> = Vec::new();
    assert(none@ =~= seq![]);
    Ok(none)
}

/// The protocol that a server chose among those that were offered.
pub open spec fn chosen_in(data: Seq<u8>, offered: Seq<AlpnProtocol>) -> Result<AlpnProtocol, TlsError> {
    if data.len() < 3 {
        Err(TlsError::HandshakeFailed(HandshakeFault::AlpnTooShort))
    } else {
        let n = from_be16(data[0], data[1]) as int;
        let m = data[2] as int;
        if data.len() < 2 + n {
            Err(TlsError::HandshakeFailed(HandshakeFault::AlpnTruncated))
        } else if n == 0 {
            Err(TlsError::HandshakeFailed(HandshakeFault::AlpnEmpty))
        } else if m == 0 || 1 + m > n {
            Err(TlsError::HandshakeFailed(HandshakeFault::AlpnLength))
        } else {
            match protocol_in(data.subrange(3, 3 + m)) {
                Some(p) => if offered.contains(p) {
                    Ok(p)
                } else {
                    Err(TlsError::HandshakeFailed(HandshakeFault::AlpnNotOffered(p)))
                },
                None => Err(TlsError::HandshakeFailed(HandshakeFault::AlpnUnknown)),
            }
        }
    }
}

fn holds_protocol(v: &Vec<AlpnProtocol>, p: AlpnProtocol) -> (r: bool)
    ensures
        r == v@.contains(p),
{
    let mut i: usize = 0;
    while i < v.len()
        invariant
            i <= v@.len(),
            forall|j: int| 0 <= j < i ==> v@[j] != p,
        decreases v@.len() - i,
    {
        if v[i] == p {
            return true;
        }
        i = i + 1;
    }
    false
}

/// Reads the protocol that a server chose among those that were offered.
pub fn parse_alpn_extension(extension_data: &[u8], offered: &Vec<AlpnProtocol>) -> (r: Result<
    AlpnProtocol,
    TlsError,
>)
    ensures
        r == chosen_in(extension_data@, offered@),
{
    let end: usize = extension_data.len();
    if end < 3 {
        return Err(TlsError::HandshakeFailed(HandshakeFault::AlpnTooShort));
    }
    let n = read_be16(extension_data, 0) as usize;
    if end - 2 < n {
        return Err(TlsError::HandshakeFailed(HandshakeFault::AlpnTruncated));
    }
    if n == 0 {
        return Err(TlsError::HandshakeFailed(HandshakeFault::AlpnEmpty));
    }
    let m = extension_data[2] as usize;
    if m == 0 || 1 + m > n {
        return Err(TlsError::HandshakeFailed(HandshakeFault::AlpnLength));
    }
    match AlpnProtocol::from_wire(slice_subrange(extension_data, 3, 3 + m)) {
        Some(p) => {
            if holds_protocol(offered, p) {
                Ok(p)
            } else {
                Err(TlsError::HandshakeFailed(HandshakeFault::AlpnNotOffered(p)))
            }
        },
        None => Err(TlsError::HandshakeFailed(HandshakeFault::AlpnUnknown)),
    }
}

/// Whether the protocol that was agreed on, if any, is one of those that are expected. Without
/// expectations all are well.
pub open spec fn is_expected(negotiated: Option<AlpnProtocol>, expected: Seq<AlpnProtocol>) -> bool {
    expected.len() == 0 || (negotiated matches Some(p) && expected.contains(p))
}

/// Fails where the protocol that was agreed on is not one of those that are expected.
pub fn validate_negotiated_protocol(negotiated: Option<AlpnProtocol>, expected: &Vec<AlpnProtocol>) -> (r:
    Result<(), TlsError>)
    ensures
        r == (if is_expected(negotiated, expected@) {
            Ok::<(), TlsError>(())
        } else {
            Err(TlsError::ProtocolNegotiationFailed(negotiated))
        }),
{
    if expected.len() == 0 {
        return Ok(());
    }
    match negotiated {
        Some(p) => {
            if holds_protocol(expected, p) {
                Ok(())
            } else {
                Err(TlsError::ProtocolNegotiationFailed(Some(p)))
            }
        },
        None => Err(TlsError::ProtocolNegotiationFailed(None)),
    }
}

proof fn lemma_numbers_back(suites: Seq<u16>, n: int, rest: Seq<u8>)
    requires
        0 <= n <= suites.len(),
    ensures
        suite_octets(suites, n).len() == 2 * n,
        forall|k: int|
            0 <= k < n ==> suite_octets(suites, n)[2 * k] == be16(#[trigger] suites[k])[0] && suite_octets(
                suites,
                n,
            )[2 * k + 1] == be16(suites[k])[1],
    decreases n,
{
    if n > 0 {
        lemma_numbers_back(suites, n - 1, rest);
    }
}

proof fn lemma_numbers_read(suites: Seq<u16>, i: int, rest: Seq<u8>)
    requires
        0 <= i <= suites.len(),
    ensures
        numbers_in(
            suite_octets(suites, suites.len() as int).skip(2 * i) + rest,
            2 * (suites.len() - i),
        ) == suites.skip(i),
    decreases suites.len() - i,
{
    let all = suite_octets(suites, suites.len() as int);
    lemma_numbers_back(suites, suites.len() as int, rest);
    if i < suites.len() {
        let s = all.skip(2 * i) + rest;
        lemma_numbers_read(suites, i + 1, rest);
        assert(s.skip(2) =~= all.skip(2 * (i + 1)) + rest);
        law_be16_roundtrip(suites[i]);
        assert(s[0] == be16(suites[i])[0] && s[1] == be16(suites[i])[1]);
        assert(seq![suites[i]] + suites.skip(i + 1) =~= suites.skip(i));
    } else {
        assert(suites.skip(i) =~= seq![]);
    }
}

/// One extension more was read.
proof fn lemma_extension_read(t: u16, data: Seq<u8>, more: Seq<u8>, room: int, key: Seq<u8>, versions: Seq<u16>)
    requires
        data.len() < 0x1_0000,
        room >= 4,
    ensures
        client_extensions(extension(t, data) + more, room, key, versions) == client_extensions(
            more,
            room - 4 - data.len(),
            if t == 51 {
                client_key(data, key)
            } else {
                key
            },
            if t == 43 && data.len() >= 1 {
                versions + whole_numbers_in((data + more).skip(1), data[0] as int)
            } else {
                versions
            },
        ),
{
    let rest = extension(t, data) + more;
    let n = data.len() as int;
    law_be16_roundtrip(t);
    law_be16_roundtrip(cut16(data.len()));
    assert(rest[0] == be16(t)[0] && rest[1] == be16(t)[1]);
    assert(rest[2] == be16(cut16(data.len()))[0] && rest[3] == be16(cut16(data.len()))[1]);
    assert(rest.skip(4) =~= data + more);
    assert((data + more).take(n) =~= data);
    assert((data + more).skip(n) =~= more);
}

/// An extension that gives neither a key nor versions is passed over.
proof fn lemma_extension_passed(t: u16, data: Seq<u8>, more: Seq<u8>, key: Seq<u8>, versions: Seq<u16>)
    requires
        data.len() < 0x1_0000,
        t != 51,
        t != 43,
    ensures
        client_extensions(
            extension(t, data) + more,
            (extension(t, data) + more).len() as int,
            key,
            versions,
        ) == client_extensions(more, more.len() as int, key, versions),
{
    lemma_extension_read(
        t,
        data,
        more,
        (extension(t, data) + more).len() as int,
        key,
        versions,
    );
}

proof fn lemma_key_read(key: Seq<u8>, more: Seq<u8>, versions: Seq<u16>)
    requires
        key.len() < 0xfff0,
    ensures
        client_extensions(
            key_extension(key) + more,
            (key_extension(key) + more).len() as int,
            seq![],
            versions,
        ) == client_extensions(more, more.len() as int, key, versions),
{
    let k = be16(cut16(4 + key.len())) + be16(GROUP_X25519) + be16(cut16(key.len())) + key;
    let all = extension(51, k) + more;
    lemma_extension_read(51, k, more, all.len() as int, seq![], versions);
    law_be16_roundtrip(cut16(key.len()));
    assert(k[4] == be16(cut16(key.len()))[0] && k[5] == be16(cut16(key.len()))[1]);
    assert(k.subrange(6, 6 + key.len() as int) =~= key);
    assert(client_key(k, seq![]) == key);
}

proof fn lemma_versions_read(more: Seq<u8>, key: Seq<u8>)
    ensures
        client_extensions(
            versions_extension() + more,
            (versions_extension() + more).len() as int,
            key,
            seq![],
        ) == client_extensions(more, more.len() as int, key, seq![TLS_VERSION_1_3]),
{
    let v = seq![2u8] + be16(TLS_VERSION_1_3);
    let all = extension(43, v) + more;
    lemma_extension_read(43, v, more, all.len() as int, key, seq![]);
    let tail = (v + more).skip(1);
    assert(v[0] == 2);
    law_be16_roundtrip(TLS_VERSION_1_3);
    assert(tail[0] == be16(TLS_VERSION_1_3)[0] && tail[1] == be16(TLS_VERSION_1_3)[1]);
    reveal_with_fuel(whole_numbers_in, 2);
    assert(Seq::<u16>::empty() + whole_numbers_in(tail, 2) =~= seq![TLS_VERSION_1_3]);
}

proof fn lemma_last_extensions(key: Seq<u8>)
    requires
        key.len() < 0xfff0,
    ensures
        ({
            let e = versions_extension() + (key_extension(key) + modes_extension());
            client_extensions(e, e.len() as int, seq![], seq![]) == (key, seq![TLS_VERSION_1_3])
        }),
{
    let m = seq![1u8, 1u8];
    let versions = seq![TLS_VERSION_1_3];
    lemma_versions_read(key_extension(key) + modes_extension(), seq![]);
    lemma_key_read(key, modes_extension(), versions);
    lemma_extension_passed(45, m, seq![], key, versions);
    assert(modes_extension() + Seq::<u8>::empty() =~= modes_extension());
}

/// The extensions of a client that begins a session give its key and its version.
proof fn lemma_first_extensions(server_name: Option<Seq<char>>, protocols: Seq<AlpnProtocol>, key: Seq<u8>)
    requires
        first_extensions(server_name, protocols, key).len() < 0x1_0000,
    ensures
        client_extensions(
            first_extensions(server_name, protocols, key),
            first_extensions(server_name, protocols, key).len() as int,
            seq![],
            seq![],
        ) == (key, seq![TLS_VERSION_1_3]),
{
    let none = Seq::<u8>::empty();
    let no_versions = Seq::<u16>::empty();
    let r4 = versions_extension() + (key_extension(key) + modes_extension());
    let r3 = protocols_extension(protocols) + r4;
    let r2 = signatures_extension() + r3;
    let r1 = groups_extension() + r2;
    let all = first_extensions(server_name, protocols, key);
    assert(all =~= name_extension(server_name) + r1);
    assert(key.len() <= key_extension(key).len());
    lemma_last_extensions(key);
    if protocols.len() > 0 {
        let list = protocol_list(protocols, protocols.len() as int);
        lemma_extension_passed(16, be16(cut16(list.len())) + list, r4, none, no_versions);
    } else {
        assert(r3 =~= r4);
    }
    lemma_extension_passed(
        13,
        be16(6) + be16(0x0804) + be16(0x0401) + be16(0x0403),
        r3,
        none,
        no_versions,
    );
    lemma_extension_passed(10, be16(2) + be16(GROUP_X25519), r2, none, no_versions);
    if server_name is Some && server_name->0.len() > 0 {
        let host = encode_utf8(server_name->0);
        let n = be16(cut16(3 + host.len())) + seq![0u8] + be16(cut16(host.len())) + host;
        lemma_extension_passed(0, n, r1, none, no_versions);
    } else {
        assert(all =~= r1);
    }
}

/// A hello without a session is read part by part.
proof fn lemma_client_hello_parts(random: Seq<u8>, suites: Seq<u16>, ext: Seq<u8>)
    requires
        random.len() == 32,
        suites.len() < 0x8000,
        ext.len() < 0x1_0000,
    ensures
        ({
            let data = client_hello(random, seq![], suites, ext);
            let n = 2 * suites.len() as int;
            &&& data.len() == 41 + n + ext.len()
            &&& data.subrange(2, 34) == random
            &&& data[34] == 0
            &&& from_be16(data[35], data[36]) == n
            &&& data.skip(37) == suite_octets(suites, suites.len() as int) + (seq![1u8, 0u8] + be16(
                cut16(ext.len()),
            ) + ext)
            &&& data[37 + n] == 1
            &&& from_be16(data[39 + n], data[40 + n]) == ext.len()
            &&& data.skip(41 + n) == ext
        }),
{
    let none = Seq::<u8>::empty();
    let data = client_hello(random, none, suites, ext);
    let list = suite_octets(suites, suites.len() as int);
    let n = 2 * suites.len() as int;
    lemma_numbers_back(suites, suites.len() as int, none);
    let v = be16(TLS_VERSION_1_2);
    let c = be16(cut16(suites.len() * 2));
    let e = be16(cut16(ext.len()));
    let rest = seq![1u8, 0u8] + e + ext;
    assert(data =~= v + random + seq![0u8] + c + list + rest);
    assert(data.subrange(2, 34) =~= random);
    law_be16_roundtrip(cut16(suites.len() * 2));
    assert(data[35] == c[0] && data[36] == c[1]);
    assert(data.skip(37) =~= list + rest);
    law_be16_roundtrip(cut16(ext.len()));
    assert(rest[2] == e[0] && rest[3] == e[1]);
    assert(data[39 + n] == rest[2] && data[40 + n] == rest[3]);
    assert(data.skip(41 + n) =~= ext);
}

/// Parts that were read make up what a hello says.
proof fn lemma_client_hello_said(data: Seq<u8>, random: Seq<u8>, suites: Seq<u16>, ext: Seq<u8>, key: Seq<u8>)
    requires
        data.len() == 41 + 2 * suites.len() as int + ext.len(),
        data.subrange(2, 34) == random,
        data[34] == 0,
        from_be16(data[35], data[36]) == 2 * suites.len() as int,
        numbers_in(data.skip(37), 2 * suites.len() as int) == suites,
        data[37 + 2 * suites.len() as int] == 1,
        from_be16(data[39 + 2 * suites.len() as int], data[40 + 2 * suites.len() as int]) == ext.len(),
        data.skip(41 + 2 * suites.len() as int) == ext,
        client_extensions(ext, ext.len() as int, seq![], seq![]) == (key, seq![TLS_VERSION_1_3]),
    ensures
        client_hello_in(data) == Ok::<ClientHelloView, TlsError>(
            ClientHelloView {
                random,
                ciphers: suites,
                public_key: key,
                versions: seq![TLS_VERSION_1_3],
            },
        ),
{
}

/// A server reads in a client's hello what the client put there: its random octets, its suites, its key and
/// the version it asks for, as far as two octets can tell the lengths.
#[verifier::rlimit(30)]
pub proof fn law_client_hello_is_read(
    random: Seq<u8>,
    suites: Seq<u16>,
    server_name: Option<Seq<char>>,
    protocols: Seq<AlpnProtocol>,
    key: Seq<u8>,
)
    requires
        random.len() == 32,
        suites.len() < 0x8000,
        first_extensions(server_name, protocols, key).len() < 0x1_0000,
    ensures
        client_hello_in(
            client_hello(random, seq![], suites, first_extensions(server_name, protocols, key)),
        ) == Ok::<ClientHelloView, TlsError>(
            ClientHelloView {
                random,
                ciphers: suites,
                public_key: key,
                versions: seq![TLS_VERSION_1_3],
            },
        ),
{
    let ext = first_extensions(server_name, protocols, key);
    let data = client_hello(random, seq![], suites, ext);
    let list = suite_octets(suites, suites.len() as int);
    lemma_client_hello_parts(random, suites, ext);
    let rest = seq![1u8, 0u8] + be16(cut16(ext.len())) + ext;
    lemma_first_extensions(server_name, protocols, key);
    assert(numbers_in(data.skip(37), 2 * suites.len() as int) == suites) by {
        assert(list.skip(0) =~= list);
        lemma_numbers_read(suites, 0, rest);
        assert(suites.skip(0) =~= suites);
    }
    lemma_client_hello_said(data, random, suites, ext, key);
}

proof fn lemma_chosen_found(key: Seq<u8>, a: Seq<u8>)
    requires
        key.len() < 0xffe0,
        a.len() < 0x1_0000,
    ensures
        ({
            let k = be16(GROUP_X25519) + be16(cut16(key.len())) + key;
            alpn_among(extension(43, be16(TLS_VERSION_1_3)) + (extension(51, k) + extension(16, a))) == Ok::<
                Seq<u8>,
                TlsError,
            >(a)
        }),
{
    let k = be16(GROUP_X25519) + be16(cut16(key.len())) + key;
    lemma_alpn_passed(43, be16(TLS_VERSION_1_3), extension(51, k) + extension(16, a));
    lemma_alpn_passed(51, k, extension(16, a));
    lemma_alpn_found(a);
}

/// A server's hello that tells a protocol, part by part.
proof fn lemma_server_hello_form(random: Seq<u8>, suite: u16, key: Seq<u8>, p: AlpnProtocol, a: Seq<u8>, ext: Seq<u8>)
    requires
        key.len() < 0xffe0,
        a == be16(cut16(protocol_octets(p).len())) + protocol_octets(p),
        ext == extension(43, be16(TLS_VERSION_1_3)) + (extension(
            51,
            be16(GROUP_X25519) + be16(cut16(key.len())) + key,
        ) + extension(16, a)),
    ensures
        a.len() <= 10,
        ext.len() < 0x1_0000,
        server_hello(random, suite, key, Some(p)) == hello_front(random, suite) + be16(cut16(ext.len())) + ext,
{
    reveal(hello_front);
    let k = be16(GROUP_X25519) + be16(cut16(key.len())) + key;
    let v = be16(TLS_VERSION_1_3);
    assert(a.len() <= 10);
    assert(ext =~= extension(43, v) + extension(51, k) + chosen_extension(Some(p)));
}

/// The protocol that a server tells in its hello is found there, its name behind its length in two octets.
#[verifier::rlimit(50)]
pub proof fn law_server_hello_names_protocol(random: Seq<u8>, suite: u16, key: Seq<u8>, p: AlpnProtocol)
    requires
        random.len() == 32,
        key.len() < 0xffe0,
    ensures
        alpn_in(server_hello(random, suite, key, Some(p))) == Ok::<Seq<u8>, TlsError>(
            be16(protocol_octets(p).len() as u16) + protocol_octets(p),
        ),
{
    let a = be16(cut16(protocol_octets(p).len())) + protocol_octets(p);
    let k = be16(GROUP_X25519) + be16(cut16(key.len())) + key;
    let ext = extension(43, be16(TLS_VERSION_1_3)) + (extension(51, k) + extension(16, a));
    lemma_server_hello_form(random, suite, key, p, a, ext);
    lemma_chosen_found(key, a);
    lemma_hello_front(random, suite);
    law_be16_roundtrip(cut16(ext.len()));
    lemma_alpn_behind(hello_front(random, suite), be16(cut16(ext.len())), ext);
}

/// What stands before the extensions in a server's hello.
#[verifier::opaque]
spec fn hello_front(random: Seq<u8>, suite: u16) -> Seq<u8> {
    be16(TLS_VERSION_1_2) + random + seq![0u8] + be16(suite) + seq![0u8]
}

proof fn lemma_hello_front(random: Seq<u8>, suite: u16)
    requires
        random.len() == 32,
    ensures
        hello_front(random, suite).len() == 38,
        hello_front(random, suite)[34] == 0,
{
    reveal(hello_front);
}

proof fn lemma_alpn_behind(front: Seq<u8>, size: Seq<u8>, ext: Seq<u8>)
    requires
        front.len() == 38,
        front[34] == 0,
        size.len() == 2,
        from_be16(size[0], size[1]) == ext.len(),
    ensures
        alpn_in(front + size + ext) == alpn_among(ext),
{
    let data = front + size + ext;
    assert(data[34] == 0);
    assert(data[38] == size[0] && data[39] == size[1]);
    assert(data.subrange(40, 40 + ext.len() as int) =~= ext);
}

proof fn lemma_alpn_found(data: Seq<u8>)
    requires
        data.len() < 0x1_0000,
    ensures
        alpn_among(extension(16, data)) == Ok::<Seq<u8>, TlsError>(data),
{
    let e = extension(16, data);
    law_be16_roundtrip(16);
    law_be16_roundtrip(cut16(data.len()));
    assert(e[0] == be16(16)[0] && e[1] == be16(16)[1]);
    assert(e[2] == be16(cut16(data.len()))[0] && e[3] == be16(cut16(data.len()))[1]);
    assert(e.subrange(4, 4 + data.len() as int) =~= data);
}

proof fn lemma_alpn_passed(t: u16, data: Seq<u8>, more: Seq<u8>)
    requires
        t != 16,
        data.len() < 0x1_0000,
    ensures
        alpn_among(extension(t, data) + more) == alpn_among(more),
{
    let ext = extension(t, data) + more;
    law_be16_roundtrip(t);
    law_be16_roundtrip(cut16(data.len()));
    assert(ext[0] == be16(t)[0] && ext[1] == be16(t)[1]);
    assert(ext[2] == be16(cut16(data.len()))[0] && ext[3] == be16(cut16(data.len()))[1]);
    assert(ext.skip(4 + data.len() as int) =~= more);
}

proof fn lemma_server_extension(t: u16, data: Seq<u8>, more: Seq<u8>, key: Seq<u8>, version: TlsVersion)
    requires
        data.len() < 0x1_0000,
    ensures
        ({
            let rest = extension(t, data) + more;
            let room = rest.len() as int;
            server_extensions(rest, room, key, version) == (if t == 43 && data.len() >= 2 && version_coded(
                from_be16(data[0], data[1]),
            ) is None {
                Err(TlsError::UnsupportedVersion)
            } else {
                server_extensions(
                    more,
                    more.len() as int,
                    if t == 51 {
                        server_key(data, key)
                    } else {
                        key
                    },
                    if t == 43 && data.len() >= 2 {
                        version_coded(from_be16(data[0], data[1]))->0
                    } else {
                        version
                    },
                )
            })
        }),
{
    let rest = extension(t, data) + more;
    let n = data.len() as int;
    law_be16_roundtrip(t);
    law_be16_roundtrip(cut16(data.len()));
    assert(rest[0] == be16(t)[0] && rest[1] == be16(t)[1]);
    assert(rest[2] == be16(cut16(data.len()))[0] && rest[3] == be16(cut16(data.len()))[1]);
    let tail = rest.skip(4);
    assert(tail =~= data + more);
    assert(tail.take(n) =~= data);
    assert(tail.skip(n) =~= more);
}

/// A client reads in a server's hello what the server put there: its random octets, the suite that it chose, and the
/// version; as the server keeps no sessions, none is resumed.
pub proof fn law_server_hello_is_read(
    random: Seq<u8>,
    suite: u16,
    key: Seq<u8>,
    chosen: Option<AlpnProtocol>,
    session_id: Seq<u8>,
)
    requires
        random.len() == 32,
        key.len() < 0xff00,
    ensures
        server_hello_in(server_hello(random, suite, key, chosen), session_id) matches Ok(h) && h.random == random
            && h.cipher == suite && h.version == TlsVersion::Tls1_3 && !h.session_resumed,
{
    let v = be16(TLS_VERSION_1_3);
    let k = be16(GROUP_X25519) + be16(cut16(key.len())) + key;
    let c = chosen_extension(chosen);
    let ext = extension(43, v) + extension(51, k) + c;
    let data = server_hello(random, suite, key, chosen);
    assert(c.len() <= 14);
    assert(ext.len() < 0x1_0000);
    let front = be16(TLS_VERSION_1_2) + random + seq![0u8] + be16(suite) + seq![0u8];
    assert(data =~= front + be16(cut16(ext.len())) + ext);
    assert(front.len() == 38);
    assert(data[34] == 0);
    law_be16_roundtrip(suite);
    assert(data[35] == be16(suite)[0] && data[36] == be16(suite)[1]);
    law_be16_roundtrip(cut16(ext.len()));
    assert(data[38] == be16(cut16(ext.len()))[0] && data[39] == be16(cut16(ext.len()))[1]);
    assert(data.skip(40) =~= ext);
    assert(data.subrange(2, 34) =~= random);
    assert(data.subrange(35, 35) =~= seq![]);
    assert(ext =~= extension(43, v) + (extension(51, k) + c));
    let none = Seq::<u8>::empty();
    lemma_server_extension(43, v, extension(51, k) + c, none, TlsVersion::Tls1_2);
    law_be16_roundtrip(TLS_VERSION_1_3);
    lemma_server_extension(51, k, c, none, TlsVersion::Tls1_3);
    if let Some(p) = chosen {
        let a = be16(cut16(protocol_octets(p).len())) + protocol_octets(p);
        assert(c =~= extension(16, a) + none);
        lemma_server_extension(16, a, none, server_key(k, none), TlsVersion::Tls1_3);
    }
}

/// The key of the group in use is found behind two octets that are passed over; a key of another group is not.
pub proof fn law_server_key_is_read(front: Seq<u8>, group: u16, key: Seq<u8>, rest: Seq<u8>, known: Seq<u8>)
    requires
        front.len() == 2,
        key.len() < 0x1_0000,
    ensures
        server_key(front + be16(group) + be16(key.len() as u16) + key + rest, known) == (if group == 0x1d {
            key
        } else {
            known
        }),
{
    let data = front + be16(group) + be16(key.len() as u16) + key + rest;
    law_be16_roundtrip(group);
    law_be16_roundtrip(key.len() as u16);
    assert(data[2] == be16(group)[0] && data[3] == be16(group)[1]);
    assert(data[4] == be16(key.len() as u16)[0] && data[5] == be16(key.len() as u16)[1]);
    assert(data.subrange(6, 6 + key.len() as int) =~= key);
}

/// The protocol that a server names, alone in its list, is taken where it was offered and refused where it was not.
pub proof fn law_named_protocol_is_taken(p: AlpnProtocol, offered: Seq<AlpnProtocol>)
    ensures
        ({
            let name = protocol_octets(p);
            chosen_in(be16((name.len() + 1) as u16) + seq![name.len() as u8] + name, offered) == (if offered.contains(p) {
                Ok::<AlpnProtocol, TlsError>(p)
            } else {
                Err(TlsError::HandshakeFailed(HandshakeFault::AlpnNotOffered(p)))
            })
        }),
        is_expected(Some(p), offered) <==> offered.len() == 0 || offered.contains(p),
        is_expected(None, offered) <==> offered.len() == 0,
{
    let name = protocol_octets(p);
    let data = be16((name.len() + 1) as u16) + seq![name.len() as u8] + name;
    law_be16_roundtrip((name.len() + 1) as u16);
    assert(data[0] == be16((name.len() + 1) as u16)[0] && data[1] == be16((name.len() + 1) as u16)[1]);
    assert(data.subrange(3, 3 + name.len() as int) =~= name);
    lemma_protocols_apart(p);
}

proof fn lemma_protocols_apart(p: AlpnProtocol)
    ensures
        protocol_in(protocol_octets(p)) == Some(p),
{
    let a = protocol_octets(AlpnProtocol::Http2);
    let b = protocol_octets(AlpnProtocol::Http11);
    let c = protocol_octets(AlpnProtocol::Http10);
    let d = protocol_octets(AlpnProtocol::Http3);
    assert(a.len() == 2 && b.len() == 8 && c.len() == 8 && d.len() == 2);
    assert(a[1] == 50 && d[1] == 51 && b[7] == 49 && c[7] == 48);
}

/// The ticket in a message is found behind its lifetime, its age and its nonce.
pub proof fn law_ticket_is_read(front: Seq<u8>, nonce: Seq<u8>, ticket: Seq<u8>, rest: Seq<u8>)
    requires
        front.len() == 8,
        nonce.len() < 0x100,
        ticket.len() < 0x1_0000,
    ensures
        ticket_in(front + seq![nonce.len() as u8] + nonce + be16(ticket.len() as u16) + ticket + rest) == Ok::<
            Option<Seq<u8>>,
            TlsError,
        >(Some(ticket)),
{
    let size = be16(ticket.len() as u16);
    let data = front + seq![nonce.len() as u8] + nonce + size + ticket + rest;
    law_be16_roundtrip(ticket.len() as u16);
    let at = 9 + nonce.len() as int;
    assert(data[8] == nonce.len() as u8);
    assert(data[at] == size[0] && data[at + 1] == size[1]);
    assert(data.subrange(at + 2, at + 2 + ticket.len() as int) =~= ticket);
}

}
