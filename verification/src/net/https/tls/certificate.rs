//! Certificate messages and the trust in a chain of certificates.
use vstd::prelude::*;
use vstd::slice::slice_subrange;
use vstd::string::StringSliceAdditionalSpecFns;

use crate::bytes::{
    be16, be24, copy_range, from_be16, from_be24, law_be16_roundtrip, law_be24_roundtrip, push_be16, push_be24,
    push_bytes, read_be16, read_be24,
};
use crate::net::https::tls::config::{CertificateFault, TlsError, TrustFault};
use crate::net::https::trust_store::{
    certificate_views, is_anchor, issuer_of, law_issuer_is_anchor, may_issue, Certificate,
    CertificateView, TrustStore,
};

verus! {

/// Encodings, each in octets.
pub open spec fn octet_views(v: Seq<Vec<u8>>) -> Seq<Seq<u8>> {
    v.map_values(|o: Vec<u8>| o@)
}

/// The length that three octets can tell.
pub open spec fn cut24(n: nat) -> nat {
    n % 0x100_0000
}

/// The length that two octets can tell.
pub open spec fn cut16(n: nat) -> u16 {
    (n % 0x1_0000) as u16
}

/// The entries of the first `n` certificates of a message, each with no extensions.
pub open spec fn entry_octets(ders: Seq<Seq<u8>>, n: int) -> Seq<u8>
    decreases n,
{
    if n <= 0 {
        seq![]
    } else {
        entry_octets(ders, n - 1) + be24(cut24(ders[n - 1].len())) + ders[n - 1] + seq![0u8, 0u8]
    }
}

/// The message that carries certificates.
pub open spec fn certificate_message(ders: Seq<Seq<u8>>) -> Seq<u8> {
    let list = entry_octets(ders, ders.len() as int);
    seq![0u8] + be24(cut24(list.len())) + list
}

/// Writes a length in three octets.
pub fn push_cut24(out: &mut Vec<u8>, n: usize)
    ensures
        final(out)@ == old(out)@ + be24(cut24(n as nat)),
{
    push_be24(out, (n % 0x100_0000) as u32);
}

/// Writes a length in two octets.
pub fn push_cut16(out: &mut Vec<u8>, n: usize)
    ensures
        final(out)@ == old(out)@ + be16(cut16(n as nat)),
{
    push_be16(out, (n % 0x1_0000) as u16);
}

/// Writes the message that carries certificates.
pub fn build_certificate(cert_chain: &Vec<Vec<u8>>) -> (r: Vec<u8>)
    ensures
        r@ == certificate_message(octet_views(cert_chain@)),
{
    let ghost ders = octet_views(cert_chain@);
    let mut list: Vec<u8> = Vec::new();
    let mut i: usize = 0;
    while i < cert_chain.len()
        invariant
            i <= cert_chain@.len(),
            ders == octet_views(cert_chain@),
            list@ == entry_octets(ders, i as int),
        decreases cert_chain@.len() - i,
    {
        assert(ders[i as int] == cert_chain@[i as int]@);
        let ghost was = list@;
        push_cut24(&mut list, cert_chain[i].len());
        push_bytes(&mut list, cert_chain[i].as_slice());
        list.push(0);
        list.push(0);
        assert(list@ =~= was + be24(cut24(ders[i as int].len())) + ders[i as int] + seq![0u8, 0u8]);
        i = i + 1;
    }
    let mut out: Vec<u8> = Vec::new();
    out.push(0);
    push_cut24(&mut out, list.len());
    push_bytes(&mut out, list.as_slice());
    assert(out@ =~= certificate_message(ders));
    out
}

/// The encodings that the entries of a list hold, added to those before, and what is wrong with the list.
/// An encoding is among them where its own octets are all there.
pub open spec fn entries_in(list: Seq<u8>, sofar: Seq<Seq<u8>>) -> (
    Seq<Seq<u8>>,
    Option<CertificateFault>,
)
    decreases list.len(),
{
    if list.len() < 3 {
        if sofar.len() == 0 {
            (sofar, Some(CertificateFault::ChainEmpty))
        } else {
            (sofar, None)
        }
    } else {
        let n = from_be24(list[0], list[1], list[2]) as int;
        if 3 + n > list.len() {
            (sofar, Some(CertificateFault::DataTruncated))
        } else {
            let more = sofar.push(list.subrange(3, 3 + n));
            if 5 + n > list.len() {
                (more, Some(CertificateFault::NoExtensionsLength))
            } else {
                let e = from_be16(list[3 + n], list[4 + n]) as int;
                if 5 + n + e > list.len() {
                    (more, Some(CertificateFault::ExtensionsTruncated))
                } else {
                    entries_in(list.skip(5 + n + e), more)
                }
            }
        }
    }
}

/// The encodings that a certificate message holds, and what is wrong with it.
pub open spec fn chain_in(msg: Seq<u8>) -> (Seq<Seq<u8>>, Option<CertificateFault>) {
    if msg.len() < 10 {
        (seq![], Some(CertificateFault::MessageTooShort))
    } else {
        let n = from_be24(msg[1], msg[2], msg[3]) as int;
        if n == 0 || 4 + n > msg.len() {
            (seq![], Some(CertificateFault::ListTruncated))
        } else {
            entries_in(msg.subrange(4, 4 + n), seq![])
        }
    }
}

/// Cuts the encoded certificates out of a certificate message, as far as it can be read.
pub fn split_certificate_chain(cert_msg: &[u8]) -> (r: (Vec<Vec<u8>>, Option<CertificateFault>))
    ensures
        (octet_views(r.0@), r.1) == chain_in(cert_msg@),
{
    let mut out: Vec<Vec<u8>> = Vec::new();
    assert(octet_views(out@) =~= seq![]);
    if cert_msg.len() < 10 {
        return (out, Some(CertificateFault::MessageTooShort));
    }
    let n = read_be24(cert_msg, 1);
    if n == 0 || n > cert_msg.len() - 4 {
        return (out, Some(CertificateFault::ListTruncated));
    }
    let list = slice_subrange(cert_msg, 4, 4 + n);
    let end: usize = list.len();
    let mut pos: usize = 0;
    assert(list@.skip(0) =~= list@);
    while end - pos >= 3
        invariant
            pos <= end == list@.len(),
            list@ == cert_msg@.subrange(4, 4 + n as int),
            cert_msg@.len() >= 10,
            n == from_be24(cert_msg@[1], cert_msg@[2], cert_msg@[3]),
            0 < n,
            4 + n <= cert_msg@.len(),
            entries_in(list@.skip(pos as int), octet_views(out@)) == entries_in(list@, seq![]),
        decreases end - pos,
    {
        let ghost rest = list@.skip(pos as int);
        let ghost was = out@;
        let len = read_be24(list, pos);
        assert(len == from_be24(rest[0], rest[1], rest[2]));
        if len > end - pos - 3 {
            return (out, Some(CertificateFault::DataTruncated));
        }
        let der = copy_range(list, pos + 3, pos + 3 + len);
        assert(der@ =~= rest.subrange(3, 3 + len as int));
        out.push(der);
        assert(octet_views(out@) =~= octet_views(was).push(der@));
        let at = pos + 3 + len;
        if end - at < 2 {
            return (out, Some(CertificateFault::NoExtensionsLength));
        }
        let e = read_be16(list, at) as usize;
        assert(e == from_be16(rest[3 + len as int], rest[4 + len as int]));
        if e > end - at - 2 {
            return (out, Some(CertificateFault::ExtensionsTruncated));
        }
        pos = at + 2 + e;
        assert(list@.skip(pos as int) =~= rest.skip(5 + len as int + e as int));
    }
    assert(octet_views(out@).len() == out@.len());
    if out.len() == 0 {
        (out, Some(CertificateFault::ChainEmpty))
    } else {
        (out, None)
    }
}

/// Whether a reader could read all of the first `n` encodings.
pub open spec fn all_read(certs: Seq<Option<Certificate>>) -> bool {
    forall|i: int| 0 <= i < certs.len() ==> (#[trigger] certs[i]) is Some
}

pub open spec fn read_views(certs: Seq<Option<Certificate>>) -> Seq<CertificateView> {
    Seq::new(certs.len(), |i: int| certs[i]->0@)
}

/// Makes a chain of what a reader made of the encodings of a message, in their order; `fault` is what is
/// wrong with the message. An encoding that cannot be read counts before that.
pub fn parse_certificate_chain(certs: Vec<Option<Certificate>>, fault: Option<CertificateFault>) -> (r:
    Result<Vec<Certificate>, TlsError>)
    ensures
        match r {
            Ok(chain) => all_read(certs@) && fault is None && certificate_views(chain@) == read_views(
                certs@,
            ),
            Err(e) => e == (if !all_read(certs@) {
                TlsError::InvalidCertificate(CertificateFault::Unreadable)
            } else {
                TlsError::InvalidCertificate(fault->0)
            }) && (all_read(certs@) ==> fault is Some),
        },
{
    let ghost all = certs@;
    let mut rest = certs;
    let mut back: Vec<Certificate> = Vec::new();
    let n: usize = rest.len();
    let mut k: usize = n;
    while k > 0
        invariant
            k <= n,
            n == all.len(),
            all == certs@,
            rest@ == all.take(k as int),
            back@.len() == n - k,
            forall|j: int| 0 <= j < back@.len() ==> all[n - 1 - j] == Some(#[trigger] back@[j]),
        decreases k,
    {
        let last = rest.pop();
        k = k - 1;
        assert(rest@ =~= all.take(k as int));
        assert(last == Some(all[k as int]));
        match last {
            Some(Some(c)) => {
                back.push(c);
            },
            _ => {
                assert(all[k as int] is None);
                return Err(TlsError::InvalidCertificate(CertificateFault::Unreadable));
            },
        }
    }
    assert forall|i: int| 0 <= i < all.len() implies (#[trigger] all[i]) is Some by {
        assert(all[n - 1 - (n - 1 - i)] == Some(back@[n - 1 - i]));
    }
    match fault {
        Some(f) => {
            return Err(TlsError::InvalidCertificate(f));
        },
        None => {},
    }
    let mut chain: Vec<Certificate> = Vec::new();
    let ghost whole = back@;
    while back.len() > 0
        invariant
            n == all.len(),
            whole.len() == n,
            back@ == whole.take(n - chain@.len()),
            chain@.len() <= n,
            forall|j: int| 0 <= j < n ==> all[n - 1 - j] == Some(#[trigger] whole[j]),
            forall|i: int| 0 <= i < chain@.len() ==> all[i] == Some(#[trigger] chain@[i]),
        decreases back@.len(),
    {
        let ghost m = chain@.len();
        match back.pop() {
            Some(c) => {
                assert(c == whole[n - m - 1]);
                assert(all[m as int] == Some(whole[n - m - 1]));
                chain.push(c);
                assert(back@ =~= whole.take(n - chain@.len()));
            },
            None => {},
        }
    }
    assert(certificate_views(chain@) =~= read_views(all));
    Ok(chain)
}

/// What is wrong with the links of a chain from the `i`th on: each certificate has to be issued by the next,
/// which has to be an authority that may do so. `signed` tells of each certificate whether its signature
/// was found to be that of the next.
pub open spec fn link_fault(chain: Seq<CertificateView>, signed: Seq<bool>, i: int) -> Option<TlsError>
    decreases chain.len() - i,
{
    if i < 0 || i + 1 >= chain.len() {
        None
    } else {
        let issuer = chain[i + 1];
        if chain[i].issuer != issuer.subject {
            Some(TlsError::VerificationFailed(TrustFault::NameMismatch))
        } else if !(i < signed.len() && signed[i]) {
            Some(TlsError::VerificationFailed(TrustFault::ChainSignature))
        } else {
            match issuer.basic_constraints {
                None => Some(TlsError::InvalidCertificate(CertificateFault::BasicConstraints)),
                Some((is_ca, path_len)) => if !is_ca {
                    Some(TlsError::VerificationFailed(TrustFault::NotAnAuthority))
                } else if !issuer.can_sign {
                    Some(TlsError::VerificationFailed(TrustFault::KeyUsage))
                } else if path_len matches Some(m) && i > m {
                    Some(TlsError::VerificationFailed(TrustFault::PathLength))
                } else {
                    link_fault(chain, signed, i + 1)
                },
            }
        }
    }
}

/// What was found out, at the time of a check, about the anchor under which a chain hangs: whether it is in its
/// time, and whether it signed the last certificate.
#[derive(Debug, Clone, Copy, PartialEq, Eq, Structural)]
pub struct AnchorFindings {
    pub valid_now: bool,
    pub signed: bool,
}

/// What is wrong with the end of a chain: it has to be an anchor, or to be issued by one.
pub open spec fn root_fault(
    anchors: Seq<CertificateView>,
    chain: Seq<CertificateView>,
    anchor_found: AnchorFindings,
) -> Option<TlsError> {
    if is_anchor(anchors, chain.last()) {
        None
    } else {
        match issuer_of(anchors, chain.last()) {
            None => Some(TlsError::VerificationFailed(TrustFault::NoTrustedRoot)),
            Some(a) => if !anchor_found.valid_now {
                Some(TlsError::InvalidCertificate(CertificateFault::AnchorExpired))
            } else if !anchor_found.signed {
                Some(TlsError::VerificationFailed(TrustFault::AnchorSignature))
            } else if a.basic_constraints matches Some((true, Some(m))) && chain.len() - 1 > m {
                Some(TlsError::VerificationFailed(TrustFault::AnchorPathLength))
            } else {
                None
            },
        }
    }
}

/// What is wrong with a chain of certificates.
pub open spec fn chain_fault(
    anchors: Seq<CertificateView>,
    chain: Seq<CertificateView>,
    signed: Seq<bool>,
    anchor_found: AnchorFindings,
) -> Option<TlsError> {
    if anchors.len() == 0 {
        Some(TlsError::VerificationFailed(TrustFault::NoAnchors))
    } else if exists|i: int| 0 <= i < chain.len() && !(#[trigger] chain[i]).valid_now {
        Some(TlsError::InvalidCertificate(CertificateFault::ChainExpired))
    } else if !chain[0].server_auth {
        Some(TlsError::VerificationFailed(TrustFault::ExtendedKeyUsage))
    } else {
        match link_fault(chain, signed, 0) {
            Some(e) => Some(e),
            None => root_fault(anchors, chain, anchor_found),
        }
    }
}

fn find_link_fault(chain: &Vec<Certificate>, signed: &Vec<bool>) -> (r: Option<TlsError>)
    ensures
        r == link_fault(certificate_views(chain@), signed@, 0),
{
    let ghost all = certificate_views(chain@);
    let end: usize = chain.len();
    let mut i: usize = 0;
    while end > 1 && i < end - 1
        invariant
            i <= end == chain@.len(),
            end > 1 ==> i <= end - 1,
            all == certificate_views(chain@),
            link_fault(all, signed@, i as int) == link_fault(all, signed@, 0),
        decreases end - i,
    {
        let subject = &chain[i];
        let issuer = &chain[i + 1];
        assert(all[i as int] == subject@ && all[i + 1] == issuer@);
        if !crate::bytes::constant_time_eq(subject.issuer.as_slice(), issuer.subject.as_slice()) {
            return Some(TlsError::VerificationFailed(TrustFault::NameMismatch));
        }
        if !(i < signed.len() && signed[i]) {
            return Some(TlsError::VerificationFailed(TrustFault::ChainSignature));
        }
        match issuer.basic_constraints {
            None => {
                return Some(TlsError::InvalidCertificate(CertificateFault::BasicConstraints));
            },
            Some((is_ca, path_len)) => {
                if !is_ca {
                    return Some(TlsError::VerificationFailed(TrustFault::NotAnAuthority));
                }
                if !issuer.can_sign {
                    return Some(TlsError::VerificationFailed(TrustFault::KeyUsage));
                }
                match path_len {
                    Some(m) => {
                        if i as u64 > m as u64 {
                            return Some(TlsError::VerificationFailed(TrustFault::PathLength));
                        }
                    },
                    None => {},
                }
            },
        }
        i = i + 1;
    }
    None
}

/// Decides whether a chain of certificates is trusted. `signed` tells of each certificate whether its
/// signature was found to be that of the next one, `anchor_found` what was found out about the anchor under
/// which the last one hangs.
pub fn validate_certificate_chain(
    trust_store: &TrustStore,
    chain: &Vec<Certificate>,
    signed: &Vec<bool>,
    anchor_found: AnchorFindings,
) -> (r: Result<(), TlsError>)
    requires
        trust_store@.len() == 0 || chain@.len() > 0,
    ensures
        match r {
            Ok(()) => chain_fault(
                trust_store@,
                certificate_views(chain@),
                signed@,
                anchor_found,
            ) is None,
            Err(e) => chain_fault(trust_store@, certificate_views(chain@), signed@, anchor_found)
                == Some(e),
        },
{
    let ghost all = certificate_views(chain@);
    if trust_store.is_empty() {
        return Err(TlsError::VerificationFailed(TrustFault::NoAnchors));
    }
    let mut i: usize = 0;
    while i < chain.len()
        invariant
            i <= chain@.len(),
            all == certificate_views(chain@),
            trust_store@.len() > 0,
            forall|j: int| 0 <= j < i ==> (#[trigger] all[j]).valid_now,
        decreases chain@.len() - i,
    {
        assert(all[i as int] == chain@[i as int]@);
        if !chain[i].valid_now {
            return Err(TlsError::InvalidCertificate(CertificateFault::ChainExpired));
        }
        i = i + 1;
    }
    assert(all[0] == chain@[0]@);
    if !chain[0].server_auth {
        return Err(TlsError::VerificationFailed(TrustFault::ExtendedKeyUsage));
    }
    match find_link_fault(chain, signed) {
        Some(e) => {
            return Err(e);
        },
        None => {},
    }
    let top = &chain[chain.len() - 1];
    assert(all.last() == top@);
    if trust_store.contains_exact(top) {
        return Ok(());
    }
    match trust_store.find_issuer(top) {
        None => Err(TlsError::VerificationFailed(TrustFault::NoTrustedRoot)),
        Some(anchor) => {
            if !anchor_found.valid_now {
                return Err(TlsError::InvalidCertificate(CertificateFault::AnchorExpired));
            }
            if !anchor_found.signed {
                return Err(TlsError::VerificationFailed(TrustFault::AnchorSignature));
            }
            match anchor.basic_constraints {
                Some((true, Some(m))) => {
                    if (chain.len() - 1) as u64 > m as u64 {
                        return Err(TlsError::VerificationFailed(TrustFault::AnchorPathLength));
                    }
                },
                _ => {},
            }
            Ok(())
        },
    }
}

/// What is wrong with the certificates of a server.
pub open spec fn server_fault(
    anchors: Seq<CertificateView>,
    verify_peer: bool,
    server_name: Option<Seq<char>>,
    name_matches: bool,
    chain: Seq<CertificateView>,
    signed: Seq<bool>,
    anchor_found: AnchorFindings,
) -> Option<TlsError> {
    if !chain[0].valid_now {
        Some(TlsError::InvalidCertificate(CertificateFault::LeafExpired))
    } else if (server_name matches Some(n) && n.len() > 0) && !name_matches {
        Some(TlsError::InvalidCertificate(CertificateFault::HostnameMismatch))
    } else if verify_peer {
        chain_fault(anchors, chain, signed, anchor_found)
    } else {
        None
    }
}

/// Decides whether the certificates of a server are accepted. `name_matches` tells whether the first one
/// was found to be for the server's name.
pub fn verify_certificate(
    trust_store: &TrustStore,
    verify_peer: bool,
    server_name: Option<&str>,
    name_matches: bool,
    chain: &Vec<Certificate>,
    signed: &Vec<bool>,
    anchor_found: AnchorFindings,
) -> (r: Result<(), TlsError>)
    requires
        chain@.len() > 0,
    ensures
        ({
            let fault = server_fault(
                trust_store@,
                verify_peer,
                match server_name {
                    Some(n) => Some(n@),
                    None => None,
                },
                name_matches,
                certificate_views(chain@),
                signed@,
                anchor_found,
            );
            match r {
                Ok(()) => fault is None,
                Err(e) => fault == Some(e),
            }
        }),
{
    assert(certificate_views(chain@)[0] == chain@[0]@);
    if !chain[0].valid_now {
        return Err(TlsError::InvalidCertificate(CertificateFault::LeafExpired));
    }
    match server_name {
        Some(n) => {
            let name = crate::text::chars_of(n);
            if name.len() > 0 && !name_matches {
                return Err(TlsError::InvalidCertificate(CertificateFault::HostnameMismatch));
            }
        },
        None => {},
    }
    if verify_peer {
        validate_certificate_chain(trust_store, chain, signed, anchor_found)
    } else {
        Ok(())
    }
}

proof fn lemma_links(chain: Seq<CertificateView>, signed: Seq<bool>, i: int)
    requires
        0 <= i,
        link_fault(chain, signed, i) is None,
    ensures
        forall|k: int|
            i <= k && k + 1 < chain.len() ==> {
                &&& (#[trigger] chain[k]).issuer == chain[k + 1].subject
                &&& k < signed.len() && signed[k]
                &&& chain[k + 1].can_sign
                &&& chain[k + 1].basic_constraints matches Some((true, m)) && (m matches Some(x)
                    ==> k <= x)
            },
    decreases chain.len() - i,
{
    if i + 1 < chain.len() {
        lemma_links(chain, signed, i + 1);
    }
}

/// A chain that is trusted is sound: there are anchors, every certificate is valid now, the first may serve,
/// each is named and signed by the next, which is an authority within its limits, and the last is an anchor or
/// hangs under one that is valid and signed it.
pub proof fn law_trusted_chain_is_sound(
    anchors: Seq<CertificateView>,
    chain: Seq<CertificateView>,
    signed: Seq<bool>,
    anchor_found: AnchorFindings,
)
    requires
        chain.len() > 0,
        chain_fault(anchors, chain, signed, anchor_found) is None,
    ensures
        anchors.len() > 0,
        forall|i: int| 0 <= i < chain.len() ==> (#[trigger] chain[i]).valid_now,
        chain[0].server_auth,
        forall|k: int|
            0 <= k && k + 1 < chain.len() ==> {
                &&& (#[trigger] chain[k]).issuer == chain[k + 1].subject
                &&& k < signed.len() && signed[k]
                &&& chain[k + 1].can_sign
                &&& chain[k + 1].basic_constraints matches Some((true, m)) && (m matches Some(x)
                    ==> k <= x)
            },
        is_anchor(anchors, chain.last()) || (anchor_found.valid_now && anchor_found.signed && (
        exists|a: CertificateView| #[trigger] anchors.contains(a) && may_issue(a, chain.last()))),
{
    lemma_links(chain, signed, 0);
    law_issuer_is_anchor(anchors, chain.last());
    if !is_anchor(anchors, chain.last()) {
        let a = issuer_of(anchors, chain.last())->0;
        assert(anchors.contains(a));
    }
}

/// A chain that hangs under an anchor which is out of its time when the chain is checked is refused, however the
/// anchor was when the store was filled.
pub proof fn law_expired_anchor_refused(
    anchors: Seq<CertificateView>,
    chain: Seq<CertificateView>,
    signed: Seq<bool>,
    anchor_found: AnchorFindings,
)
    requires
        chain.len() > 0,
        !is_anchor(anchors, chain.last()),
        !anchor_found.valid_now,
    ensures
        chain_fault(anchors, chain, signed, anchor_found) is Some,
{
}

/// A chain with a certificate that is not valid now is refused whenever the peer is verified.
pub proof fn law_expired_chain_refused(
    anchors: Seq<CertificateView>,
    server_name: Option<Seq<char>>,
    name_matches: bool,
    chain: Seq<CertificateView>,
    signed: Seq<bool>,
    anchor_found: AnchorFindings,
    i: int,
)
    requires
        0 <= i < chain.len(),
        !chain[i].valid_now,
    ensures
        server_fault(anchors, true, server_name, name_matches, chain, signed, anchor_found) is Some,
{
}

proof fn lemma_entries_first(der: Seq<u8>, rest: Seq<u8>, sofar: Seq<Seq<u8>>)
    requires
        der.len() < 0x100_0000,
    ensures
        entries_in(be24(cut24(der.len())) + der + seq![0u8, 0u8] + rest, sofar) == entries_in(
            rest,
            sofar.push(der),
        ),
{
    let list = be24(cut24(der.len())) + der + seq![0u8, 0u8] + rest;
    let n = der.len() as int;
    law_be24_roundtrip(der.len());
    assert(cut24(der.len()) == der.len());
    let b = be24(der.len());
    assert(list[0] == b[0] && list[1] == b[1] && list[2] == b[2]);
    assert(list.subrange(3, 3 + n) =~= der);
    assert(list[3 + n] == 0 && list[4 + n] == 0);
    assert(list.skip(5 + n) =~= rest);
}

proof fn lemma_entries_back(ders: Seq<Seq<u8>>, i: int, rest: Seq<u8>)
    requires
        0 <= i <= ders.len(),
        forall|k: int| 0 <= k < ders.len() ==> (#[trigger] ders[k]).len() < 0x100_0000,
    ensures
        entries_in(entry_octets(ders, i) + rest, seq![]) == entries_in(rest, ders.take(i)),
    decreases i,
{
    if i > 0 {
        let d = ders[i - 1];
        let one = be24(cut24(d.len())) + d + seq![0u8, 0u8];
        assert(entry_octets(ders, i) + rest =~= entry_octets(ders, i - 1) + (one + rest));
        lemma_entries_back(ders, i - 1, one + rest);
        lemma_entries_first(d, rest, ders.take(i - 1));
        assert(ders.take(i - 1).push(d) =~= ders.take(i));
    } else {
        assert(entry_octets(ders, 0) + rest =~= rest);
        assert(ders.take(0) =~= seq![]);
    }
}

proof fn lemma_entries_room(ders: Seq<Seq<u8>>, n: int, k: int)
    requires
        0 <= k < n <= ders.len(),
    ensures
        ders[k].len() + 5 <= entry_octets(ders, n).len(),
    decreases n,
{
    if k < n - 1 {
        lemma_entries_room(ders, n - 1, k);
    }
}

/// The certificates that a message was made of are cut out of it again, as far as three octets can tell its
/// length. A message of less than ten octets is refused: the list has to hold six at least.
pub proof fn law_certificate_message_roundtrip(ders: Seq<Seq<u8>>)
    requires
        6 <= entry_octets(ders, ders.len() as int).len() < 0x100_0000,
    ensures
        chain_in(certificate_message(ders)) == (ders, None::<CertificateFault>),
{
    let list = entry_octets(ders, ders.len() as int);
    let msg = certificate_message(ders);
    law_be24_roundtrip(list.len());
    let b = be24(list.len());
    assert(cut24(list.len()) == list.len());
    assert(msg[1] == b[0] && msg[2] == b[1] && msg[3] == b[2]);
    assert(msg.subrange(4, 4 + list.len() as int) =~= list);
    assert forall|k: int| 0 <= k < ders.len() implies (#[trigger] ders[k]).len() < 0x100_0000 by {
        lemma_entries_room(ders, ders.len() as int, k);
    }
    lemma_entries_back(ders, ders.len() as int, seq![]);
    assert(list + seq![] =~= list);
    assert(ders.take(ders.len() as int) =~= ders);
    if ders.len() == 0 {
        assert(list.len() == 0);
    }
}

/// What the holder of a certificate signs in a handshake.
pub open spec fn verify_content(is_client: bool, transcript_hash: Seq<u8>) -> Seq<u8> {
    Seq::new(64, |i: int| 0x20u8) + vstd::utf8::encode_utf8(
        if is_client {
            "TLS 1.3, client CertificateVerify"@
        } else {
            "TLS 1.3, server CertificateVerify"@
        },
    ) + seq![0u8] + transcript_hash
}

/// Writes what the holder of a certificate signs.
pub fn certificate_verify_content(is_client: bool, transcript_hash: &[u8]) -> (r: Vec<u8>)
    ensures
        r@ == verify_content(is_client, transcript_hash@),
{
    let mut out: Vec<u8> = Vec::new();
    let mut i: usize = 0;
    while i < 64
        invariant
            i <= 64,
            out@ =~= Seq::new(i as nat, |k: int| 0x20u8),
        decreases 64 - i,
    {
        out.push(0x20);
        i = i + 1;
    }
    let label = if is_client {
        "TLS 1.3, client CertificateVerify"
    } else {
        "TLS 1.3, server CertificateVerify"
    };
    push_bytes(&mut out, label.as_bytes());
    out.push(0);
    push_bytes(&mut out, transcript_hash);
    assert(out@ =~= verify_content(is_client, transcript_hash@));
    out
}

/// The message that carries a signature.
pub open spec fn verify_message(signature: Seq<u8>) -> Seq<u8> {
    be16(0x0804) + be16(cut16(signature.len())) + signature
}

/// Writes the message that carries a signature; `signature` is `None` where signing failed.
pub fn build_certificate_verify(signature: Option<&[u8]>) -> (r: Result<Vec<u8>, TlsError>)
    ensures
        match signature {
            Some(s) => r matches Ok(m) && m@ == verify_message(s@),
            None => r == Err::<Vec<u8>, TlsError>(
                TlsError::CipherError(crate::net::https::tls::config::CipherFault::Sign),
            ),
        },
{
    match signature {
        Some(s) => {
            let mut out: Vec<u8> = Vec::new();
            push_be16(&mut out, 0x0804);
            push_cut16(&mut out, s.len());
            push_bytes(&mut out, s);
            assert(out@ =~= verify_message(s@));
            Ok(out)
        },
        None => Err(TlsError::CipherError(crate::net::https::tls::config::CipherFault::Sign)),
    }
}

/// The signature that a message carries, if it is all there.
pub open spec fn signature_in(msg: Seq<u8>) -> Option<Seq<u8>> {
    let n = from_be16(msg[2], msg[3]) as int;
    if 4 + n > msg.len() {
        None
    } else {
        Some(msg.subrange(4, 4 + n))
    }
}

/// Cuts the signature out of the message that carries it.
pub fn read_signature(verify_msg: &[u8]) -> (r: Option<Vec<u8>>)
    requires
        verify_msg@.len() >= 4,
    ensures
        match r {
            Some(s) => signature_in(verify_msg@) == Some(s@),
            None => signature_in(verify_msg@) is None,
        },
{
    let n = read_be16(verify_msg, 2) as usize;
    if n > verify_msg.len() - 4 {
        return None;
    }
    let s = copy_range(verify_msg, 4, 4 + n);
    assert(s@ =~= verify_msg@.subrange(4, 4 + n as int));
    Some(s)
}

/// What came of holding a signature against the key of a certificate.
#[derive(Debug, Clone, Copy, PartialEq, Eq, Structural)]
pub enum KeyFinding {
    /// The certificate has no key.
    NoKey,
    /// Its key cannot be read.
    BadKey,
    /// Whether the signature was found to be its own.
    Checked(bool),
}

/// What comes of holding a signature against the keys of certificates, from the `i`th on; `found` tells it of
/// each certificate.
pub open spec fn signature_fault(msg: Seq<u8>, found: Seq<KeyFinding>, i: int) -> Option<TlsError>
    decreases found.len() - i,
{
    if i < 0 || i >= found.len() {
        Some(TlsError::VerificationFailed(TrustFault::VerifyFailed))
    } else {
        match found[i] {
            KeyFinding::NoKey => Some(TlsError::InvalidCertificate(CertificateFault::NoPublicKey)),
            KeyFinding::BadKey => Some(TlsError::InvalidCertificate(CertificateFault::BadPublicKey)),
            KeyFinding::Checked(ok) => if signature_in(msg) is None {
                Some(TlsError::VerificationFailed(TrustFault::VerifyTruncated))
            } else if ok {
                None
            } else {
                signature_fault(msg, found, i + 1)
            },
        }
    }
}

/// Decides whether the message that carries a signature is accepted.
pub fn verify_certificate_verify(verify_msg: &[u8], found: &Vec<KeyFinding>) -> (r: Result<
    (),
    TlsError,
>)
    ensures
        match r {
            Ok(()) => verify_msg@.len() >= 4 && signature_fault(verify_msg@, found@, 0) is None,
            Err(e) => e == (if verify_msg@.len() < 4 {
                TlsError::VerificationFailed(TrustFault::VerifyTooShort)
            } else {
                signature_fault(verify_msg@, found@, 0)->0
            }) && (verify_msg@.len() >= 4 ==> signature_fault(verify_msg@, found@, 0) is Some),
        },
{
    if verify_msg.len() < 4 {
        return Err(TlsError::VerificationFailed(TrustFault::VerifyTooShort));
    }
    let signature = read_signature(verify_msg);
    let mut i: usize = 0;
    while i < found.len()
        invariant
            i <= found@.len(),
            verify_msg@.len() >= 4,
            signature is Some == signature_in(verify_msg@) is Some,
            signature_fault(verify_msg@, found@, i as int) == signature_fault(
                verify_msg@,
                found@,
                0,
            ),
        decreases found@.len() - i,
    {
        match found[i] {
            KeyFinding::NoKey => {
                return Err(TlsError::InvalidCertificate(CertificateFault::NoPublicKey));
            },
            KeyFinding::BadKey => {
                return Err(TlsError::InvalidCertificate(CertificateFault::BadPublicKey));
            },
            KeyFinding::Checked(ok) => {
                if signature.is_none() {
                    return Err(TlsError::VerificationFailed(TrustFault::VerifyTruncated));
                }
                if ok {
                    return Ok(());
                }
            },
        }
        i = i + 1;
    }
    Err(TlsError::VerificationFailed(TrustFault::VerifyFailed))
}

proof fn lemma_good_links(chain: Seq<CertificateView>, signed: Seq<bool>, i: int)
    requires
        0 <= i,
        forall|k: int|
            i <= k && k + 1 < chain.len() ==> {
                &&& (#[trigger] chain[k]).issuer == chain[k + 1].subject
                &&& k < signed.len() && signed[k]
                &&& chain[k + 1].can_sign
                &&& chain[k + 1].basic_constraints matches Some((true, m)) && (m matches Some(x) ==> k <= x)
            },
    ensures
        link_fault(chain, signed, i) is None,
    decreases chain.len() - i,
{
    if i + 1 < chain.len() {
        assert(chain[i].issuer == chain[i + 1].subject);
        lemma_good_links(chain, signed, i + 1);
    }
}

/// A chain is trusted where every certificate in it is valid, its first may stand for a server, each is signed by the
/// next, which is an authority that may sign so far down, and its last is an anchor.
pub proof fn law_sound_chain_is_trusted(
    anchors: Seq<CertificateView>,
    chain: Seq<CertificateView>,
    signed: Seq<bool>,
    anchor_found: AnchorFindings,
    a: int,
)
    requires
        chain.len() > 0,
        forall|i: int| 0 <= i < chain.len() ==> (#[trigger] chain[i]).valid_now,
        chain[0].server_auth,
        forall|k: int|
            0 <= k && k + 1 < chain.len() ==> {
                &&& (#[trigger] chain[k]).issuer == chain[k + 1].subject
                &&& k < signed.len() && signed[k]
                &&& chain[k + 1].can_sign
                &&& chain[k + 1].basic_constraints matches Some((true, m)) && (m matches Some(x) ==> k <= x)
            },
        0 <= a < anchors.len(),
        anchors[a].der == chain.last().der,
    ensures
        chain_fault(anchors, chain, signed, anchor_found) is None,
{
    lemma_good_links(chain, signed, 0);
}

/// The anchor over a trusted chain whose last certificate is none itself has the name and the key of that certificate's
/// issuer, and may have as many authorities below it as the chain has.
pub proof fn law_anchor_fits(
    anchors: Seq<CertificateView>,
    chain: Seq<CertificateView>,
    signed: Seq<bool>,
    anchor_found: AnchorFindings,
)
    requires
        chain.len() > 0,
        chain_fault(anchors, chain, signed, anchor_found) is None,
        forall|j: int| 0 <= j < anchors.len() ==> (#[trigger] anchors[j]).der != chain.last().der,
    ensures
        anchor_found.valid_now && anchor_found.signed,
        exists|k: int|
            {
                let a = #[trigger] anchors[k];
                &&& 0 <= k < anchors.len()
                &&& a.subject == chain.last().issuer
                &&& chain.last().authority_key_id.len() == 0 || a.subject_key_id.len() == 0 || a.subject_key_id
                    == chain.last().authority_key_id
                &&& a.basic_constraints matches Some((true, Some(m))) ==> chain.len() - 1 <= m
            },
{
    law_issuer_is_anchor(anchors, chain.last());
    let a = issuer_of(anchors, chain.last())->0;
    let k = choose|k: int| 0 <= k < anchors.len() && anchors[k] == a;
    assert(anchors[k] == a);
}

/// A server is refused where its own certificate is not valid, and where it has to have a name and its certificate is for
/// another; for the rest its chain counts where peers are verified, and nothing where they are not.
pub proof fn law_server_certificates(
    anchors: Seq<CertificateView>,
    verify_peer: bool,
    server_name: Option<Seq<char>>,
    name_matches: bool,
    chain: Seq<CertificateView>,
    signed: Seq<bool>,
    anchor_found: AnchorFindings,
)
    ensures
        ({
            let fault = server_fault(anchors, verify_peer, server_name, name_matches, chain, signed, anchor_found);
            let named = server_name matches Some(n) && n.len() > 0;
            &&& !chain[0].valid_now ==> fault is Some
            &&& named && !name_matches ==> fault is Some
            &&& chain[0].valid_now && (!named || name_matches) ==> fault == (if verify_peer {
                chain_fault(anchors, chain, signed, anchor_found)
            } else {
                None
            })
        }),
{
}

/// The signature in a message is found there again, and the two sides of a handshake sign different texts, both of which
/// end in what was said.
pub proof fn law_signature_is_read(signature: Seq<u8>, transcript_hash: Seq<u8>)
    requires
        signature.len() < 0x1_0000,
    ensures
        signature_in(verify_message(signature)) == Some(signature),
        verify_content(true, transcript_hash) != verify_content(false, transcript_hash),
        forall|side: bool|
            (#[trigger] verify_content(side, transcript_hash)).len() == 98 + transcript_hash.len() && verify_content(
                side,
                transcript_hash,
            ).skip(98) == transcript_hash,
{
    let msg = verify_message(signature);
    law_be16_roundtrip(cut16(signature.len()));
    assert(msg[2] == be16(cut16(signature.len()))[0] && msg[3] == be16(cut16(signature.len()))[1]);
    assert(msg.subrange(4, 4 + signature.len() as int) =~= signature);
    lemma_side_words();
    let a = verify_content(true, transcript_hash);
    let b = verify_content(false, transcript_hash);
    let c = vstd::utf8::encode_utf8("TLS 1.3, client CertificateVerify"@);
    let s = vstd::utf8::encode_utf8("TLS 1.3, server CertificateVerify"@);
    assert(a[73] == c[9] && b[73] == s[9]);
    assert(a.skip(98) =~= transcript_hash);
    assert(b.skip(98) =~= transcript_hash);
}

proof fn lemma_side_words()
    ensures
        vstd::utf8::encode_utf8("TLS 1.3, client CertificateVerify"@).len() == 33,
        vstd::utf8::encode_utf8("TLS 1.3, server CertificateVerify"@).len() == 33,
        vstd::utf8::encode_utf8("TLS 1.3, client CertificateVerify"@)[9] == 'c' as u8,
        vstd::utf8::encode_utf8("TLS 1.3, server CertificateVerify"@)[9] == 's' as u8,
{
    reveal_strlit("TLS 1.3, client CertificateVerify");
    reveal_strlit("TLS 1.3, server CertificateVerify");
    lemma_octets_of_ascii("TLS 1.3, client CertificateVerify"@, 9);
    lemma_octets_of_ascii("TLS 1.3, server CertificateVerify"@, 9);
}

proof fn lemma_octets_of_ascii(s: Seq<char>, i: int)
    requires
        vstd::utf8::is_ascii_chars(s),
        0 <= i < s.len(),
    ensures
        vstd::utf8::encode_utf8(s).len() == s.len(),
        vstd::utf8::encode_utf8(s)[i] == s[i] as u8,
{
    vstd::utf8::is_ascii_chars_encode_utf8(s);
}

/// A signature is accepted where a key confirms it and every key before that was looked at and did not; it is refused
/// where no key confirms it, or a certificate before has no key that can be read.
pub proof fn law_confirmed_signature(msg: Seq<u8>, found: Seq<KeyFinding>, i: int, k: int)
    requires
        0 <= i <= k <= found.len(),
        forall|j: int| i <= j < k ==> #[trigger] found[j] == KeyFinding::Checked(false),
        signature_in(msg) is Some,
    ensures
        k < found.len() && found[k] == KeyFinding::Checked(true) ==> signature_fault(msg, found, i) is None,
        k < found.len() && !(found[k] is Checked) ==> signature_fault(msg, found, i) is Some,
        k == found.len() ==> signature_fault(msg, found, i) is Some,
    decreases k - i,
{
    if i < k {
        assert(found[i] == KeyFinding::Checked(false));
        law_confirmed_signature(msg, found, i + 1, k);
    }
}

}
