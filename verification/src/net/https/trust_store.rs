//! Trust anchors.
use vstd::prelude::*;

use crate::bytes::constant_time_eq;
use crate::text::{
    chars_of, contains_text, ended, has_text, lemma_ended_front, lines, lines_of, push_chars, string_of, texts,
};

verus! {

/// What is read of a certificate: its encoding, its names and key identifiers as encoded, and what its
/// fields and extensions say. An empty key identifier stands for none. Whether it is in its time was found out
/// when it was read; of an anchor that is asked again at each check.
#[derive(Debug, Clone)]
pub struct Certificate {
    pub der: Vec<u8>,
    pub subject: Vec<u8>,
    pub issuer: Vec<u8>,
    pub subject_key_id: Vec<u8>,
    pub authority_key_id: Vec<u8>,
    pub valid_now: bool,
    pub server_auth: bool,
    pub can_sign: bool,
    /// Whether the certificate is that of an authority, and how many authorities may stand between it
    /// and a leaf; `None` where the extension cannot be read.
    pub basic_constraints: Option<(bool, Option<u32>)>,
}

#[verifier::ext_equal]
pub struct CertificateView {
    pub der: Seq<u8>,
    pub subject: Seq<u8>,
    pub issuer: Seq<u8>,
    pub subject_key_id: Seq<u8>,
    pub authority_key_id: Seq<u8>,
    pub valid_now: bool,
    pub server_auth: bool,
    pub can_sign: bool,
    pub basic_constraints: Option<(bool, Option<u32>)>,
}

impl View for Certificate {
    type V = CertificateView;

    open spec fn view(&self) -> CertificateView {
        CertificateView {
            der: self.der@,
            subject: self.subject@,
            issuer: self.issuer@,
            subject_key_id: self.subject_key_id@,
            authority_key_id: self.authority_key_id@,
            valid_now: self.valid_now,
            server_auth: self.server_auth,
            can_sign: self.can_sign,
            basic_constraints: self.basic_constraints,
        }
    }
}

pub open spec fn certificate_views(v: Seq<Certificate>) -> Seq<CertificateView> {
    v.map_values(|c: Certificate| c@)
}

/// Whether `anchor` can have issued `cert`: the names fit, and the key identifiers where both are there.
pub open spec fn may_issue(anchor: CertificateView, cert: CertificateView) -> bool {
    anchor.subject == cert.issuer && (cert.authority_key_id.len() == 0 || anchor.subject_key_id.len()
        == 0 || anchor.subject_key_id == cert.authority_key_id)
}

/// The position of the first anchor from `i` on that can have issued `cert`.
pub open spec fn issuer_from(anchors: Seq<CertificateView>, cert: CertificateView, i: int) -> Option<
    int,
>
    decreases anchors.len() - i,
{
    if i < 0 || i >= anchors.len() {
        None
    } else if may_issue(anchors[i], cert) {
        Some(i)
    } else {
        issuer_from(anchors, cert, i + 1)
    }
}

/// The anchor under which a certificate hangs.
pub open spec fn issuer_of(anchors: Seq<CertificateView>, cert: CertificateView) -> Option<
    CertificateView,
> {
    match issuer_from(anchors, cert, 0) {
        Some(i) => Some(anchors[i]),
        None => None,
    }
}

/// Whether a certificate is itself an anchor.
pub open spec fn is_anchor(anchors: Seq<CertificateView>, cert: CertificateView) -> bool {
    exists|i: int| 0 <= i < anchors.len() && (#[trigger] anchors[i]).der == cert.der
}

/// The certificates that a reader made of blocks, without the blocks that it could not read.
pub open spec fn readable(certs: Seq<Option<Certificate>>, n: int) -> Seq<CertificateView>
    decreases n,
{
    if n <= 0 {
        seq![]
    } else {
        match certs[n - 1] {
            Some(c) => readable(certs, n - 1).push(c@),
            None => readable(certs, n - 1),
        }
    }
}

/// The text of the blocks of a bundle: what was gathered so far, the block under way if there is one,
/// and the lines from `i` on.
pub open spec fn blocks_from(
    lines: Seq<Seq<char>>,
    i: int,
    done: Seq<Seq<char>>,
    current: Option<Seq<char>>,
) -> Seq<Seq<char>>
    decreases lines.len() - i,
{
    if i < 0 || i >= lines.len() {
        done
    } else {
        let line = lines[i];
        let begun = if has_text(line, "-----BEGIN CERTIFICATE-----"@) {
            Some(seq![])
        } else {
            current
        };
        let grown = match begun {
            Some(b) => Some(b + line + seq!['\n']),
            None => None,
        };
        if has_text(line, "-----END CERTIFICATE-----"@) {
            match grown {
                Some(b) => blocks_from(lines, i + 1, done.push(b), None),
                None => blocks_from(lines, i + 1, done, None),
            }
        } else {
            blocks_from(lines, i + 1, done, grown)
        }
    }
}

/// The blocks of a bundle: each from a line that begins a certificate to the next that ends one.
pub open spec fn pem_blocks(data: Seq<char>) -> Seq<Seq<char>> {
    blocks_from(lines_of(data), 0, seq![], None)
}

pub open spec fn string_texts(v: Seq<String>) -> Seq<Seq<char>> {
    v.map_values(|s: String| s@)
}

/// Parts a bundle into the blocks of its certificates.
pub fn split_pem_certificates(data: &str) -> (r: Vec<String>)
    ensures
        string_texts(r@) == pem_blocks(data@),
{
    let chars = chars_of(data);
    let rows = lines(chars.as_slice());
    let ghost all = texts(rows@);
    let mut out: Vec<String> = Vec::new();
    let mut current: Vec<char> = Vec::new();
    let mut in_block = false;
    let mut i: usize = 0;
    assert(string_texts(out@) =~= seq![]);
    while i < rows.len()
        invariant
            i <= rows@.len(),
            all == texts(rows@),
            blocks_from(
                all,
                i as int,
                string_texts(out@),
                if in_block {
                    Some(current@)
                } else {
                    None
                },
            ) == blocks_from(all, 0, seq![], None),
        decreases rows@.len() - i,
    {
        let line = rows[i];
        assert(all[i as int] == line@);
        if contains_text(line, "-----BEGIN CERTIFICATE-----") {
            in_block = true;
            current = Vec::new();
            assert(current@ =~= seq![]);
        }
        if in_block {
            let ghost was = current@;
            push_chars(&mut current, line);
            current.push('\n');
            assert(current@ =~= was + line@ + seq!['\n']);
        }
        if contains_text(line, "-----END CERTIFICATE-----") {
            if in_block {
                let ghost was = out@;
                out.push(string_of(current.as_slice()));
                assert(string_texts(out@) =~= string_texts(was).push(current@));
            }
            in_block = false;
        }
        i = i + 1;
    }
    out
}

/// The files that may hold the system's anchors, in the order in which they are tried.
pub open spec fn candidates(ssl_cert_file: Option<Seq<char>>, ca_bundle: Option<Seq<char>>) -> Seq<
    Seq<char>,
> {
    (match ssl_cert_file {
        Some(p) => seq![p],
        None => seq![],
    }) + (match ca_bundle {
        Some(p) => seq![p],
        None => seq![],
    }) + seq![
        "/etc/ssl/certs/ca-certificates.crt"@,
        "/etc/pki/tls/certs/ca-bundle.crt"@,
        "/etc/ssl/ca-bundle.pem"@,
        "/etc/pki/tls/cacert.pem"@,
        "/etc/ssl/cert.pem"@,
        "/usr/local/etc/openssl/cert.pem"@,
    ]
}

pub open spec fn opt_view(o: Option<&str>) -> Option<Seq<char>> {
    match o {
        Some(s) => Some(s@),
        None => None,
    }
}

/// Lists the files that may hold the system's anchors; the two arguments are what the environment names.
pub fn candidate_files(ssl_cert_file: Option<&str>, ca_bundle: Option<&str>) -> (r: Vec<String>)
    ensures
        string_texts(r@) == candidates(opt_view(ssl_cert_file), opt_view(ca_bundle)),
{
    let mut out: Vec<String> = Vec::new();
    match ssl_cert_file {
        Some(p) => {
            out.push(p.to_owned());
        },
        None => {},
    }
    match ca_bundle {
        Some(p) => {
            out.push(p.to_owned());
        },
        None => {},
    }
    out.push("/etc/ssl/certs/ca-certificates.crt".to_owned());
    out.push("/etc/pki/tls/certs/ca-bundle.crt".to_owned());
    out.push("/etc/ssl/ca-bundle.pem".to_owned());
    out.push("/etc/pki/tls/cacert.pem".to_owned());
    out.push("/etc/ssl/cert.pem".to_owned());
    out.push("/usr/local/etc/openssl/cert.pem".to_owned());
    assert(string_texts(out@) =~= candidates(opt_view(ssl_cert_file), opt_view(ca_bundle)));
    out
}

/// Why an anchor was not added.
#[derive(Debug, Clone, Copy, PartialEq, Eq, Structural)]
pub enum TrustStoreError {
    Io,
    Parse,
}

/// The certificates that are trusted.
#[derive(Debug, Clone)]
pub struct TrustStore {
    anchors: Vec<Certificate>,
}

impl View for TrustStore {
    type V = Seq<CertificateView>;

    closed spec fn view(&self) -> Seq<CertificateView> {
        certificate_views(self.anchors@)
    }
}

impl Default for TrustStore {
    fn default() -> (r: Self)
        ensures
            r@ == Seq::<CertificateView>::empty(),
    {
        TrustStore::empty()
    }
}

impl TrustStore {
    pub fn empty() -> (r: Self)
        ensures
            r@ == Seq::<CertificateView>::empty(),
    {
        let r = TrustStore { anchors: Vec::new() };
        assert(r@ =~= Seq::<CertificateView>::empty());
        r
    }

    pub fn is_empty(&self) -> (r: bool)
        ensures
            r == (self@.len() == 0),
    {
        self.anchors.len() == 0
    }

    pub fn len(&self) -> (r: usize)
        ensures
            r == self@.len(),
    {
        self.anchors.len()
    }

    pub fn anchors(&self) -> (r: &[Certificate])
        ensures
            certificate_views(r@) == self@,
    {
        self.anchors.as_slice()
    }

    pub fn add_cert(&mut self, cert: Certificate)
        ensures
            final(self)@ == old(self)@.push(cert@),
    {
        let ghost was = self.anchors@;
        self.anchors.push(cert);
        assert(certificate_views(self.anchors@) =~= certificate_views(was).push(cert@));
    }

    /// Adds what a reader made of an encoding; fails where it could not read it.
    pub fn add_der(&mut self, cert: Option<Certificate>) -> (r: Result<(), TrustStoreError>)
        ensures
            match cert {
                Some(c) => r is Ok && final(self)@ == old(self)@.push(c@),
                None => r == Err::<(), TrustStoreError>(TrustStoreError::Parse) && final(self)@ == old(
                    self,
                )@,
            },
    {
        match cert {
            Some(c) => {
                self.add_cert(c);
                Ok(())
            },
            None => Err(TrustStoreError::Parse),
        }
    }

    /// Adds what a reader made of the blocks of a bundle, without those that it could not read, and
    /// tells how many it could.
    pub fn add_pem_bundle(&mut self, certs: Vec<Option<Certificate>>) -> (r: usize)
        ensures
            final(self)@ == old(self)@ + readable(certs@, certs@.len() as int),
            r == readable(certs@, certs@.len() as int).len(),
    {
        let ghost was = self@;
        let ghost all = certs@;
        let mut rest = certs;
        let mut added: Vec<Certificate> = Vec::new();
        let n: usize = rest.len();
        let mut k: usize = n;
        let ghost full = readable(all, n as int);
        assert(certificate_views(added@).reverse() =~= seq![]);
        assert(readable(all, n as int) + certificate_views(added@).reverse() =~= full);
        while k > 0
            invariant
                k <= n,
                rest@.len() == k,
                n == all.len(),
                rest@ == all.take(k as int),
                full == readable(all, n as int),
                readable(all, k as int) + certificate_views(added@).reverse() == full,
            decreases k,
        {
            let last = rest.pop();
            k = k - 1;
            assert(rest@ =~= all.take(k as int));
            match last {
                Some(Some(c)) => {
                    let ghost before = added@;
                    assert(all[k as int] == Some(c));
                    added.push(c);
                    assert(certificate_views(added@) =~= certificate_views(before).push(c@));
                    assert(certificate_views(added@).reverse() =~= seq![c@] + certificate_views(
                        before,
                    ).reverse());
                    assert(readable(all, k as int) + certificate_views(added@).reverse() =~= readable(
                        all,
                        k + 1,
                    ) + certificate_views(before).reverse());
                },
                _ => {
                    assert(all[k as int] is None);
                },
            }
        }
        let count: usize = added.len();
        assert(certificate_views(added@).reverse() =~= full);
        while added.len() > 0
            invariant
                self@ + certificate_views(added@).reverse() == was + full,
            decreases added@.len(),
        {
            let ghost before = added@;
            let ghost mine = self@;
            match added.pop() {
                Some(c) => {
                    assert(before =~= added@.push(c));
                    assert(certificate_views(before) =~= certificate_views(added@).push(c@));
                    assert(certificate_views(before).reverse() =~= seq![c@] + certificate_views(
                        added@,
                    ).reverse());
                    self.add_cert(c);
                    assert(self@ + certificate_views(added@).reverse() =~= mine + certificate_views(
                        before,
                    ).reverse());
                },
                None => {},
            }
        }
        assert(self@ + certificate_views(added@).reverse() =~= self@);
        count
    }

    /// Finds the anchor under which a certificate hangs.
    pub fn find_issuer(&self, cert: &Certificate) -> (r: Option<&Certificate>)
        ensures
            match r {
                Some(a) => issuer_of(self@, cert@) == Some(a@),
                None => issuer_of(self@, cert@) is None,
            },
    {
        let mut i: usize = 0;
        while i < self.anchors.len()
            invariant
                i <= self.anchors@.len(),
                issuer_from(self@, cert@, i as int) == issuer_from(self@, cert@, 0),
            decreases self.anchors@.len() - i,
        {
            let a = &self.anchors[i];
            assert(self@[i as int] == a@);
            if constant_time_eq(a.subject.as_slice(), cert.issuer.as_slice()) && (
            cert.authority_key_id.len() == 0 || a.subject_key_id.len() == 0 || constant_time_eq(
                a.subject_key_id.as_slice(),
                cert.authority_key_id.as_slice(),
            )) {
                return Some(a);
            }
            i = i + 1;
        }
        None
    }

    /// Whether a certificate is itself an anchor.
    pub fn contains_exact(&self, cert: &Certificate) -> (r: bool)
        ensures
            r == is_anchor(self@, cert@),
    {
        let mut i: usize = 0;
        while i < self.anchors.len()
            invariant
                i <= self.anchors@.len(),
                forall|j: int| 0 <= j < i ==> (#[trigger] self@[j]).der != cert@.der,
            decreases self.anchors@.len() - i,
        {
            assert(self@[i as int] == self.anchors@[i as int]@);
            if constant_time_eq(self.anchors[i].der.as_slice(), cert.der.as_slice()) {
                return true;
            }
            i = i + 1;
        }
        false
    }
}

/// A certificate that was added is an anchor from then on, and so is every earlier one.
pub proof fn law_added_is_anchor(anchors: Seq<CertificateView>, cert: CertificateView, other: CertificateView)
    ensures
        is_anchor(anchors.push(cert), cert),
        is_anchor(anchors, other) ==> is_anchor(anchors.push(cert), other),
{
    let more = anchors.push(cert);
    assert(more[anchors.len() as int].der == cert.der);
    if is_anchor(anchors, other) {
        let i = choose|i: int| 0 <= i < anchors.len() && (#[trigger] anchors[i]).der == other.der;
        assert(more[i].der == other.der);
    }
}

proof fn lemma_issuer_from(anchors: Seq<CertificateView>, cert: CertificateView, i: int)
    requires
        0 <= i,
    ensures
        issuer_from(anchors, cert, i) matches Some(k) ==> i <= k < anchors.len() && may_issue(
            anchors[k],
            cert,
        ),
        issuer_from(anchors, cert, i) is None ==> forall|k: int|
            i <= k < anchors.len() ==> !may_issue(#[trigger] anchors[k], cert),
    decreases anchors.len() - i,
{
    if i < anchors.len() {
        lemma_issuer_from(anchors, cert, i + 1);
    }
}

/// An issuer that is found is an anchor that can have issued the certificate; none is found only where no
/// anchor can.
pub proof fn law_issuer_is_anchor(anchors: Seq<CertificateView>, cert: CertificateView)
    ensures
        issuer_of(anchors, cert) matches Some(a) ==> anchors.contains(a) && may_issue(a, cert),
        issuer_of(anchors, cert) is None ==> forall|k: int|
            0 <= k < anchors.len() ==> !may_issue(#[trigger] anchors[k], cert),
{
    lemma_issuer_from(anchors, cert, 0);
}

proof fn lemma_issuer_passes(anchors: Seq<CertificateView>, cert: CertificateView, i: int, k: int)
    requires
        0 <= i <= k <= anchors.len(),
        forall|j: int| i <= j < k ==> !may_issue(#[trigger] anchors[j], cert),
    ensures
        issuer_from(anchors, cert, i) == issuer_from(anchors, cert, k),
    decreases k - i,
{
    if i < k {
        assert(!may_issue(anchors[i], cert));
        lemma_issuer_passes(anchors, cert, i + 1, k);
    }
}

/// The anchor under which a certificate hangs is the first whose name is that of the certificate's issuer and whose key
/// is the issuer's, as far as both tell their keys; where there is none, no anchor has that name and that key. A
/// certificate is an anchor just where one has the same encoding.
pub proof fn law_issuer_fits(anchors: Seq<CertificateView>, cert: CertificateView, k: int)
    ensures
        ({
            let tells = |a: CertificateView|
                a.subject == cert.issuer && (cert.authority_key_id.len() == 0 || a.subject_key_id.len() == 0
                    || a.subject_key_id == cert.authority_key_id);
            &&& 0 <= k < anchors.len() && tells(anchors[k]) && (forall|j: int|
                0 <= j < k ==> !tells(#[trigger] anchors[j])) ==> issuer_of(anchors, cert) == Some(anchors[k])
            &&& (forall|j: int| 0 <= j < anchors.len() ==> !tells(#[trigger] anchors[j])) ==> issuer_of(anchors, cert)
                is None
            &&& 0 <= k < anchors.len() && anchors[k].der == cert.der ==> is_anchor(anchors, cert)
            &&& (forall|j: int| 0 <= j < anchors.len() ==> (#[trigger] anchors[j]).der != cert.der) ==> !is_anchor(
                anchors,
                cert,
            )
        }),
{
    let tells = |a: CertificateView|
        a.subject == cert.issuer && (cert.authority_key_id.len() == 0 || a.subject_key_id.len() == 0 || a.subject_key_id
            == cert.authority_key_id);
    assert forall|a: CertificateView| #[trigger] tells(a) == may_issue(a, cert) by {}
    if 0 <= k < anchors.len() && tells(anchors[k]) && forall|j: int| 0 <= j < k ==> !tells(#[trigger] anchors[j]) {
        assert forall|j: int| 0 <= j < k implies !may_issue(#[trigger] anchors[j], cert) by {
            assert(!tells(anchors[j]));
        }
        lemma_issuer_passes(anchors, cert, 0, k);
    }
    if forall|j: int| 0 <= j < anchors.len() ==> !tells(#[trigger] anchors[j]) {
        assert forall|j: int| 0 <= j < anchors.len() implies !may_issue(#[trigger] anchors[j], cert) by {
            assert(!tells(anchors[j]));
        }
        lemma_issuer_passes(anchors, cert, 0, anchors.len() as int);
    }
}

proof fn lemma_block_grows(lines: Seq<Seq<char>>, i: int, j: int, done: Seq<Seq<char>>, sofar: Seq<char>)
    requires
        0 <= i <= j < lines.len(),
        forall|k: int|
            i <= k < j ==> !has_text(#[trigger] lines[k], "-----BEGIN CERTIFICATE-----"@) && !has_text(
                lines[k],
                "-----END CERTIFICATE-----"@,
            ),
        has_text(lines[j], "-----END CERTIFICATE-----"@),
        !has_text(lines[j], "-----BEGIN CERTIFICATE-----"@),
    ensures
        blocks_from(lines, i, done, Some(sofar)) == blocks_from(
            lines,
            j + 1,
            done.push(sofar + ended(lines.subrange(i, j + 1))),
            None,
        ),
    decreases j - i,
{
    let grown = sofar + lines[i] + seq!['\n'];
    if i < j {
        assert(!has_text(lines[i], "-----BEGIN CERTIFICATE-----"@) && !has_text(lines[i], "-----END CERTIFICATE-----"@));
        lemma_block_grows(lines, i + 1, j, done, grown);
        let all = lines.subrange(i, j + 1);
        lemma_ended_front(all);
        assert(all.skip(1) =~= lines.subrange(i + 1, j + 1));
        assert(all[0] == lines[i]);
        assert(grown + ended(lines.subrange(i + 1, j + 1)) =~= sofar + ended(all));
    } else {
        let all = lines.subrange(i, j + 1);
        assert(all =~= seq![lines[i]]);
        assert(all.drop_last() =~= seq![]);
        assert(ended(all.drop_last()) =~= seq![]);
        assert(ended(all) =~= lines[i] + seq!['\n']);
        assert(sofar + ended(all) =~= grown);
    }
}

proof fn lemma_block_skips(lines: Seq<Seq<char>>, from: int, i: int, done: Seq<Seq<char>>)
    requires
        0 <= from <= i <= lines.len(),
        forall|k: int| from <= k < i ==> !has_text(#[trigger] lines[k], "-----BEGIN CERTIFICATE-----"@),
    ensures
        blocks_from(lines, from, done, None) == blocks_from(lines, i, done, None),
    decreases i - from,
{
    if from < i {
        assert(!has_text(lines[from], "-----BEGIN CERTIFICATE-----"@));
        lemma_block_skips(lines, from + 1, i, done);
    }
}

/// A certificate in a bundle is what stands from the line that begins it to the line that ends it, whatever stands
/// between certificates.
pub proof fn law_bundle_blocks(lines: Seq<Seq<char>>, from: int, i: int, j: int, done: Seq<Seq<char>>)
    requires
        0 <= from <= i < j < lines.len(),
        forall|k: int| from <= k < i ==> !has_text(#[trigger] lines[k], "-----BEGIN CERTIFICATE-----"@),
        has_text(lines[i], "-----BEGIN CERTIFICATE-----"@),
        !has_text(lines[i], "-----END CERTIFICATE-----"@),
        forall|k: int|
            i < k < j ==> !has_text(#[trigger] lines[k], "-----BEGIN CERTIFICATE-----"@) && !has_text(
                lines[k],
                "-----END CERTIFICATE-----"@,
            ),
        has_text(lines[j], "-----END CERTIFICATE-----"@),
        !has_text(lines[j], "-----BEGIN CERTIFICATE-----"@),
    ensures
        blocks_from(lines, from, done, None) == blocks_from(
            lines,
            j + 1,
            done.push(ended(lines.subrange(i, j + 1))),
            None,
        ),
{
    lemma_block_skips(lines, from, i, done);
    let first = Seq::<char>::empty() + lines[i] + seq!['\n'];
    lemma_block_grows(lines, i + 1, j, done, first);
    let all = lines.subrange(i, j + 1);
    lemma_ended_front(all);
    assert(all.skip(1) =~= lines.subrange(i + 1, j + 1));
    assert(all[0] == lines[i]);
    assert(first + ended(lines.subrange(i + 1, j + 1)) =~= ended(all));
}

}
