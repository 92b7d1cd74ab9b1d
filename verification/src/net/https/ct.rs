//! Logs of certificates: which are known, what a certificate carries from them, and whether that vouches for
//! it. Reading certificates and checking signatures is done elsewhere; the outcome comes in as arguments.
use vstd::prelude::*;
use vstd::slice::{slice_subrange, slice_to_vec};

use crate::bytes::{
    be16, be24, be64, copy_range, from_be16, from_be64, hex, law_be16_roundtrip, law_be64_roundtrip, push_be16,
    push_be64, push_bytes, read_be16, read_be64, to_hex,
};
use crate::crypto::base64::{decode_chars, decoded, encoded, law_base64_roundtrip, lemma_encoded_symbols};
use crate::crypto::sha256::{sha256, sha256_of};
use crate::net::blob::opt_bytes;
use crate::net::https::tls::certificate::{cut16, cut24, push_cut16, push_cut24};
use crate::table::{put, value, Table};
use crate::text::{
    begins_with, chars_of, find, find_char, is_white, lacks, lemma_find_is, lemma_trimmed_solid, lines,
    lines_of, starts_with, string_of, trim, trimmed,
};
use crate::net::envelope::lemma_armoured_tidy;

verus! {

/// A log.
#[derive(Debug, Clone)]
pub struct CtLog {
    pub operator: String,
    pub description: String,
    pub public_key_der: Vec<u8>,
}

#[verifier::ext_equal]
pub struct CtLogView {
    pub operator: Seq<char>,
    pub description: Seq<char>,
    pub public_key_der: Seq<u8>,
}

impl View for CtLog {
    type V = CtLogView;

    open spec fn view(&self) -> CtLogView {
        CtLogView {
            operator: self.operator@,
            description: self.description@,
            public_key_der: self.public_key_der@,
        }
    }
}

/// The logs that are known, under the digests of their keys.
pub type Logs = Seq<(Seq<char>, CtLogView)>;

/// The log that a line tells: who runs it, what it is, and its key. Empty lines, remarks and lines that do
/// not tell all three tell none.
pub open spec fn log_in(line: Seq<char>) -> Option<CtLogView> {
    let s = trimmed(line);
    if s.len() == 0 || begins_with(s, "#"@) {
        None
    } else {
        match find(s, '|') {
            None => None,
            Some(i) => {
                let rest = s.skip(i + 1);
                match find(rest, '|') {
                    None => None,
                    Some(j) => match decoded(rest.skip(j + 1)) {
                        None => None,
                        Some(key) => Some(
                            CtLogView {
                                operator: s.take(i),
                                description: rest.take(j),
                                public_key_der: key,
                            },
                        ),
                    },
                }
            },
        }
    }
}

/// Puts a log among those that are known.
pub open spec fn with_log(logs: Logs, log: CtLogView) -> Logs {
    put(logs, hex(sha256_of(log.public_key_der)), log)
}

/// The logs that the first `n` lines tell.
pub open spec fn logs_among(lines: Seq<Seq<char>>, n: int) -> Logs
    decreases n,
{
    if n <= 0 {
        seq![]
    } else {
        match log_in(lines[n - 1]) {
            Some(log) => with_log(logs_among(lines, n - 1), log),
            None => logs_among(lines, n - 1),
        }
    }
}

/// The logs that a text tells.
pub open spec fn logs_in(text: Seq<char>) -> Logs {
    logs_among(lines_of(text), lines_of(text).len() as int)
}

fn read_log(line: &[char]) -> (r: Option<CtLog>)
    ensures
        match r {
            Some(log) => log_in(line@) == Some(log@),
            None => log_in(line@) is None,
        },
{
    let s = trim(line);
    if s.len() == 0 || starts_with(s, "#") {
        return None;
    }
    let i = match find_char(s, '|') {
        Some(i) => i,
        None => {
            return None;
        },
    };
    let operator = slice_subrange(s, 0, i);
    let rest = slice_subrange(s, i + 1, s.len());
    assert(operator@ =~= s@.take(i as int));
    assert(rest@ =~= s@.skip(i + 1));
    let j = match find_char(rest, '|') {
        Some(j) => j,
        None => {
            return None;
        },
    };
    let description = slice_subrange(rest, 0, j);
    let key = slice_subrange(rest, j + 1, rest.len());
    assert(description@ =~= rest@.take(j as int));
    assert(key@ =~= rest@.skip(j + 1));
    match decode_chars(key) {
        Some(k) => Some(
            CtLog {
                operator: string_of(operator),
                description: string_of(description),
                public_key_der: k,
            },
        ),
        None => None,
    }
}

/// The logs that are known.
#[derive(Debug, Clone)]
pub struct CtLogBundle {
    logs_by_id: Table<CtLog>,
}

impl View for CtLogBundle {
    type V = Logs;

    closed spec fn view(&self) -> Logs {
        self.logs_by_id@
    }
}

impl Default for CtLogBundle {
    fn default() -> (r: Self)
        ensures
            r.inv(),
            r@ == Seq::<(Seq<char>, CtLogView)>::empty(),
    {
        CtLogBundle { logs_by_id: Table::new() }
    }
}

impl CtLogBundle {
    /// What holds of every bundle: a key stands there once.
    pub open spec fn inv(&self) -> bool {
        crate::table::in_name_order(self@)
    }

    /// The logs that a text tells, one on each line.
    pub fn bundled(text: &str) -> (r: Self)
        ensures
            r.inv(),
            r@ == logs_in(text@),
    {
        let chars = chars_of(text);
        let all = lines(chars.as_slice());
        let mut bundle = CtLogBundle::default();
        let mut i: usize = 0;
        while i < all.len()
            invariant
                i <= all@.len(),
                crate::text::texts(all@) == lines_of(text@),
                bundle.inv(),
                bundle@ == logs_among(lines_of(text@), i as int),
            decreases all@.len() - i,
        {
            assert(lines_of(text@)[i as int] == all@[i as int]@);
            match read_log(all[i]) {
                Some(log) => bundle.insert(log),
                None => {},
            }
            i = i + 1;
        }
        bundle
    }

    /// Puts a log among those that are known, in place of the one with the same key.
    pub fn insert(&mut self, log: CtLog)
        requires
            old(self).inv(),
        ensures
            final(self).inv(),
            final(self)@ == with_log(old(self)@, log@),
    {
        let id = sha256(log.public_key_der.as_slice());
        self.logs_by_id.insert(to_hex(id.as_slice()), log);
    }

    pub fn is_empty(&self) -> (r: bool)
        ensures
            r == (self@.len() == 0),
    {
        self.logs_by_id.is_empty()
    }

    pub fn len(&self) -> (r: usize)
        ensures
            r == self@.len(),
    {
        self.logs_by_id.len()
    }

    /// The log whose key has this digest.
    pub fn find(&self, log_id: &[u8]) -> (r: Option<&CtLog>)
        ensures
            match r {
                Some(log) => log_id@.len() == 32 && value(self@, hex(log_id@)) == Some(log@),
                None => log_id@.len() != 32 || value(self@, hex(log_id@)) is None,
            },
    {
        if log_id.len() != 32 {
            return None;
        }
        let key = to_hex(log_id);
        self.logs_by_id.get(key.as_str())
    }
}

/// What a log promises of a certificate.
#[derive(Debug, Clone)]
pub struct Sct {
    pub version: u8,
    pub log_id: Vec<u8>,
    pub timestamp: u64,
    pub extensions: Vec<u8>,
    pub signature: Vec<u8>,
}

#[verifier::ext_equal]
pub struct SctView {
    pub version: u8,
    pub log_id: Seq<u8>,
    pub timestamp: u64,
    pub extensions: Seq<u8>,
    pub signature: Seq<u8>,
}

impl View for Sct {
    type V = SctView;

    open spec fn view(&self) -> SctView {
        SctView {
            version: self.version,
            log_id: self.log_id@,
            timestamp: self.timestamp,
            extensions: self.extensions@,
            signature: self.signature@,
        }
    }
}

pub open spec fn sct_views(v: Seq<Sct>) -> Seq<SctView> {
    v.map_values(|s: Sct| s@)
}

/// The promise that octets hold.
pub open spec fn sct_in(data: Seq<u8>) -> Option<SctView> {
    if data.len() < 43 {
        None
    } else {
        let n = from_be16(data[41], data[42]) as int;
        let p = 43 + n;
        if p + 4 > data.len() {
            None
        } else {
            let m = from_be16(data[p + 2], data[p + 3]) as int;
            if p + 4 + m > data.len() {
                None
            } else {
                Some(
                    SctView {
                        version: data[0],
                        log_id: data.subrange(1, 33),
                        timestamp: from_be64(data.subrange(33, 41)) as u64,
                        extensions: data.subrange(43, p),
                        signature: data.subrange(p + 4, p + 4 + m),
                    },
                )
            }
        }
    }
}

/// The promises in a list, each behind its length, up to the first that is not all there; those that cannot
/// be read are passed over.
pub open spec fn scts_among(list: Seq<u8>) -> Seq<SctView>
    decreases list.len(),
{
    if list.len() < 2 {
        seq![]
    } else {
        let n = from_be16(list[0], list[1]) as int;
        if 2 + n > list.len() {
            seq![]
        } else {
            let rest = scts_among(list.skip(2 + n));
            match sct_in(list.subrange(2, 2 + n)) {
                Some(s) => seq![s] + rest,
                None => rest,
            }
        }
    }
}

/// The promises in a list behind its length.
pub open spec fn scts_in(raw: Seq<u8>) -> Seq<SctView> {
    if raw.len() < 2 {
        seq![]
    } else {
        let n = from_be16(raw[0], raw[1]) as int;
        let end = if 2 + n < raw.len() {
            2 + n
        } else {
            raw.len() as int
        };
        scts_among(raw.subrange(2, end))
    }
}

/// Reads a promise.
pub fn parse_single_sct(data: &[u8]) -> (r: Option<Sct>)
    ensures
        match r {
            Some(s) => sct_in(data@) == Some(s@),
            None => sct_in(data@) is None,
        },
{
    let end: usize = data.len();
    if end < 43 {
        return None;
    }
    let n = read_be16(data, 41) as usize;
    if n > end - 43 {
        return None;
    }
    let p = 43 + n;
    if end - p < 4 {
        return None;
    }
    let m = read_be16(data, p + 2) as usize;
    if m > end - (p + 4) {
        return None;
    }
    let timestamp = read_be64(data, 33);
    let log_id = copy_range(data, 1, 33);
    let extensions = copy_range(data, 43, p);
    let signature = copy_range(data, p + 4, p + 4 + m);
    Some(Sct { version: data[0], log_id, timestamp, extensions, signature })
}

/// Reads the promises that a certificate carries.
pub fn parse_sct_list(raw: &[u8]) -> (r: Vec<Sct>)
    ensures
        sct_views(r@) == scts_in(raw@),
{
    let mut scts: Vec<Sct> = Vec::new();
    if raw.len() < 2 {
        assert(sct_views(scts@) =~= seq![]);
        return scts;
    }
    let total = read_be16(raw, 0) as usize;
    let end: usize = if total < raw.len() - 2 {
        2 + total
    } else {
        raw.len()
    };
    let ghost list = raw@.subrange(2, end as int);
    let mut pos: usize = 2;
    assert(sct_views(scts@) =~= seq![]);
    assert(raw@.subrange(pos as int, end as int) =~= list);
    assert(sct_views(scts@) + scts_among(list) =~= scts_among(list));
    while end - pos >= 2
        invariant_except_break
            2 <= pos <= end <= raw@.len(),
            sct_views(scts@) + scts_among(raw@.subrange(pos as int, end as int)) == scts_among(list),
        ensures
            sct_views(scts@) == scts_among(list),
        decreases end - pos,
    {
        let ghost rest = raw@.subrange(pos as int, end as int);
        let n = read_be16(raw, pos) as usize;
        assert(rest[0] == raw@[pos as int] && rest[1] == raw@[pos + 1]);
        if n > end - pos - 2 {
            assert(sct_views(scts@) + seq![] =~= sct_views(scts@));
            break;
        }
        let one = slice_subrange(raw, pos + 2, pos + 2 + n);
        assert(one@ =~= rest.subrange(2, 2 + n));
        assert(raw@.subrange(pos + 2 + n, end as int) =~= rest.skip(2 + n));
        let ghost was = sct_views(scts@);
        match parse_single_sct(one) {
            Some(s) => {
                scts.push(s);
                assert(sct_views(scts@) =~= was.push(s@));
                assert(was.push(s@) + scts_among(rest.skip(2 + n)) =~= was + (seq![s@] + scts_among(
                    rest.skip(2 + n),
                )));
            },
            None => {},
        }
        pos = pos + 2 + n;
        proof {
            if end - pos < 2 {
                assert(scts_among(raw@.subrange(pos as int, end as int)) =~= seq![]);
                assert(sct_views(scts@) + seq![] =~= sct_views(scts@));
            }
        }
    }
    scts
}

/// What a log signs for a certificate.
pub open spec fn signed_data(s: SctView, issuer_key_hash: Seq<u8>, tbs: Seq<u8>) -> Seq<u8> {
    seq![s.version, 0u8] + be64(s.timestamp) + be16(1) + issuer_key_hash + be24(cut24(tbs.len())) + tbs
        + be16(cut16(s.extensions.len())) + s.extensions
}

/// Writes what a log signs for a certificate.
pub fn precert_signed_data(sct: &Sct, issuer_key_hash: &[u8], precert_tbs: &[u8]) -> (r: Vec<u8>)
    ensures
        r@ == signed_data(sct@, issuer_key_hash@, precert_tbs@),
{
    let mut out: Vec<u8> = Vec::new();
    out.push(sct.version);
    out.push(0);
    push_be64(&mut out, sct.timestamp);
    push_be16(&mut out, 1);
    push_bytes(&mut out, issuer_key_hash);
    push_cut24(&mut out, precert_tbs.len());
    push_bytes(&mut out, precert_tbs);
    push_cut16(&mut out, sct.extensions.len());
    push_bytes(&mut out, sct.extensions.as_slice());
    assert(out@ =~= signed_data(sct@, issuer_key_hash@, precert_tbs@));
    out
}

/// A signature that is to be checked: the key of the log, what it signed, and the signature.
#[derive(Debug, Clone)]
pub struct SctCheck {
    pub public_key_der: Vec<u8>,
    pub signed: Vec<u8>,
    pub signature: Vec<u8>,
}

#[verifier::ext_equal]
pub struct SctCheckView {
    pub public_key_der: Seq<u8>,
    pub signed: Seq<u8>,
    pub signature: Seq<u8>,
}

impl View for SctCheck {
    type V = SctCheckView;

    open spec fn view(&self) -> SctCheckView {
        SctCheckView {
            public_key_der: self.public_key_der@,
            signed: self.signed@,
            signature: self.signature@,
        }
    }
}

pub open spec fn check_views(v: Seq<SctCheck>) -> Seq<SctCheckView> {
    v.map_values(|c: SctCheck| c@)
}

/// The signatures that are to be checked for the first `n` promises: those of logs that are known.
pub open spec fn checks_among(logs: Logs, scts: Seq<SctView>, issuer_key_hash: Seq<u8>, tbs: Seq<u8>, n: int) ->
    Seq<SctCheckView>
    decreases n,
{
    if n <= 0 {
        seq![]
    } else {
        let s = scts[n - 1];
        let before = checks_among(logs, scts, issuer_key_hash, tbs, n - 1);
        if s.log_id.len() != 32 {
            before
        } else {
            match value(logs, hex(s.log_id)) {
                Some(log) => before.push(
                    SctCheckView {
                        public_key_der: log.public_key_der,
                        signed: signed_data(s, issuer_key_hash, tbs),
                        signature: s.signature,
                    },
                ),
                None => before,
            }
        }
    }
}

/// Why no log vouches for a certificate.
#[derive(Debug, Clone, Copy, PartialEq, Eq, Structural)]
pub enum CtError {
    NoLogs,
    ListUnreadable,
    NoScts,
    NoSctParsed,
    PrecertUnreadable,
    IssuerKeyUnreadable,
    NoCurve,
    NotVerified,
}

impl CtError {
    pub open spec fn text(&self) -> Seq<char> {
        match self {
            CtError::NoLogs => "no CT log bundle loaded"@,
            CtError::ListUnreadable => "failed to read SCT list extension"@,
            CtError::NoScts => "certificate has no embedded SCTs"@,
            CtError::NoSctParsed => "SCT list extension present but no SCT entries could be parsed"@,
            CtError::PrecertUnreadable => "failed to reconstruct precertificate TBS"@,
            CtError::IssuerKeyUnreadable => "failed to encode the issuer's public key"@,
            CtError::NoCurve => "EC public key missing curve parameters"@,
            CtError::NotVerified => "no embedded SCT verified against a known CT log"@,
        }
    }

    /// The error in words.
    pub fn message(&self) -> (r: &'static str)
        ensures
            r@ == self.text(),
    {
        match self {
            CtError::NoLogs => "no CT log bundle loaded",
            CtError::ListUnreadable => "failed to read SCT list extension",
            CtError::NoScts => "certificate has no embedded SCTs",
            CtError::NoSctParsed => "SCT list extension present but no SCT entries could be parsed",
            CtError::PrecertUnreadable => "failed to reconstruct precertificate TBS",
            CtError::IssuerKeyUnreadable => "failed to encode the issuer's public key",
            CtError::NoCurve => "EC public key missing curve parameters",
            CtError::NotVerified => "no embedded SCT verified against a known CT log",
        }
    }
}

/// The number under which keys on elliptic curves are known.
pub open spec fn curve_key_oid() -> Seq<u64> {
    seq![1u64, 2u64, 840u64, 10045u64, 2u64, 1u64]
}

/// The number under which keys of RSA are known.
pub open spec fn rsa_key_oid() -> Seq<u64> {
    seq![1u64, 2u64, 840u64, 113549u64, 1u64, 1u64, 1u64]
}

/// What stands beside the number of the algorithm where a key is encoded.
#[derive(Debug, Clone)]
pub enum KeyParameters {
    Null,
    /// The number of this curve, as encoded.
    Curve(Vec<u8>),
}

pub enum KeyParametersView {
    Null,
    Curve(Seq<u8>),
}

impl View for KeyParameters {
    type V = KeyParametersView;

    open spec fn view(&self) -> KeyParametersView {
        match self {
            KeyParameters::Null => KeyParametersView::Null,
            KeyParameters::Curve(c) => KeyParametersView::Curve(c@),
        }
    }
}

/// What stands beside the number of an algorithm where a key is encoded: its curve for a key on one, nothing for
/// a key of RSA or of any other algorithm. A key on a curve has to name it.
pub open spec fn key_parameters(algorithm: Seq<u64>, param: Option<Seq<u8>>) -> Result<KeyParametersView, CtError> {
    if algorithm == curve_key_oid() {
        match param {
            Some(c) => Ok(KeyParametersView::Curve(c)),
            None => Err(CtError::NoCurve),
        }
    } else {
        Ok(KeyParametersView::Null)
    }
}

/// Finds out what stands beside the number of an algorithm where a key is encoded.
pub fn spki_parameters(algorithm: &[u64], param: Option<&[u8]>) -> (r: Result<KeyParameters, CtError>)
    ensures
        match r {
            Ok(k) => key_parameters(algorithm@, opt_bytes(param)) == Ok::<KeyParametersView, CtError>(k@),
            Err(e) => key_parameters(algorithm@, opt_bytes(param)) == Err::<KeyParametersView, CtError>(e),
        },
{
    let on_curve = algorithm.len() == 6 && algorithm[0] == 1 && algorithm[1] == 2 && algorithm[2] == 840
        && algorithm[3] == 10045 && algorithm[4] == 2 && algorithm[5] == 1;
    proof {
        if on_curve {
            assert(algorithm@ =~= curve_key_oid());
        }
    }
    if !on_curve {
        return Ok(KeyParameters::Null);
    }
    match param {
        Some(c) => Ok(KeyParameters::Curve(slice_to_vec(c))),
        None => Err(CtError::NoCurve),
    }
}

/// A key of RSA is encoded with nothing beside the number of its algorithm, whatever came with it.
pub proof fn law_rsa_key_has_no_parameters(param: Option<Seq<u8>>)
    ensures
        key_parameters(rsa_key_oid(), param) == Ok::<KeyParametersView, CtError>(KeyParametersView::Null),
{
    assert(rsa_key_oid().len() != curve_key_oid().len());
}

/// What came of encoding the key of an issuer.
#[derive(Debug, Clone)]
pub enum IssuerKey {
    Encoded(Vec<u8>),
    /// It is on a curve that it does not name.
    NoCurve,
    Unreadable,
}

/// What was read out of a certificate and that of its issuer: the list of promises, the part that logs sign,
/// and the issuer's key. `None` where it could not be read.
#[derive(Debug, Clone)]
pub struct CtEvidence {
    pub sct_list: Option<Vec<u8>>,
    pub precert_tbs: Option<Vec<u8>>,
    pub issuer_spki_der: IssuerKey,
}

/// What keeps the promises of a certificate from being checked.
pub open spec fn evidence_fault(logs: Logs, e: CtEvidence) -> Option<CtError> {
    if logs.len() == 0 {
        Some(CtError::NoLogs)
    } else if e.sct_list is None {
        Some(CtError::ListUnreadable)
    } else if e.sct_list->0@.len() == 0 {
        Some(CtError::NoScts)
    } else if scts_in(e.sct_list->0@).len() == 0 {
        Some(CtError::NoSctParsed)
    } else if e.precert_tbs is None {
        Some(CtError::PrecertUnreadable)
    } else {
        match e.issuer_spki_der {
            IssuerKey::Encoded(_) => None,
            IssuerKey::NoCurve => Some(CtError::NoCurve),
            IssuerKey::Unreadable => Some(CtError::IssuerKeyUnreadable),
        }
    }
}

/// The signatures that are to be checked for a certificate.
pub open spec fn due_checks(logs: Logs, e: CtEvidence) -> Seq<SctCheckView> {
    let scts = scts_in(e.sct_list->0@);
    checks_among(
        logs,
        scts,
        sha256_of(e.issuer_spki_der->Encoded_0@),
        e.precert_tbs->0@,
        scts.len() as int,
    )
}

/// Lists the signatures that are to be checked for a certificate, in the order of its promises.
pub fn embedded_sct_checks(evidence: &CtEvidence, bundle: &CtLogBundle) -> (r: Result<Vec<SctCheck>, CtError>)
    ensures
        match evidence_fault(bundle@, *evidence) {
            Some(e) => r == Err::<Vec<SctCheck>, CtError>(e),
            None => r matches Ok(c) && check_views(c@) == due_checks(bundle@, *evidence),
        },
{
    if bundle.is_empty() {
        return Err(CtError::NoLogs);
    }
    let raw = match &evidence.sct_list {
        Some(l) => l,
        None => {
            return Err(CtError::ListUnreadable);
        },
    };
    if raw.len() == 0 {
        return Err(CtError::NoScts);
    }
    let scts = parse_sct_list(raw.as_slice());
    assert(sct_views(scts@).len() == scts@.len());
    if scts.len() == 0 {
        return Err(CtError::NoSctParsed);
    }
    let tbs = match &evidence.precert_tbs {
        Some(t) => t,
        None => {
            return Err(CtError::PrecertUnreadable);
        },
    };
    let spki = match &evidence.issuer_spki_der {
        IssuerKey::Encoded(k) => k,
        IssuerKey::NoCurve => {
            return Err(CtError::NoCurve);
        },
        IssuerKey::Unreadable => {
            return Err(CtError::IssuerKeyUnreadable);
        },
    };
    let hash = sha256(spki.as_slice());
    let ghost views = sct_views(scts@);
    let mut checks: Vec<SctCheck> = Vec::new();
    let mut i: usize = 0;
    assert(check_views(checks@) =~= seq![]);
    while i < scts.len()
        invariant
            i <= scts@.len(),
            views == sct_views(scts@),
            check_views(checks@) == checks_among(bundle@, views, hash@, tbs@, i as int),
        decreases scts@.len() - i,
    {
        assert(views[i as int] == scts@[i as int]@);
        let ghost was = check_views(checks@);
        match bundle.find(scts[i].log_id.as_slice()) {
            Some(log) => {
                let signed = precert_signed_data(&scts[i], hash.as_slice(), tbs.as_slice());
                let c = SctCheck {
                    public_key_der: slice_to_vec(log.public_key_der.as_slice()),
                    signed,
                    signature: slice_to_vec(scts[i].signature.as_slice()),
                };
                checks.push(c);
                assert(check_views(checks@) =~= was.push(c@));
            },
            None => {},
        }
        i = i + 1;
    }
    Ok(checks)
}

/// Decides whether a log vouches for a certificate; `verified` tells which of its signatures were found good,
/// in the order in which they are listed.
pub fn verify_embedded_scts(evidence: &CtEvidence, bundle: &CtLogBundle, verified: &Vec<bool>) -> (r: Result<
    (),
    CtError,
>)
    ensures
        match evidence_fault(bundle@, *evidence) {
            Some(e) => r == Err::<(), CtError>(e),
            None => r == (if exists|i: int|
                0 <= i < due_checks(bundle@, *evidence).len() && i < verified@.len() && #[trigger] verified@[i] {
                Ok::<(), CtError>(())
            } else {
                Err(CtError::NotVerified)
            }),
        },
{
    let checks = match embedded_sct_checks(evidence, bundle) {
        Ok(c) => c,
        Err(e) => {
            return Err(e);
        },
    };
    assert(check_views(checks@).len() == checks@.len());
    let ghost n = due_checks(bundle@, *evidence).len();
    let mut i: usize = 0;
    while i < checks.len() && i < verified.len()
        invariant
            i <= checks@.len(),
            i <= verified@.len(),
            n == checks@.len(),
            n == due_checks(bundle@, *evidence).len(),
            evidence_fault(bundle@, *evidence) is None,
            forall|k: int| 0 <= k < i ==> !#[trigger] verified@[k],
        decreases checks@.len() - i,
    {
        if verified[i] {
            return Ok(());
        }
        i = i + 1;
    }
    Err(CtError::NotVerified)
}

proof fn lemma_checks_known(
    logs: Logs,
    scts: Seq<SctView>,
    issuer_key_hash: Seq<u8>,
    tbs: Seq<u8>,
    n: int,
    i: int,
)
    requires
        0 <= n <= scts.len(),
        0 <= i < checks_among(logs, scts, issuer_key_hash, tbs, n).len(),
    ensures
        exists|k: int|
            0 <= k < n && (value(logs, hex((#[trigger] scts[k]).log_id)) matches Some(log)
                && checks_among(logs, scts, issuer_key_hash, tbs, n)[i] == (SctCheckView {
                public_key_der: log.public_key_der,
                signed: signed_data(scts[k], issuer_key_hash, tbs),
                signature: scts[k].signature,
            })),
    decreases n,
{
    if n > 0 {
        let before = checks_among(logs, scts, issuer_key_hash, tbs, n - 1);
        if i < before.len() {
            lemma_checks_known(logs, scts, issuer_key_hash, tbs, n - 1, i);
        } else {
            assert(value(logs, hex(scts[n - 1].log_id)) is Some);
        }
    }
}

/// Only the key of a log that is known is ever used to check a promise, and only for what that log signs of
/// this very certificate.
pub proof fn law_checked_log_is_known(logs: Logs, e: CtEvidence, i: int)
    requires
        0 <= i < due_checks(logs, e).len(),
    ensures
        exists|k: int|
            0 <= k < scts_in(e.sct_list->0@).len() && (value(
                logs,
                hex((#[trigger] scts_in(e.sct_list->0@)[k]).log_id),
            ) matches Some(log) && due_checks(logs, e)[i] == (SctCheckView {
                public_key_der: log.public_key_der,
                signed: signed_data(
                    scts_in(e.sct_list->0@)[k],
                    sha256_of(e.issuer_spki_der->Encoded_0@),
                    e.precert_tbs->0@,
                ),
                signature: scts_in(e.sct_list->0@)[k].signature,
            })),
{
    let scts = scts_in(e.sct_list->0@);
    lemma_checks_known(
        logs,
        scts,
        sha256_of(e.issuer_spki_der->Encoded_0@),
        e.precert_tbs->0@,
        scts.len() as int,
        i,
    );
}

/// A log that was put among those that are known is found by the digest of its key.
pub proof fn law_known_log_is_found(logs: Logs, log: CtLogView)
    requires
        crate::table::in_name_order(logs),
    ensures
        value(with_log(logs, log), hex(sha256_of(log.public_key_der))) == Some(log),
{
    let id = hex(sha256_of(log.public_key_der));
    crate::table::law_put_value(logs, id, log, id);
}

/// A promise in octets.
pub open spec fn sct_octets(s: SctView, algorithm: u16) -> Seq<u8> {
    seq![s.version] + s.log_id + be64(s.timestamp) + be16(s.extensions.len() as u16) + s.extensions + be16(algorithm)
        + be16(s.signature.len() as u16) + s.signature
}

/// A promise is read as it was written, whatever follows it.
pub proof fn law_promise_is_read(s: SctView, algorithm: u16, rest: Seq<u8>)
    requires
        s.log_id.len() == 32,
        s.extensions.len() < 0x1_0000,
        s.signature.len() < 0x1_0000,
    ensures
        sct_in(sct_octets(s, algorithm) + rest) == Some(s),
{
    let data = sct_octets(s, algorithm) + rest;
    let t = be64(s.timestamp);
    let e = be16(s.extensions.len() as u16);
    let g = be16(s.signature.len() as u16);
    law_be16_roundtrip(s.extensions.len() as u16);
    law_be16_roundtrip(s.signature.len() as u16);
    law_be64_roundtrip(s.timestamp);
    assert(data[0] == s.version);
    assert(data.subrange(1, 33) =~= s.log_id);
    assert(data.subrange(33, 41) =~= t);
    assert(data[41] == e[0] && data[42] == e[1]);
    let p = 43 + s.extensions.len() as int;
    assert(data.subrange(43, p) =~= s.extensions);
    assert(data[p + 2] == g[0] && data[p + 3] == g[1]);
    assert(data.subrange(p + 4, p + 4 + s.signature.len() as int) =~= s.signature);
}

/// A promise in a list comes before those behind it; what is no promise is passed over.
pub proof fn law_promise_list(entry: Seq<u8>, rest: Seq<u8>)
    requires
        entry.len() < 0x1_0000,
    ensures
        scts_among(be16(entry.len() as u16) + entry + rest) == (match sct_in(entry) {
            Some(s) => seq![s] + scts_among(rest),
            None => scts_among(rest),
        }),
        2 + entry.len() + rest.len() < 0x1_0000 ==> scts_in(
            be16((2 + entry.len() + rest.len()) as u16) + (be16(entry.len() as u16) + entry + rest),
        ) == scts_among(be16(entry.len() as u16) + entry + rest),
{
    let list = be16(entry.len() as u16) + entry + rest;
    law_be16_roundtrip(entry.len() as u16);
    let b = be16(entry.len() as u16);
    assert(list[0] == b[0] && list[1] == b[1]);
    assert(list.subrange(2, 2 + entry.len() as int) =~= entry);
    assert(list.skip(2 + entry.len() as int) =~= rest);
    if 2 + entry.len() + rest.len() < 0x1_0000 {
        let n = (2 + entry.len() + rest.len()) as u16;
        law_be16_roundtrip(n);
        let raw = be16(n) + list;
        assert(raw[0] == be16(n)[0] && raw[1] == be16(n)[1]);
        assert(list.len() == n);
        assert(raw.subrange(2, 2 + n as int) =~= list);
    }
}

/// Every promise of a log that is known is checked: against the key of that log, over what it signed.
pub proof fn law_known_log_is_checked(
    logs: Logs,
    scts: Seq<SctView>,
    issuer_key_hash: Seq<u8>,
    tbs: Seq<u8>,
    n: int,
    k: int,
)
    requires
        0 <= k < n <= scts.len(),
        scts[k].log_id.len() == 32,
        value(logs, hex(scts[k].log_id)) is Some,
    ensures
        exists|i: int|
            0 <= i < checks_among(logs, scts, issuer_key_hash, tbs, n).len() && (#[trigger] checks_among(
                logs,
                scts,
                issuer_key_hash,
                tbs,
                n,
            )[i]) == (SctCheckView {
                public_key_der: value(logs, hex(scts[k].log_id))->0.public_key_der,
                signed: signed_data(scts[k], issuer_key_hash, tbs),
                signature: scts[k].signature,
            }),
    decreases n,
{
    let all = checks_among(logs, scts, issuer_key_hash, tbs, n);
    let before = checks_among(logs, scts, issuer_key_hash, tbs, n - 1);
    if k == n - 1 {
        assert(all[before.len() as int] == all.last());
    } else {
        law_known_log_is_checked(logs, scts, issuer_key_hash, tbs, n - 1, k);
        let i = choose|i: int|
            0 <= i < before.len() && (#[trigger] before[i]) == (SctCheckView {
                public_key_der: value(logs, hex(scts[k].log_id))->0.public_key_der,
                signed: signed_data(scts[k], issuer_key_hash, tbs),
                signature: scts[k].signature,
            });
        assert(all[i] == before[i]);
    }
}

/// A line tells a log where who runs it, what it is and its key stand there with bars between them.
pub proof fn law_log_line(operator: Seq<char>, description: Seq<char>, key: Seq<u8>)
    requires
        operator.len() > 0 && lacks(operator, '|') && !is_white(operator[0]) && operator[0] != '#',
        lacks(description, '|'),
        key.len() > 0,
    ensures
        log_in(operator + seq!['|'] + description + seq!['|'] + encoded(key)) == Some(
            CtLogView { operator, description, public_key_der: key },
        ),
{
    let e = encoded(key);
    let s = operator + seq!['|'] + description + seq!['|'] + e;
    reveal_strlit("#");
    lemma_encoded_symbols(key);
    law_base64_roundtrip(key);
    lemma_armoured_tidy(e);
    assert(s[0] == operator[0]);
    assert(e.len() > 0);
    assert(s.last() == e.last());
    assert(!is_white(e[e.len() - 1]));
    lemma_trimmed_solid(s);
    assert(!begins_with(s, "#"@)) by {
        if begins_with(s, "#"@) {
            assert(s.take(1)[0] == s[0]);
        }
    }
    let n = operator.len() as int;
    assert forall|j: int| 0 <= j < n implies s[j] != '|' by {
        assert(s[j] == operator[j]);
    }
    lemma_find_is(s, '|', n);
    assert(s.take(n) =~= operator);
    let rest = s.skip(n + 1);
    assert(rest =~= description + seq!['|'] + e);
    let m = description.len() as int;
    assert forall|j: int| 0 <= j < m implies rest[j] != '|' by {
        assert(rest[j] == description[j]);
    }
    lemma_find_is(rest, '|', m);
    assert(rest.take(m) =~= description);
    assert(rest.skip(m + 1) =~= e);
}

}
