//! Revocation: lists of certificates that no longer count, which of them are kept, and what they say of a
//! certificate. Fetching and reading lists is done elsewhere; the outcome comes in as arguments.
use vstd::prelude::*;
use vstd::slice::slice_to_vec;

use crate::bytes::{constant_time_eq, hex, law_hex_injective, to_hex};
use crate::table::{law_put_value, put, value, Table};
use crate::text::{chars_of, push_text, string_of};

verus! {

/// How many octets a list may have.
pub const MAX_CRL_RESPONSE_BYTES: usize = 33554432;

/// How long fetching a list may take, in seconds.
pub const CRL_FETCH_TIMEOUT_SECS: u64 = 10;

/// What is done where nothing can be found out.
#[derive(Debug, Clone, Copy, PartialEq, Eq, Structural)]
pub enum RevocationPolicy {
    SoftFail,
    HardFail,
}

impl Default for RevocationPolicy {
    fn default() -> (r: Self)
        ensures
            r == RevocationPolicy::SoftFail,
    {
        RevocationPolicy::SoftFail
    }
}

/// Why nothing can be found out.
#[derive(Debug, Clone, Copy, PartialEq, Eq, Structural)]
pub enum RevocationFault {
    PointsUnreadable,
    NoPoints,
    SerialUnreadable,
    NoUsablePoint,
    FetchFailed,
    HttpStatus(u16),
    TooLarge(usize),
    Unparsable,
    BadSignature,
    NotValid,
}

/// What was found out.
#[derive(Debug, Clone, Copy, PartialEq, Eq, Structural)]
pub enum RevocationStatus {
    Good,
    Revoked,
    Unknown(RevocationFault),
}

/// A list: from when until when it counts, in seconds, and the numbers of the certificates on it.
#[derive(Debug, Clone)]
pub struct CertificateList {
    pub this_update: i64,
    pub next_update: Option<i64>,
    pub serials: Vec<Vec<u8>>,
}

#[verifier::ext_equal]
pub struct CertificateListView {
    pub this_update: i64,
    pub next_update: Option<i64>,
    pub serials: Seq<Seq<u8>>,
}

pub open spec fn serial_views(v: Seq<Vec<u8>>) -> Seq<Seq<u8>> {
    v.map_values(|s: Vec<u8>| s@)
}

impl View for CertificateList {
    type V = CertificateListView;

    open spec fn view(&self) -> CertificateListView {
        CertificateListView {
            this_update: self.this_update,
            next_update: self.next_update,
            serials: serial_views(self.serials@),
        }
    }
}

/// Whether a list counts at a time.
pub open spec fn counts_at(l: CertificateListView, now: i64) -> bool {
    l.this_update <= now && (l.next_update matches Some(n) ==> now <= n)
}

/// What a list says of a certificate.
pub open spec fn said_of(l: CertificateListView, serial: Seq<u8>) -> RevocationStatus {
    if l.serials.contains(serial) {
        RevocationStatus::Revoked
    } else {
        RevocationStatus::Good
    }
}

impl CertificateList {
    /// Whether the list counts at a time.
    pub fn is_valid_at(&self, now: i64) -> (r: bool)
        ensures
            r == counts_at(self@, now),
    {
        match self.next_update {
            Some(n) => self.this_update <= now && now <= n,
            None => self.this_update <= now,
        }
    }

    /// Whether the certificate with a number is on the list.
    pub fn contains_serial(&self, serial: &[u8]) -> (r: bool)
        ensures
            r == self@.serials.contains(serial@),
    {
        let mut i: usize = 0;
        while i < self.serials.len()
            invariant
                i <= self.serials@.len(),
                forall|j: int| 0 <= j < i ==> self@.serials[j] != serial@,
            decreases self.serials@.len() - i,
        {
            assert(self@.serials[i as int] == self.serials@[i as int]@);
            if constant_time_eq(self.serials[i].as_slice(), serial) {
                return true;
            }
            i = i + 1;
        }
        assert(self@.serials.len() == self.serials@.len());
        false
    }

    /// A list with the same contents.
    pub fn copy(&self) -> (r: Self)
        ensures
            r@ == self@,
    {
        let mut serials: Vec<Vec<u8>> = Vec::new();
        let mut i: usize = 0;
        while i < self.serials.len()
            invariant
                i <= self.serials@.len(),
                serial_views(serials@) =~= serial_views(self.serials@).take(i as int),
            decreases self.serials@.len() - i,
        {
            let s = slice_to_vec(self.serials[i].as_slice());
            let ghost was = serial_views(serials@);
            serials.push(s);
            assert(serial_views(serials@) =~= was.push(s@));
            assert(serial_views(self.serials@).take(i + 1) =~= serial_views(self.serials@).take(
                i as int,
            ).push(s@));
            i = i + 1;
        }
        CertificateList { this_update: self.this_update, next_update: self.next_update, serials }
    }

    /// What the list says of a certificate.
    pub fn status_of(&self, serial: &[u8]) -> (r: RevocationStatus)
        ensures
            r == said_of(self@, serial@),
    {
        if self.contains_serial(serial) {
            RevocationStatus::Revoked
        } else {
            RevocationStatus::Good
        }
    }
}

/// Lists under keys.
pub type Lists = Seq<(Seq<char>, CertificateListView)>;

/// The list that is kept under a key and counts.
pub open spec fn kept_list(lists: Lists, key: Seq<char>, now: i64) -> Option<CertificateListView> {
    match value(lists, key) {
        Some(l) => if counts_at(l, now) {
            Some(l)
        } else {
            None
        },
        None => None,
    }
}

/// The lists that are kept. A store has no copies: those who share it hold the one there is.
#[derive(Debug)]
pub struct CrlCache {
    entries: Table<CertificateList>,
}

impl View for CrlCache {
    type V = Lists;

    closed spec fn view(&self) -> Lists {
        self.entries@
    }
}

impl Default for CrlCache {
    fn default() -> (r: Self)
        ensures
            r.inv(),
            r@ == Seq::<(Seq<char>, CertificateListView)>::empty(),
    {
        CrlCache { entries: Table::new() }
    }
}

impl CrlCache {
    /// What holds of every cache: a key stands there once.
    pub open spec fn inv(&self) -> bool {
        crate::table::in_name_order(self@)
    }

    pub fn new() -> (r: Self)
        ensures
            r.inv(),
            r@ == Seq::<(Seq<char>, CertificateListView)>::empty(),
    {
        CrlCache::default()
    }

    /// The list that is kept under a key and counts.
    pub fn get(&self, key: &str, now: i64) -> (r: Option<CertificateList>)
        ensures
            match r {
                Some(l) => kept_list(self@, key@, now) == Some(l@),
                None => kept_list(self@, key@, now) is None,
            },
    {
        match self.entries.get(key) {
            Some(l) => {
                if l.is_valid_at(now) {
                    Some(l.copy())
                } else {
                    None
                }
            },
            None => None,
        }
    }

    /// Keeps a list under a key, in place of the one that stood there.
    pub fn insert(&mut self, key: String, list: CertificateList)
        requires
            old(self).inv(),
        ensures
            final(self).inv(),
            final(self)@ == put(old(self)@, key@, list@),
    {
        self.entries.insert(key, list);
    }
}

/// The key under which the list of an issuer at an address is kept.
pub open spec fn cache_key(issuer: Seq<u8>, url: Seq<char>) -> Seq<char> {
    hex(issuer) + "|"@ + url
}

/// Tells the key under which the list of an issuer at an address is kept.
pub fn crl_cache_key(issuer_subject: &[u8], url: &str) -> (r: String)
    ensures
        r@ == cache_key(issuer_subject@, url@),
{
    let mut out = chars_of(to_hex(issuer_subject).as_str());
    push_text(&mut out, "|");
    push_text(&mut out, url);
    string_of(out.as_slice())
}

/// What an answer was found to be: its status, how long it is, the list it holds, and whether the issuer
/// signed it.
#[derive(Debug, Clone)]
pub struct CrlAnswer {
    pub status_code: u16,
    pub body_len: usize,
    pub list: Option<CertificateList>,
    pub signed: bool,
}

/// What is wrong with an answer.
pub open spec fn answer_fault(a: CrlAnswer, now: i64) -> Option<RevocationFault> {
    if a.status_code != 200 {
        Some(RevocationFault::HttpStatus(a.status_code))
    } else if a.body_len > MAX_CRL_RESPONSE_BYTES {
        Some(RevocationFault::TooLarge(a.body_len))
    } else if a.list is None {
        Some(RevocationFault::Unparsable)
    } else if !a.signed {
        Some(RevocationFault::BadSignature)
    } else if !counts_at(a.list->0@, now) {
        Some(RevocationFault::NotValid)
    } else {
        None
    }
}

/// Decides whether the list in an answer can be used; `answer` is `None` where there was none.
pub fn fetch_and_verify_crl(answer: Option<CrlAnswer>, now: i64) -> (r: Result<CertificateList, RevocationFault>)
    ensures
        match answer {
            None => r == Err::<CertificateList, RevocationFault>(RevocationFault::FetchFailed),
            Some(a) => match answer_fault(a, now) {
                Some(e) => r == Err::<CertificateList, RevocationFault>(e),
                None => r matches Ok(l) && l@ == a.list->0@,
            },
        },
{
    match answer {
        None => Err(RevocationFault::FetchFailed),
        Some(a) => {
            if a.status_code != 200 {
                return Err(RevocationFault::HttpStatus(a.status_code));
            }
            if a.body_len > MAX_CRL_RESPONSE_BYTES {
                return Err(RevocationFault::TooLarge(a.body_len));
            }
            match a.list {
                None => Err(RevocationFault::Unparsable),
                Some(l) => {
                    if !a.signed {
                        Err(RevocationFault::BadSignature)
                    } else if !l.is_valid_at(now) {
                        Err(RevocationFault::NotValid)
                    } else {
                        Ok(l)
                    }
                },
            }
        },
    }
}

/// A check that is under way: where lists are to be had, the certificate's number, its issuer, which address is
/// next, and why the last one was of no use.
#[derive(Debug, Clone)]
pub struct RevocationCheck {
    pub urls: Vec<String>,
    pub serial: Vec<u8>,
    pub issuer_subject: Vec<u8>,
    pub at: usize,
    pub last_error: RevocationFault,
}

/// What is to be done next in a check.
#[derive(Debug, Clone)]
pub enum RevocationStep {
    /// The check is over.
    Done(RevocationStatus),
    /// The list at this address is to be fetched.
    Fetch(String),
}

/// Begins a check. `urls` and `serial` are what was read out of the certificate, `None` where that failed. A
/// check that cannot begin has its outcome at once.
pub fn check_revocation(urls: Option<Vec<String>>, serial: Option<Vec<u8>>, issuer_subject: Vec<u8>) -> (r: Result<
    RevocationCheck,
    RevocationStatus,
>)
    ensures
        match (urls, serial) {
            (None, _) => r == Err::<RevocationCheck, RevocationStatus>(
                RevocationStatus::Unknown(RevocationFault::PointsUnreadable),
            ),
            (Some(u), s) => if u@.len() == 0 {
                r == Err::<RevocationCheck, RevocationStatus>(
                    RevocationStatus::Unknown(RevocationFault::NoPoints),
                )
            } else {
                match s {
                    None => r == Err::<RevocationCheck, RevocationStatus>(
                        RevocationStatus::Unknown(RevocationFault::SerialUnreadable),
                    ),
                    Some(n) => r == Ok::<RevocationCheck, RevocationStatus>(
                        (RevocationCheck {
                            urls: u,
                            serial: n,
                            issuer_subject,
                            at: 0,
                            last_error: RevocationFault::NoUsablePoint,
                        }),
                    ),
                }
            },
        },
{
    match urls {
        None => Err(RevocationStatus::Unknown(RevocationFault::PointsUnreadable)),
        Some(u) => {
            if u.len() == 0 {
                return Err(RevocationStatus::Unknown(RevocationFault::NoPoints));
            }
            match serial {
                None => Err(RevocationStatus::Unknown(RevocationFault::SerialUnreadable)),
                Some(n) => Ok(
                    RevocationCheck {
                        urls: u,
                        serial: n,
                        issuer_subject,
                        at: 0,
                        last_error: RevocationFault::NoUsablePoint,
                    },
                ),
            }
        },
    }
}

impl RevocationCheck {
    /// Tells what is to be done next: nothing more where no address is left or a list is kept that counts,
    /// else the next address is to be asked.
    pub fn next(&self, cache: &CrlCache, now: i64) -> (r: RevocationStep)
        ensures
            if self.at >= self.urls@.len() {
                r == RevocationStep::Done(RevocationStatus::Unknown(self.last_error))
            } else {
                let url = self.urls@[self.at as int]@;
                match kept_list(cache@, cache_key(self.issuer_subject@, url), now) {
                    Some(l) => r == RevocationStep::Done(said_of(l, self.serial@)),
                    None => r matches RevocationStep::Fetch(u) && u@ == url,
                }
            },
    {
        if self.at >= self.urls.len() {
            return RevocationStep::Done(RevocationStatus::Unknown(self.last_error));
        }
        let url = self.urls[self.at].as_str();
        let key = crl_cache_key(self.issuer_subject.as_slice(), url);
        match cache.get(key.as_str(), now) {
            Some(l) => RevocationStep::Done(l.status_of(self.serial.as_slice())),
            None => RevocationStep::Fetch(url.to_owned()),
        }
    }

    /// Takes in what came of asking the next address. A list that can be used is kept and decides; else the
    /// address after it is next.
    pub fn on_fetched(&mut self, fetched: Result<CertificateList, RevocationFault>, cache: &mut CrlCache) -> (r:
        Option<RevocationStatus>)
        requires
            old(cache).inv(),
            old(self).at < old(self).urls@.len(),
        ensures
            final(cache).inv(),
            final(self).urls == old(self).urls,
            final(self).serial == old(self).serial,
            final(self).issuer_subject == old(self).issuer_subject,
            match fetched {
                Ok(l) => {
                    &&& r == Some(said_of(l@, old(self).serial@))
                    &&& *final(self) == *old(self)
                    &&& final(cache)@ == put(
                        old(cache)@,
                        cache_key(
                            old(self).issuer_subject@,
                            old(self).urls@[old(self).at as int]@,
                        ),
                        l@,
                    )
                },
                Err(e) => {
                    &&& r is None
                    &&& final(self).at == old(self).at + 1
                    &&& final(self).last_error == e
                    &&& final(cache)@ == old(cache)@
                },
            },
    {
        match fetched {
            Ok(list) => {
                let key = crl_cache_key(
                    self.issuer_subject.as_slice(),
                    self.urls[self.at].as_str(),
                );
                let status = list.status_of(self.serial.as_slice());
                cache.insert(key, list);
                Some(status)
            },
            Err(e) => {
                assert(self.at < self.urls.len());
                self.last_error = e;
                self.at = self.at + 1;
                None
            },
        }
    }
}

/// A list that is kept is used as long as it counts, and not after.
pub proof fn law_kept_list_counts(lists: Lists, key: Seq<char>, l: CertificateListView, now: i64)
    requires
        crate::table::in_name_order(lists),
    ensures
        counts_at(l, now) ==> kept_list(put(lists, key, l), key, now) == Some(l),
        !counts_at(l, now) ==> kept_list(put(lists, key, l), key, now) is None,
{
    law_put_value(lists, key, l, key);
}

/// A list that can be used was answered in full, is signed by the issuer, and counts.
pub proof fn law_used_list_is_sound(a: CrlAnswer, now: i64)
    requires
        answer_fault(a, now) is None,
    ensures
        a.status_code == 200,
        a.body_len <= MAX_CRL_RESPONSE_BYTES,
        a.signed,
        a.list matches Some(l) && counts_at(l@, now),
{
}

/// A list counts from its date to that of the next, if it tells one; it says of a certificate that it is revoked just
/// where its number is among those of the list.
pub proof fn law_list_says(l: CertificateListView, serial: Seq<u8>, now: i64, k: int)
    ensures
        now < l.this_update ==> !counts_at(l, now),
        l.next_update matches Some(n) ==> now > n ==> !counts_at(l, now),
        l.this_update <= now && (l.next_update is None || now <= l.next_update->0) ==> counts_at(l, now),
        0 <= k < l.serials.len() && l.serials[k] == serial ==> said_of(l, serial) == RevocationStatus::Revoked,
        (forall|j: int| 0 <= j < l.serials.len() ==> #[trigger] l.serials[j] != serial) ==> said_of(l, serial)
            == RevocationStatus::Good,
{
}

/// An answer is used where it came with status 200, is not too long, could be read, is signed by the issuer, and counts.
pub proof fn law_sound_answer_is_used(a: CrlAnswer, now: i64)
    ensures
        a.status_code != 200 ==> answer_fault(a, now) == Some(RevocationFault::HttpStatus(a.status_code)),
        !a.signed || a.list is None || a.body_len > MAX_CRL_RESPONSE_BYTES ==> answer_fault(a, now) is Some,
        a.status_code == 200 && a.signed && a.body_len <= MAX_CRL_RESPONSE_BYTES && (a.list matches Some(l)
            && l@.this_update <= now && (l@.next_update is None || now <= l@.next_update->0)) ==> answer_fault(a, now)
            is None,
{
}

/// Lists of different issuers, or at different addresses, are kept apart.
pub proof fn law_cache_keys_differ(a: Seq<u8>, b: Seq<u8>, u: Seq<char>, v: Seq<char>)
    ensures
        cache_key(a, u) == cache_key(b, v) ==> a == b && u == v,
{
    if cache_key(a, u) == cache_key(b, v) {
        reveal_strlit("|");
        let (x, y) = (hex(a), hex(b));
        let (s, t) = (cache_key(a, u), cache_key(b, v));
        lemma_no_bar(a);
        lemma_no_bar(b);
        assert(s[x.len() as int] == '|');
        assert(t[y.len() as int] == '|');
        if x.len() < y.len() {
            assert(t[x.len() as int] == y[x.len() as int]);
        }
        if y.len() < x.len() {
            assert(s[y.len() as int] == x[y.len() as int]);
        }
        assert(x =~= s.take(x.len() as int));
        assert(y =~= t.take(x.len() as int));
        law_hex_injective(a, b);
        assert(u =~= s.skip(x.len() as int + 1));
        assert(v =~= t.skip(x.len() as int + 1));
    }
}

proof fn lemma_no_bar(s: Seq<u8>)
    ensures
        forall|i: int| 0 <= i < hex(s).len() ==> #[trigger] hex(s)[i] != '|',
{
    let h = hex(s);
    assert forall|i: int| 0 <= i < h.len() implies #[trigger] h[i] != '|' by {
        let b = s[i / 2] as int;
        assert(0 <= b / 16 < 16 && 0 <= b % 16 < 16);
    }
}

}
