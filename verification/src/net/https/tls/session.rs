//! Sessions that can be resumed. Times are in nanoseconds since one fixed moment; how late it is comes in as an
//! argument.
use vstd::prelude::*;

use crate::net::https::tls::config::TlsVersion;
use crate::table::{law_put_value, law_without_value, put, value, without, Table};

verus! {

/// The nanoseconds of a second.
pub const SECOND: u128 = 1_000_000_000;

/// How long a session can be resumed, in nanoseconds: two hours.
pub const MAX_SESSION_LIFETIME: u128 = 7_200_000_000_000;

/// A session.
#[derive(Debug, Clone)]
pub struct TlsSession {
    pub session_id: Vec<u8>,
    pub master_secret: Vec<u8>,
    pub cipher_suite: u16,
    pub created_at: u128,
    pub server_name: String,
    pub protocol_version: TlsVersion,
    pub ticket: Option<Vec<u8>>,
}

#[verifier::ext_equal]
pub struct SessionView {
    pub session_id: Seq<u8>,
    pub master_secret: Seq<u8>,
    pub cipher_suite: u16,
    pub created_at: u128,
    pub server_name: Seq<char>,
    pub protocol_version: TlsVersion,
    pub ticket: Option<Seq<u8>>,
}

pub open spec fn opt_octets(o: Option<Vec<u8>>) -> Option<Seq<u8>> {
    match o {
        Some(v) => Some(v@),
        None => None,
    }
}

impl View for TlsSession {
    type V = SessionView;

    open spec fn view(&self) -> SessionView {
        SessionView {
            session_id: self.session_id@,
            master_secret: self.master_secret@,
            cipher_suite: self.cipher_suite,
            created_at: self.created_at,
            server_name: self.server_name@,
            protocol_version: self.protocol_version,
            ticket: opt_octets(self.ticket),
        }
    }
}

/// How long ago a session was made; `None` where that lies in the future.
pub open spec fn elapsed(created_at: u128, now: u128) -> Option<int> {
    if now >= created_at {
        Some(now - created_at)
    } else {
        None
    }
}

/// Whether a session can still be resumed.
pub open spec fn is_fresh(s: SessionView, now: u128) -> bool {
    elapsed(s.created_at, now) matches Some(d) && d < MAX_SESSION_LIFETIME
}

/// The age of a session in whole seconds, in 32 bits; all ones where it was made in the future.
pub open spec fn age_of(created_at: u128, now: u128) -> u32 {
    match elapsed(created_at, now) {
        Some(d) => (d / SECOND as int % 0x1_0000_0000) as u32,
        None => u32::MAX,
    }
}

impl TlsSession {
    pub fn new(
        session_id: Vec<u8>,
        master_secret: Vec<u8>,
        cipher_suite: u16,
        server_name: String,
        protocol_version: TlsVersion,
        now: u128,
    ) -> (r: Self)
        ensures
            r@ == (SessionView {
                session_id: session_id@,
                master_secret: master_secret@,
                cipher_suite,
                created_at: now,
                server_name: server_name@,
                protocol_version,
                ticket: None,
            }),
    {
        TlsSession {
            session_id,
            master_secret,
            cipher_suite,
            created_at: now,
            server_name,
            protocol_version,
            ticket: None,
        }
    }

    /// Whether the session can still be resumed.
    pub fn is_valid(&self, now: u128) -> (r: bool)
        ensures
            r == is_fresh(self@, now),
    {
        now >= self.created_at && now - self.created_at < MAX_SESSION_LIFETIME
    }

    /// The age in whole seconds.
    pub fn age(&self, now: u128) -> (r: u32)
        ensures
            r == age_of(self@.created_at, now),
    {
        if now >= self.created_at {
            ((now - self.created_at) / SECOND % 0x1_0000_0000) as u32
        } else {
            u32::MAX
        }
    }

    /// A session with the same contents.
    pub fn copy(&self) -> (r: Self)
        ensures
            r@ == self@,
    {
        TlsSession {
            session_id: vstd::slice::slice_to_vec(self.session_id.as_slice()),
            master_secret: vstd::slice::slice_to_vec(self.master_secret.as_slice()),
            cipher_suite: self.cipher_suite,
            created_at: self.created_at,
            server_name: self.server_name.as_str().to_owned(),
            protocol_version: self.protocol_version,
            ticket: match &self.ticket {
                Some(t) => Some(vstd::slice::slice_to_vec(t.as_slice())),
                None => None,
            },
        }
    }
}

/// Sessions by name of server.
pub type Sessions = Seq<(Seq<char>, SessionView)>;

/// The first `n` sessions without those that cannot be resumed any more.
pub open spec fn fresh_among(s: Sessions, now: u128, n: int) -> Sessions
    decreases n,
{
    if n <= 0 {
        seq![]
    } else if is_fresh(s[n - 1].1, now) {
        fresh_among(s, now, n - 1).push(s[n - 1])
    } else {
        fresh_among(s, now, n - 1)
    }
}

/// The sessions that are kept. A store has no copies: those who share it hold the one there is.
#[derive(Debug)]
pub struct SessionCache {
    sessions: Table<TlsSession>,
}

impl View for SessionCache {
    type V = Sessions;

    closed spec fn view(&self) -> Sessions {
        self.sessions@
    }
}

impl Default for SessionCache {
    fn default() -> (r: Self)
        ensures
            r.inv(),
            r@ == Seq::<(Seq<char>, SessionView)>::empty(),
    {
        SessionCache::new()
    }
}

impl SessionCache {
    /// What holds of every cache: a server has one session, and they are in order of names.
    pub open spec fn inv(&self) -> bool {
        crate::table::in_name_order(self@)
    }

    pub fn new() -> (r: Self)
        ensures
            r.inv(),
            r@ == Seq::<(Seq<char>, SessionView)>::empty(),
    {
        SessionCache { sessions: Table::new() }
    }

    /// Keeps a session, in place of the one that the server had.
    pub fn insert(&mut self, key: String, session: TlsSession)
        requires
            old(self).inv(),
        ensures
            final(self).inv(),
            final(self)@ == put(old(self)@, key@, session@),
    {
        self.sessions.insert(key, session);
    }

    pub fn get(&self, key: &str) -> (r: Option<TlsSession>)
        ensures
            match r {
                Some(s) => value(self@, key@) == Some(s@),
                None => value(self@, key@) is None,
            },
    {
        match self.sessions.get(key) {
            Some(s) => Some(s.copy()),
            None => None,
        }
    }

    /// The session of a server that can still be resumed.
    pub fn get_valid(&self, key: &str, now: u128) -> (r: Option<TlsSession>)
        ensures
            match r {
                Some(s) => value(self@, key@) == Some(s@) && is_fresh(s@, now),
                None => value(self@, key@) matches Some(s) ==> !is_fresh(s, now),
            },
    {
        match self.sessions.get(key) {
            Some(s) => {
                if s.is_valid(now) {
                    Some(s.copy())
                } else {
                    None
                }
            },
            None => None,
        }
    }

    pub fn remove(&mut self, key: &str)
        requires
            old(self).inv(),
        ensures
            final(self).inv(),
            final(self)@ == without(old(self)@, key@),
    {
        self.sessions.remove(key);
    }

    /// Drops the sessions that cannot be resumed any more.
    pub fn cleanup_expired(&mut self, now: u128)
        requires
            old(self).inv(),
        ensures
            final(self).inv(),
            final(self)@ == fresh_among(old(self)@, now, old(self)@.len() as int),
    {
        let ghost all = self@;
        let mut kept: Table<TlsSession> = Table::new();
        let mut i: usize = 0;
        while i < self.sessions.len()
            invariant
                i <= all.len(),
                all == self.sessions@,
                self.inv(),
                self@ == all,
                kept.inv(),
                kept@ == fresh_among(all, now, i as int),
                forall|j: int| 0 <= j < kept@.len() && i < all.len() ==> crate::table::before(
                    (#[trigger] kept@[j]).0,
                    all[i as int].0,
                ),
            decreases all.len() - i,
        {
            let s = self.sessions.value_at(i);
            let name = self.sessions.name_at(i);
            if s.is_valid(now) {
                proof {
                    crate::table::lemma_put_last(kept@, name@, s@);
                }
                let ghost was = kept@;
                kept.insert(name.to_owned(), s.copy());
                assert(kept@ =~= was.push(all[i as int]));
            }
            proof {
                if i + 1 < all.len() {
                    assert(crate::table::before(all[i as int].0, all[i + 1].0));
                    assert forall|j: int| 0 <= j < kept@.len() implies crate::table::before(
                        (#[trigger] kept@[j]).0,
                        all[i + 1].0,
                    ) by {
                        if kept@[j].0 != all[i as int].0 {
                            crate::table::law_before_transitive(
                                kept@[j].0,
                                all[i as int].0,
                                all[i + 1].0,
                            );
                        }
                    }
                }
            }
            i = i + 1;
        }
        self.sessions = kept;
    }

    pub fn clear(&mut self)
        ensures
            final(self).inv(),
            final(self)@ == Seq::<(Seq<char>, SessionView)>::empty(),
    {
        self.sessions = Table::new();
    }
}

proof fn lemma_fresh_among(s: Sessions, now: u128, n: int)
    requires
        0 <= n <= s.len(),
    ensures
        forall|j: int|
            0 <= j < fresh_among(s, now, n).len() ==> is_fresh((#[trigger] fresh_among(s, now, n)[j]).1, now)
                && s.contains(fresh_among(s, now, n)[j]),
        forall|k: int| 0 <= k < n && is_fresh((#[trigger] s[k]).1, now) ==> fresh_among(s, now, n).contains(
            s[k],
        ),
    decreases n,
{
    if n > 0 {
        lemma_fresh_among(s, now, n - 1);
        let rest = fresh_among(s, now, n - 1);
        let all = fresh_among(s, now, n);
        assert forall|k: int| 0 <= k < n && is_fresh((#[trigger] s[k]).1, now) implies all.contains(s[k]) by {
            if k < n - 1 {
                let j = choose|j: int| 0 <= j < rest.len() && rest[j] == s[k];
                assert(all[j] == s[k]);
            } else {
                assert(all[all.len() - 1] == s[k]);
            }
        }
    }
}

/// A clean-up keeps exactly the sessions that can still be resumed.
pub proof fn law_cleanup_keeps_fresh(s: Sessions, now: u128, name: Seq<char>, session: SessionView)
    ensures
        fresh_among(s, now, s.len() as int).contains((name, session)) <==> s.contains((name, session))
            && is_fresh(session, now),
{
    lemma_fresh_among(s, now, s.len() as int);
    let kept = fresh_among(s, now, s.len() as int);
    if kept.contains((name, session)) {
        let j = choose|j: int| 0 <= j < kept.len() && kept[j] == (name, session);
        assert(is_fresh(kept[j].1, now));
    }
    if s.contains((name, session)) && is_fresh(session, now) {
        let k = choose|k: int| 0 <= k < s.len() && s[k] == (name, session);
        assert(is_fresh(s[k].1, now));
    }
}

/// A session that was kept is found under its server's name, and no other server's session changes.
pub proof fn law_kept_session_is_found(s: Sessions, name: Seq<char>, session: SessionView, other: Seq<char>)
    requires
        crate::table::in_name_order(s),
    ensures
        value(put(s, name, session), name) == Some(session),
        other != name ==> value(put(s, name, session), other) == value(s, other),
{
    law_put_value(s, name, session, other);
}

/// A session that was removed is not found any more, and no other server's session changes.
pub proof fn law_removed_session_is_gone(s: Sessions, name: Seq<char>, other: Seq<char>)
    requires
        crate::table::in_name_order(s),
    ensures
        value(without(s, name), name) is None,
        other != name ==> value(without(s, name), other) == value(s, other),
{
    law_without_value(s, name, other);
}

/// A session can be resumed for two hours from the moment at which it was made, and its age is told in whole seconds.
/// Times are in nanoseconds.
pub proof fn law_session_lifetime(s: SessionView, seconds: u32, part: u128)
    requires
        part < 1_000_000_000,
        s.created_at + seconds * 1_000_000_000 + part <= u128::MAX,
    ensures
        is_fresh(s, (s.created_at + seconds * 1_000_000_000 + part) as u128) <==> seconds < 7200,
        age_of(s.created_at, (s.created_at + seconds * 1_000_000_000 + part) as u128) == seconds,
        s.created_at > 0 ==> !is_fresh(s, (s.created_at - 1) as u128),
{
    let d = seconds * 1_000_000_000 + part;
    assert(d / 1_000_000_000 == seconds);
}

}
