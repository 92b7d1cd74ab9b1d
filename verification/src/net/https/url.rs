//! Addresses of resources: what they are taken apart into, and how one follows from another.
use vstd::prelude::*;
use vstd::slice::slice_subrange;

use crate::decimal::{
    all_digits, decimal, is_digit, law_decimal_roundtrip, lemma_decimal_digits, parse_u16, parsed, to_decimal,
};
use crate::text::{
    begins_with, chars_of, find, find_char, head, lacks, lemma_find_from, lemma_find_is, lemma_find_none,
    lemma_rfind_is, push_chars, push_text, rfind, rfind_char, starts_with, string_of, strip_prefix, up_to,
    without_prefix,
};

verus! {

/// What is wrong with an address.
#[derive(Debug, Clone, Copy, PartialEq, Eq, Structural)]
pub enum UrlFault {
    Scheme,
    MissingHost,
    BadIpv6Host,
    BadHostPort,
    BadPort,
}

impl UrlFault {
    pub open spec fn text(&self) -> Seq<char> {
        match self {
            UrlFault::Scheme => "HTTPS client requires https:// scheme"@,
            UrlFault::MissingHost => "missing host"@,
            UrlFault::BadIpv6Host => "invalid IPv6 host format"@,
            UrlFault::BadHostPort => "invalid host:port format"@,
            UrlFault::BadPort => "invalid port number"@,
        }
    }

    /// The fault in words.
    pub fn message(&self) -> (r: &'static str)
        ensures
            r@ == self.text(),
    {
        match self {
            UrlFault::Scheme => "HTTPS client requires https:// scheme",
            UrlFault::MissingHost => "missing host",
            UrlFault::BadIpv6Host => "invalid IPv6 host format",
            UrlFault::BadHostPort => "invalid host:port format",
            UrlFault::BadPort => "invalid port number",
        }
    }
}

/// The parts of an address.
#[derive(Debug, Clone)]
pub struct Target {
    pub host: String,
    pub port: u16,
    pub path: String,
}

#[verifier::ext_equal]
pub struct TargetView {
    pub host: Seq<char>,
    pub port: u16,
    pub path: Seq<char>,
}

impl View for Target {
    type V = TargetView;

    open spec fn view(&self) -> TargetView {
        TargetView { host: self.host@, port: self.port, path: self.path@ }
    }
}

/// The port in an address.
pub open spec fn port_in(s: Seq<char>) -> Result<u16, UrlFault> {
    match parsed(s, u16::MAX as nat) {
        Some(n) => Ok(n as u16),
        None => Err(UrlFault::BadPort),
    }
}

/// Host and port in what stands before the path. A host with colons stands in square brackets.
pub open spec fn host_port_in(s: Seq<char>) -> Result<(Seq<char>, u16), UrlFault> {
    if s.len() == 0 {
        Err(UrlFault::MissingHost)
    } else if s[0] == '[' {
        match find(s, ']') {
            None => Err(UrlFault::BadIpv6Host),
            Some(end) => {
                let host = s.subrange(1, end);
                if end + 1 == s.len() {
                    Ok((host, 443))
                } else {
                    match without_prefix(s.skip(end + 1), ":"@) {
                        None => Err(UrlFault::BadHostPort),
                        Some(p) => match port_in(p) {
                            Ok(port) => Ok((host, port)),
                            Err(e) => Err(e),
                        },
                    }
                }
            },
        }
    } else {
        match rfind(s, ':') {
            None => Ok((s, 443)),
            Some(i) => if i == 0 {
                Err(UrlFault::MissingHost)
            } else {
                match port_in(s.skip(i + 1)) {
                    Ok(port) => Ok((s.take(i), port)),
                    Err(e) => Err(e),
                }
            },
        }
    }
}

/// The path of an address without scheme: from the first slash on.
pub open spec fn path_in(rest: Seq<char>) -> Seq<char> {
    match find(rest, '/') {
        Some(i) => rest.skip(i),
        None => "/"@,
    }
}

/// The parts of an address. It need not say its scheme, but where it does, the scheme is `https`.
pub open spec fn target_of(url: Seq<char>) -> Result<TargetView, UrlFault> {
    if !begins_with(url, "https://"@) && begins_with(url, "http://"@) {
        Err(UrlFault::Scheme)
    } else {
        let rest = if begins_with(url, "https://"@) {
            url.skip(8)
        } else {
            url
        };
        match host_port_in(head(rest, '/')) {
            Err(e) => Err(e),
            Ok((host, port)) => Ok(TargetView { host, port, path: path_in(rest) }),
        }
    }
}

fn read_port(s: &[char]) -> (r: Result<u16, UrlFault>)
    ensures
        r == port_in(s@),
{
    match parse_u16(s) {
        Some(n) => Ok(n),
        None => Err(UrlFault::BadPort),
    }
}

fn read_host_port(s: &[char]) -> (r: Result<(String, u16), UrlFault>)
    ensures
        match r {
            Ok((h, p)) => host_port_in(s@) == Ok::<(Seq<char>, u16), UrlFault>((h@, p)),
            Err(e) => host_port_in(s@) == Err::<(Seq<char>, u16), UrlFault>(e),
        },
{
    let n: usize = s.len();
    if n == 0 {
        return Err(UrlFault::MissingHost);
    }
    if s[0] == '[' {
        let end = match find_char(s, ']') {
            Some(i) => i,
            None => {
                return Err(UrlFault::BadIpv6Host);
            },
        };
        proof {
            crate::text::lemma_find_from(s@, ']', 0);
        }
        let host = slice_subrange(s, 1, end);
        if end + 1 == n {
            return Ok((string_of(host), 443));
        }
        let suffix = slice_subrange(s, end + 1, n);
        assert(suffix@ =~= s@.skip(end + 1));
        return match strip_prefix(suffix, ":") {
            Some(p) => match read_port(p) {
                Ok(port) => Ok((string_of(host), port)),
                Err(e) => Err(e),
            },
            None => Err(UrlFault::BadHostPort),
        };
    }
    match rfind_char(s, ':') {
        None => Ok((string_of(s), 443)),
        Some(i) => {
            if i == 0 {
                return Err(UrlFault::MissingHost);
            }
            let host = slice_subrange(s, 0, i);
            let port = slice_subrange(s, i + 1, n);
            assert(host@ =~= s@.take(i as int));
            assert(port@ =~= s@.skip(i + 1));
            match read_port(port) {
                Ok(p) => Ok((string_of(host), p)),
                Err(e) => Err(e),
            }
        },
    }
}

/// Takes an address apart.
pub fn parse_url(url: &str) -> (r: Result<Target, UrlFault>)
    ensures
        match r {
            Ok(t) => target_of(url@) == Ok::<TargetView, UrlFault>(t@),
            Err(e) => target_of(url@) == Err::<TargetView, UrlFault>(e),
        },
{
    proof {
        reveal_strlit("https://");
    }
    let chars = chars_of(url);
    let rest = match strip_prefix(chars.as_slice(), "https://") {
        Some(r) => r,
        None => {
            if starts_with(chars.as_slice(), "http://") {
                return Err(UrlFault::Scheme);
            }
            chars.as_slice()
        },
    };
    let path = match find_char(rest, '/') {
        Some(i) => {
            let p = slice_subrange(rest, i, rest.len());
            assert(p@ =~= rest@.skip(i as int));
            string_of(p)
        },
        None => "/".to_owned(),
    };
    match read_host_port(up_to(rest, '/')) {
        Ok((host, port)) => Ok(Target { host, port, path }),
        Err(e) => Err(e),
    }
}

/// The address of a path at a host; the port is told where it is not the usual one.
pub open spec fn address(host: Seq<char>, port: u16, path: Seq<char>) -> Seq<char> {
    if port == 443 {
        "https://"@ + host + path
    } else {
        "https://"@ + host + ":"@ + decimal(port as nat) + path
    }
}

/// What `relative` denotes, seen from `base`.
pub open spec fn resolved(base: Seq<char>, relative: Seq<char>) -> Seq<char> {
    if begins_with(relative, "https://"@) || begins_with(relative, "http://"@) {
        relative
    } else if begins_with(relative, "//"@) {
        "https:"@ + relative
    } else if begins_with(relative, "/"@) {
        match target_of(base) {
            Ok(t) => address(t.host, t.port, relative),
            Err(_) => relative,
        }
    } else {
        let bare = head(head(base, '#'), '?');
        match rfind(bare, '/') {
            Some(i) => bare.take(i) + "/"@ + relative,
            None => bare + "/"@ + relative,
        }
    }
}

/// Tells what `relative` denotes, seen from `base`.
pub fn resolve_url(base: &str, relative: &str) -> (r: String)
    ensures
        r@ == resolved(base@, relative@),
{
    let rel = chars_of(relative);
    if starts_with(rel.as_slice(), "https://") || starts_with(rel.as_slice(), "http://") {
        return relative.to_owned();
    }
    if starts_with(rel.as_slice(), "//") {
        let mut out = chars_of("https:");
        push_text(&mut out, relative);
        return string_of(out.as_slice());
    }
    if starts_with(rel.as_slice(), "/") {
        return match parse_url(base) {
            Ok(t) => {
                let mut out = chars_of("https://");
                push_text(&mut out, t.host.as_str());
                if t.port != 443 {
                    push_text(&mut out, ":");
                    push_chars(&mut out, to_decimal(t.port as u64).as_slice());
                }
                push_text(&mut out, relative);
                string_of(out.as_slice())
            },
            Err(_) => relative.to_owned(),
        };
    }
    let all = chars_of(base);
    let bare = up_to(up_to(all.as_slice(), '#'), '?');
    let front = match rfind_char(bare, '/') {
        Some(i) => slice_subrange(bare, 0, i),
        None => bare,
    };
    let mut out: Vec<char> = Vec::new();
    push_chars(&mut out, front);
    push_text(&mut out, "/");
    push_text(&mut out, relative);
    proof {
        match rfind(bare@, '/') {
            Some(i) => {
                assert(front@ =~= bare@.take(i));
            },
            None => {},
        }
        assert(out@ =~= front@ + "/"@ + relative@);
    }
    string_of(out.as_slice())
}

/// Host and port in one text, for a socket: a host with colons goes into square brackets.
pub open spec fn socket_text(host: Seq<char>, port: u16) -> Seq<char> {
    if !lacks(host, ':') && !begins_with(host, "["@) {
        "["@ + host + "]:"@ + decimal(port as nat)
    } else {
        host + ":"@ + decimal(port as nat)
    }
}

fn has_colon(host: &[char]) -> (r: bool)
    ensures
        r == !lacks(host@, ':'),
{
    proof {
        crate::text::lemma_find_from(host@, ':', 0);
    }
    match find_char(host, ':') {
        Some(i) => {
            assert(host@[i as int] == ':');
            true
        },
        None => false,
    }
}

/// Writes host and port in one text, for a socket.
pub fn socket_address(host: &str, port: u16) -> (r: String)
    ensures
        r@ == socket_text(host@, port),
{
    let h = chars_of(host);
    let n = to_decimal(port as u64);
    let mut out: Vec<char> = Vec::new();
    if has_colon(h.as_slice()) && !starts_with(h.as_slice(), "[") {
        push_text(&mut out, "[");
        push_text(&mut out, host);
        push_text(&mut out, "]:");
        push_chars(&mut out, n.as_slice());
        assert(out@ =~= "["@ + host@ + "]:"@ + decimal(port as nat));
    } else {
        push_text(&mut out, host);
        push_text(&mut out, ":");
        push_chars(&mut out, n.as_slice());
        assert(out@ =~= host@ + ":"@ + decimal(port as nat));
    }
    string_of(out.as_slice())
}

/// The value of the field `Host`: the port is told where it is not the usual one.
pub open spec fn host_text(host: Seq<char>, port: u16) -> Seq<char> {
    if port == 443 {
        host
    } else {
        socket_text(host, port)
    }
}

/// Writes the value of the field `Host`.
pub fn host_header(host: &str, port: u16) -> (r: String)
    ensures
        r@ == host_text(host@, port),
{
    if port == 443 {
        host.to_owned()
    } else {
        socket_address(host, port)
    }
}

/// The key of a connection.
pub open spec fn key_text(host: Seq<char>, port: u16) -> Seq<char> {
    host + ":"@ + decimal(port as nat)
}

/// Tells the key of a connection.
pub fn connection_key(host: &str, port: u16) -> (r: String)
    ensures
        r@ == key_text(host@, port),
{
    let mut out = chars_of(host);
    push_text(&mut out, ":");
    push_chars(&mut out, to_decimal(port as u64).as_slice());
    string_of(out.as_slice())
}

/// Where a redirection leads from an address whose parts are known.
pub open spec fn redirected(url: Seq<char>, from: TargetView, location: Seq<char>) -> Seq<char> {
    if begins_with(location, "http://"@) || begins_with(location, "https://"@) || begins_with(
        location,
        "//"@,
    ) {
        resolved(url, location)
    } else {
        resolved(
            "https://"@ + from.host + ":"@ + decimal(from.port as nat) + (if from.path.len() == 0 {
                "/"@
            } else {
                from.path
            }),
            location,
        )
    }
}

/// Tells where a redirection leads.
pub fn redirect_url(url: &str, from: &Target, location: &str) -> (r: String)
    ensures
        r@ == redirected(url@, from@, location@),
{
    let l = chars_of(location);
    if starts_with(l.as_slice(), "http://") || starts_with(l.as_slice(), "https://") || starts_with(
        l.as_slice(),
        "//",
    ) {
        resolve_url(url, location)
    } else {
        let mut base = chars_of("https://");
        push_text(&mut base, from.host.as_str());
        push_text(&mut base, ":");
        push_chars(&mut base, to_decimal(from.port as u64).as_slice());
        let path = chars_of(from.path.as_str());
        if path.len() == 0 {
            push_text(&mut base, "/");
        } else {
            push_chars(&mut base, path.as_slice());
        }
        let text = string_of(base.as_slice());
        resolve_url(text.as_str(), location)
    }
}

/// Whether a host stands as it is in an address: it is not empty and has neither slash, colon nor bracket.
pub open spec fn is_plain_host(host: Seq<char>) -> bool {
    host.len() > 0 && lacks(host, '/') && lacks(host, ':') && lacks(host, '[')
}

proof fn lemma_rfind_none(s: Seq<char>, c: char)
    requires
        lacks(s, c),
    ensures
        rfind(s, c) is None,
    decreases s.len(),
{
    if s.len() > 0 {
        assert(lacks(s.drop_last(), c));
        lemma_rfind_none(s.drop_last(), c);
    }
}

proof fn lemma_host_port(host: Seq<char>, port: u16)
    requires
        is_plain_host(host),
    ensures
        host_port_in(host + ":"@ + decimal(port as nat)) == Ok::<(Seq<char>, u16), UrlFault>((host, port)),
        host_port_in(host) == Ok::<(Seq<char>, u16), UrlFault>((host, 443u16)),
        lacks(host + ":"@ + decimal(port as nat), '/'),
{
    reveal_strlit(":");
    let d = decimal(port as nat);
    lemma_decimal_digits(port as nat);
    law_decimal_roundtrip(port as nat, u16::MAX as nat);
    assert(all_digits(d));
    let hp = host + ":"@ + d;
    assert(hp[0] == host[0]);
    assert(host[0] != '[');
    lemma_rfind_is(hp, ':', host.len() as int);
    assert(hp.take(host.len() as int) =~= host);
    assert(hp.skip(host.len() as int + 1) =~= d);
    lemma_rfind_none(host, ':');
}

proof fn lemma_target(hp: Seq<char>, path: Seq<char>)
    requires
        lacks(hp, '/'),
        path.len() > 0,
        path[0] == '/',
    ensures
        target_of("https://"@ + hp + path) == (match host_port_in(hp) {
            Err(e) => Err::<TargetView, UrlFault>(e),
            Ok((host, port)) => Ok(TargetView { host, port, path }),
        }),
{
    reveal_strlit("https://");
    let rest = hp + path;
    let url = "https://"@ + hp + path;
    assert(url.take(8) =~= "https://"@);
    assert(url.skip(8) =~= rest);
    lemma_find_is(rest, '/', hp.len() as int);
    assert(rest.take(hp.len() as int) =~= hp);
    assert(rest.skip(hp.len() as int) =~= path);
}

/// An address with a host, a port and a path is taken apart into these again.
pub proof fn law_url_parts(host: Seq<char>, port: u16, path: Seq<char>)
    requires
        is_plain_host(host),
        path.len() > 0,
        path[0] == '/',
    ensures
        target_of("https://"@ + host + ":"@ + decimal(port as nat) + path) == Ok::<TargetView, UrlFault>(
            (TargetView { host, port, path }),
        ),
        target_of("https://"@ + host + path) == Ok::<TargetView, UrlFault>(
            (TargetView { host, port: 443, path }),
        ),
{
    let hp = host + ":"@ + decimal(port as nat);
    lemma_host_port(host, port);
    lemma_target(hp, path);
    lemma_target(host, path);
    assert("https://"@ + host + ":"@ + decimal(port as nat) + path =~= "https://"@ + hp + path);
}

/// A redirection to a path stays at the host and port where it came from.
pub proof fn law_redirect_to_path_keeps_host(url: Seq<char>, from: TargetView, location: Seq<char>)
    requires
        is_plain_host(from.host),
        from.path.len() > 0 ==> from.path[0] == '/',
        begins_with(location, "/"@),
        !begins_with(location, "//"@),
    ensures
        target_of(redirected(url, from, location)) == Ok::<TargetView, UrlFault>(
            (TargetView { host: from.host, port: from.port, path: location }),
        ),
{
    reveal_strlit("/");
    reveal_strlit("//");
    reveal_strlit("https://");
    reveal_strlit("http://");
    assert(location[0] == location.take(1)[0]);
    assert(begins_with(location, "http://"@) ==> location[0] == location.take(7)[0]);
    assert(begins_with(location, "https://"@) ==> location[0] == location.take(8)[0]);
    let path = if from.path.len() == 0 {
        "/"@
    } else {
        from.path
    };
    law_url_parts(from.host, from.port, path);
    law_url_parts(from.host, from.port, location);
}

/// An address without a path denotes the path `/`, and one without a scheme what it denotes with it; a host in square
/// brackets is taken without them. An address with the scheme `http` is refused.
pub proof fn law_url_forms(host: Seq<char>, port: u16, path: Seq<char>)
    requires
        is_plain_host(host),
        !begins_with(host, "https:"@) && !begins_with(host, "http:"@),
        path.len() > 0,
        path[0] == '/',
    ensures
        target_of("https://"@ + host) == Ok::<TargetView, UrlFault>((TargetView { host, port: 443, path: "/"@ })),
        target_of("https://"@ + host + ":"@ + decimal(port as nat)) == Ok::<TargetView, UrlFault>(
            (TargetView { host, port, path: "/"@ }),
        ),
        target_of(host + path) == Ok::<TargetView, UrlFault>((TargetView { host, port: 443, path })),
        target_of("http://"@ + host + path) == Err::<TargetView, UrlFault>(UrlFault::Scheme),
{
    let hp = host + ":"@ + decimal(port as nat);
    reveal_strlit("https://");
    reveal_strlit("http://");
    reveal_strlit("https:");
    reveal_strlit("http:");
    lemma_host_port(host, port);
    lemma_pathless(host);
    lemma_pathless(hp);
    assert("https://"@ + host + ":"@ + decimal(port as nat) =~= "https://"@ + hp);
    let bare = host + path;
    let n = host.len() as int;
    lemma_find_is(bare, '/', n);
    assert(bare.take(n) =~= host);
    assert(bare.skip(n) =~= path);
    assert(!begins_with(bare, "https://"@)) by {
        if begins_with(bare, "https://"@) {
            assert(bare.take(8)[5] == ':' && bare[5] == bare.take(8)[5]);
            assert(bare.take(8)[6] == '/' && bare[6] == bare.take(8)[6]);
            lemma_colon_in_host(host, path, 5);
            let j = choose|j: int| 0 <= j < 5 && #[trigger] bare[j] == '/';
            assert(bare.take(8)[j] == '/');
        }
    }
    assert(!begins_with(bare, "http://"@)) by {
        if begins_with(bare, "http://"@) {
            assert(bare.take(7)[4] == ':' && bare[4] == bare.take(7)[4]);
            lemma_colon_in_host(host, path, 4);
            let j = choose|j: int| 0 <= j < 4 && #[trigger] bare[j] == '/';
            assert(bare.take(7)[j] == '/');
        }
    }
    let plain = "http://"@ + host + path;
    assert(plain.take(7) =~= "http://"@);
    assert(!begins_with(plain, "https://"@)) by {
        if begins_with(plain, "https://"@) {
            assert(plain.take(8)[4] == 's' && plain[4] == plain.take(8)[4]);
        }
    }
}

/// A colon in a host and a path stands behind a slash.
proof fn lemma_colon_in_host(host: Seq<char>, path: Seq<char>, i: int)
    requires
        is_plain_host(host),
        path.len() > 0 && path[0] == '/',
        0 <= i < (host + path).len(),
        (host + path)[i] == ':',
    ensures
        exists|j: int| 0 <= j < i && #[trigger] (host + path)[j] == '/',
{
    if i < host.len() {
        assert((host + path)[i] == host[i]);
    } else {
        assert((host + path)[host.len() as int] == '/');
    }
}

proof fn lemma_pathless(hp: Seq<char>)
    requires
        lacks(hp, '/'),
    ensures
        target_of("https://"@ + hp) == (match host_port_in(hp) {
            Err(e) => Err::<TargetView, UrlFault>(e),
            Ok((host, port)) => Ok(TargetView { host, port, path: "/"@ }),
        }),
{
    reveal_strlit("https://");
    let url = "https://"@ + hp;
    assert(url.take(8) =~= "https://"@);
    assert(url.skip(8) =~= hp);
    lemma_find_none(hp, '/');
}

/// What is told of host and port in the field `Host`, or for a socket, denotes that host and port.
pub proof fn law_host_text_is_read(host: Seq<char>, port: u16)
    ensures
        is_plain_host(host) ==> target_of("https://"@ + host_text(host, port)) == Ok::<TargetView, UrlFault>(
            (TargetView { host, port, path: "/"@ }),
        ),
        is_plain_host(host) ==> socket_text(host, port) == host + ":"@ + decimal(port as nat),
        !lacks(host, ':') && host[0] != '[' && lacks(host, ']') && lacks(host, '/') ==> target_of(
            "https://"@ + socket_text(host, port),
        ) == Ok::<TargetView, UrlFault>((TargetView { host, port, path: "/"@ })),
{
    reveal_strlit("[");
    if is_plain_host(host) {
        lemma_host_port(host, port);
        lemma_pathless(host);
        lemma_pathless(host + ":"@ + decimal(port as nat));
    }
    if !lacks(host, ':') && host[0] != '[' && lacks(host, ']') && lacks(host, '/') {
        reveal_strlit("]:");
        reveal_strlit(":");
        let d = decimal(port as nat);
        let hp = "["@ + host + "]:"@ + d;
        assert(!begins_with(host, "["@)) by {
            if begins_with(host, "["@) {
                assert(host.take(1)[0] == host[0]);
            }
        }
        lemma_decimal_digits(port as nat);
        law_decimal_roundtrip(port as nat, u16::MAX as nat);
        assert(all_digits(d));
        let n = host.len() as int + 1;
        assert(hp[n] == ']');
        assert forall|j: int| 0 <= j < n implies hp[j] != ']' by {
            if j > 0 {
                assert(hp[j] == host[j - 1]);
            }
        }
        lemma_find_is(hp, ']', n);
        assert(hp.subrange(1, n) =~= host);
        let behind = hp.skip(n + 1);
        assert(behind =~= ":"@ + d);
        assert(behind.take(1) =~= ":"@);
        assert(behind.skip(1) =~= d);
        assert forall|j: int| 0 <= j < hp.len() implies #[trigger] hp[j] != '/' by {
            if 0 < j < n {
                assert(hp[j] == host[j - 1]);
            } else if j > n + 1 {
                assert(hp[j] == d[j - n - 2]);
                assert(is_digit(d[j - n - 2]));
            }
        }
        lemma_pathless(hp);
    }
}

/// What is whole stays as it is; what begins with two slashes gets the scheme; and what is only a name takes the place
/// of the last name of the path, with what follows that.
pub proof fn law_relative_url(front: Seq<char>, last: Seq<char>, tail: Seq<char>, relative: Seq<char>)
    requires
        lacks(front, '?') && lacks(front, '#'),
        lacks(last, '?') && lacks(last, '#') && lacks(last, '/'),
        tail.len() > 0 ==> tail[0] == '?' || tail[0] == '#',
    ensures
        relative.len() > 0 && relative[0] != '/' && !begins_with(relative, "http"@) ==> resolved(
            front + "/"@ + last + tail,
            relative,
        ) == front + "/"@ + relative,
        resolved(front, "https://"@ + relative) == "https://"@ + relative,
        resolved(front, "http://"@ + relative) == "http://"@ + relative,
        resolved(front, "//"@ + relative) == "https://"@ + relative,
{
    reveal_strlit("/");
    reveal_strlit("//");
    reveal_strlit("http");
    reveal_strlit("https:");
    reveal_strlit("https://");
    reveal_strlit("http://");
    assert(("https://"@ + relative).take(8) =~= "https://"@);
    assert(("http://"@ + relative).take(7) =~= "http://"@);
    let two = "//"@ + relative;
    assert(two.take(2) =~= "//"@);
    assert(!begins_with(two, "https://"@)) by {
        if begins_with(two, "https://"@) {
            assert(two.take(8)[0] == two[0]);
        }
    }
    assert(!begins_with(two, "http://"@)) by {
        if begins_with(two, "http://"@) {
            assert(two.take(7)[0] == two[0]);
        }
    }
    assert("https:"@ + two =~= "https://"@ + relative);
    if relative.len() > 0 && relative[0] != '/' && !begins_with(relative, "http"@) {
        assert(begins_with(relative, "http://"@) ==> begins_with(relative, "http"@)) by {
            if begins_with(relative, "http://"@) {
                assert(relative.take(4) =~= relative.take(7).take(4));
                assert(relative.take(4) =~= "http"@);
            }
        }
        assert(begins_with(relative, "https://"@) ==> begins_with(relative, "http"@)) by {
            if begins_with(relative, "https://"@) {
                assert(relative.take(4) =~= relative.take(8).take(4));
                assert(relative.take(4) =~= "http"@);
            }
        }
        assert(!begins_with(relative, "/"@)) by {
            if begins_with(relative, "/"@) {
                assert(relative.take(1)[0] == relative[0]);
            }
        }
        assert(!begins_with(relative, "//"@)) by {
            if begins_with(relative, "//"@) {
                assert(relative.take(2)[0] == relative[0]);
            }
        }
        let plain = front + "/"@ + last;
        let base = plain + tail;
        lemma_bare(plain, tail);
        assert(base =~= front + "/"@ + last + tail);
        let n = front.len() as int;
        assert forall|j: int| n < j < plain.len() implies plain[j] != '/' by {
            assert(plain[j] == last[j - n - 1]);
        }
        lemma_rfind_is(plain, '/', n);
        assert(plain.take(n) =~= front);
    }
}

/// What follows an address behind a question mark or a hash is left out.
proof fn lemma_bare(plain: Seq<char>, tail: Seq<char>)
    requires
        lacks(plain, '?') && lacks(plain, '#'),
        tail.len() > 0 ==> tail[0] == '?' || tail[0] == '#',
    ensures
        head(head(plain + tail, '#'), '?') == plain,
{
    let s = plain + tail;
    let n = plain.len() as int;
    lemma_find_from(s, '#', 0);
    let a = head(s, '#');
    match find(s, '#') {
        Some(i) => {
            assert(i >= n) by {
                if i < n {
                    assert(s[i] == plain[i]);
                }
            }
            if i == n {
                assert(a =~= plain);
                lemma_find_none(a, '?');
            } else {
                assert(s[n] == '?');
                assert(a[n] == '?');
                assert forall|j: int| 0 <= j < n implies a[j] != '?' by {
                    assert(a[j] == plain[j]);
                }
                lemma_find_is(a, '?', n);
                assert(a.take(n) =~= plain);
            }
        },
        None => {
            if tail.len() == 0 {
                assert(s =~= plain);
                lemma_find_none(s, '?');
            } else {
                assert(s[n] == tail[0]);
                assert forall|j: int| 0 <= j < n implies s[j] != '?' by {
                    assert(s[j] == plain[j]);
                }
                lemma_find_is(s, '?', n);
                assert(s.take(n) =~= plain);
            }
        },
    }
}

/// A redirection to a name leads to that name beside the one from which it came, at the same host and port.
pub proof fn law_redirect_to_name(url: Seq<char>, from: TargetView, front: Seq<char>, last: Seq<char>, name: Seq<char>)
    requires
        from.path == front + "/"@ + last,
        lacks(from.host, '?') && lacks(from.host, '#'),
        lacks(front, '?') && lacks(front, '#'),
        lacks(last, '?') && lacks(last, '#') && lacks(last, '/'),
        name.len() > 0 && name[0] != '/' && !begins_with(name, "http"@),
    ensures
        redirected(url, from, name) == "https://"@ + from.host + ":"@ + decimal(from.port as nat) + front + "/"@ + name,
{
    reveal_strlit("/");
    reveal_strlit("//");
    reveal_strlit(":");
    reveal_strlit("http");
    reveal_strlit("http://");
    reveal_strlit("https://");
    let d = decimal(from.port as nat);
    lemma_decimal_digits(from.port as nat);
    let base = "https://"@ + from.host + ":"@ + d;
    let whole = base + front;
    assert forall|i: int| 0 <= i < whole.len() implies #[trigger] whole[i] != '?' && whole[i] != '#' by {
        let n = 8 + from.host.len() as int;
        if i < 8 {
            assert(whole[i] == "https://"@[i]);
        } else if i < n {
            assert(whole[i] == from.host[i - 8]);
        } else if n < i < n + 1 + d.len() {
            assert(whole[i] == d[i - n - 1]);
            assert(is_digit(d[i - n - 1]));
        } else if i > n {
            assert(whole[i] == front[i - n - 1 - d.len()]);
        }
    }
    let none = Seq::<char>::empty();
    law_relative_url(whole, last, none, name);
    assert(whole + "/"@ + last + none =~= base + from.path);
    assert(!begins_with(name, "http://"@)) by {
        if begins_with(name, "http://"@) {
            assert(name.take(4) =~= name.take(7).take(4));
            assert(name.take(4) =~= "http"@);
        }
    }
    assert(!begins_with(name, "https://"@)) by {
        if begins_with(name, "https://"@) {
            assert(name.take(4) =~= name.take(8).take(4));
            assert(name.take(4) =~= "http"@);
        }
    }
    assert(!begins_with(name, "//"@)) by {
        if begins_with(name, "//"@) {
            assert(name.take(2)[0] == name[0]);
        }
    }
}

/// An address without a host, or with a port that is no number of a port, is refused.
pub proof fn law_url_faults(host: Seq<char>, junk: Seq<char>, path: Seq<char>)
    requires
        is_plain_host(host),
        lacks(junk, '/') && lacks(junk, ':'),
        parsed(junk, u16::MAX as nat) is None,
        path.len() > 0,
        path[0] == '/',
    ensures
        target_of("https://"@ + (host + ":"@ + junk) + path) == Err::<TargetView, UrlFault>(UrlFault::BadPort),
        target_of("https://"@ + Seq::<char>::empty() + path) == Err::<TargetView, UrlFault>(UrlFault::MissingHost),
{
    reveal_strlit(":");
    let hp = host + ":"@ + junk;
    let n = host.len() as int;
    assert forall|j: int| 0 <= j < hp.len() implies #[trigger] hp[j] != '/' by {
        if j < n {
            assert(hp[j] == host[j]);
        } else if j > n {
            assert(hp[j] == junk[j - n - 1]);
        }
    }
    assert forall|j: int| n < j < hp.len() implies hp[j] != ':' by {
        assert(hp[j] == junk[j - n - 1]);
    }
    assert(hp[0] == host[0]);
    lemma_rfind_is(hp, ':', n);
    assert(hp.skip(n + 1) =~= junk);
    lemma_target(hp, path);
    lemma_target(Seq::<char>::empty(), path);
}

}
