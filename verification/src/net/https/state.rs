//! What a client remembers between runs: a snapshot as text, and its sealed form.
use vstd::prelude::*;
use vstd::slice::slice_subrange;
use vstd::string::StringSliceAdditionalSpecFns;
use vstd::utf8::{decode_utf8, encode_utf8, encode_utf8_decode_utf8, encode_utf8_valid_utf8, valid_utf8};

use crate::decimal::{decimal, law_decimal_roundtrip, lemma_decimal_digits, parse_u64, parsed, to_decimal};
use crate::net::blob::opt_bytes;
use crate::net::envelope::{carried, EnvelopeError, EnvelopeMeta, MetaView};
use crate::net::http::compression::CompressionAlgorithm;
use crate::net::https::alpn::{law_protocol_names, protocol_name, protocol_named, AlpnProtocol};
use crate::net::ticket::{
    law_ticket_roundtrip, seal_ticket, ticket_sealed, ticket_unsealed, unseal_ticket, TicketKind,
};
use crate::table::{in_name_order, put, Table};
use crate::text::{
    begins_with, chars_of, find, find_char, is_line, is_text, is_text_nocase, is_white, join, joined,
    lacks, lemma_find_is, lemma_lines_joined, lemma_trimmed_solid, lines, lines_of, push_chars, push_text,
    same_nocase, string_of, strip_prefix, texts, trim, trimmed, utf8_text, without_prefix,
};

verus! {

/// The header of a sealed snapshot.
pub type SecureHttpsClientStateMeta = EnvelopeMeta;

/// Protocols by connection.
pub type Protocols = Seq<(Seq<char>, AlpnProtocol)>;

/// What a client remembers.
#[derive(Debug, Clone)]
pub struct HttpsClientStateSnapshot {
    pub exported_at_unix: u64,
    pub secure_envelopes_enabled: bool,
    pub negotiated_protocols: Table<AlpnProtocol>,
}

#[verifier::ext_equal]
pub struct SnapshotView {
    pub exported_at: u64,
    pub secure_envelopes: bool,
    pub protocols: Protocols,
}

impl View for HttpsClientStateSnapshot {
    type V = SnapshotView;

    open spec fn view(&self) -> SnapshotView {
        SnapshotView {
            exported_at: self.exported_at_unix,
            secure_envelopes: self.secure_envelopes_enabled,
            protocols: self.negotiated_protocols@,
        }
    }
}

/// The line of a connection.
pub open spec fn protocol_line(e: (Seq<char>, AlpnProtocol)) -> Seq<char> {
    "negotiated="@ + e.0 + "|"@ + protocol_name(e.1)
}

/// The lines of the first `n` connections.
pub open spec fn protocol_lines(p: Protocols, n: int) -> Seq<Seq<char>>
    decreases n,
{
    if n <= 0 {
        seq![]
    } else {
        protocol_lines(p, n - 1).push(protocol_line(p[n - 1]))
    }
}

/// The first lines of a snapshot.
pub open spec fn front_lines(s: SnapshotView) -> Seq<Seq<char>> {
    seq![
        "SINGULARITY_HTTPS_CLIENT_STATE_PAYLOAD_V1"@,
        "exported-at="@ + decimal(s.exported_at as nat),
        "secure-envelopes="@ + (if s.secure_envelopes {
            "on"@
        } else {
            "off"@
        }),
        "negotiated-count="@ + decimal(s.protocols.len()),
    ]
}

/// The lines of a snapshot.
pub open spec fn snapshot_lines(s: SnapshotView) -> Seq<Seq<char>> {
    front_lines(s) + protocol_lines(s.protocols, s.protocols.len() as int)
}

/// A snapshot in octets.
pub open spec fn snapshot_octets(s: SnapshotView) -> Seq<u8> {
    encode_utf8(joined(snapshot_lines(s), "\n"@))
}

fn labelled(name: &str, v: &[char]) -> (r: Vec<char>)
    ensures
        r@ == name@ + v@,
{
    let mut out = chars_of(name);
    push_chars(&mut out, v);
    out
}

/// Writes a snapshot.
pub fn serialize_client_snapshot(snapshot: &HttpsClientStateSnapshot) -> (r: Vec<u8>)
    ensures
        r@ == snapshot_octets(snapshot@),
{
    let mut rows: Vec<Vec<char>> = Vec::new();
    rows.push(chars_of("SINGULARITY_HTTPS_CLIENT_STATE_PAYLOAD_V1"));
    let at = to_decimal(snapshot.exported_at_unix);
    rows.push(labelled("exported-at=", at.as_slice()));
    let flag = if snapshot.secure_envelopes_enabled {
        chars_of("on")
    } else {
        chars_of("off")
    };
    rows.push(labelled("secure-envelopes=", flag.as_slice()));
    let count: usize = snapshot.negotiated_protocols.len();
    let number = to_decimal(count as u64);
    rows.push(labelled("negotiated-count=", number.as_slice()));
    let ghost p = snapshot@.protocols;
    let ghost front = front_lines(snapshot@);
    assert(crate::text::char_texts(rows@) =~= front);
    let mut i: usize = 0;
    assert(front + protocol_lines(p, 0) =~= front);
    while i < count
        invariant
            i <= count,
            count == p.len(),
            p == snapshot@.protocols,
            crate::text::char_texts(rows@) == front + protocol_lines(p, i as int),
        decreases count - i,
    {
        let mut line = chars_of("negotiated=");
        push_text(&mut line, snapshot.negotiated_protocols.name_at(i));
        push_text(&mut line, "|");
        push_text(&mut line, snapshot.negotiated_protocols.value_at(i).name());
        assert(line@ == protocol_line(p[i as int]));
        let ghost was = crate::text::char_texts(rows@);
        rows.push(line);
        assert(crate::text::char_texts(rows@) =~= was.push(line@));
        assert(was.push(line@) =~= front + protocol_lines(p, i + 1));
        i = i + 1;
    }
    let text = string_of(join(&rows, "\n").as_slice());
    vstd::slice::slice_to_vec(text.as_str().as_bytes())
}

/// The snapshot with nothing in it.
pub open spec fn empty_snapshot() -> SnapshotView {
    SnapshotView { exported_at: 0, secure_envelopes: false, protocols: seq![] }
}

/// Connection and protocol in a line without its name: what stands before the first bar, and behind it.
pub open spec fn entry_in(rest: Seq<char>) -> Option<(Seq<char>, AlpnProtocol)> {
    let key = match find(rest, '|') {
        Some(i) => trimmed(rest.take(i)),
        None => trimmed(rest),
    };
    let name = match find(rest, '|') {
        Some(i) => trimmed(rest.skip(i + 1)),
        None => seq![],
    };
    if key.len() == 0 {
        None
    } else {
        match protocol_named(name) {
            Some(p) => Some((key, p)),
            None => None,
        }
    }
}

/// The snapshot after one more line.
pub open spec fn with_line(s: SnapshotView, line: Seq<char>) -> SnapshotView {
    if begins_with(line, "exported-at="@) {
        SnapshotView {
            exported_at: match parsed(without_prefix(line, "exported-at="@)->0, u64::MAX as nat) {
                Some(n) => n as u64,
                None => 0,
            },
            ..s
        }
    } else if begins_with(line, "secure-envelopes="@) {
        SnapshotView {
            secure_envelopes: same_nocase(without_prefix(line, "secure-envelopes="@)->0, "on"@),
            ..s
        }
    } else if begins_with(line, "negotiated="@) {
        match entry_in(without_prefix(line, "negotiated="@)->0) {
            Some((key, p)) => SnapshotView { protocols: put(s.protocols, key, p), ..s },
            None => s,
        }
    } else {
        s
    }
}

/// What the first `n` lines tell, the first of them not looked at.
pub open spec fn snapshot_among(lines: Seq<Seq<char>>, n: int) -> SnapshotView
    decreases n,
{
    if n <= 1 {
        empty_snapshot()
    } else {
        with_line(snapshot_among(lines, n - 1), lines[n - 1])
    }
}

/// The snapshot in octets.
pub open spec fn snapshot_in(raw: Seq<u8>) -> Option<SnapshotView> {
    if !valid_utf8(raw) {
        None
    } else {
        let l = lines_of(decode_utf8(raw));
        if l.len() == 0 || l[0] != "SINGULARITY_HTTPS_CLIENT_STATE_PAYLOAD_V1"@ {
            None
        } else {
            Some(snapshot_among(l, l.len() as int))
        }
    }
}

pub open spec fn opt_snapshot(o: Option<HttpsClientStateSnapshot>) -> Option<SnapshotView> {
    match o {
        Some(s) => Some(s@),
        None => None,
    }
}

fn read_entry(rest: &[char]) -> (r: Option<(String, AlpnProtocol)>)
    ensures
        match r {
            Some((k, p)) => entry_in(rest@) == Some((k@, p)),
            None => entry_in(rest@) is None,
        },
{
    let none: Vec<char> = Vec::new();
    assert(none@ =~= seq![]);
    let end: usize = rest.len();
    let (key, name) = match find_char(rest, '|') {
        Some(i) => {
            let k = slice_subrange(rest, 0, i);
            let v = slice_subrange(rest, i + 1, end);
            assert(k@ =~= rest@.take(i as int));
            assert(v@ =~= rest@.skip(i + 1));
            (trim(k), trim(v))
        },
        None => (trim(rest), none.as_slice()),
    };
    if key.len() == 0 {
        return None;
    }
    match AlpnProtocol::from_name(name) {
        Some(p) => Some((string_of(key), p)),
        None => None,
    }
}

/// Reads a snapshot.
pub fn deserialize_client_snapshot(raw: &[u8]) -> (r: Option<HttpsClientStateSnapshot>)
    ensures
        opt_snapshot(r) == snapshot_in(raw@),
        r matches Some(s) ==> s.negotiated_protocols.inv(),
{
    let text = utf8_text(raw)?;
    let chars = chars_of(text.as_str());
    let rows = lines(chars.as_slice());
    let ghost l = lines_of(text@);
    assert(texts(rows@).len() == rows@.len());
    if rows.len() == 0 {
        return None;
    }
    assert(l[0] == rows@[0]@);
    if !is_text(rows[0], "SINGULARITY_HTTPS_CLIENT_STATE_PAYLOAD_V1") {
        return None;
    }
    let mut snapshot = HttpsClientStateSnapshot {
        exported_at_unix: 0,
        secure_envelopes_enabled: false,
        negotiated_protocols: Table::new(),
    };
    assert(snapshot@ =~= empty_snapshot());
    let mut i: usize = 1;
    while i < rows.len()
        invariant
            1 <= i <= rows@.len(),
            texts(rows@) == l,
            snapshot.negotiated_protocols.inv(),
            snapshot@ == snapshot_among(l, i as int),
        decreases rows@.len() - i,
    {
        assert(l[i as int] == rows@[i as int]@);
        let ghost was = snapshot@;
        match strip_prefix(rows[i], "exported-at=") {
            Some(rest) => {
                snapshot.exported_at_unix =
                match parse_u64(rest) {
                    Some(n) => n,
                    None => 0,
                };
            },
            None => match strip_prefix(rows[i], "secure-envelopes=") {
                Some(rest) => {
                    snapshot.secure_envelopes_enabled = is_text_nocase(rest, "on");
                },
                None => match strip_prefix(rows[i], "negotiated=") {
                    Some(rest) => match read_entry(rest) {
                        Some((key, p)) => {
                            snapshot.negotiated_protocols.insert(key, p);
                        },
                        None => {},
                    },
                    None => {},
                },
            },
        }
        assert(snapshot@ =~= with_line(was, l[i as int]));
        i = i + 1;
    }
    Some(snapshot)
}

pub open spec fn state_contents(r: Result<(SecureHttpsClientStateMeta, HttpsClientStateSnapshot), EnvelopeError>) ->
    Result<(MetaView, SnapshotView), EnvelopeError> {
    match r {
        Ok((m, s)) => Ok((m@, s@)),
        Err(e) => Err(e),
    }
}

/// The sealed form of a snapshot.
pub open spec fn state_sealed(
    s: SnapshotView,
    algorithm: CompressionAlgorithm,
    coded: Option<Seq<u8>>,
    nonce: Seq<u8>,
    issued_at: nat,
) -> Result<(MetaView, Seq<u8>), EnvelopeError> {
    ticket_sealed(TicketKind::HttpsState, snapshot_octets(s), algorithm, coded, nonce, issued_at)
}

/// The snapshot in a sealed form.
pub open spec fn state_unsealed(data: Seq<u8>, plain: Option<Seq<u8>>) -> Result<
    (MetaView, SnapshotView),
    EnvelopeError,
> {
    carried(
        ticket_unsealed(TicketKind::HttpsState, data, plain),
        |raw: Seq<u8>| snapshot_in(raw),
    )
}

/// Seals a snapshot. `coded` is what the codec of `algorithm` made of its octets, `None` where the codec
/// failed; it is not looked at under the identity.
pub fn seal_state(
    snapshot: &HttpsClientStateSnapshot,
    algorithm: CompressionAlgorithm,
    coded: Option<&[u8]>,
    nonce: &[u8],
    issued_at_unix: u64,
) -> (r: Result<(SecureHttpsClientStateMeta, Vec<u8>), EnvelopeError>)
    ensures
        crate::net::envelope::contents(r) == state_sealed(
            snapshot@,
            algorithm,
            opt_bytes(coded),
            nonce@,
            issued_at_unix as nat,
        ),
{
    let raw = serialize_client_snapshot(snapshot);
    seal_ticket(TicketKind::HttpsState, raw.as_slice(), algorithm, coded, nonce, issued_at_unix)
}

/// Opens a sealed snapshot. `plain` is what the codec made of the payload as sent, `None` where the codec
/// failed; it is not looked at under the identity.
pub fn unseal_state(blob: &[u8], plain: Option<&[u8]>) -> (r: Result<
    (SecureHttpsClientStateMeta, HttpsClientStateSnapshot),
    EnvelopeError,
>)
    ensures
        state_contents(r) == state_unsealed(blob@, opt_bytes(plain)),
        r matches Ok((_, s)) ==> s.negotiated_protocols.inv(),
{
    let (meta, raw) = match unseal_ticket(TicketKind::HttpsState, blob, plain) {
        Ok(x) => x,
        Err(e) => {
            return Err(e);
        },
    };
    match deserialize_client_snapshot(raw.as_slice()) {
        Some(s) => Ok((meta, s)),
        None => Err(EnvelopeError::BadPayload),
    }
}

/// Whether the key of a connection stands as it is in a line: it is not empty, has no white space at its ends,
/// and neither bar nor line feed in it.
pub open spec fn is_key(k: Seq<char>) -> bool {
    &&& k.len() > 0
    &&& !is_white(k[0])
    &&& !is_white(k.last())
    &&& lacks(k, '|')
    &&& lacks(k, '\n')
}

/// Whether the keys of a snapshot stand in lines as they are.
pub open spec fn is_storable(s: SnapshotView) -> bool {
    &&& in_name_order(s.protocols)
    &&& forall|i: int| 0 <= i < s.protocols.len() ==> is_key((#[trigger] s.protocols[i]).0)
}

proof fn lemma_names()
    ensures
        forall|p: AlpnProtocol|
            #![trigger protocol_name(p)]
            protocol_name(p).len() > 0 && !is_white(protocol_name(p)[0]) && !is_white(
                protocol_name(p).last(),
            ) && lacks(protocol_name(p), '\n') && protocol_name(p).last() != '\r',
{
    reveal_strlit("h2");
    reveal_strlit("h3");
    reveal_strlit("http/1.1");
    reveal_strlit("http/1.0");
}

proof fn lemma_entry_back(e: (Seq<char>, AlpnProtocol))
    requires
        is_key(e.0),
    ensures
        entry_in(e.0 + "|"@ + protocol_name(e.1)) == Some(e),
{
    reveal_strlit("|");
    let n = protocol_name(e.1);
    let rest = e.0 + "|"@ + n;
    let i = e.0.len() as int;
    lemma_names();
    law_protocol_names(e.1);
    assert(rest[i] == '|');
    assert forall|j: int| 0 <= j < i implies rest[j] != '|' by {
        assert(rest[j] == e.0[j]);
    }
    lemma_find_is(rest, '|', i);
    assert(rest.take(i) =~= e.0);
    assert(rest.skip(i + 1) =~= n);
    lemma_trimmed_solid(e.0);
    lemma_trimmed_solid(n);
}

proof fn lemma_protocol_line(s: SnapshotView, e: (Seq<char>, AlpnProtocol))
    requires
        is_key(e.0),
    ensures
        is_line(protocol_line(e)),
        with_line(s, protocol_line(e)) == (SnapshotView { protocols: put(s.protocols, e.0, e.1), ..s }),
{
    reveal_strlit("negotiated=");
    reveal_strlit("exported-at=");
    reveal_strlit("secure-envelopes=");
    reveal_strlit("|");
    let line = protocol_line(e);
    let rest = e.0 + "|"@ + protocol_name(e.1);
    lemma_names();
    lemma_entry_back(e);
    assert(line =~= "negotiated="@ + rest);
    assert(line.take(11) =~= "negotiated="@);
    assert(line.skip(11) =~= rest);
    assert(line[0] == 'n');
    assert(begins_with(line, "exported-at="@) ==> line[0] == line.take(12)[0]);
    assert(begins_with(line, "secure-envelopes="@) ==> line[0] == line.take(17)[0]);
    assert(line.last() == protocol_name(e.1).last());
    assert forall|j: int| 0 <= j < line.len() implies #[trigger] line[j] != '\n' by {
        if j < 11 {
            assert(line[j] == "negotiated="@[j]);
        } else if j < 11 + e.0.len() {
            assert(line[j] == e.0[j - 11]);
        } else if j > 11 + e.0.len() {
            assert(line[j] == protocol_name(e.1)[j - 12 - e.0.len()]);
        }
    }
}

proof fn lemma_front_lines(s: SnapshotView)
    requires
        s.protocols.len() <= u64::MAX,
    ensures
        forall|i: int| 0 <= i < 4 ==> is_line(#[trigger] front_lines(s)[i]),
        snapshot_among(front_lines(s), 4) == (SnapshotView { protocols: seq![], ..s }),
{
    reveal_strlit("SINGULARITY_HTTPS_CLIENT_STATE_PAYLOAD_V1");
    reveal_strlit("negotiated-count=");
    reveal_strlit("negotiated=");
    reveal_strlit("exported-at=");
    reveal_strlit("secure-envelopes=");
    reveal_strlit("on");
    reveal_strlit("off");
    let l = front_lines(s);
    let a = decimal(s.exported_at as nat);
    let c = decimal(s.protocols.len());
    let f = if s.secure_envelopes {
        "on"@
    } else {
        "off"@
    };
    lemma_decimal_digits(s.exported_at as nat);
    lemma_decimal_digits(s.protocols.len());
    law_decimal_roundtrip(s.exported_at as nat, u64::MAX as nat);
    assert(l[1].take(12) =~= "exported-at="@);
    assert(l[1].skip(12) =~= a);
    assert(l[1].last() == a.last());
    assert(l[2].take(17) =~= "secure-envelopes="@);
    assert(l[2].skip(17) =~= f);
    assert(l[2].last() == f.last());
    assert(l[2][0] == 's' && l[3][0] == 'n');
    assert(begins_with(l[2], "exported-at="@) ==> l[2][0] == l[2].take(12)[0]);
    assert(l[3].take(17) =~= "negotiated-count="@);
    assert(l[3].last() == c.last());
    assert(begins_with(l[3], "exported-at="@) ==> l[3][0] == l[3].take(12)[0]);
    assert(begins_with(l[3], "secure-envelopes="@) ==> l[3][0] == l[3].take(17)[0]);
    assert(l[3][10] == '-');
    assert(begins_with(l[3], "negotiated="@) ==> l[3][10] == l[3].take(11)[10]);
    assert(is_line(l[1])) by {
        assert(lacks(a, '\n'));
        assert forall|j: int| 0 <= j < l[1].len() implies #[trigger] l[1][j] != '\n' by {
            if j < 12 {
                assert(l[1][j] == "exported-at="@[j]);
            } else {
                assert(l[1][j] == a[j - 12]);
            }
        }
    }
    assert(is_line(l[2]));
    assert(is_line(l[3])) by {
        assert(lacks(c, '\n'));
        assert forall|j: int| 0 <= j < l[3].len() implies #[trigger] l[3][j] != '\n' by {
            if j < 17 {
                assert(l[3][j] == "negotiated-count="@[j]);
            } else {
                assert(l[3][j] == c[j - 17]);
            }
        }
    }
    assert(same_nocase("on"@, "on"@));
    assert(!same_nocase("off"@, "on"@)) by {
        assert(crate::text::lowered("off"@).len() != crate::text::lowered("on"@).len());
    }
    reveal_with_fuel(snapshot_among, 5);
    let s1 = with_line(empty_snapshot(), l[1]);
    assert(s1 =~= (SnapshotView { exported_at: s.exported_at, ..empty_snapshot() }));
    let s2 = with_line(s1, l[2]);
    assert(s2 =~= (SnapshotView { protocols: seq![], ..s }));
    let s3 = with_line(s2, l[3]);
    assert(s3 =~= s2);
}

proof fn lemma_protocol_lines_len(p: Protocols, n: int)
    requires
        0 <= n,
    ensures
        protocol_lines(p, n).len() == n,
        forall|i: int| 0 <= i < n ==> (#[trigger] protocol_lines(p, n)[i]) == protocol_line(p[i]),
    decreases n,
{
    if n > 0 {
        lemma_protocol_lines_len(p, n - 1);
    }
}

proof fn lemma_among_same(a: Seq<Seq<char>>, b: Seq<Seq<char>>, n: int)
    requires
        forall|i: int| 0 <= i < n ==> a[i] == b[i],
    ensures
        snapshot_among(a, n) == snapshot_among(b, n),
    decreases n,
{
    if n > 1 {
        lemma_among_same(a, b, n - 1);
    }
}

proof fn lemma_snapshot_built(s: SnapshotView, n: int)
    requires
        is_storable(s),
        s.protocols.len() <= u64::MAX,
        0 <= n <= s.protocols.len(),
    ensures
        snapshot_among(snapshot_lines(s), 4 + n) == (SnapshotView { protocols: s.protocols.take(n), ..s }),
    decreases n,
{
    let l = snapshot_lines(s);
    let p = s.protocols;
    lemma_protocol_lines_len(p, p.len() as int);
    if n == 0 {
        lemma_front_lines(s);
        assert(l.len() >= 4);
        lemma_among_same(l, front_lines(s), 4);
        assert(p.take(0) =~= seq![]);
    } else {
        lemma_snapshot_built(s, n - 1);
        let e = p[n - 1];
        let before = SnapshotView { protocols: p.take(n - 1), ..s };
        assert(l[3 + n] == protocol_line(e));
        assert(is_key(e.0));
        lemma_protocol_line(before, e);
        assert forall|j: int| 0 <= j < p.take(n - 1).len() implies crate::table::before(
            (#[trigger] p.take(n - 1)[j]).0,
            e.0,
        ) by {
            assert(p.take(n - 1)[j] == p[j]);
        }
        crate::table::lemma_put_last(p.take(n - 1), e.0, e.1);
        assert(p.take(n - 1).push(e) =~= p.take(n));
    }
}

/// A snapshot that was written is read again.
pub proof fn law_snapshot_roundtrip(s: SnapshotView)
    requires
        is_storable(s),
        s.protocols.len() <= u64::MAX,
    ensures
        snapshot_in(snapshot_octets(s)) == Some(s),
{
    let l = snapshot_lines(s);
    let p = s.protocols;
    lemma_front_lines(s);
    lemma_protocol_lines_len(p, p.len() as int);
    assert forall|i: int| 0 <= i < l.len() implies is_line(#[trigger] l[i]) by {
        if i < 4 {
            assert(l[i] == front_lines(s)[i]);
        } else {
            assert(l[i] == protocol_line(p[i - 4]));
            assert(is_key(p[i - 4].0));
            lemma_protocol_line(s, p[i - 4]);
        }
    }
    reveal_strlit("\n");
    assert("\n"@ =~= seq!['\n']);
    lemma_lines_joined(l);
    let text = joined(l, "\n"@);
    encode_utf8_valid_utf8(text);
    encode_utf8_decode_utf8(text);
    lemma_snapshot_built(s, p.len() as int);
    assert(p.take(p.len() as int) =~= p);
    assert(l[0] == front_lines(s)[0]);
}

/// A snapshot that was sealed is opened again, given that the codec undoes what it did. A sealed form with an
/// empty nonce would be refused.
pub proof fn law_state_roundtrip(
    s: SnapshotView,
    algorithm: CompressionAlgorithm,
    coded: Option<Seq<u8>>,
    nonce: Seq<u8>,
    issued_at: nat,
)
    requires
        is_storable(s),
        s.protocols.len() <= u64::MAX,
        snapshot_octets(s).len() <= usize::MAX,
        coded matches Some(c) ==> c.len() <= usize::MAX,
        nonce.len() > 0,
        issued_at <= u64::MAX,
    ensures
        state_sealed(s, algorithm, coded, nonce, issued_at) matches Ok((meta, blob)) ==> state_unsealed(
            blob,
            Some(snapshot_octets(s)),
        ) == Ok::<(MetaView, SnapshotView), EnvelopeError>((meta, s)),
{
    law_snapshot_roundtrip(s);
    law_ticket_roundtrip(
        TicketKind::HttpsState,
        snapshot_octets(s),
        algorithm,
        coded,
        nonce,
        issued_at,
    );
}

}
