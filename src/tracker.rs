//! The tracker's side of the protocol: the query of an HTTP announce and
//! the compact peer list of its response.

use vstd::prelude::*;

use vstd::string::StringSliceAdditionalSpecFns;
use vstd::utf8::encode_utf8;

use crate::codec::read_u32;

verus! {

/// The length of one peer in a compact peer list: an IPv4 address and a
/// port, both big-endian.
pub const COMPACT_PEER_LEN: usize = 6;

/// An IPv4 peer address.
#[derive(Clone, Copy, Debug, PartialEq, Eq, Structural, Hash)]
pub struct PeerAddr {
    /// The address, as its big-endian 32-bit value.
    pub ip: u32,
    pub port: u16,
}

/// The big-endian 16-bit integer in `s[i..i + 2]`.
pub open spec fn read_u16(s: Seq<u8>, i: int) -> u16 {
    ((s[i] as u16) << 8u16) | (s[i + 1] as u16)
}

/// The peer at entry `k` of a compact peer list.
pub open spec fn compact_peer(s: Seq<u8>, k: int) -> PeerAddr {
    PeerAddr { ip: read_u32(s, 6 * k), port: read_u16(s, 6 * k + 4) }
}

/// Decodes a compact peer list: each 6 bytes are one peer. A length that is
/// not a multiple of 6 gives `None`.
pub fn decode_compact_peers(b: &[u8]) -> (r: Option<Vec<PeerAddr>>)
    ensures
        r is Some == (b@.len() % 6 == 0),
        r matches Some(v) ==> {
            &&& v@.len() == b@.len() / 6
            &&& forall|k: int| 0 <= k < v@.len() ==> v@[k] == compact_peer(b@, k)
        },
{
    let n = b.len();
    if n % COMPACT_PEER_LEN != 0 {
        return None;
    }
    let count = b.len() / COMPACT_PEER_LEN;
    let mut peers: Vec<PeerAddr> = Vec::new();
    let mut k: usize = 0;
    while k < count
        invariant
            count == b@.len() / 6,
            n == b@.len(),
            b@.len() % 6 == 0,
            k <= count,
            peers@.len() == k,
            forall|j: int| 0 <= j < k ==> peers@[j] == compact_peer(b@, j),
        decreases count - k,
    {
        assert(k * 6 + 6 <= n) by (nonlinear_arith)
            requires
                k < count,
                count == n / 6,
        ;
        let at = k * COMPACT_PEER_LEN;
        let ip = ((b[at] as u32) << 24u32) | ((b[at + 1] as u32) << 16u32) | ((b[at + 2] as u32) << 8u32)
            | (b[at + 3] as u32);
        let port = ((b[at + 4] as u16) << 8u16) | (b[at + 5] as u16);
        peers.push(PeerAddr { ip, port });
        k = k + 1;
    }
    Some(peers)
}

/// An announce event.
#[derive(Clone, Copy, Debug, PartialEq, Eq, Structural)]
pub enum Event {
    Started,
    Completed,
    Stopped,
}

/// The parameters of an announce.
#[derive(Clone, Debug)]
pub struct Announce {
    pub info_hash: [u8; 20],
    pub peer_id: [u8; 20],
    pub port: u16,
    /// The client's address in textual form, IPv4 or IPv6.
    pub ip: Option<String>,
    pub downloaded: u64,
    pub uploaded: u64,
    pub left: u64,
    /// The number of peers wanted.
    pub peer_count: Option<usize>,
    pub tracker_id: Option<String>,
    pub event: Option<Event>,
}

/// Whether a byte is sent as it is: an ASCII letter or digit, or one of
/// `-._~`.
pub open spec fn unreserved(b: u8) -> bool {
    (48 <= b <= 57) || (65 <= b <= 90) || (97 <= b <= 122) || b == 45 || b == 46 || b == 95 || b
        == 126
}

/// The ASCII code of an uppercase hexadecimal digit.
pub open spec fn hex_digit(d: u8) -> u8 {
    if d < 10 {
        (48 + d) as u8
    } else {
        (55 + d) as u8
    }
}

/// A byte in percent-encoded form: `%` and two uppercase hexadecimal digits.
pub open spec fn escaped(b: u8) -> Seq<u8> {
    seq![37u8, hex_digit(b / 16), hex_digit(b % 16)]
}

/// Percent-encoding of a byte string, every byte but the unreserved ones
/// escaped.
pub open spec fn url_encoded(s: Seq<u8>) -> Seq<u8>
    decreases s.len(),
{
    if s.len() == 0 {
        Seq::empty()
    } else {
        url_encoded(s.drop_last()) + if unreserved(s.last()) {
            seq![s.last()]
        } else {
            escaped(s.last())
        }
    }
}

/// The decimal digits of `n`, without leading zeros.
pub open spec fn decimal(n: nat) -> Seq<u8>
    decreases n,
{
    if n < 10 {
        seq![(48 + n) as u8]
    } else {
        decimal(n / 10).push((48 + n % 10) as u8)
    }
}

/// Relies on `percent_encoding::percent_encode_byte`: `%` followed by the
/// byte's two uppercase hexadecimal digits.
#[verifier::external_body]
fn escape_byte(b: u8) -> (r: Vec<u8>)
    ensures
        r@ == escaped(b),
{
    percent_encoding::percent_encode_byte(b).as_bytes().to_vec()
}

/// The decimal digits of `n`, without leading zeros.
fn decimal_bytes(n: u64) -> (r: Vec<u8>)
    ensures
        r@ == decimal(n as nat),
    decreases n,
{
    if n < 10 {
        let mut r: Vec<u8> = Vec::new();
        r.push(48u8 + n as u8);
        assert(r@ =~= decimal(n as nat));
        r
    } else {
        let mut r = decimal_bytes(n / 10);
        r.push(48u8 + (n % 10) as u8);
        r
    }
}

/// Appends the percent-encoding of `src`.
fn put_url_encoded(buf: &mut Vec<u8>, src: &[u8])
    ensures
        final(buf)@ == old(buf)@ + url_encoded(src@),
{
    let ghost start = buf@;
    let mut i: usize = 0;
    while i < src.len()
        invariant
            i <= src@.len(),
            buf@ == start + url_encoded(src@.take(i as int)),
        decreases src@.len() - i,
    {
        let b = src[i];
        assert(src@.take(i + 1).drop_last() =~= src@.take(i as int));
        if (48 <= b && b <= 57) || (65 <= b && b <= 90) || (97 <= b && b <= 122) || b == 45 || b == 46
            || b == 95 || b == 126 {
            buf.push(b);
        } else {
            let e = escape_byte(b);
            append(buf, &e);
        }
        i = i + 1;
        assert(buf@ =~= start + url_encoded(src@.take(i as int)));
    }
    assert(src@.take(i as int) =~= src@);
}

/// Appends the bytes of `src`.
fn append(buf: &mut Vec<u8>, src: &Vec<u8>)
    ensures
        final(buf)@ == old(buf)@ + src@,
{
    let ghost start = buf@;
    let mut i: usize = 0;
    while i < src.len()
        invariant
            i <= src@.len(),
            buf@ == start + src@.take(i as int),
        decreases src@.len() - i,
    {
        buf.push(src[i]);
        i = i + 1;
        assert(buf@ =~= start + src@.take(i as int));
    }
    assert(src@.take(i as int) =~= src@);
}

/// `&key=value`.
pub open spec fn pair(key: Seq<u8>, value: Seq<u8>) -> Seq<u8> {
    seq![38u8] + key + seq![61u8] + value
}

/// The name of an event in a query.
pub open spec fn event_name(e: Event) -> Seq<u8> {
    match e {
        Event::Started => "started".spec_bytes(),
        Event::Completed => "completed".spec_bytes(),
        Event::Stopped => "stopped".spec_bytes(),
    }
}

/// The info hash and the peer id, percent-encoded.
pub open spec fn query_ids(a: Announce) -> Seq<u8> {
    "info_hash=".spec_bytes() + url_encoded(a.info_hash@) + pair("peer_id".spec_bytes(), url_encoded(a.peer_id@))
}

/// The port and the three counters in decimal, and `compact=1`.
pub open spec fn query_counters(a: Announce) -> Seq<u8> {
    pair("port".spec_bytes(), decimal(a.port as nat)) + pair(
        "downloaded".spec_bytes(),
        decimal(a.downloaded as nat),
    ) + pair("uploaded".spec_bytes(), decimal(a.uploaded as nat)) + pair(
        "left".spec_bytes(),
        decimal(a.left as nat),
    ) + pair("compact".spec_bytes(), seq![49u8])
}

/// The parameters that every announce carries.
pub open spec fn query_fixed(a: Announce) -> Seq<u8> {
    query_ids(a) + query_counters(a)
}

/// The optional parameters that are present, in order.
pub open spec fn query_optional(a: Announce) -> Seq<u8> {
    opt_count(a.peer_count) + opt_ip(a.ip) + opt_event(a.event) + opt_tracker_id(a.tracker_id)
}

pub open spec fn opt_count(c: Option<usize>) -> Seq<u8> {
    match c {
        Some(n) => pair("numwant".spec_bytes(), decimal(n as nat)),
        None => Seq::empty(),
    }
}

pub open spec fn opt_ip(ip: Option<String>) -> Seq<u8> {
    match ip {
        Some(ip) => pair("ip".spec_bytes(), url_encoded(encode_utf8(ip@))),
        None => Seq::empty(),
    }
}

pub open spec fn opt_event(e: Option<Event>) -> Seq<u8> {
    match e {
        Some(e) => pair("event".spec_bytes(), event_name(e)),
        None => Seq::empty(),
    }
}

pub open spec fn opt_tracker_id(t: Option<String>) -> Seq<u8> {
    match t {
        Some(t) => pair("trackerid".spec_bytes(), url_encoded(encode_utf8(t@))),
        None => Seq::empty(),
    }
}

/// The query string of an announce: the info hash and peer id
/// percent-encoded, the port and the three counters in decimal and
/// `compact=1`, then each optional parameter that is present.
pub open spec fn query(a: Announce) -> Seq<u8> {
    query_fixed(a) + query_optional(a)
}

/// Appends the bytes of a string.
fn put_str(buf: &mut Vec<u8>, s: &str)
    ensures
        final(buf)@ == old(buf)@ + s.spec_bytes(),
{
    let k = s.as_bytes();
    let ghost start = buf@;
    let mut i: usize = 0;
    while i < k.len()
        invariant
            i <= k@.len(),
            buf@ == start + k@.take(i as int),
        decreases k@.len() - i,
    {
        buf.push(k[i]);
        i = i + 1;
        assert(buf@ =~= start + k@.take(i as int));
    }
    assert(k@.take(i as int) =~= k@);
}

/// Appends `&key=` for a key given as a string.
fn put_key(buf: &mut Vec<u8>, key: &str)
    ensures
        final(buf)@ == old(buf)@ + seq![38u8] + key.spec_bytes() + seq![61u8],
{
    buf.push(38u8);
    put_str(buf, key);
    buf.push(61u8);
    assert(final(buf)@ =~= old(buf)@ + seq![38u8] + key.spec_bytes() + seq![61u8]);
}

/// Appends the info hash and the peer id.
fn put_ids(q: &mut Vec<u8>, a: &Announce)
    ensures
        final(q)@ == old(q)@ + query_ids(*a),
{
    put_str(q, "info_hash=");
    put_url_encoded(q, a.info_hash.as_slice());
    put_key(q, "peer_id");
    put_url_encoded(q, a.peer_id.as_slice());
    assert(final(q)@ =~= old(q)@ + query_ids(*a));
}

/// Appends `&key=` and the decimal digits of `n`.
fn put_decimal_pair(q: &mut Vec<u8>, key: &str, n: u64)
    ensures
        final(q)@ == old(q)@ + pair(key.spec_bytes(), decimal(n as nat)),
{
    put_key(q, key);
    append(q, &decimal_bytes(n));
    assert(final(q)@ =~= old(q)@ + pair(key.spec_bytes(), decimal(n as nat)));
}

/// Appends the port, the counters and `compact=1`.
fn put_counters(q: &mut Vec<u8>, a: &Announce)
    ensures
        final(q)@ == old(q)@ + query_counters(*a),
{
    let ghost s0 = q@;
    put_decimal_pair(q, "port", a.port as u64);
    put_decimal_pair(q, "downloaded", a.downloaded);
    let ghost s2 = q@;
    put_decimal_pair(q, "uploaded", a.uploaded);
    put_decimal_pair(q, "left", a.left);
    let ghost s4 = q@;
    put_key(q, "compact");
    q.push(49u8);
    assert(q@ =~= s4 + pair("compact".spec_bytes(), seq![49u8]));
    assert(s2 =~= s0 + pair("port".spec_bytes(), decimal(a.port as nat)) + pair("downloaded".spec_bytes(), decimal(a.downloaded as nat)));
    assert(s4 =~= s2 + pair("uploaded".spec_bytes(), decimal(a.uploaded as nat)) + pair("left".spec_bytes(), decimal(a.left as nat)));
    assert(final(q)@ =~= old(q)@ + query_counters(*a));
}

/// Appends the parameters that every announce carries.
fn put_fixed(q: &mut Vec<u8>, a: &Announce)
    ensures
        final(q)@ == old(q)@ + query_fixed(*a),
{
    put_ids(q, a);
    put_counters(q, a);
    assert(final(q)@ =~= old(q)@ + query_fixed(*a));
}

fn put_count(q: &mut Vec<u8>, c: Option<usize>)
    ensures
        final(q)@ == old(q)@ + opt_count(c),
{
    match c {
        Some(n) => {
            put_key(q, "numwant");
            append(q, &decimal_bytes(n as u64));
        },
        None => {},
    }
    assert(final(q)@ =~= old(q)@ + opt_count(c));
}

fn put_ip(q: &mut Vec<u8>, ip: &Option<String>)
    ensures
        final(q)@ == old(q)@ + opt_ip(*ip),
{
    match ip {
        Some(ip) => {
            put_key(q, "ip");
            put_url_encoded(q, ip.as_str().as_bytes());
        },
        None => {},
    }
    assert(final(q)@ =~= old(q)@ + opt_ip(*ip));
}

fn put_event(q: &mut Vec<u8>, e: Option<Event>)
    ensures
        final(q)@ == old(q)@ + opt_event(e),
{
    match e {
        Some(e) => {
            put_key(q, "event");
            match e {
                Event::Started => put_str(q, "started"),
                Event::Completed => put_str(q, "completed"),
                Event::Stopped => put_str(q, "stopped"),
            }
        },
        None => {},
    }
    assert(final(q)@ =~= old(q)@ + opt_event(e));
}

fn put_tracker_id(q: &mut Vec<u8>, t: &Option<String>)
    ensures
        final(q)@ == old(q)@ + opt_tracker_id(*t),
{
    match t {
        Some(t) => {
            put_key(q, "trackerid");
            put_url_encoded(q, t.as_str().as_bytes());
        },
        None => {},
    }
    assert(final(q)@ =~= old(q)@ + opt_tracker_id(*t));
}

/// Appends the optional parameters that are present.
fn put_optional(q: &mut Vec<u8>, a: &Announce)
    ensures
        final(q)@ == old(q)@ + query_optional(*a),
{
    put_count(q, a.peer_count);
    put_ip(q, &a.ip);
    put_event(q, a.event);
    put_tracker_id(q, &a.tracker_id);
    assert(final(q)@ =~= old(q)@ + query_optional(*a));
}

/// The query string of an announce.
pub fn announce_query(a: &Announce) -> (r: Vec<u8>)
    ensures
        r@ == query(*a),
{
    let mut q: Vec<u8> = Vec::new();
    put_fixed(&mut q, a);
    put_optional(&mut q, a);
    assert(q@ =~= query(*a));
    q
}

} // verus!
