//! The answer of a tracker: the peers of a torrent.

use crate::be_bytes::{be_u16, u16_from_be};
use crate::bedecode::{decode, scan_digits};
use crate::bencode_item::{find_entry, item_views, Item};
use crate::bencode_spec::{dict_get, digits_len, natural_of, parse_item, Value};
use crate::decimal::{canonical_decimal, dec_value, decimal_value};
use crate::tracker_info::{dec_chars, decimal_string};
use vstd::prelude::*;
use vstd::slice::slice_to_vec;
use vstd::string::StringExecFns;

verus! {

/// The address of a peer: an IPv4 address and a port.
#[derive(Debug, Clone, Copy, PartialEq, Eq)]
pub struct PeerAddr {
    pub ip: [u8; 4],
    pub port: u16,
}

/// The address of a peer as a value.
pub struct PeerView {
    pub ip: Seq<u8>,
    pub port: u16,
}

impl View for PeerAddr {
    type V = PeerView;

    open spec fn view(&self) -> PeerView {
        PeerView { ip: self.ip@, port: self.port }
    }
}

/// The peers that a tracker names.
#[derive(Debug, Clone, PartialEq, Eq)]
pub struct Peers(pub Vec<PeerAddr>);

/// The addresses of a sequence of peers as values.
pub open spec fn peer_views(peers: Seq<PeerAddr>) -> Seq<PeerView> {
    Seq::new(peers.len(), |i: int| peers[i]@)
}

impl View for Peers {
    type V = Seq<PeerView>;

    open spec fn view(&self) -> Seq<PeerView> {
        peer_views(self.0@)
    }
}

/// The answer of a tracker.
#[derive(Debug, Clone, PartialEq, Eq)]
pub struct Response {
    pub interval: usize,
    pub peers: Peers,
}

/// The answer of a tracker as a value.
pub struct ResponseView {
    pub interval: usize,
    pub peers: Seq<PeerView>,
}

impl View for Response {
    type V = ResponseView;

    open spec fn view(&self) -> ResponseView {
        ResponseView { interval: self.interval, peers: self.peers@ }
    }
}

/// Why a tracker gave no peers.
#[derive(Debug, Clone, PartialEq, Eq)]
pub enum TrackerError {
    /// The request failed before any answer came.
    HttpFailure,
    /// The answer is not a bencoded dictionary with an interval and peers.
    DecodeFailure,
    /// The tracker refused, and says why.
    TrackerFailure(Vec<u8>),
    /// The peers are neither a byte string of six bytes for each peer nor a
    /// list of dictionaries with an address and a port.
    BadPeersField,
}

/// Why a tracker gave no peers, as a value.
pub enum TrackerErrorView {
    HttpFailure,
    DecodeFailure,
    TrackerFailure(Seq<u8>),
    BadPeersField,
}

impl View for TrackerError {
    type V = TrackerErrorView;

    open spec fn view(&self) -> TrackerErrorView {
        match self {
            TrackerError::HttpFailure => TrackerErrorView::HttpFailure,
            TrackerError::DecodeFailure => TrackerErrorView::DecodeFailure,
            TrackerError::TrackerFailure(reason) => TrackerErrorView::TrackerFailure(reason@),
            TrackerError::BadPeersField => TrackerErrorView::BadPeersField,
        }
    }
}

/// The key `failure reason`.
pub open spec fn key_failure_reason() -> Seq<u8> {
    seq![102u8, 97, 105, 108, 117, 114, 101, 32, 114, 101, 97, 115, 111, 110]
}

/// The key `interval`.
pub open spec fn key_interval() -> Seq<u8> {
    seq![105u8, 110, 116, 101, 114, 118, 97, 108]
}

/// The key `peers`.
pub open spec fn key_peers() -> Seq<u8> {
    seq![112u8, 101, 101, 114, 115]
}

/// The key `ip`.
pub open spec fn key_ip() -> Seq<u8> {
    seq![105u8, 112]
}

/// The key `port`.
pub open spec fn key_port() -> Seq<u8> {
    seq![112u8, 111, 114, 116]
}

/// The peers of the compact form: six bytes for each peer, four of the
/// address and two of the port, most significant byte first.
pub open spec fn compact_peers(bytes: Seq<u8>) -> Seq<PeerView> {
    Seq::new(
        (bytes.len() / 6) as nat,
        |i: int|
            PeerView {
                ip: bytes.subrange(6 * i, 6 * i + 4),
                port: be_u16(bytes.subrange(6 * i + 4, 6 * i + 6)) as u16,
            },
    )
}

/// The bytes that `count` decimal numbers up to 255 spell, which are
/// written without leading zeros, with dots between them and nothing behind.
pub open spec fn parse_octets(s: Seq<u8>, count: nat) -> Option<Seq<u8>>
    decreases count,
{
    let n = digits_len(s) as int;
    let text = s.take(n);
    if count == 0 || !canonical_decimal(text) || dec_value(text) > 255 {
        None
    } else if count == 1 {
        if n == s.len() {
            Some(seq![dec_value(text) as u8])
        } else {
            None
        }
    } else if n < s.len() && s[n] == 46 {
        match parse_octets(s.skip(n + 1), (count - 1) as nat) {
            Some(rest) => Some(seq![dec_value(text) as u8] + rest),
            None => None,
        }
    } else {
        None
    }
}

/// The address that a dotted quad such as `10.0.0.1` spells.
pub open spec fn parse_ipv4(s: Seq<u8>) -> Option<Seq<u8>> {
    parse_octets(s, 4)
}

/// The peer that an element of the list form spells: a dictionary with the
/// address as a dotted quad under `ip` and the port under `port`.
pub open spec fn peer_of(v: Value) -> Option<PeerView> {
    match v {
        Value::Dict(entries) => match (dict_get(entries, key_ip()), dict_get(entries, key_port())) {
            (Some(Value::Bytes(text)), Some(port)) => match (parse_ipv4(text), natural_of(port)) {
                (Some(ip), Some(n)) => if n <= 65535 {
                    Some(PeerView { ip, port: n as u16 })
                } else {
                    None
                },
                _ => None,
            },
            _ => None,
        },
        _ => None,
    }
}

/// The peers that the elements of the list form spell, if each spells one.
pub open spec fn list_peers(items: Seq<Value>) -> Option<Seq<PeerView>>
    decreases items.len(),
{
    if items.len() == 0 {
        Some(seq![])
    } else {
        match (list_peers(items.drop_last()), peer_of(items.last())) {
            (Some(front), Some(peer)) => Some(front.push(peer)),
            _ => None,
        }
    }
}

/// The peers that the entry `peers` spells.
pub open spec fn peers_of(v: Value) -> Option<Seq<PeerView>> {
    match v {
        Value::Bytes(bytes) => if bytes.len() % 6 == 0 {
            Some(compact_peers(bytes))
        } else {
            None
        },
        Value::List(items) => list_peers(items),
        _ => None,
    }
}

/// The answer that a value spells. A dictionary that gives a reason of
/// failure is a refusal, whatever else it holds.
pub open spec fn response_of(v: Value) -> Result<ResponseView, TrackerErrorView> {
    match v {
        Value::Dict(entries) => match dict_get(entries, key_failure_reason()) {
            Some(Value::Bytes(reason)) => Err(TrackerErrorView::TrackerFailure(reason)),
            Some(_) => Err(TrackerErrorView::DecodeFailure),
            None => match (dict_get(entries, key_interval()), dict_get(entries, key_peers())) {
                (Some(interval), Some(peers)) => match natural_of(interval) {
                    Some(n) => if n <= usize::MAX {
                        match peers_of(peers) {
                            Some(peers) => Ok(ResponseView { interval: n as usize, peers }),
                            None => Err(TrackerErrorView::BadPeersField),
                        }
                    } else {
                        Err(TrackerErrorView::DecodeFailure)
                    },
                    None => Err(TrackerErrorView::DecodeFailure),
                },
                _ => Err(TrackerErrorView::DecodeFailure),
            },
        },
        _ => Err(TrackerErrorView::DecodeFailure),
    }
}

/// The answer that the body of a tracker's reply spells: the value at its
/// start, read as `response_of` says.
pub open spec fn parse_response(body: Seq<u8>) -> Result<ResponseView, TrackerErrorView> {
    match parse_item(body) {
        Ok((v, _)) => response_of(v),
        Err(_) => Err(TrackerErrorView::DecodeFailure),
    }
}

/// The address `a.b.c.d:port` as text.
pub open spec fn peer_text(peer: PeerView) -> Seq<char> {
    dec_chars(peer.ip[0] as nat) + "."@ + dec_chars(peer.ip[1] as nat) + "."@ + dec_chars(
        peer.ip[2] as nat,
    ) + "."@ + dec_chars(peer.ip[3] as nat) + ":"@ + dec_chars(peer.port as nat)
}

impl PeerAddr {
    /// The address as text: `a.b.c.d:port`.
    pub fn to_string(&self) -> (out: String)
        ensures
            out@ == peer_text(self@),
    {
        let mut out = decimal_string(self.ip[0] as u64);
        out.append(".");
        out.append(decimal_string(self.ip[1] as u64).as_str());
        out.append(".");
        out.append(decimal_string(self.ip[2] as u64).as_str());
        out.append(".");
        out.append(decimal_string(self.ip[3] as u64).as_str());
        out.append(":");
        out.append(decimal_string(self.port as u64).as_str());
        out
    }
}

/// Reads the peers of the compact form.
pub fn peers_from_compact(bytes: &[u8]) -> (out: Option<Peers>)
    ensures
        match out {
            Some(peers) => bytes@.len() % 6 == 0 && peers@ == compact_peers(bytes@),
            None => bytes@.len() % 6 != 0,
        },
{
    let total: usize = bytes.len();
    if total % 6 != 0 {
        return None;
    }
    let count: usize = total / 6;
    let mut peers: Vec<PeerAddr> = Vec::new();
    let mut i: usize = 0;
    while i < count
        invariant
            i <= count,
            total == bytes@.len(),
            count * 6 == total,
            peers@.len() == i,
            forall|k: int| 0 <= k < i ==> (#[trigger] peers@[k])@ == compact_peers(bytes@)[k],
        decreases count - i,
    {
        let at: usize = 6 * i;
        let ip = [bytes[at], bytes[at + 1], bytes[at + 2], bytes[at + 3]];
        let port = u16_from_be(bytes, at + 4);
        assert(ip@ =~= bytes@.subrange(6 * i, 6 * i + 4));
        peers.push(PeerAddr { ip, port });
        i += 1;
    }
    let out = Peers(peers);
    assert(out@ =~= compact_peers(bytes@));
    Some(out)
}

/// Reads `count` numbers up to 255 with dots between them, from `pos` to
/// the end of `input`.
fn octets(input: &[u8], pos: usize, count: usize) -> (out: Option<Vec<u8>>)
    requires
        pos <= input@.len(),
    ensures
        match out {
            Some(bytes) => parse_octets(input@.skip(pos as int), count as nat) == Some(bytes@)
                && bytes@.len() == count,
            None => parse_octets(input@.skip(pos as int), count as nat) is None,
        },
    decreases count,
{
    let ghost s = input@.skip(pos as int);
    if count == 0 {
        return None;
    }
    let end = scan_digits(input, pos);
    let ghost n = (end - pos) as int;
    assert(s.take(n) =~= input@.subrange(pos as int, end as int));
    if end == pos {
        return None;
    }
    assert(s.take(n)[0] == input@[pos as int]);
    if end - pos > 1 && input[pos] == 48 {
        return None;
    }
    let value = match decimal_value(input, pos, end, 255) {
        Some(value) => value,
        None => {
            return None;
        },
    };
    if count == 1 {
        if end == input.len() {
            let mut out: Vec<u8> = Vec::new();
            out.push(value as u8);
            Some(out)
        } else {
            None
        }
    } else if end < input.len() && input[end] == 46 {
        assert(s[n] == input@[end as int]);
        assert(s.skip(n + 1) =~= input@.skip(end + 1));
        match octets(input, end + 1, count - 1) {
            Some(rest) => {
                let mut out: Vec<u8> = Vec::new();
                out.push(value as u8);
                out.extend_from_slice(rest.as_slice());
                assert(out@ =~= seq![value as u8] + rest@);
                Some(out)
            },
            None => None,
        }
    } else {
        if end < input.len() {
            assert(s[n] == input@[end as int]);
        }
        None
    }
}

/// Reads a peer of the list form.
fn peer_from_item(item: &Item) -> (out: Option<PeerAddr>)
    ensures
        match out {
            Some(peer) => peer_of(item@) == Some(peer@),
            None => peer_of(item@) is None,
        },
{
    let ip_key: [u8; 2] = [105u8, 112];
    let port_key: [u8; 4] = [112u8, 111, 114, 116];
    assert(ip_key@ =~= key_ip());
    assert(port_key@ =~= key_port());
    let entries = match item.as_dict() {
        Some(entries) => entries,
        None => {
            return None;
        },
    };
    let text = match find_entry(entries, ip_key.as_slice()) {
        Some(found) => match found.as_bytes() {
            Some(text) => text,
            None => {
                return None;
            },
        },
        None => {
            return None;
        },
    };
    let port = match find_entry(entries, port_key.as_slice()) {
        Some(found) => found.as_u64(),
        None => {
            return None;
        },
    };
    assert(text@.skip(0) =~= text@);
    let quad = match octets(text, 0, 4) {
        Some(quad) => quad,
        None => {
            return None;
        },
    };
    match port {
        Some(n) => if n <= 65535 {
            let ip = [quad[0], quad[1], quad[2], quad[3]];
            assert(ip@ =~= quad@);
            Some(PeerAddr { ip, port: n as u16 })
        } else {
            None
        },
        None => None,
    }
}

/// Reads the peers of the list form.
fn peers_from_list(items: &Vec<Item>) -> (out: Option<Peers>)
    ensures
        match out {
            Some(peers) => list_peers(item_views(items@)) == Some(peers@),
            None => list_peers(item_views(items@)) is None,
        },
{
    let ghost views = item_views(items@);
    let mut peers: Vec<PeerAddr> = Vec::new();
    let mut i: usize = 0;
    assert(views.take(0) =~= Seq::<Value>::empty());
    assert(peer_views(peers@) =~= Seq::<PeerView>::empty());
    while i < items.len()
        invariant
            i <= items@.len(),
            views == item_views(items@),
            list_peers(views.take(i as int)) == Some(peer_views(peers@)),
        decreases items@.len() - i,
    {
        let ghost next = views.take(i + 1);
        proof {
            assert(next.drop_last() =~= views.take(i as int));
            assert(next.last() == items@[i as int]@);
        }
        match peer_from_item(&items[i]) {
            Some(peer) => {
                assert(peer_views(peers@).push(peer@) =~= peer_views(peers@.push(peer)));
                peers.push(peer);
            },
            None => {
                proof {
                    lemma_list_peers_fails(views, i + 1);
                }
                return None;
            },
        }
        i += 1;
    }
    assert(views.take(i as int) =~= views);
    Some(Peers(peers))
}

/// Where some of the elements spell no peers, all of them spell none.
proof fn lemma_list_peers_fails(items: Seq<Value>, n: int)
    requires
        0 <= n <= items.len(),
        list_peers(items.take(n)) is None,
    ensures
        list_peers(items) is None,
    decreases items.len() - n,
{
    if n < items.len() {
        assert(items.take(n + 1).drop_last() =~= items.take(n));
        lemma_list_peers_fails(items, n + 1);
    } else {
        assert(items.take(n) =~= items);
    }
}

impl Response {
    /// Reads the answer of a tracker out of the body of its reply.
    pub fn from_bytes(body: &[u8]) -> (res: Result<Response, TrackerError>)
        ensures
            match res {
                Ok(response) => parse_response(body@) == Ok::<ResponseView, TrackerErrorView>(
                    response@,
                ),
                Err(e) => parse_response(body@) == Err::<ResponseView, TrackerErrorView>(e@),
            },
    {
        let failure_key: [u8; 14] = [102u8, 97, 105, 108, 117, 114, 101, 32, 114, 101, 97, 115, 111, 110];
        let interval_key: [u8; 8] = [105u8, 110, 116, 101, 114, 118, 97, 108];
        let peers_key: [u8; 5] = [112u8, 101, 101, 114, 115];
        assert(failure_key@ =~= key_failure_reason());
        assert(interval_key@ =~= key_interval());
        assert(peers_key@ =~= key_peers());
        assert(body@.skip(0) =~= body@);
        let item = match decode(body, 0) {
            Ok(item) => item,
            Err(_) => {
                return Err(TrackerError::DecodeFailure);
            },
        };
        let entries = match item.as_dict() {
            Some(entries) => entries,
            None => {
                return Err(TrackerError::DecodeFailure);
            },
        };
        match find_entry(entries, failure_key.as_slice()) {
            Some(reason) => {
                return match reason.as_bytes() {
                    Some(reason) => Err(TrackerError::TrackerFailure(slice_to_vec(reason))),
                    None => Err(TrackerError::DecodeFailure),
                };
            },
            None => {},
        }
        let interval = match find_entry(entries, interval_key.as_slice()) {
            Some(interval) => interval,
            None => {
                return Err(TrackerError::DecodeFailure);
            },
        };
        let peers = match find_entry(entries, peers_key.as_slice()) {
            Some(peers) => peers,
            None => {
                return Err(TrackerError::DecodeFailure);
            },
        };
        let interval = match interval.as_u64() {
            Some(n) => if n <= usize::MAX as u64 {
                n as usize
            } else {
                return Err(TrackerError::DecodeFailure);
            },
            None => {
                return Err(TrackerError::DecodeFailure);
            },
        };
        let peers = match peers {
            Item::Bytes(f) => peers_from_compact(f.payload),
            Item::List(f) => {
                assert(peers@->List_0 =~= item_views(f.payload@));
                peers_from_list(&f.payload)
            },
            _ => None,
        };
        match peers {
            Some(peers) => Ok(Response { interval, peers }),
            None => Err(TrackerError::BadPeersField),
        }
    }
}

} // verus!
