//! The announce request: the URL that asks a tracker for peers.

use crate::hex_text::{hex_char, hex_encode, hex_text};
use crate::magnet_links::MagnetLink;
use crate::metainfo::identity_bytes;
use crate::sha1::sha1_digest;
use crate::torrent::Torrent;
use crate::url_text::{parse_url, url_text};
use vstd::prelude::*;
use vstd::string::{StrSliceExecFns, StringExecFns};

verus! {

/// The peer id under which this client announces itself.
pub const PEER_ID: &'static str = "alice_is_1_feet_tall";

/// Why no announce URL could be made.
#[derive(Debug, Clone, Copy, PartialEq, Eq)]
pub enum UrlError {
    /// The announce URL with the query of the request is not an absolute URL.
    NotAUrl,
}

/// The digit of `d` in base 10.
pub open spec fn digit_char(d: int) -> char {
    "0123456789"@[d]
}

/// The decimal text of `n`.
pub open spec fn dec_chars(n: nat) -> Seq<char>
    decreases n,
{
    if n < 10 {
        seq![digit_char(n as int)]
    } else {
        dec_chars(n / 10).push(digit_char((n % 10) as int))
    }
}

/// Every byte as `%` and its two hexadecimal digits in lower case, whether
/// or not the byte could stand in a URL as it is.
pub open spec fn percent_hex(data: Seq<u8>) -> Seq<char>
    decreases data.len(),
{
    if data.len() == 0 {
        seq![]
    } else {
        percent_hex(data.drop_last()) + seq![
            '%',
            hex_char(data.last() as int / 16),
            hex_char(data.last() as int % 16),
        ]
    }
}

/// The announce URL of a tracker with the query of an announce request:
/// the info-hash byte by byte in percent-encoding, the peer id, the port
/// 6881, the counts that this client never changes, the number of bytes
/// that are still to come, and the demand for the compact list of peers.
pub open spec fn announce_request(announce_url: Seq<char>, info_hash: Seq<u8>, left: nat) -> Seq<
    char,
> {
    announce_url + "?info_hash="@ + percent_hex(info_hash) + "&peer_id="@ + PEER_ID@
        + "&port=6881&uploaded=0&downloaded=0&left="@ + dec_chars(left) + "&compact=1"@
}

/// The one digit `d` as text.
fn digit_text(d: u64) -> (out: &'static str)
    requires
        d < 10,
    ensures
        out@ == seq![digit_char(d as int)],
{
    proof {
        reveal_strlit("0123456789");
        reveal_strlit("0");
        reveal_strlit("1");
        reveal_strlit("2");
        reveal_strlit("3");
        reveal_strlit("4");
        reveal_strlit("5");
        reveal_strlit("6");
        reveal_strlit("7");
        reveal_strlit("8");
        reveal_strlit("9");
    }
    let out = if d == 0 {
        "0"
    } else if d == 1 {
        "1"
    } else if d == 2 {
        "2"
    } else if d == 3 {
        "3"
    } else if d == 4 {
        "4"
    } else if d == 5 {
        "5"
    } else if d == 6 {
        "6"
    } else if d == 7 {
        "7"
    } else if d == 8 {
        "8"
    } else {
        "9"
    };
    assert(out@ =~= seq![digit_char(d as int)]);
    out
}

/// The decimal text of `n`.
pub fn decimal_string(n: u64) -> (out: String)
    ensures
        out@ == dec_chars(n as nat),
    decreases n,
{
    if n < 10 {
        String::from_str(digit_text(n))
    } else {
        let mut out = decimal_string(n / 10);
        out.append(digit_text(n % 10));
        assert(out@ =~= dec_chars(n as nat));
        out
    }
}

/// Every byte of `data` as `%` and its two hexadecimal digits.
pub fn percent_encode(data: &[u8]) -> (out: String)
    ensures
        out@ == percent_hex(data@),
{
    let hex = hex_encode(data);
    let text = hex.as_str();
    let mut out = String::from_str("");
    proof {
        reveal_strlit("");
        reveal_strlit("%");
        assert(data@.take(0) =~= Seq::<u8>::empty());
        assert(out@ =~= percent_hex(data@.take(0)));
    }
    let digits: usize = text.unicode_len();
    let mut i: usize = 0;
    while i < data.len()
        invariant
            i <= data@.len(),
            digits == 2 * data@.len(),
            text@ == hex_text(data@),
            "%"@ == seq!['%'],
            out@ == percent_hex(data@.take(i as int)),
        decreases data@.len() - i,
    {
        out.append("%");
        out.append(text.substring_char(2 * i, 2 * i + 2));
        proof {
            let next = data@.take(i + 1);
            assert(next.drop_last() =~= data@.take(i as int));
            assert(next.last() == data@[i as int]);
            let pair = text@.subrange(2 * i, 2 * i + 2);
            assert(pair =~= seq![
                hex_char(data@[i as int] as int / 16),
                hex_char(data@[i as int] as int % 16),
            ]);
            assert(out@ =~= percent_hex(next));
        }
        i += 1;
    }
    assert(data@.take(i as int) =~= data@);
    out
}

/// The URL that announces the torrent `info_hash`, of which `left` bytes
/// are still to come, to the tracker at `announce_url`: the announce URL
/// with the query of an announce request, letter for letter, where the URL
/// parser takes the whole for a URL.
pub fn tracker_url(announce_url: &str, info_hash: &[u8; 20], left: usize) -> (res: Result<
    String,
    UrlError,
>)
    ensures
        match res {
            Ok(url) => url@ == announce_request(announce_url@, info_hash@, left as nat)
                && url_text(url@) is Some,
            Err(e) => e == UrlError::NotAUrl && url_text(
                announce_request(announce_url@, info_hash@, left as nat),
            ) is None,
        },
{
    let mut url = String::from_str(announce_url);
    url.append("?info_hash=");
    url.append(percent_encode(info_hash.as_slice()).as_str());
    url.append("&peer_id=");
    url.append(PEER_ID);
    url.append("&port=6881&uploaded=0&downloaded=0&left=");
    url.append(decimal_string(left as u64).as_str());
    url.append("&compact=1");
    match parse_url(url.as_str()) {
        Some(_) => Ok(url),
        None => Err(UrlError::NotAUrl),
    }
}

/// What can be announced to a tracker.
pub trait TrackerInfo {
    /// Whether the announce URL can be asked for.
    spec fn announceable(&self) -> bool;

    /// The URL of the tracker.
    spec fn announce_to(&self) -> Seq<char>;

    /// The info-hash to announce.
    spec fn announced_hash(&self) -> Seq<u8>;

    /// The number of bytes to announce as still to come.
    spec fn announced_left(&self) -> nat;

    /// The announce URL.
    fn tracker_url(&self) -> (res: Result<String, UrlError>)
        requires
            self.announceable(),
        ensures
            match res {
                Ok(url) => url@ == announce_request(
                    self.announce_to(),
                    self.announced_hash(),
                    self.announced_left(),
                ) && url_text(url@) is Some,
                Err(e) => e == UrlError::NotAUrl && url_text(
                    announce_request(
                        self.announce_to(),
                        self.announced_hash(),
                        self.announced_left(),
                    ),
                ) is None,
            },
    ;
}

impl TrackerInfo for Torrent {
    open spec fn announceable(&self) -> bool {
        self.info.wf()
    }

    open spec fn announce_to(&self) -> Seq<char> {
        self.announce@
    }

    open spec fn announced_hash(&self) -> Seq<u8> {
        sha1_digest(identity_bytes(self.info@))
    }

    open spec fn announced_left(&self) -> nat {
        self.info.spec_total_len() as nat
    }

    /// The announce URL of a torrent of which nothing has been fetched yet.
    fn tracker_url(&self) -> (res: Result<String, UrlError>) {
        let info_hash = self.info_hash();
        tracker_url(self.announce.as_str(), &info_hash, self.total_len())
    }
}

impl TrackerInfo for MagnetLink {
    open spec fn announceable(&self) -> bool {
        true
    }

    open spec fn announce_to(&self) -> Seq<char> {
        self.announce@
    }

    open spec fn announced_hash(&self) -> Seq<u8> {
        self.info_hash@
    }

    open spec fn announced_left(&self) -> nat {
        0
    }

    /// The announce URL of a magnet link, whose length is not known yet.
    fn tracker_url(&self) -> (res: Result<String, UrlError>) {
        tracker_url(self.announce.as_str(), &self.info_hash, 0)
    }
}

} // verus!
