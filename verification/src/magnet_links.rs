//! Magnet links: the info-hash and the trackers of a torrent, as a URI.

use crate::hex_text::{hex_bytes, hex_decode, is_hex};
use crate::url_text::{parse_url, url_text};
use vstd::prelude::*;
use vstd::string::{StrSliceExecFns, StringExecFns};

verus! {

/// What a magnet link tells.
#[derive(Debug, Clone, PartialEq, Eq)]
pub struct MagnetLink {
    /// The tracker to announce to: the last tracker of the link, as the URL
    /// parser writes it.
    pub announce: String,
    pub info_hash: [u8; 20],
    pub display_name: Option<String>,
    /// Every tracker of the link, in the order and the words of the link.
    pub trackers: Vec<String>,
}

/// What a magnet link tells, as a value.
pub struct MagnetView {
    pub announce: Seq<char>,
    pub info_hash: Seq<u8>,
    pub display_name: Option<Seq<char>>,
    pub trackers: Seq<Seq<char>>,
}

/// The texts of a sequence of strings.
pub open spec fn texts(strings: Seq<String>) -> Seq<Seq<char>> {
    Seq::new(strings.len(), |i: int| strings[i]@)
}

impl View for MagnetLink {
    type V = MagnetView;

    open spec fn view(&self) -> MagnetView {
        MagnetView {
            announce: self.announce@,
            info_hash: self.info_hash@,
            display_name: match self.display_name {
                Some(name) => Some(name@),
                None => None,
            },
            trackers: texts(self.trackers@),
        }
    }
}

/// Why a text is not a magnet link.
#[derive(Debug, Clone, Copy, PartialEq, Eq)]
pub enum MagnetError {
    /// The text does not start with `magnet:?`, its query cannot be read,
    /// or it names no tracker that is a URL.
    MalformedUri,
    /// The query has no parameter `xt`.
    MissingXt,
    /// The parameter `xt` is not `urn:btih:` and an info-hash of 40
    /// hexadecimal digits or 32 characters of base32.
    BadInfoHashEncoding,
}

/// The parameters that `serde_urlencoded` reads out of a query, in their
/// order, or `None` where it cannot read the query.
pub uninterp spec fn urlencoded_pairs(query: Seq<char>) -> Option<Seq<(Seq<char>, Seq<char>)>>;

/// The names and values of parameters as text.
pub open spec fn pairs_view(pairs: Seq<(String, String)>) -> Seq<(Seq<char>, Seq<char>)> {
    Seq::new(pairs.len(), |i: int| (pairs[i].0@, pairs[i].1@))
}

/// Calls `serde_urlencoded::from_bytes` on the bytes of `query`, asking for
/// the list of its parameters. The result depends on the query alone.
#[verifier::external_body]
fn query_pairs(query: &str) -> (out: Option<Vec<(String, String)>>)
    ensures
        out matches Some(pairs) ==> urlencoded_pairs(query@) == Some(pairs_view(pairs@)),
        out is None ==> urlencoded_pairs(query@) is None,
{
    match serde_urlencoded::from_bytes::<Vec<(String, String)>>(query.as_bytes()) {
        Ok(pairs) => Some(pairs),
        Err(_) => None,
    }
}

/// The value of the last parameter with the name `name`.
pub open spec fn last_value(pairs: Seq<(Seq<char>, Seq<char>)>, name: Seq<char>) -> Option<
    Seq<char>,
>
    decreases pairs.len(),
{
    if pairs.len() == 0 {
        None
    } else if pairs.last().0 == name {
        Some(pairs.last().1)
    } else {
        last_value(pairs.drop_last(), name)
    }
}

/// The values of all parameters with the name `name`, in their order.
pub open spec fn all_values(pairs: Seq<(Seq<char>, Seq<char>)>, name: Seq<char>) -> Seq<Seq<char>>
    decreases pairs.len(),
{
    if pairs.len() == 0 {
        seq![]
    } else if pairs.last().0 == name {
        all_values(pairs.drop_last(), name).push(pairs.last().1)
    } else {
        all_values(pairs.drop_last(), name)
    }
}

/// The number that a character of base32 spells: `A` to `Z` in either
/// case for 0 to 25, `2` to `7` for 26 to 31.
pub open spec fn base32_value(c: char) -> Option<int> {
    if 'A' <= c <= 'Z' {
        Some(c as int - 'A' as int)
    } else if 'a' <= c <= 'z' {
        Some(c as int - 'a' as int)
    } else if '2' <= c <= '7' {
        Some(c as int - '2' as int + 26)
    } else {
        None
    }
}

/// Whether `text` is characters of base32.
pub open spec fn is_base32(text: Seq<char>) -> bool {
    forall|i: int| 0 <= i < text.len() ==> base32_value(#[trigger] text[i]) is Some
}

/// The number that the eight characters from `at` on spell, five bits each.
pub open spec fn base32_group(text: Seq<char>, at: int, n: int) -> int
    decreases n,
{
    if n <= 0 {
        0
    } else {
        base32_group(text, at, n - 1) * 32 + base32_value(text[at + n - 1]).unwrap()
    }
}

/// The bytes that base32 text of whole groups of eight characters spells:
/// five bytes for each group.
pub open spec fn base32_bytes(text: Seq<char>) -> Seq<u8> {
    Seq::new(
        (text.len() / 8 * 5) as nat,
        |i: int|
            {
                let group = base32_group(text, i / 5 * 8, 8);
                if i % 5 == 0 {
                    (group / 4294967296) as u8
                } else if i % 5 == 1 {
                    (group / 16777216 % 256) as u8
                } else if i % 5 == 2 {
                    (group / 65536 % 256) as u8
                } else if i % 5 == 3 {
                    (group / 256 % 256) as u8
                } else {
                    (group % 256) as u8
                }
            },
    )
}

/// The info-hash that the text after `urn:btih:` spells.
pub open spec fn info_hash_of(text: Seq<char>) -> Option<Seq<u8>> {
    if text.len() == 40 && is_hex(text) {
        Some(hex_bytes(text))
    } else if text.len() == 32 && is_base32(text) {
        Some(base32_bytes(text))
    } else {
        None
    }
}

/// What the parameters of a magnet link tell.
pub open spec fn magnet_of(pairs: Seq<(Seq<char>, Seq<char>)>) -> Result<MagnetView, MagnetError> {
    match last_value(pairs, "xt"@) {
        None => Err(MagnetError::MissingXt),
        Some(xt) => if xt.len() < 9 || xt.take(9) != "urn:btih:"@ {
            Err(MagnetError::BadInfoHashEncoding)
        } else {
            match info_hash_of(xt.skip(9)) {
                None => Err(MagnetError::BadInfoHashEncoding),
                Some(info_hash) => match last_value(pairs, "tr"@) {
                    None => Err(MagnetError::MalformedUri),
                    Some(tracker) => match url_text(tracker) {
                        None => Err(MagnetError::MalformedUri),
                        Some(announce) => Ok(
                            MagnetView {
                                announce,
                                info_hash,
                                display_name: last_value(pairs, "dn"@),
                                trackers: all_values(pairs, "tr"@),
                            },
                        ),
                    },
                },
            }
        },
    }
}

/// What a text tells as a magnet link.
pub open spec fn parse_magnet(link: Seq<char>) -> Result<MagnetView, MagnetError> {
    if link.len() < 8 || link.take(8) != "magnet:?"@ {
        Err(MagnetError::MalformedUri)
    } else {
        match urlencoded_pairs(link.skip(8)) {
            None => Err(MagnetError::MalformedUri),
            Some(pairs) => magnet_of(pairs),
        }
    }
}

/// The number that a character of base32 spells.
fn base32_digit(c: char) -> (out: Option<u64>)
    ensures
        match out {
            Some(n) => base32_value(c) == Some(n as int) && n < 32,
            None => base32_value(c) is None,
        },
{
    if 'A' <= c && c <= 'Z' {
        Some((c as u64) - ('A' as u64))
    } else if 'a' <= c && c <= 'z' {
        Some((c as u64) - ('a' as u64))
    } else if '2' <= c && c <= '7' {
        Some((c as u64) - ('2' as u64) + 26)
    } else {
        None
    }
}

/// Reads 32 characters of base32 as 20 bytes.
fn base32_decode(text: &str) -> (out: Option<Vec<u8>>)
    requires
        text@.len() == 32,
    ensures
        match out {
            Some(bytes) => is_base32(text@) && bytes@ == base32_bytes(text@),
            None => !is_base32(text@),
        },
{
    let mut out: Vec<u8> = Vec::new();
    let mut g: usize = 0;
    while g < 4
        invariant
            g <= 4,
            text@.len() == 32,
            out@.len() == 5 * g,
            forall|i: int| 0 <= i < 8 * g ==> base32_value(#[trigger] text@[i]) is Some,
            forall|i: int| 0 <= i < 5 * g ==> out@[i] == base32_bytes(text@)[i],
        decreases 4 - g,
    {
        let mut group: u64 = 0;
        let mut k: usize = 0;
        while k < 8
            invariant
                k <= 8,
                g < 4,
                text@.len() == 32,
                group == base32_group(text@, 8 * g as int, k as int),
                group < pow32(k as nat),
                forall|i: int| 0 <= i < 8 * g + k ==> base32_value(#[trigger] text@[i]) is Some,
            decreases 8 - k,
        {
            let c = text.get_char(8 * g + k);
            match base32_digit(c) {
                Some(n) => {
                    proof {
                        reveal_with_fuel(pow32, 9);
                    }
                    group = group * 32 + n;
                },
                None => {
                    return None;
                },
            }
            k += 1;
        }
        proof {
            reveal_with_fuel(pow32, 9);
        }
        let ghost before = out@;
        out.push((group / 4294967296) as u8);
        out.push((group / 16777216 % 256) as u8);
        out.push((group / 65536 % 256) as u8);
        out.push((group / 256 % 256) as u8);
        out.push((group % 256) as u8);
        proof {
            assert forall|i: int| 0 <= i < 5 * (g + 1) implies out@[i] == base32_bytes(text@)[i] by {
                if i < 5 * g {
                    assert(out@[i] == before[i]);
                } else {
                    assert(i / 5 == g);
                    assert(i / 5 * 8 == 8 * g);
                }
            }
        }
        g += 1;
    }
    assert(out@ =~= base32_bytes(text@));
    Some(out)
}

/// The `n`-th power of 32.
pub open spec fn pow32(n: nat) -> int
    decreases n,
{
    if n == 0 {
        1
    } else {
        32 * pow32((n - 1) as nat)
    }
}

/// Reads the info-hash that follows `urn:btih:`.
fn info_hash_from(text: &str) -> (out: Option<[u8; 20]>)
    ensures
        match out {
            Some(info_hash) => info_hash_of(text@) == Some(info_hash@),
            None => info_hash_of(text@) is None,
        },
{
    let length = text.unicode_len();
    let bytes = if length == 40 {
        match hex_decode(text) {
            Some(bytes) => bytes,
            None => {
                return None;
            },
        }
    } else if length == 32 {
        match base32_decode(text) {
            Some(bytes) => bytes,
            None => {
                return None;
            },
        }
    } else {
        return None;
    };
    let mut info_hash = [0u8; 20];
    let mut i: usize = 0;
    while i < 20
        invariant
            i <= 20,
            bytes@.len() == 20,
            forall|k: int| 0 <= k < i ==> info_hash@[k] == bytes@[k],
        decreases 20 - i,
    {
        info_hash[i] = bytes[i];
        i += 1;
    }
    assert(info_hash@ =~= bytes@);
    Some(info_hash)
}

impl MagnetLink {
    /// Reads a magnet link.
    pub fn parse(link: &str) -> (res: Result<MagnetLink, MagnetError>)
        ensures
            match res {
                Ok(magnet) => parse_magnet(link@) == Ok::<MagnetView, MagnetError>(magnet@),
                Err(e) => parse_magnet(link@) == Err::<MagnetView, MagnetError>(e),
            },
    {
        let length = link.unicode_len();
        if length < 8 {
            return Err(MagnetError::MalformedUri);
        }
        let head = link.substring_char(0, 8).to_owned();
        assert(head@ =~= link@.take(8));
        if !head.eq(&String::from_str("magnet:?")) {
            return Err(MagnetError::MalformedUri);
        }
        let query = link.substring_char(8, length);
        assert(query@ =~= link@.skip(8));
        let pairs = match query_pairs(query) {
            Some(pairs) => pairs,
            None => {
                return Err(MagnetError::MalformedUri);
            },
        };
        MagnetLink::from_pairs(&pairs)
    }

    /// Reads what the parameters of a magnet link tell.
    pub fn from_pairs(pairs: &Vec<(String, String)>) -> (res: Result<MagnetLink, MagnetError>)
        ensures
            match res {
                Ok(magnet) => magnet_of(pairs_view(pairs@)) == Ok::<MagnetView, MagnetError>(
                    magnet@,
                ),
                Err(e) => magnet_of(pairs_view(pairs@)) == Err::<MagnetView, MagnetError>(e),
            },
    {
        let ghost views = pairs_view(pairs@);
        let xt_name = String::from_str("xt");
        let tr_name = String::from_str("tr");
        let dn_name = String::from_str("dn");
        let mut xt: Option<String> = None;
        let mut tracker: Option<String> = None;
        let mut display_name: Option<String> = None;
        let mut trackers: Vec<String> = Vec::new();
        let mut i: usize = 0;
        proof {
            assert(views.take(0) =~= Seq::<(Seq<char>, Seq<char>)>::empty());
            assert(texts(trackers@) =~= Seq::<Seq<char>>::empty());
        }
        while i < pairs.len()
            invariant
                i <= pairs@.len(),
                views == pairs_view(pairs@),
                xt_name@ == "xt"@,
                tr_name@ == "tr"@,
                dn_name@ == "dn"@,
                text_option(xt) == last_value(views.take(i as int), "xt"@),
                text_option(tracker) == last_value(views.take(i as int), "tr"@),
                text_option(display_name) == last_value(views.take(i as int), "dn"@),
                texts(trackers@) == all_values(views.take(i as int), "tr"@),
            decreases pairs@.len() - i,
        {
            proof {
                let next = views.take(i + 1);
                assert(next.drop_last() =~= views.take(i as int));
                assert(next.last() == (pairs@[i as int].0@, pairs@[i as int].1@));
            }
            let name = &pairs[i].0;
            let value = &pairs[i].1;
            if name.eq(&xt_name) {
                xt = Some(value.clone());
            }
            if name.eq(&dn_name) {
                display_name = Some(value.clone());
            }
            if name.eq(&tr_name) {
                tracker = Some(value.clone());
                let copy = value.clone();
                assert(texts(trackers@).push(value@) =~= texts(trackers@.push(copy)));
                trackers.push(copy);
            }
            i += 1;
        }
        assert(views.take(i as int) =~= views);
        let xt = match xt {
            Some(xt) => xt,
            None => {
                return Err(MagnetError::MissingXt);
            },
        };
        let xt_length = xt.as_str().unicode_len();
        if xt_length < 9 {
            return Err(MagnetError::BadInfoHashEncoding);
        }
        let scheme = xt.as_str().substring_char(0, 9).to_owned();
        assert(scheme@ =~= xt@.take(9));
        if !scheme.eq(&String::from_str("urn:btih:")) {
            return Err(MagnetError::BadInfoHashEncoding);
        }
        let encoded = xt.as_str().substring_char(9, xt_length);
        assert(encoded@ =~= xt@.skip(9));
        let info_hash = match info_hash_from(encoded) {
            Some(info_hash) => info_hash,
            None => {
                return Err(MagnetError::BadInfoHashEncoding);
            },
        };
        let tracker = match tracker {
            Some(tracker) => tracker,
            None => {
                return Err(MagnetError::MalformedUri);
            },
        };
        let announce = match parse_url(tracker.as_str()) {
            Some(announce) => announce,
            None => {
                return Err(MagnetError::MalformedUri);
            },
        };
        Ok(MagnetLink { announce, info_hash, display_name, trackers })
    }
}

/// The text of an optional string.
pub open spec fn text_option(text: Option<String>) -> Option<Seq<char>> {
    match text {
        Some(text) => Some(text@),
        None => None,
    }
}

} // verus!
