//! What the engine supplies to the tracker and what it takes from the
//! tracker's answer.

use vstd::prelude::*;
use vstd::string::*;
use crate::error::{BitTorrentError, TrackerFailure};
use crate::peer::PeerAddr;
use crate::torrent::Torrent;
use crate::utils::{array_of, copy_array, generate_peer_id, peer_id_prefix};
use crate::DEFAULT_PORT;

verus! {

/// The character of a hexadecimal digit, in lower case.
pub open spec fn spec_hex_char(digit: int) -> char {
    if digit == 0 {
        '0'
    } else if digit == 1 {
        '1'
    } else if digit == 2 {
        '2'
    } else if digit == 3 {
        '3'
    } else if digit == 4 {
        '4'
    } else if digit == 5 {
        '5'
    } else if digit == 6 {
        '6'
    } else if digit == 7 {
        '7'
    } else if digit == 8 {
        '8'
    } else if digit == 9 {
        '9'
    } else if digit == 10 {
        'a'
    } else if digit == 11 {
        'b'
    } else if digit == 12 {
        'c'
    } else if digit == 13 {
        'd'
    } else if digit == 14 {
        'e'
    } else {
        'f'
    }
}

/// A percent sign and the two hexadecimal digits of every byte.
pub open spec fn spec_urlencode(bytes: Seq<u8>) -> Seq<char>
    decreases bytes.len(),
{
    if bytes.len() == 0 {
        Seq::empty()
    } else {
        spec_urlencode(bytes.drop_last()) + seq![
            '%',
            spec_hex_char(bytes.last() as int / 16),
            spec_hex_char(bytes.last() as int % 16),
        ]
    }
}

/// The decimal digits of a number.
pub open spec fn spec_decimal(n: nat) -> Seq<char>
    decreases n,
{
    if n < 10 {
        seq![spec_hex_char(n as int)]
    } else {
        spec_decimal(n / 10) + seq![spec_hex_char((n % 10) as int)]
    }
}

/// The text of one hexadecimal digit.
fn hex_digit(digit: u8) -> (text: &'static str)
    requires
        digit < 16,
    ensures
        text@ == seq![spec_hex_char(digit as int)],
{
    proof {
        reveal_strlit("0");
        reveal_strlit("1");
        reveal_strlit("2");
        reveal_strlit("3");
        reveal_strlit("4");
        reveal_strlit("5");
        reveal_strlit("6");
        reveal_strlit("7");
        reveal_strlit("8");
        reveal_strlit("9");
        reveal_strlit("a");
        reveal_strlit("b");
        reveal_strlit("c");
        reveal_strlit("d");
        reveal_strlit("e");
        reveal_strlit("f");
    }
    let text: &'static str = match digit {
        0 => "0",
        1 => "1",
        2 => "2",
        3 => "3",
        4 => "4",
        5 => "5",
        6 => "6",
        7 => "7",
        8 => "8",
        9 => "9",
        10 => "a",
        11 => "b",
        12 => "c",
        13 => "d",
        14 => "e",
        _ => "f",
    };
    assert(text@ =~= seq![spec_hex_char(digit as int)]);
    text
}

/// Appends the percent-encoding of `bytes`.
fn append_urlencoded(out: &mut String, bytes: &[u8])
    ensures
        final(out)@ == old(out)@ + spec_urlencode(bytes@),
{
    proof {
        reveal_strlit("%");
    }
    let mut i: usize = 0;
    assert(bytes@.take(0) =~= Seq::<u8>::empty());
    while i < bytes.len()
        invariant
            i <= bytes.len(),
            "%"@ == seq!['%'],
            out@ == old(out)@ + spec_urlencode(bytes@.take(i as int)),
        decreases bytes.len() - i,
    {
        let byte: u8 = bytes[i];
        let ghost before = out@;
        out.append("%");
        out.append(hex_digit(byte / 16));
        out.append(hex_digit(byte % 16));
        proof {
            let next = bytes@.take(i + 1);
            assert(next.drop_last() =~= bytes@.take(i as int));
            assert(next.last() == byte);
            assert(out@ =~= before + seq![
                '%',
                spec_hex_char(byte as int / 16),
                spec_hex_char(byte as int % 16),
            ]);
            assert(out@ =~= old(out)@ + spec_urlencode(next));
        }
        i += 1;
    }
    assert(bytes@.take(bytes.len() as int) =~= bytes@);
}

/// The percent-encoding of `bytes`: for every byte a percent sign and its
/// two hexadecimal digits in lower case.
pub fn urlencode(bytes: &[u8]) -> (text: String)
    ensures
        text@ == spec_urlencode(bytes@),
{
    let mut text = String::new();
    append_urlencoded(&mut text, bytes);
    assert(text@ =~= spec_urlencode(bytes@));
    text
}

/// Appends the decimal digits of `n`.
fn append_decimal(out: &mut String, n: u64)
    ensures
        final(out)@ == old(out)@ + spec_decimal(n as nat),
{
    let mut digits: Vec<u8> = Vec::new();
    let mut rest: u64 = n;
    let ghost mut quotients: Seq<nat> = Seq::empty();
    loop
        invariant_except_break
            digits.len() == quotients.len(),
            quotients.len() == 0 ==> rest == n,
            quotients.len() > 0 ==> rest == quotients.last() / 10 && quotients.last() >= 10,
            forall|j: int| 0 <= j < quotients.len() ==> digits@[j] == #[trigger] quotients[j] % 10,
            forall|j: int|
                0 < j < quotients.len() ==> #[trigger] quotients[j] == quotients[j - 1] / 10,
            forall|j: int| 0 <= j < quotients.len() ==> #[trigger] quotients[j] >= 10,
            quotients.len() > 0 ==> quotients[0] == n,
        ensures
            digits.len() == quotients.len(),
            quotients.len() > 0,
            quotients[0] == n,
            quotients.last() < 10,
            forall|j: int| 0 <= j < quotients.len() ==> digits@[j] == #[trigger] quotients[j] % 10,
            forall|j: int|
                0 < j < quotients.len() ==> #[trigger] quotients[j] == quotients[j - 1] / 10,
            forall|j: int| 0 <= j < quotients.len() - 1 ==> #[trigger] quotients[j] >= 10,
        decreases rest,
    {
        digits.push((rest % 10) as u8);
        proof {
            quotients = quotients.push(rest as nat);
        }
        if rest < 10 {
            break ;
        }
        rest = rest / 10;
    }
    let mut k: usize = digits.len();
    while k > 0
        invariant
            k <= digits.len(),
            digits.len() == quotients.len(),
            quotients.len() > 0,
            quotients.last() < 10,
            forall|j: int| 0 <= j < quotients.len() ==> digits@[j] == #[trigger] quotients[j] % 10,
            forall|j: int|
                0 < j < quotients.len() ==> #[trigger] quotients[j] == quotients[j - 1] / 10,
            forall|j: int| 0 <= j < quotients.len() - 1 ==> #[trigger] quotients[j] >= 10,
            k == digits.len() ==> out@ == old(out)@,
            k < digits.len() ==> out@ == old(out)@ + spec_decimal(quotients[k as int]),
        decreases k,
    {
        k -= 1;
        let ghost before = out@;
        out.append(hex_digit(digits[k]));
        proof {
            let q = quotients[k as int];
            assert(out@ == before + seq![spec_hex_char((q % 10) as int)]);
            if k + 1 == digits.len() {
                assert(q < 10);
                assert(out@ =~= old(out)@ + spec_decimal(q));
            } else {
                assert(q >= 10);
                assert(quotients[k + 1] == q / 10);
                assert(out@ =~= old(out)@ + spec_decimal(q));
            }
        }
    }
}

/// `url::ParseError`, the reason for which a text is no URL. The engine
/// does not look at the reason.
#[verifier::external_type_specification]
#[verifier::external_body]
pub struct ExParseError(url::ParseError);

/// The serialization of the URL that `url::Url::parse` reads from a text,
/// or `None` where it reads none.
pub uninterp spec fn spec_parse_url(input: Seq<char>) -> Option<Seq<char>>;

/// Parses a text with `url::Url::parse` and hands back the serialization of
/// the URL. What the parser makes of a text is taken to depend on the text
/// alone, and is named [`spec_parse_url`].
#[verifier::external_body]
fn parse_url(input: &str) -> (result: Result<String, url::ParseError>)
    ensures
        match result {
            Ok(url) => spec_parse_url(input@) == Some(url@),
            Err(_) => spec_parse_url(input@) is None,
        },
{
    url::Url::parse(input).map(String::from)
}

/// The client's side of the tracker exchange for one torrent.
#[derive(Debug, Clone)]
pub struct Tracker {
    announce_url: String,
    info_hash: [u8; 20],
    peer_id: [u8; 20],
    port: u16,
    uploaded: u64,
    downloaded: u64,
    left: u64,
}

/// What the client announces, as a mathematical value.
pub struct TrackerView {
    pub announce_url: Seq<char>,
    pub info_hash: Seq<u8>,
    pub peer_id: Seq<u8>,
    pub port: u16,
    pub uploaded: u64,
    pub downloaded: u64,
    pub left: u64,
}

impl TrackerView {
    /// The query of the first announce: the torrent, the client, its port,
    /// the byte counters, the compact peer format and the event `started`.
    pub open spec fn query(self) -> Seq<char> {
        "?info_hash="@ + spec_urlencode(self.info_hash) + "&peer_id="@ + spec_urlencode(
            self.peer_id,
        ) + "&port="@ + spec_decimal(self.port as nat) + "&uploaded="@ + spec_decimal(
            self.uploaded as nat,
        ) + "&downloaded="@ + spec_decimal(self.downloaded as nat) + "&left="@ + spec_decimal(
            self.left as nat,
        ) + "&compact=1"@ + "&event=started"@
    }

    /// The URL of the first announce, or `None` where the announce URL or
    /// the URL with its query does not parse.
    pub open spec fn url(self) -> Option<Seq<char>> {
        match spec_parse_url(self.announce_url) {
            Some(base) => spec_parse_url(base + self.query()),
            None => None,
        }
    }
}

/// The URL of an announce, given the serialization of the announce URL and
/// what the parser makes of it with the query behind it.
pub fn tracker_url(parsed: Result<String, url::ParseError>) -> (result: Result<
    String,
    BitTorrentError,
>)
    ensures
        match parsed {
            Ok(url) => result matches Ok(text) && text@ == url@,
            Err(_) => result matches Err(e) && e == BitTorrentError::Tracker(
                TrackerFailure::InvalidUrl,
            ),
        },
{
    match parsed {
        Ok(url) => Ok(url),
        Err(_) => Err(BitTorrentError::Tracker(TrackerFailure::InvalidUrl)),
    }
}

impl Tracker {
    pub closed spec fn view(&self) -> TrackerView {
        TrackerView {
            announce_url: self.announce_url@,
            info_hash: self.info_hash@,
            peer_id: self.peer_id@,
            port: self.port,
            uploaded: self.uploaded,
            downloaded: self.downloaded,
            left: self.left,
        }
    }

    /// Whether the length of a torrent's resource fits the machine's
    /// integers and the counters of the exchange.
    pub open spec fn countable(torrent: Torrent) -> bool {
        torrent.spec_info().files.spec_total_length() <= usize::MAX
            && torrent.spec_info().files.spec_total_length() <= u64::MAX
    }

    /// The exchange for a torrent, before anything was transferred: a newly
    /// generated peer id, the default port, nothing uploaded or downloaded
    /// and the whole resource left. A resource too long to count is
    /// refused.
    pub fn new(torrent: &Torrent) -> (result: Result<Self, BitTorrentError>)
        ensures
            !Self::countable(*torrent) ==> (result matches Err(e) && e
                == BitTorrentError::InvalidData),
            Self::countable(*torrent) ==> (result matches Ok(tracker) && {
                &&& tracker@.announce_url == torrent.spec_announce()@
                &&& tracker@.info_hash == torrent.spec_info_hash()
                &&& tracker@.peer_id.subrange(0, 8) == peer_id_prefix()
                &&& tracker@.port == DEFAULT_PORT
                &&& tracker@.uploaded == 0
                &&& tracker@.downloaded == 0
                &&& tracker@.left == torrent.spec_info().files.spec_total_length()
            }),
    {
        let left: u64 = match torrent.checked_total_length() {
            Some(n) => {
                if n as u128 > u64::MAX as u128 {
                    return Err(BitTorrentError::InvalidData);
                }
                n as u64
            },
            None => {
                return Err(BitTorrentError::InvalidData);
            },
        };
        Ok(
            Self {
                announce_url: torrent.announce().clone(),
                info_hash: torrent.info_hash(),
                peer_id: generate_peer_id(),
                port: DEFAULT_PORT,
                uploaded: 0,
                downloaded: 0,
                left,
            },
        )
    }

    /// The peer id that the client announces.
    pub fn peer_id(&self) -> (id: [u8; 20])
        ensures
            id@ == self@.peer_id,
    {
        self.peer_id
    }

    /// The query of the announce.
    pub fn query(&self) -> (text: String)
        ensures
            text@ == self@.query(),
    {
        let mut text = String::new();
        text.append("?info_hash=");
        append_urlencoded(&mut text, &self.info_hash);
        text.append("&peer_id=");
        append_urlencoded(&mut text, &self.peer_id);
        text.append("&port=");
        append_decimal(&mut text, self.port as u64);
        text.append("&uploaded=");
        append_decimal(&mut text, self.uploaded);
        text.append("&downloaded=");
        append_decimal(&mut text, self.downloaded);
        text.append("&left=");
        append_decimal(&mut text, self.left);
        text.append("&compact=1");
        text.append("&event=started");
        assert(text@ =~= self@.query());
        text
    }

    /// The URL of the announce: the announce URL as the parser serializes
    /// it, with the query behind it, parsed again. Where either does not
    /// parse, the tracker cannot be reached.
    pub fn build_tracker_url(&self) -> (result: Result<String, BitTorrentError>)
        ensures
            match self@.url() {
                Some(url) => result matches Ok(text) && text@ == url,
                None => result matches Err(e) && e == BitTorrentError::Tracker(
                    TrackerFailure::InvalidUrl,
                ),
            },
    {
        let base: String = match tracker_url(parse_url(self.announce_url.as_str())) {
            Ok(base) => base,
            Err(e) => {
                return Err(e);
            },
        };
        let query: String = self.query();
        let full: String = base.concat(query.as_str());
        tracker_url(parse_url(full.as_str()))
    }
}

/// The endpoints that a compact peer list names: six bytes each, four of
/// address and two of port, the port in big-endian order.
pub open spec fn spec_compact_peers(bytes: Seq<u8>) -> Seq<PeerAddr> {
    Seq::new(
        bytes.len() / 6,
        |i: int|
            PeerAddr {
                ip: array_of::<4>(bytes.subrange(6 * i, 6 * i + 4)),
                port: (bytes[6 * i + 4] as int * 256 + bytes[6 * i + 5] as int) as u16,
            },
    )
}

/// Reads a compact peer list. A list whose length is no multiple of six is
/// malformed.
pub fn parse_compact_peers(bytes: &[u8]) -> (result: Result<Vec<PeerAddr>, BitTorrentError>)
    ensures
        bytes.len() % 6 != 0 ==> (result matches Err(e) && e == BitTorrentError::Tracker(
            TrackerFailure::MalformedResponse,
        )),
        bytes.len() % 6 == 0 ==> (result matches Ok(peers) && peers@ == spec_compact_peers(
            bytes@,
        )),
{
    if bytes.len() % 6 != 0 {
        return Err(BitTorrentError::Tracker(TrackerFailure::MalformedResponse));
    }
    let count: usize = bytes.len() / 6;
    let mut peers: Vec<PeerAddr> = Vec::new();
    let mut i: usize = 0;
    while i < count
        invariant
            count == bytes.len() / 6,
            bytes.len() % 6 == 0,
            i <= count,
            peers.len() == i,
            forall|j: int| 0 <= j < i ==> peers@[j] == spec_compact_peers(bytes@)[j],
        decreases count - i,
    {
        let at: usize = 6 * i;
        let ip: [u8; 4] = copy_array(bytes, at);
        let port: u16 = (bytes[at + 4] as u16) * 256 + bytes[at + 5] as u16;
        peers.push(PeerAddr { ip, port });
        i += 1;
    }
    assert(peers@ =~= spec_compact_peers(bytes@));
    Ok(peers)
}

/// Judges the tracker's answer: an answer that carries a failure reason is
/// a rejection, one without any peer is of no use, and any other gives its
/// peers.
pub fn check_response(rejected: bool, peers: Vec<PeerAddr>) -> (result: Result<
    Vec<PeerAddr>,
    BitTorrentError,
>)
    ensures
        rejected ==> (result matches Err(e) && e == BitTorrentError::Tracker(
            TrackerFailure::Rejected,
        )),
        !rejected && peers.len() == 0 ==> (result matches Err(e) && e == BitTorrentError::Tracker(
            TrackerFailure::NoPeers,
        )),
        !rejected && peers.len() > 0 ==> (result matches Ok(list) && list == peers),
{
    if rejected {
        Err(BitTorrentError::Tracker(TrackerFailure::Rejected))
    } else if peers.len() == 0 {
        Err(BitTorrentError::Tracker(TrackerFailure::NoPeers))
    } else {
        Ok(peers)
    }
}

} // verus!
