//! Requests to a torrent's tracker and the peer list it answers with.
use crate::common::url_encode;
use crate::common::url_encoded;
use crate::common::string_push;
use crate::peer::Peers;
use crate::peer::is_compact_peer;
use crate::torrent::Info;
use crate::torrent::Torrent;
use crate::torrent::sha1_digest;
use vstd::prelude::*;
use vstd::string::StringExecFns;

verus! {

/// The query that announces us to a tracker.
#[derive(Debug, Clone)]
pub struct TrackerRequest {
    pub url: String,
    pub info_hash: [u8; 20],
    pub peer_id: [u8; 20],
    pub port: usize,
    pub uploaded: usize,
    pub downloaded: usize,
    pub compact: u8,
    pub left: usize,
}

/// What a tracker answers: the peers in compact form, six bytes each.
#[derive(Debug, Clone)]
pub struct TrackerResponse {
    pub peers: Vec<u8>,
}

/// The port we announce.
pub const LISTEN_PORT: usize = 6881;

/// The number of bytes we announce as left when downloading from a magnet
/// link, whose length is unknown until the metadata has been fetched.
pub const MAGNET_LEFT_PLACEHOLDER: usize = 999;

/// The decimal digit for a value below 10.
pub open spec fn digit_char(d: nat) -> char {
    ((d + 48) as u8) as char
}

/// The decimal representation of `n`, without leading zeros.
pub open spec fn decimal(n: nat) -> Seq<char>
    decreases n,
{
    if n < 10 {
        seq![digit_char(n)]
    } else {
        decimal(n / 10).push(digit_char(n % 10))
    }
}

/// The number that a string of decimal digits stands for, most
/// significant digit first.
pub open spec fn digits_value(s: Seq<char>) -> int
    decreases s.len(),
{
    if s.len() == 0 {
        0
    } else {
        digits_value(s.drop_last()) * 10 + ((s.last() as u32) - ('0' as u32))
    }
}

/// `decimal(n)` is the base-10 representation of `n`: a non-empty string of
/// the digits `0`-`9`, with no leading zero except for `0` itself, whose
/// digits read as a number give back `n`.
pub proof fn lemma_decimal_is_base_ten(n: nat)
    ensures
        decimal(n).len() >= 1,
        forall|i: int| 0 <= i < decimal(n).len() ==> '0' <= #[trigger] decimal(n)[i] <= '9',
        decimal(n)[0] == '0' ==> n == 0,
        digits_value(decimal(n)) == n,
    decreases n,
{
    if n >= 10 {
        lemma_decimal_is_base_ten(n / 10);
        let prev = decimal(n / 10);
        let d = decimal(n);
        assert(d.drop_last() =~= prev);
        assert(d[0] == prev[0]);
        assert forall|i: int| 0 <= i < d.len() implies '0' <= #[trigger] d[i] <= '9' by {
            if i < prev.len() {
                assert(d[i] == prev[i]);
            }
        }
        lemma_digit_char_value((n % 10) as nat);
        assert(d.last() == digit_char((n % 10) as nat));
        assert(digits_value(d) == digits_value(prev) * 10 + (n % 10));
        assert((n / 10) * 10 + n % 10 == n);
    } else {
        assert(decimal(n).drop_last() =~= Seq::<char>::empty());
        lemma_digit_char_value(n);
        assert(digits_value(Seq::<char>::empty()) == 0);
        assert(decimal(n).last() == digit_char(n));
        assert(digits_value(decimal(n)) == digits_value(decimal(n).drop_last()) * 10 + ((digit_char(n) as u32) - ('0' as u32)));
    }
}

proof fn lemma_digit_char_value(d: nat)
    requires
        d < 10,
    ensures
        (digit_char(d) as u32) - ('0' as u32) == d,
        '0' <= digit_char(d) <= '9',
        digit_char(d) == '0' ==> d == 0,
{
    let b = (d + 48) as u8;
    assert(b as char as u32 == b as u32);
}

/// Appends the decimal representation of `n`.
fn push_decimal(s: &mut String, n: usize)
    ensures
        final(s)@ == old(s)@ + decimal(n as nat),
    decreases n,
{
    if n >= 10 {
        push_decimal(s, n / 10);
    }
    let d = (n % 10) as u8;
    string_push(s, (d + 48) as char);
    assert(final(s)@ =~= old(s)@ + decimal(n as nat)) by {
        if n >= 10 {
            assert(decimal(n as nat) == decimal((n / 10) as nat).push(digit_char((n % 10) as nat)));
        }
    }
}

/// The announce URL with its query: the info hash and peer id
/// percent-encoded, the numbers in decimal.
pub open spec fn announce_url(r: TrackerRequest) -> Seq<char> {
    r.url@ + "?info_hash="@ + url_encoded(r.info_hash@) + "&peer_id="@ + url_encoded(r.peer_id@) + "&port="@
        + decimal(r.port as nat) + "&uploaded="@ + decimal(r.uploaded as nat) + "&downloaded="@
        + decimal(r.downloaded as nat) + "&compact="@ + decimal(r.compact as nat) + "&left="@ + decimal(
        r.left as nat,
    )
}

impl TrackerRequest {
    /// The request for a torrent read from a metainfo file, given the
    /// bencoding of its info dictionary, whose hash identifies the torrent:
    /// nothing uploaded or downloaded yet, the whole content left, compact
    /// peer lists asked for.
    pub fn new(peer_id: &[u8; 20], torrent: &Torrent, encoded_info: &[u8]) -> (r: TrackerRequest)
        ensures
            r.url@ == torrent.announce@,
            r.info_hash@ == sha1_digest(encoded_info@),
            r.peer_id == *peer_id,
            r.port == LISTEN_PORT,
            r.uploaded == 0,
            r.downloaded == 0,
            r.compact == 1,
            r.left == torrent.info.length,
    {
        TrackerRequest {
            url: torrent.announce.clone(),
            info_hash: Info::info_hash(encoded_info),
            peer_id: *peer_id,
            port: LISTEN_PORT,
            uploaded: 0,
            downloaded: 0,
            compact: 1,
            left: torrent.info.length,
        }
    }

    /// The request for a torrent known from a magnet link: its length is
    /// not known yet, so a placeholder stands for what is left.
    pub fn new_for_magnet(peer_id: &[u8; 20], tracker_url: &str, info_hash: [u8; 20]) -> (r: TrackerRequest)
        ensures
            r.url@ == tracker_url@,
            r.info_hash == info_hash,
            r.peer_id == *peer_id,
            r.port == LISTEN_PORT,
            r.uploaded == 0,
            r.downloaded == 0,
            r.compact == 1,
            r.left == MAGNET_LEFT_PLACEHOLDER,
    {
        TrackerRequest {
            url: String::from_str(tracker_url),
            info_hash,
            peer_id: *peer_id,
            port: LISTEN_PORT,
            uploaded: 0,
            downloaded: 0,
            compact: 1,
            left: MAGNET_LEFT_PLACEHOLDER,
        }
    }

    /// The full announce URL for this request.
    pub fn url(&self) -> (u: String)
        ensures
            u@ == announce_url(*self),
    {
        let mut u = self.url.clone();
        u.append("?info_hash=");
        let ih = url_encode(self.info_hash.as_slice());
        u.append(ih.as_str());
        u.append("&peer_id=");
        let pid = url_encode(self.peer_id.as_slice());
        u.append(pid.as_str());
        u.append("&port=");
        push_decimal(&mut u, self.port);
        u.append("&uploaded=");
        push_decimal(&mut u, self.uploaded);
        u.append("&downloaded=");
        push_decimal(&mut u, self.downloaded);
        u.append("&compact=");
        push_decimal(&mut u, self.compact as usize);
        u.append("&left=");
        push_decimal(&mut u, self.left);
        u
    }
}

impl TrackerResponse {
    /// The peers that the response lists.
    pub fn get_peers(&self) -> (peers: Peers)
        requires
            self.peers@.len() % 6 == 0,
        ensures
            peers.0@.len() == self.peers@.len() / 6,
            forall|k: int|
                0 <= k < peers.0@.len() ==> is_compact_peer(#[trigger] peers.0@[k], self.peers@, 6 * k),
    {
        Peers::new(self.peers.as_slice())
    }
}

} // verus!
