//! The torrent session value: runtime identifiers derived once from a
//! metainfo document, and the transfer counters that announce requests
//! report.

use vstd::prelude::*;

use crate::error::EncodeError;
use crate::bencode::spec_encode_value;
use crate::metainfo::{spec_canonical_value, spec_info_hash, BMetainfo};

verus! {

pub open spec fn is_ascii_alnum(b: u8) -> bool {
    0x30 <= b <= 0x39 || 0x41 <= b <= 0x5a || 0x61 <= b <= 0x7a
}

/// The upper-case hex digit for a value below sixteen.
pub open spec fn hex_upper(v: int) -> char {
    if v < 10 {
        ((0x30 + v) as u8) as char
    } else {
        ((0x41 + v - 10) as u8) as char
    }
}

/// The percent-encoding of one byte when every non-alphanumeric byte is
/// escaped: an ASCII alphanumeric byte stands for itself, any other byte
/// becomes `%` and two upper-case hex digits.
pub open spec fn percent_encoded_byte(b: u8) -> Seq<char> {
    if is_ascii_alnum(b) {
        seq![b as char]
    } else {
        seq!['%', hex_upper(b as int / 16), hex_upper(b as int % 16)]
    }
}

/// The percent-encoding of a byte sequence, byte by byte.
pub open spec fn percent_encoded(bs: Seq<u8>) -> Seq<char>
    decreases bs.len(),
{
    if bs.len() == 0 {
        Seq::empty()
    } else {
        percent_encoded_byte(bs[0]) + percent_encoded(bs.drop_first())
    }
}

/// Relies on percent_encoding's `percent_encode` with `NON_ALPHANUMERIC`:
/// every byte outside ASCII alphanumerics is written as `%` and two
/// upper-case hex digits, every other byte as itself.
#[verifier::external_body]
fn percent_encode_all(bytes: &[u8]) -> (r: String)
    ensures
        r@ == percent_encoded(bytes@),
{
    percent_encoding::percent_encode(bytes, percent_encoding::NON_ALPHANUMERIC).to_string()
}

/// Relies on rand's `random`: twenty bytes drawn from the thread-local
/// generator, of which nothing can be promised.
#[verifier::external_body]
fn random_bytes() -> (r: [u8; 20]) {
    rand::random()
}

/// Draws a fresh 20-byte peer id. The bytes are random: only the length is
/// known.
fn random_peer_id() -> (r: Vec<u8>)
    ensures
        r@.len() == 20,
{
    let id: [u8; 20] = random_bytes();
    let mut v: Vec<u8> = Vec::new();
    let mut i: usize = 0;
    while i < 20
        invariant
            i <= 20,
            v@.len() == i,
        decreases 20 - i,
    {
        v.push(id[i]);
        i = i + 1;
    }
    v
}

/// One torrent in session: the document, the identifiers derived from it,
/// and the transfer counters reported to the tracker.
pub struct BTorrent {
    pub metainfo: BMetainfo,
    /// The 20-byte info-hash, computed once at construction; the source
    /// `info` is immutable afterwards, so it is cached, never recomputed.
    pub info_hash: Vec<u8>,
    /// The info-hash percent-encoded for a query string.
    pub encoded_info_hash: String,
    /// This client's random 20-byte peer id.
    pub peer_id: Vec<u8>,
    /// The peer id percent-encoded for a query string.
    pub encoded_peer_id: String,
    /// Bytes uploaded so far.
    pub uploaded: u64,
    /// Bytes downloaded so far.
    pub downloaded: u64,
    /// Bytes still missing.
    pub left: u64,
}

impl BTorrent {
    /// Derives the session value from a metainfo document: the cached
    /// info-hash and a fresh random peer id, each with its percent-encoded
    /// form, and zeroed transfer counters.
    pub fn new(metainfo: BMetainfo) -> (r: Result<BTorrent, EncodeError>)
        ensures
            match r {
                Ok(t) => t.metainfo == metainfo && t.info_hash@ == spec_info_hash(metainfo.info@)
                    && t.info_hash@.len() == 20 && t.encoded_info_hash@ == percent_encoded(
                    t.info_hash@,
                ) && t.peer_id@.len() == 20 && t.encoded_peer_id@ == percent_encoded(t.peer_id@)
                    && t.uploaded == 0 && t.downloaded == 0 && t.left == 0,
                Err(e) => e == EncodeError::PayloadTooLarge && spec_encode_value(
                    spec_canonical_value(metainfo.info@),
                ).len() > 0x1000000000000000,
            },
    {
        let info_hash = match metainfo.info.compute_hash() {
            Ok(h) => h,
            Err(e) => {
                return Err(e);
            },
        };
        let encoded_info_hash = percent_encode_all(info_hash.as_slice());
        let peer_id = random_peer_id();
        let encoded_peer_id = percent_encode_all(peer_id.as_slice());
        Ok(
            BTorrent {
                metainfo,
                info_hash,
                encoded_info_hash,
                peer_id,
                encoded_peer_id,
                uploaded: 0,
                downloaded: 0,
                left: 0,
            },
        )
    }
}

} // verus!
