//! The tracker response model: the typed representation of an announce
//! reply and the decoders for the two peer-list wire formats, the explicit
//! list of dictionaries and the compact fixed-width binary records.

use vstd::prelude::*;
use vstd::utf8::valid_utf8;

use crate::error::{DecodeError, Field};
use crate::ip::{parse_ip, spec_parse_ip, IpAddress};
use crate::keys::{
    key_complete, key_incomplete, key_interval, key_ip, key_peer_id, key_peers, key_peers6,
    key_port, spec_key_complete, spec_key_incomplete, spec_key_interval, spec_key_ip,
    spec_key_peer_id, spec_key_peers, spec_key_peers6, spec_key_port,
};
use crate::util::{
    get_optional_int_value, get_utf8_value, spec_get_optional_int, spec_get_utf8, utf8_to_string,
};
use crate::value::{
    dict_lookup, lemma_model_items, model_entries, model_items, spec_lookup, SpecValue, Value,
};
use crate::bencode::{parse_value_at, spec_parse_value};

verus! {

/// The event reported alongside an announce, when the announce is not one
/// of the regular periodic ones.
#[derive(Clone, Copy, Debug, PartialEq, Eq, Structural)]
pub enum BAnnounceEvent {
    Started,
    Completed,
    Stopped,
}

/// One peer of an announce reply.
pub struct BPeer {
    /// The peer's address, of either family.
    pub ip: IpAddress,
    /// Empty for peers read from a compact list, which carries no ids.
    pub peer_id: String,
    /// The peer's port.
    pub port: u16,
}

/// The mathematical model of a `BPeer`.
pub struct SpecPeer {
    pub ip: IpAddress,
    pub peer_id: Seq<char>,
    pub port: u16,
}

impl View for BPeer {
    type V = SpecPeer;

    open spec fn view(&self) -> SpecPeer {
        SpecPeer { ip: self.ip, peer_id: self.peer_id@, port: self.port }
    }
}

/// The views of a sequence of peers.
pub open spec fn peers_model(ps: Seq<BPeer>) -> Seq<SpecPeer> {
    Seq::new(ps.len(), |i: int| ps[i]@)
}

/// An announce reply.
pub struct BTrackerResponse {
    /// All peers of the reply: the explicit or compact IPv4 peers first in
    /// source order, then the compact IPv6 peers.
    pub peers: Vec<BPeer>,
    /// Suggested minimum announce interval, in seconds.
    pub interval: i64,
    /// Number of peers with the complete payload.
    pub complete: Option<i64>,
    /// Number of peers still downloading.
    pub incomplete: Option<i64>,
}

/// The mathematical model of a `BTrackerResponse`.
pub struct SpecTrackerResponse {
    pub peers: Seq<SpecPeer>,
    pub interval: int,
    pub complete: Option<int>,
    pub incomplete: Option<int>,
}

impl View for BTrackerResponse {
    type V = SpecTrackerResponse;

    open spec fn view(&self) -> SpecTrackerResponse {
        SpecTrackerResponse {
            peers: peers_model(self.peers@),
            interval: self.interval as int,
            complete: match self.complete {
                Some(c) => Some(c as int),
                None => None,
            },
            incomplete: match self.incomplete {
                Some(c) => Some(c as int),
                None => None,
            },
        }
    }
}

/// The big-endian 16-bit value at offset `i`.
pub open spec fn be16_at(b: Seq<u8>, i: int) -> u16 {
    (b[i] * 0x100 + b[i + 1]) as u16
}

/// The big-endian 32-bit value at offset `i`.
pub open spec fn be32_at(b: Seq<u8>, i: int) -> u32 {
    (b[i] * 0x1000000 + b[i + 1] * 0x10000 + b[i + 2] * 0x100 + b[i + 3]) as u32
}

/// The big-endian 128-bit value at offset `i`.
pub open spec fn be128_at(b: Seq<u8>, i: int) -> u128 {
    (b[i + 0] * 0x1000000000000000000000000000000 + b[i + 1] * 0x10000000000000000000000000000 + b[i + 2] * 0x100000000000000000000000000 + b[i + 3] * 0x1000000000000000000000000 + b[i + 4] * 0x10000000000000000000000 + b[i + 5] * 0x100000000000000000000 + b[i + 6] * 0x1000000000000000000 + b[i + 7] * 0x10000000000000000 + b[i + 8] * 0x100000000000000 + b[i + 9] * 0x1000000000000 + b[i + 10] * 0x10000000000 + b[i + 11] * 0x100000000 + b[i + 12] * 0x1000000 + b[i + 13] * 0x10000 + b[i + 14] * 0x100 + b[i + 15]) as u128
}

/// The peers written in a compact IPv4 list: one 6-byte record per peer,
/// four address bytes then two port bytes, all big-endian, no peer id.
pub open spec fn spec_compact_v4(b: Seq<u8>) -> Seq<SpecPeer> {
    Seq::new(
        (b.len() as int / 6) as nat,
        |i: int| SpecPeer {
            ip: IpAddress::V4(be32_at(b, 6 * i)),
            peer_id: Seq::empty(),
            port: be16_at(b, 6 * i + 4),
        },
    )
}

/// The peers written in a compact IPv6 list: one 18-byte record per peer,
/// sixteen address bytes then two port bytes, all big-endian, no peer id.
pub open spec fn spec_compact_v6(b: Seq<u8>) -> Seq<SpecPeer> {
    Seq::new(
        (b.len() as int / 18) as nat,
        |i: int| SpecPeer {
            ip: IpAddress::V6(be128_at(b, 18 * i)),
            peer_id: Seq::empty(),
            port: be16_at(b, 18 * i + 16),
        },
    )
}

/// Decodes a compact IPv4 peer list: the length must be a multiple of six.
pub open spec fn spec_parse_compact_v4(b: Seq<u8>) -> Result<Seq<SpecPeer>, DecodeError> {
    if b.len() % 6 != 0 {
        Err(DecodeError::InvalidCompactLength(6, b.len() as u64))
    } else {
        Ok(spec_compact_v4(b))
    }
}

/// Decodes a compact IPv6 peer list: the length must be a multiple of
/// eighteen.
pub open spec fn spec_parse_compact_v6(b: Seq<u8>) -> Result<Seq<SpecPeer>, DecodeError> {
    if b.len() % 18 != 0 {
        Err(DecodeError::InvalidCompactLength(18, b.len() as u64))
    } else {
        Ok(spec_compact_v6(b))
    }
}

/// Decodes one peer dictionary: a textual `ip` of either family, a UTF-8
/// `peer id`, and a `port` that must fit sixteen bits.
pub open spec fn spec_decode_peer(v: SpecValue) -> Result<SpecPeer, DecodeError> {
    match v {
        SpecValue::Dictionary(es) => match spec_lookup(es, spec_key_ip()) {
            None => Err(DecodeError::MissingField(Field::Ip)),
            Some(SpecValue::Bytes(b)) => if !valid_utf8(b) {
                Err(DecodeError::InvalidUtf8(Field::Ip))
            } else {
                match spec_parse_ip(b) {
                    None => Err(DecodeError::InvalidIpAddress),
                    Some(ip) => match spec_get_utf8(es, spec_key_peer_id(), Field::PeerId) {
                        Err(e) => Err(e),
                        Ok(pid) => match spec_lookup(es, spec_key_port()) {
                            None => Err(DecodeError::MissingField(Field::Port)),
                            Some(SpecValue::Integer(p)) => if p < 0 || p > 0xffff {
                                Err(DecodeError::WrongType(Field::Port))
                            } else {
                                Ok(SpecPeer { ip, peer_id: pid, port: p as u16 })
                            },
                            Some(_) => Err(DecodeError::WrongType(Field::Port)),
                        },
                    },
                }
            },
            Some(_) => Err(DecodeError::WrongType(Field::Ip)),
        },
        _ => Err(DecodeError::WrongType(Field::Peers)),
    }
}

/// Decodes an explicit peer list, whose elements must all be peer
/// dictionaries.
pub open spec fn spec_decode_peer_list(items: Seq<SpecValue>) -> Result<Seq<SpecPeer>, DecodeError>
    decreases items.len(),
{
    if items.len() == 0 {
        Ok(Seq::empty())
    } else {
        match spec_decode_peer(items[0]) {
            Ok(p) => match spec_decode_peer_list(items.drop_first()) {
                Ok(rest) => Ok(seq![p] + rest),
                Err(e) => Err(e),
            },
            Err(e) => Err(e),
        }
    }
}

/// Decodes an announce reply from its parsed value: `interval` is
/// required; `peers` may be an explicit list or a compact IPv4 byte
/// string; a `peers6` byte string appends compact IPv6 peers after the
/// others, keeping both groups in source order. A `peers6` of any other
/// type is ignored, like any other unknown key.
pub open spec fn spec_decode_tracker(v: SpecValue) -> Result<SpecTrackerResponse, DecodeError> {
    match v {
        SpecValue::Dictionary(es) => {
            let interval_r: Result<int, DecodeError> = match spec_lookup(es, spec_key_interval()) {
                None => Err(DecodeError::MissingField(Field::Interval)),
                Some(SpecValue::Integer(i)) => Ok(i),
                Some(_) => Err(DecodeError::WrongType(Field::Interval)),
            };
            match interval_r {
                Err(e) => Err(e),
                Ok(interval) => match spec_get_optional_int(es, spec_key_complete(), Field::Complete) {
                    Err(e) => Err(e),
                    Ok(complete) => match spec_get_optional_int(
                        es,
                        spec_key_incomplete(),
                        Field::Incomplete,
                    ) {
                        Err(e) => Err(e),
                        Ok(incomplete) => {
                            let peers_r: Result<Seq<SpecPeer>, DecodeError> = match spec_lookup(
                                es,
                                spec_key_peers(),
                            ) {
                                None => Err(DecodeError::MissingField(Field::Peers)),
                                Some(SpecValue::List(items)) => spec_decode_peer_list(items),
                                Some(SpecValue::Bytes(b)) => spec_parse_compact_v4(b),
                                Some(_) => Err(DecodeError::WrongType(Field::Peers)),
                            };
                            match peers_r {
                                Err(e) => Err(e),
                                Ok(peers) => {
                                    let all_r: Result<Seq<SpecPeer>, DecodeError> = match spec_lookup(
                                        es,
                                        spec_key_peers6(),
                                    ) {
                                        Some(SpecValue::Bytes(b)) => match spec_parse_compact_v6(b) {
                                            Ok(p6) => Ok(peers + p6),
                                            Err(e) => Err(e),
                                        },
                                        _ => Ok(peers),
                                    };
                                    match all_r {
                                        Err(e) => Err(e),
                                        Ok(all) => Ok(
                                            SpecTrackerResponse {
                                                peers: all,
                                                interval,
                                                complete,
                                                incomplete,
                                            },
                                        ),
                                    }
                                },
                            }
                        },
                    },
                },
            }
        },
        _ => Err(DecodeError::WrongType(Field::Document)),
    }
}

/// Decodes an announce reply from raw bytes: exactly one bencoded
/// dictionary and nothing after it.
pub open spec fn spec_tracker_from_bytes(bytes: Seq<u8>) -> Result<SpecTrackerResponse, DecodeError> {
    match spec_parse_value(bytes) {
        None => Err(DecodeError::ParseFailure),
        Some((v, n)) => if n != bytes.len() {
            Err(DecodeError::TrailingData)
        } else {
            spec_decode_tracker(v)
        },
    }
}

/// The trailing-data law for announce replies: a reply that decodes
/// successfully fails with `TrailingData` once any extra bytes are
/// appended after the top-level dictionary.
pub proof fn lemma_tracker_trailing_data_rejected(doc: Seq<u8>, extra: Seq<u8>)
    requires
        spec_tracker_from_bytes(doc) is Ok,
        extra.len() >= 1,
    ensures
        spec_tracker_from_bytes(doc + extra) == Err::<SpecTrackerResponse, DecodeError>(
            DecodeError::TrailingData,
        ),
{
    crate::bencode::lemma_parse_value_extend(doc, extra);
}

/// Decodes a compact IPv4 peer list: each 6-byte record is a big-endian
/// address and port, and every decoded peer has an empty peer id.
pub fn parse_compact_ipv4_peer_list(bytes: &[u8]) -> (r: Result<Vec<BPeer>, DecodeError>)
    ensures
        match r {
            Ok(ps) => spec_parse_compact_v4(bytes@) == Ok::<Seq<SpecPeer>, DecodeError>(
                peers_model(ps@),
            ),
            Err(e) => spec_parse_compact_v4(bytes@) == Err::<Seq<SpecPeer>, DecodeError>(e),
        },
{
    let n = bytes.len();
    if n % 6 != 0 {
        return Err(DecodeError::InvalidCompactLength(6, n as u64));
    }
    let count = n / 6;
    let ghost target = spec_compact_v4(bytes@);
    let mut peers: Vec<BPeer> = Vec::new();
    let mut i: usize = 0;
    proof {
        assert(target.take(0) =~= Seq::<SpecPeer>::empty());
        assert(peers_model(peers@) =~= target.take(0));
    }
    while i < count
        invariant
            i <= count,
            n == bytes@.len(),
            n % 6 == 0,
            count == n / 6,
            target == spec_compact_v4(bytes@),
            peers@.len() == i,
            peers_model(peers@) == target.take(i as int),
        decreases count - i,
    {
        let base = i * 6;
        let ip = (bytes[base] as u32) * 0x1000000 + (bytes[base + 1] as u32) * 0x10000 + (bytes[base
            + 2] as u32) * 0x100 + (bytes[base + 3] as u32);
        let port = (bytes[base + 4] as u16) * 0x100 + (bytes[base + 5] as u16);
        peers.push(BPeer { ip: IpAddress::V4(ip), peer_id: String::new(), port });
        proof {
            assert(peers_model(peers@) =~= target.take(i + 1));
        }
        i = i + 1;
    }
    proof {
        assert(target.take(count as int) =~= target);
    }
    Ok(peers)
}

/// Decodes a compact IPv6 peer list: each 18-byte record is a big-endian
/// address and port, and every decoded peer has an empty peer id.
pub fn parse_compact_ipv6_peer_list(bytes: &[u8]) -> (r: Result<Vec<BPeer>, DecodeError>)
    ensures
        match r {
            Ok(ps) => spec_parse_compact_v6(bytes@) == Ok::<Seq<SpecPeer>, DecodeError>(
                peers_model(ps@),
            ),
            Err(e) => spec_parse_compact_v6(bytes@) == Err::<Seq<SpecPeer>, DecodeError>(e),
        },
{
    let n = bytes.len();
    if n % 18 != 0 {
        return Err(DecodeError::InvalidCompactLength(18, n as u64));
    }
    let count = n / 18;
    let ghost target = spec_compact_v6(bytes@);
    let mut peers: Vec<BPeer> = Vec::new();
    let mut i: usize = 0;
    proof {
        assert(target.take(0) =~= Seq::<SpecPeer>::empty());
        assert(peers_model(peers@) =~= target.take(0));
    }
    while i < count
        invariant
            i <= count,
            n == bytes@.len(),
            n % 18 == 0,
            count == n / 18,
            target == spec_compact_v6(bytes@),
            peers@.len() == i,
            peers_model(peers@) == target.take(i as int),
        decreases count - i,
    {
        let base = i * 18;
        let ip = (bytes[base + 0] as u128) * 0x1000000000000000000000000000000 + (bytes[base + 1] as u128) * 0x10000000000000000000000000000 + (bytes[base + 2] as u128) * 0x100000000000000000000000000 + (bytes[base + 3] as u128) * 0x1000000000000000000000000 + (bytes[base + 4] as u128) * 0x10000000000000000000000 + (bytes[base + 5] as u128) * 0x100000000000000000000 + (bytes[base + 6] as u128) * 0x1000000000000000000 + (bytes[base + 7] as u128) * 0x10000000000000000 + (bytes[base + 8] as u128) * 0x100000000000000 + (bytes[base + 9] as u128) * 0x1000000000000 + (bytes[base + 10] as u128) * 0x10000000000 + (bytes[base + 11] as u128) * 0x100000000 + (bytes[base + 12] as u128) * 0x1000000 + (bytes[base + 13] as u128) * 0x10000 + (bytes[base + 14] as u128) * 0x100 + (bytes[base + 15] as u128);
        let port = (bytes[base + 16] as u16) * 0x100 + (bytes[base + 17] as u16);
        peers.push(BPeer { ip: IpAddress::V6(ip), peer_id: String::new(), port });
        proof {
            assert(peers_model(peers@) =~= target.take(i + 1));
        }
        i = i + 1;
    }
    proof {
        assert(target.take(count as int) =~= target);
    }
    Ok(peers)
}

impl BPeer {
    /// Builds a peer from its dictionary.
    pub fn from_bencode_dict(dict: &Vec<(Vec<u8>, Value)>) -> (r: Result<BPeer, DecodeError>)
        ensures
            match r {
                Ok(p) => spec_decode_peer(SpecValue::Dictionary(model_entries(dict@))) == Ok::<
                    SpecPeer,
                    DecodeError,
                >(p@),
                Err(e) => spec_decode_peer(SpecValue::Dictionary(model_entries(dict@))) == Err::<
                    SpecPeer,
                    DecodeError,
                >(e),
            },
    {
        let ip: IpAddress = match dict_lookup(dict, key_ip().as_slice()) {
            None => {
                return Err(DecodeError::MissingField(Field::Ip));
            },
            Some(v) => match v {
                Value::Bytes(b) => {
                    match utf8_to_string(b.as_slice()) {
                        None => {
                            return Err(DecodeError::InvalidUtf8(Field::Ip));
                        },
                        Some(_) => {},
                    }
                    match parse_ip(b.as_slice()) {
                        None => {
                            return Err(DecodeError::InvalidIpAddress);
                        },
                        Some(ip) => ip,
                    }
                },
                _ => {
                    return Err(DecodeError::WrongType(Field::Ip));
                },
            },
        };
        let peer_id: String = match get_utf8_value(dict, key_peer_id().as_slice(), Field::PeerId) {
            Ok(s) => s,
            Err(e) => {
                return Err(e);
            },
        };
        let port: u16 = match dict_lookup(dict, key_port().as_slice()) {
            None => {
                return Err(DecodeError::MissingField(Field::Port));
            },
            Some(v) => match v {
                Value::Integer(p) => {
                    if *p < 0 || *p > 0xffff {
                        return Err(DecodeError::WrongType(Field::Port));
                    }
                    *p as u16
                },
                _ => {
                    return Err(DecodeError::WrongType(Field::Port));
                },
            },
        };
        Ok(BPeer { ip, peer_id, port })
    }

    /// Builds a peer from a list element, which must be a dictionary.
    fn from_bencode_dict_value(v: &Value) -> (r: Result<BPeer, DecodeError>)
        ensures
            match r {
                Ok(p) => spec_decode_peer(v.model()) == Ok::<SpecPeer, DecodeError>(p@),
                Err(e) => spec_decode_peer(v.model()) == Err::<SpecPeer, DecodeError>(e),
            },
    {
        match v {
            Value::Dictionary(pd) => BPeer::from_bencode_dict(pd),
            _ => Err(DecodeError::WrongType(Field::Peers)),
        }
    }
}

/// Decodes an explicit peer list, each element a peer dictionary.
fn decode_peer_list(items: &Vec<Value>) -> (r: Result<Vec<BPeer>, DecodeError>)
    ensures
        match r {
            Ok(ps) => spec_decode_peer_list(model_items(items@)) == Ok::<
                Seq<SpecPeer>,
                DecodeError,
            >(peers_model(ps@)),
            Err(e) => spec_decode_peer_list(model_items(items@)) == Err::<
                Seq<SpecPeer>,
                DecodeError,
            >(e),
        },
{
    proof {
        lemma_model_items(items@);
        assert(model_items(items@).skip(0) =~= model_items(items@));
    }
    let ghost m = model_items(items@);
    let n = items.len();
    let mut out: Vec<BPeer> = Vec::new();
    let mut i: usize = 0;
    while i < n
        invariant
            i <= n,
            n == items@.len(),
            m == model_items(items@),
            m.len() == n,
            forall|j: int| 0 <= j < n ==> m[j] == items@[j].model(),
            out@.len() == i,
            spec_decode_peer_list(m) == (match spec_decode_peer_list(m.skip(i as int)) {
                Ok(rest) => Ok::<Seq<SpecPeer>, DecodeError>(peers_model(out@) + rest),
                Err(e) => Err::<Seq<SpecPeer>, DecodeError>(e),
            }),
        decreases n - i,
    {
        proof {
            assert(m.skip(i as int)[0] == m[i as int]);
            assert(m.skip(i as int).drop_first() =~= m.skip(i + 1));
        }
        match BPeer::from_bencode_dict_value(&items[i]) {
            Ok(p) => {
                let ghost prev = out@;
                out.push(p);
                proof {
                    if spec_decode_peer_list(m.skip(i + 1)) is Ok {
                        let rest = spec_decode_peer_list(m.skip(i + 1))->Ok_0;
                        assert(peers_model(out@) + rest =~= peers_model(prev) + (seq![
                            out@[i as int]@,
                        ] + rest));
                    }
                }
            },
            Err(e) => {
                return Err(e);
            },
        }
        i = i + 1;
    }
    proof {
        assert(m.skip(n as int) =~= Seq::<SpecValue>::empty());
        assert(peers_model(out@) + Seq::<SpecPeer>::empty() =~= peers_model(out@));
    }
    Ok(out)
}

impl BTrackerResponse {
    /// Builds an announce reply from its parsed value, which must be a
    /// dictionary.
    pub fn from_bencode_value(value: &Value) -> (r: Result<BTrackerResponse, DecodeError>)
        ensures
            match r {
                Ok(t) => spec_decode_tracker(value.model()) == Ok::<
                    SpecTrackerResponse,
                    DecodeError,
                >(t@),
                Err(e) => spec_decode_tracker(value.model()) == Err::<
                    SpecTrackerResponse,
                    DecodeError,
                >(e),
            },
    {
        let dict: &Vec<(Vec<u8>, Value)> = match value {
            Value::Dictionary(d) => d,
            _ => {
                return Err(DecodeError::WrongType(Field::Document));
            },
        };
        let interval: i64 = match dict_lookup(dict, key_interval().as_slice()) {
            None => {
                return Err(DecodeError::MissingField(Field::Interval));
            },
            Some(v) => match v {
                Value::Integer(x) => *x,
                _ => {
                    return Err(DecodeError::WrongType(Field::Interval));
                },
            },
        };
        let complete: Option<i64> = match get_optional_int_value(
            dict,
            key_complete().as_slice(),
            Field::Complete,
        ) {
            Ok(c) => c,
            Err(e) => {
                return Err(e);
            },
        };
        let incomplete: Option<i64> = match get_optional_int_value(
            dict,
            key_incomplete().as_slice(),
            Field::Incomplete,
        ) {
            Ok(c) => c,
            Err(e) => {
                return Err(e);
            },
        };
        let peers: Vec<BPeer> = match dict_lookup(dict, key_peers().as_slice()) {
            None => {
                return Err(DecodeError::MissingField(Field::Peers));
            },
            Some(v) => match v {
                Value::List(items) => match decode_peer_list(items) {
                    Ok(ps) => ps,
                    Err(e) => {
                        return Err(e);
                    },
                },
                Value::Bytes(b) => match parse_compact_ipv4_peer_list(b.as_slice()) {
                    Ok(ps) => ps,
                    Err(e) => {
                        return Err(e);
                    },
                },
                _ => {
                    return Err(DecodeError::WrongType(Field::Peers));
                },
            },
        };
        let mut all_peers = peers;
        let ghost v4_model = peers_model(all_peers@);
        match dict_lookup(dict, key_peers6().as_slice()) {
            Some(v) => match v {
                Value::Bytes(b) => match parse_compact_ipv6_peer_list(b.as_slice()) {
                    Ok(p6) => {
                        let mut tail = p6;
                        let ghost v6_model = peers_model(tail@);
                        all_peers.append(&mut tail);
                        proof {
                            assert(peers_model(all_peers@) =~= v4_model + v6_model);
                        }
                    },
                    Err(e) => {
                        return Err(e);
                    },
                },
                _ => {},
            },
            None => {},
        }
        Ok(BTrackerResponse { peers: all_peers, interval, complete, incomplete })
    }

    /// Decodes an announce reply from raw bytes: exactly one bencoded
    /// dictionary, with nothing after it.
    pub fn from_bytes(bytes: &[u8]) -> (r: Result<BTrackerResponse, DecodeError>)
        ensures
            match r {
                Ok(t) => spec_tracker_from_bytes(bytes@) == Ok::<SpecTrackerResponse, DecodeError>(
                    t@,
                ),
                Err(e) => spec_tracker_from_bytes(bytes@) == Err::<
                    SpecTrackerResponse,
                    DecodeError,
                >(e),
            },
    {
        proof {
            assert(bytes@.skip(0) =~= bytes@);
        }
        match parse_value_at(bytes, 0) {
            None => Err(DecodeError::ParseFailure),
            Some(p) => {
                let (value, end) = p;
                if end != bytes.len() {
                    Err(DecodeError::TrailingData)
                } else {
                    BTrackerResponse::from_bencode_value(&value)
                }
            },
        }
    }
}

} // verus!
