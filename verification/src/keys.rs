//! The dictionary keys of the metainfo and tracker wire formats, as byte
//! sequences: one spec form and one executable builder for each.

use vstd::prelude::*;

verus! {

/// The bytes of the key `announce`.
pub open spec fn spec_key_announce() -> Seq<u8> {
    seq![0x61, 0x6e, 0x6e, 0x6f, 0x75, 0x6e, 0x63, 0x65]
}

/// Builds the key `announce`.
pub fn key_announce() -> (k: Vec<u8>)
    ensures
        k@ == spec_key_announce(),
{
    let mut k: Vec<u8> = Vec::new();
    k.push(0x61);
    k.push(0x6e);
    k.push(0x6e);
    k.push(0x6f);
    k.push(0x75);
    k.push(0x6e);
    k.push(0x63);
    k.push(0x65);
    proof {
        assert(k@ =~= spec_key_announce());
    }
    k
}

/// The bytes of the key `announce-list`.
pub open spec fn spec_key_announce_list() -> Seq<u8> {
    seq![0x61, 0x6e, 0x6e, 0x6f, 0x75, 0x6e, 0x63, 0x65, 0x2d, 0x6c, 0x69, 0x73, 0x74]
}

/// Builds the key `announce-list`.
pub fn key_announce_list() -> (k: Vec<u8>)
    ensures
        k@ == spec_key_announce_list(),
{
    let mut k: Vec<u8> = Vec::new();
    k.push(0x61);
    k.push(0x6e);
    k.push(0x6e);
    k.push(0x6f);
    k.push(0x75);
    k.push(0x6e);
    k.push(0x63);
    k.push(0x65);
    k.push(0x2d);
    k.push(0x6c);
    k.push(0x69);
    k.push(0x73);
    k.push(0x74);
    proof {
        assert(k@ =~= spec_key_announce_list());
    }
    k
}

/// The bytes of the key `comment`.
pub open spec fn spec_key_comment() -> Seq<u8> {
    seq![0x63, 0x6f, 0x6d, 0x6d, 0x65, 0x6e, 0x74]
}

/// Builds the key `comment`.
pub fn key_comment() -> (k: Vec<u8>)
    ensures
        k@ == spec_key_comment(),
{
    let mut k: Vec<u8> = Vec::new();
    k.push(0x63);
    k.push(0x6f);
    k.push(0x6d);
    k.push(0x6d);
    k.push(0x65);
    k.push(0x6e);
    k.push(0x74);
    proof {
        assert(k@ =~= spec_key_comment());
    }
    k
}

/// The bytes of the key `created by`.
pub open spec fn spec_key_created_by() -> Seq<u8> {
    seq![0x63, 0x72, 0x65, 0x61, 0x74, 0x65, 0x64, 0x20, 0x62, 0x79]
}

/// Builds the key `created by`.
pub fn key_created_by() -> (k: Vec<u8>)
    ensures
        k@ == spec_key_created_by(),
{
    let mut k: Vec<u8> = Vec::new();
    k.push(0x63);
    k.push(0x72);
    k.push(0x65);
    k.push(0x61);
    k.push(0x74);
    k.push(0x65);
    k.push(0x64);
    k.push(0x20);
    k.push(0x62);
    k.push(0x79);
    proof {
        assert(k@ =~= spec_key_created_by());
    }
    k
}

/// The bytes of the key `creation date`.
pub open spec fn spec_key_creation_date() -> Seq<u8> {
    seq![0x63, 0x72, 0x65, 0x61, 0x74, 0x69, 0x6f, 0x6e, 0x20, 0x64, 0x61, 0x74, 0x65]
}

/// Builds the key `creation date`.
pub fn key_creation_date() -> (k: Vec<u8>)
    ensures
        k@ == spec_key_creation_date(),
{
    let mut k: Vec<u8> = Vec::new();
    k.push(0x63);
    k.push(0x72);
    k.push(0x65);
    k.push(0x61);
    k.push(0x74);
    k.push(0x69);
    k.push(0x6f);
    k.push(0x6e);
    k.push(0x20);
    k.push(0x64);
    k.push(0x61);
    k.push(0x74);
    k.push(0x65);
    proof {
        assert(k@ =~= spec_key_creation_date());
    }
    k
}

/// The bytes of the key `encoding`.
pub open spec fn spec_key_encoding() -> Seq<u8> {
    seq![0x65, 0x6e, 0x63, 0x6f, 0x64, 0x69, 0x6e, 0x67]
}

/// Builds the key `encoding`.
pub fn key_encoding() -> (k: Vec<u8>)
    ensures
        k@ == spec_key_encoding(),
{
    let mut k: Vec<u8> = Vec::new();
    k.push(0x65);
    k.push(0x6e);
    k.push(0x63);
    k.push(0x6f);
    k.push(0x64);
    k.push(0x69);
    k.push(0x6e);
    k.push(0x67);
    proof {
        assert(k@ =~= spec_key_encoding());
    }
    k
}

/// The bytes of the key `info`.
pub open spec fn spec_key_info() -> Seq<u8> {
    seq![0x69, 0x6e, 0x66, 0x6f]
}

/// Builds the key `info`.
pub fn key_info() -> (k: Vec<u8>)
    ensures
        k@ == spec_key_info(),
{
    let mut k: Vec<u8> = Vec::new();
    k.push(0x69);
    k.push(0x6e);
    k.push(0x66);
    k.push(0x6f);
    proof {
        assert(k@ =~= spec_key_info());
    }
    k
}

/// The bytes of the key `files`.
pub open spec fn spec_key_files() -> Seq<u8> {
    seq![0x66, 0x69, 0x6c, 0x65, 0x73]
}

/// Builds the key `files`.
pub fn key_files() -> (k: Vec<u8>)
    ensures
        k@ == spec_key_files(),
{
    let mut k: Vec<u8> = Vec::new();
    k.push(0x66);
    k.push(0x69);
    k.push(0x6c);
    k.push(0x65);
    k.push(0x73);
    proof {
        assert(k@ =~= spec_key_files());
    }
    k
}

/// The bytes of the key `length`.
pub open spec fn spec_key_length() -> Seq<u8> {
    seq![0x6c, 0x65, 0x6e, 0x67, 0x74, 0x68]
}

/// Builds the key `length`.
pub fn key_length() -> (k: Vec<u8>)
    ensures
        k@ == spec_key_length(),
{
    let mut k: Vec<u8> = Vec::new();
    k.push(0x6c);
    k.push(0x65);
    k.push(0x6e);
    k.push(0x67);
    k.push(0x74);
    k.push(0x68);
    proof {
        assert(k@ =~= spec_key_length());
    }
    k
}

/// The bytes of the key `name`.
pub open spec fn spec_key_name() -> Seq<u8> {
    seq![0x6e, 0x61, 0x6d, 0x65]
}

/// Builds the key `name`.
pub fn key_name() -> (k: Vec<u8>)
    ensures
        k@ == spec_key_name(),
{
    let mut k: Vec<u8> = Vec::new();
    k.push(0x6e);
    k.push(0x61);
    k.push(0x6d);
    k.push(0x65);
    proof {
        assert(k@ =~= spec_key_name());
    }
    k
}

/// The bytes of the key `piece length`.
pub open spec fn spec_key_piece_length() -> Seq<u8> {
    seq![0x70, 0x69, 0x65, 0x63, 0x65, 0x20, 0x6c, 0x65, 0x6e, 0x67, 0x74, 0x68]
}

/// Builds the key `piece length`.
pub fn key_piece_length() -> (k: Vec<u8>)
    ensures
        k@ == spec_key_piece_length(),
{
    let mut k: Vec<u8> = Vec::new();
    k.push(0x70);
    k.push(0x69);
    k.push(0x65);
    k.push(0x63);
    k.push(0x65);
    k.push(0x20);
    k.push(0x6c);
    k.push(0x65);
    k.push(0x6e);
    k.push(0x67);
    k.push(0x74);
    k.push(0x68);
    proof {
        assert(k@ =~= spec_key_piece_length());
    }
    k
}

/// The bytes of the key `pieces`.
pub open spec fn spec_key_pieces() -> Seq<u8> {
    seq![0x70, 0x69, 0x65, 0x63, 0x65, 0x73]
}

/// Builds the key `pieces`.
pub fn key_pieces() -> (k: Vec<u8>)
    ensures
        k@ == spec_key_pieces(),
{
    let mut k: Vec<u8> = Vec::new();
    k.push(0x70);
    k.push(0x69);
    k.push(0x65);
    k.push(0x63);
    k.push(0x65);
    k.push(0x73);
    proof {
        assert(k@ =~= spec_key_pieces());
    }
    k
}

/// The bytes of the key `private`.
pub open spec fn spec_key_private() -> Seq<u8> {
    seq![0x70, 0x72, 0x69, 0x76, 0x61, 0x74, 0x65]
}

/// Builds the key `private`.
pub fn key_private() -> (k: Vec<u8>)
    ensures
        k@ == spec_key_private(),
{
    let mut k: Vec<u8> = Vec::new();
    k.push(0x70);
    k.push(0x72);
    k.push(0x69);
    k.push(0x76);
    k.push(0x61);
    k.push(0x74);
    k.push(0x65);
    proof {
        assert(k@ =~= spec_key_private());
    }
    k
}

/// The bytes of the key `source`.
pub open spec fn spec_key_source() -> Seq<u8> {
    seq![0x73, 0x6f, 0x75, 0x72, 0x63, 0x65]
}

/// Builds the key `source`.
pub fn key_source() -> (k: Vec<u8>)
    ensures
        k@ == spec_key_source(),
{
    let mut k: Vec<u8> = Vec::new();
    k.push(0x73);
    k.push(0x6f);
    k.push(0x75);
    k.push(0x72);
    k.push(0x63);
    k.push(0x65);
    proof {
        assert(k@ =~= spec_key_source());
    }
    k
}

/// The bytes of the key `path`.
pub open spec fn spec_key_path() -> Seq<u8> {
    seq![0x70, 0x61, 0x74, 0x68]
}

/// Builds the key `path`.
pub fn key_path() -> (k: Vec<u8>)
    ensures
        k@ == spec_key_path(),
{
    let mut k: Vec<u8> = Vec::new();
    k.push(0x70);
    k.push(0x61);
    k.push(0x74);
    k.push(0x68);
    proof {
        assert(k@ =~= spec_key_path());
    }
    k
}

/// The bytes of the key `interval`.
pub open spec fn spec_key_interval() -> Seq<u8> {
    seq![0x69, 0x6e, 0x74, 0x65, 0x72, 0x76, 0x61, 0x6c]
}

/// Builds the key `interval`.
pub fn key_interval() -> (k: Vec<u8>)
    ensures
        k@ == spec_key_interval(),
{
    let mut k: Vec<u8> = Vec::new();
    k.push(0x69);
    k.push(0x6e);
    k.push(0x74);
    k.push(0x65);
    k.push(0x72);
    k.push(0x76);
    k.push(0x61);
    k.push(0x6c);
    proof {
        assert(k@ =~= spec_key_interval());
    }
    k
}

/// The bytes of the key `complete`.
pub open spec fn spec_key_complete() -> Seq<u8> {
    seq![0x63, 0x6f, 0x6d, 0x70, 0x6c, 0x65, 0x74, 0x65]
}

/// Builds the key `complete`.
pub fn key_complete() -> (k: Vec<u8>)
    ensures
        k@ == spec_key_complete(),
{
    let mut k: Vec<u8> = Vec::new();
    k.push(0x63);
    k.push(0x6f);
    k.push(0x6d);
    k.push(0x70);
    k.push(0x6c);
    k.push(0x65);
    k.push(0x74);
    k.push(0x65);
    proof {
        assert(k@ =~= spec_key_complete());
    }
    k
}

/// The bytes of the key `incomplete`.
pub open spec fn spec_key_incomplete() -> Seq<u8> {
    seq![0x69, 0x6e, 0x63, 0x6f, 0x6d, 0x70, 0x6c, 0x65, 0x74, 0x65]
}

/// Builds the key `incomplete`.
pub fn key_incomplete() -> (k: Vec<u8>)
    ensures
        k@ == spec_key_incomplete(),
{
    let mut k: Vec<u8> = Vec::new();
    k.push(0x69);
    k.push(0x6e);
    k.push(0x63);
    k.push(0x6f);
    k.push(0x6d);
    k.push(0x70);
    k.push(0x6c);
    k.push(0x65);
    k.push(0x74);
    k.push(0x65);
    proof {
        assert(k@ =~= spec_key_incomplete());
    }
    k
}

/// The bytes of the key `peers`.
pub open spec fn spec_key_peers() -> Seq<u8> {
    seq![0x70, 0x65, 0x65, 0x72, 0x73]
}

/// Builds the key `peers`.
pub fn key_peers() -> (k: Vec<u8>)
    ensures
        k@ == spec_key_peers(),
{
    let mut k: Vec<u8> = Vec::new();
    k.push(0x70);
    k.push(0x65);
    k.push(0x65);
    k.push(0x72);
    k.push(0x73);
    proof {
        assert(k@ =~= spec_key_peers());
    }
    k
}

/// The bytes of the key `peers6`.
pub open spec fn spec_key_peers6() -> Seq<u8> {
    seq![0x70, 0x65, 0x65, 0x72, 0x73, 0x36]
}

/// Builds the key `peers6`.
pub fn key_peers6() -> (k: Vec<u8>)
    ensures
        k@ == spec_key_peers6(),
{
    let mut k: Vec<u8> = Vec::new();
    k.push(0x70);
    k.push(0x65);
    k.push(0x65);
    k.push(0x72);
    k.push(0x73);
    k.push(0x36);
    proof {
        assert(k@ =~= spec_key_peers6());
    }
    k
}

/// The bytes of the key `ip`.
pub open spec fn spec_key_ip() -> Seq<u8> {
    seq![0x69, 0x70]
}

/// Builds the key `ip`.
pub fn key_ip() -> (k: Vec<u8>)
    ensures
        k@ == spec_key_ip(),
{
    let mut k: Vec<u8> = Vec::new();
    k.push(0x69);
    k.push(0x70);
    proof {
        assert(k@ =~= spec_key_ip());
    }
    k
}

/// The bytes of the key `peer id`.
pub open spec fn spec_key_peer_id() -> Seq<u8> {
    seq![0x70, 0x65, 0x65, 0x72, 0x20, 0x69, 0x64]
}

/// Builds the key `peer id`.
pub fn key_peer_id() -> (k: Vec<u8>)
    ensures
        k@ == spec_key_peer_id(),
{
    let mut k: Vec<u8> = Vec::new();
    k.push(0x70);
    k.push(0x65);
    k.push(0x65);
    k.push(0x72);
    k.push(0x20);
    k.push(0x69);
    k.push(0x64);
    proof {
        assert(k@ =~= spec_key_peer_id());
    }
    k
}

/// The bytes of the key `port`.
pub open spec fn spec_key_port() -> Seq<u8> {
    seq![0x70, 0x6f, 0x72, 0x74]
}

/// Builds the key `port`.
pub fn key_port() -> (k: Vec<u8>)
    ensures
        k@ == spec_key_port(),
{
    let mut k: Vec<u8> = Vec::new();
    k.push(0x70);
    k.push(0x6f);
    k.push(0x72);
    k.push(0x74);
    proof {
        assert(k@ =~= spec_key_port());
    }
    k
}

} // verus!
