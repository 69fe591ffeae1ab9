use acorntorrent::metainfo::BMetainfo;
use acorntorrent::torrent::BTorrent;

fn single_file_doc() -> Vec<u8> {
    let mut d = Vec::new();
    d.extend_from_slice(b"d8:announce3:url4:infod6:lengthi5e4:name4:test12:piece lengthi5e6:pieces10:");
    d.extend_from_slice(&[34, 56, 45, 75, 0, 11, 23, 89, 11, 3]);
    d.extend_from_slice(b"ee");
    d
}

/// Percent-encodes with every non-alphanumeric byte escaped, the form the
/// session value uses for query strings.
fn percent_encode_oracle(bytes: &[u8]) -> String {
    let mut out = String::new();
    for &b in bytes {
        if b.is_ascii_alphanumeric() {
            out.push(b as char);
        } else {
            out.push_str(&format!("%{:02X}", b));
        }
    }
    out
}

#[test]
fn torrent_new_derives_identifiers() {
    let m = BMetainfo::from_bytes(&single_file_doc()).unwrap();
    let t = BTorrent::new(m).unwrap();
    let expected_hash: Vec<u8> = vec![
        120, 194, 217, 2, 125, 22, 196, 118, 173, 86, 247, 20, 31, 227, 118, 15, 100, 1, 127, 109,
    ];
    assert_eq!(t.info_hash, expected_hash);
    assert_eq!(
        t.encoded_info_hash,
        "x%C2%D9%02%7D%16%C4v%ADV%F7%14%1F%E3v%0Fd%01%7Fm"
    );
    assert_eq!(t.peer_id.len(), 20);
    assert_eq!(t.encoded_peer_id, percent_encode_oracle(&t.peer_id));
    assert_eq!(t.uploaded, 0);
    assert_eq!(t.downloaded, 0);
    assert_eq!(t.left, 0);
    assert_eq!(t.metainfo.announce, "url");
}

#[test]
fn torrent_hash_matches_compute_hash() {
    let m = BMetainfo::from_bytes(&single_file_doc()).unwrap();
    let direct = m.info.compute_hash().unwrap();
    let t = BTorrent::new(m).unwrap();
    assert_eq!(t.info_hash, direct);
}
