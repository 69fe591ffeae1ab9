use acorntorrent::error::{DecodeError, Field};
use acorntorrent::metainfo::BMetainfo;

/// The ten piece-hash bytes used by the single-file fixture.
const PIECES10: [u8; 10] = [34, 56, 45, 75, 0, 11, 23, 89, 11, 3];

/// A well-formed single-file document: announce "url", length 5, name
/// "test", piece length 5, ten pieces bytes.
fn single_file_doc() -> Vec<u8> {
    let mut d = Vec::new();
    d.extend_from_slice(b"d8:announce3:url4:infod6:lengthi5e4:name4:test12:piece lengthi5e6:pieces10:");
    d.extend_from_slice(&PIECES10);
    d.extend_from_slice(b"ee");
    d
}

/// A well-formed multi-file document with `private` and `source`.
fn multi_file_doc() -> Vec<u8> {
    let mut d = Vec::new();
    d.extend_from_slice(b"d8:announce3:url4:infod5:filesl");
    d.extend_from_slice(b"d6:lengthi100e4:pathl1:a5:b.txtee");
    d.extend_from_slice(b"d6:lengthi250e4:pathl1:cee");
    d.extend_from_slice(b"e4:name2:mf12:piece lengthi16384e6:pieces40:");
    let pieces: Vec<u8> = (0u8..40).collect();
    d.extend_from_slice(&pieces);
    d.extend_from_slice(b"7:privatei1e6:source3:srce");
    d.extend_from_slice(b"e");
    d
}

/// A document whose info dictionary is given verbatim.
fn doc_with_info(info: &[u8]) -> Vec<u8> {
    let mut d = Vec::new();
    d.extend_from_slice(b"d8:announce3:url4:info");
    d.extend_from_slice(info);
    d.extend_from_slice(b"e");
    d
}

#[test]
fn decode_single_file() {
    let m = BMetainfo::from_bytes(&single_file_doc()).unwrap();
    assert_eq!(m.announce, "url");
    assert_eq!(m.info.length, Some(5));
    assert_eq!(m.info.files.is_some(), false);
    assert_eq!(m.info.name, "test");
    assert_eq!(m.info.piece_size, 5);
    assert_eq!(m.info.pieces, PIECES10.to_vec());
    assert_eq!(m.info.private, None);
    assert_eq!(m.info.source, None);
    assert_eq!(m.announce_list, None);
    assert_eq!(m.comment, None);
    assert_eq!(m.created_by, None);
    assert_eq!(m.created_on, None);
    assert_eq!(m.encoding, None);
}

#[test]
fn decode_multi_file() {
    let m = BMetainfo::from_bytes(&multi_file_doc()).unwrap();
    let files = m.info.files.as_ref().unwrap();
    assert_eq!(files.len(), 2);
    assert_eq!(files[0].length, 100);
    assert_eq!(files[0].path, vec!["a".to_string(), "b.txt".to_string()]);
    assert_eq!(files[1].length, 250);
    assert_eq!(files[1].path, vec!["c".to_string()]);
    assert_eq!(m.info.length, None);
    assert_eq!(m.info.private, Some(true));
    assert_eq!(m.info.source, Some("src".to_string()));
}

#[test]
fn derived_fields_single_file() {
    let m = BMetainfo::from_bytes(&single_file_doc()).unwrap();
    assert_eq!(m.info.metainfo_total_size_bytes(), 5);
}

#[test]
fn derived_fields_multi_file() {
    let m = BMetainfo::from_bytes(&multi_file_doc()).unwrap();
    assert_eq!(m.info.total_piece_count(), 2);
    assert_eq!(m.info.total_piece_size_bytes(), 32768);
    assert_eq!(m.info.metainfo_total_size_bytes(), 350);
}

#[test]
fn info_hash_known_single_file() {
    let m = BMetainfo::from_bytes(&single_file_doc()).unwrap();
    let h = m.info.compute_hash().unwrap();
    let expected: Vec<u8> = vec![
        120, 194, 217, 2, 125, 22, 196, 118, 173, 86, 247, 20, 31, 227, 118, 15, 100, 1, 127, 109,
    ];
    assert_eq!(h, expected);
}

#[test]
fn info_hash_known_multi_file() {
    let m = BMetainfo::from_bytes(&multi_file_doc()).unwrap();
    let h = m.info.compute_hash().unwrap();
    let expected: Vec<u8> = vec![
        219, 97, 150, 13, 182, 187, 88, 114, 0, 65, 12, 246, 199, 247, 193, 170, 250, 188, 208, 36,
    ];
    assert_eq!(h, expected);
}

#[test]
fn info_hash_deterministic() {
    let m = BMetainfo::from_bytes(&single_file_doc()).unwrap();
    let h1 = m.info.compute_hash().unwrap();
    let h2 = m.info.compute_hash().unwrap();
    assert_eq!(h1, h2);
    assert_eq!(h1.len(), 20);
}

#[test]
fn conflicting_fields_both() {
    let doc = doc_with_info(
        b"d5:filesld6:lengthi1e4:pathl1:aeee6:lengthi5e4:name1:n12:piece lengthi5e6:pieces0:e",
    );
    let r = BMetainfo::from_bytes(&doc);
    assert!(matches!(r, Err(DecodeError::ConflictingFields)));
}

#[test]
fn conflicting_fields_neither() {
    let doc = doc_with_info(b"d4:name1:n12:piece lengthi5e6:pieces0:e");
    let r = BMetainfo::from_bytes(&doc);
    assert!(matches!(r, Err(DecodeError::ConflictingFields)));
}

/// A document with the given `encoding` value ahead of the info
/// dictionary.
fn doc_with_encoding(enc: &[u8]) -> Vec<u8> {
    let mut d = Vec::new();
    d.extend_from_slice(b"d8:announce3:url8:encoding");
    d.extend_from_slice(format!("{}:", enc.len()).as_bytes());
    d.extend_from_slice(enc);
    d.extend_from_slice(b"4:infod6:lengthi5e4:name4:test12:piece lengthi5e6:pieces0:e");
    d.extend_from_slice(b"e");
    d
}

#[test]
fn encoding_utf8_variants_accepted() {
    for enc in [&b"UTF-8"[..], &b"utf-8"[..], &b"Utf-8"[..]] {
        let m = BMetainfo::from_bytes(&doc_with_encoding(enc)).unwrap();
        assert_eq!(m.encoding.as_deref().map(str::as_bytes), Some(enc));
    }
}

#[test]
fn encoding_other_rejected() {
    let r = BMetainfo::from_bytes(&doc_with_encoding(b"ISO-8859-1"));
    assert!(matches!(r, Err(DecodeError::UnsupportedEncoding)));
}

#[test]
fn trailing_data_rejected() {
    let mut doc = single_file_doc();
    doc.push(b'x');
    let r = BMetainfo::from_bytes(&doc);
    assert!(matches!(r, Err(DecodeError::TrailingData)));
}

#[test]
fn garbage_is_a_parse_failure() {
    let r = BMetainfo::from_bytes(b"not bencode");
    assert!(matches!(r, Err(DecodeError::ParseFailure)));
}

#[test]
fn missing_announce() {
    let r = BMetainfo::from_bytes(b"d4:infod6:lengthi5e4:name1:n12:piece lengthi5e6:pieces0:ee");
    assert!(matches!(r, Err(DecodeError::MissingField(Field::Announce))));
}

#[test]
fn missing_info() {
    let r = BMetainfo::from_bytes(b"d8:announce3:urle");
    assert!(matches!(r, Err(DecodeError::MissingField(Field::Info))));
}

#[test]
fn top_level_must_be_dictionary() {
    let r = BMetainfo::from_bytes(b"i5e");
    assert!(matches!(r, Err(DecodeError::WrongType(Field::Document))));
}

#[test]
fn announce_list_decoded() {
    let doc = {
        let mut d = Vec::new();
        d.extend_from_slice(b"d8:announce3:url13:announce-listll3:urlel4:url2l1:xeee");
        d.extend_from_slice(b"4:infod6:lengthi5e4:name4:test12:piece lengthi5e6:pieces0:e");
        d.extend_from_slice(b"e");
        d
    };
    // The second tier deliberately holds a non-string element.
    let r = BMetainfo::from_bytes(&doc);
    assert!(matches!(r, Err(DecodeError::MalformedAnnounceList)));

    let doc2 = {
        let mut d = Vec::new();
        d.extend_from_slice(b"d8:announce3:url13:announce-listll3:urlel4:url2ee");
        d.extend_from_slice(b"4:infod6:lengthi5e4:name4:test12:piece lengthi5e6:pieces0:e");
        d.extend_from_slice(b"e");
        d
    };
    let m = BMetainfo::from_bytes(&doc2).unwrap();
    assert_eq!(
        m.announce_list,
        Some(vec![vec!["url".to_string()], vec!["url2".to_string()]])
    );
}

#[test]
fn announce_list_wrong_type() {
    let doc = {
        let mut d = Vec::new();
        d.extend_from_slice(b"d8:announce3:url13:announce-listi5e");
        d.extend_from_slice(b"4:infod6:lengthi5e4:name4:test12:piece lengthi5e6:pieces0:e");
        d.extend_from_slice(b"e");
        d
    };
    let r = BMetainfo::from_bytes(&doc);
    assert!(matches!(r, Err(DecodeError::MalformedAnnounceList)));
}

#[test]
fn invalid_utf8_name() {
    let doc = doc_with_info(b"d6:lengthi5e4:name1:\xff12:piece lengthi5e6:pieces0:e");
    let r = BMetainfo::from_bytes(&doc);
    assert!(matches!(r, Err(DecodeError::InvalidUtf8(Field::Name))));
}

#[test]
fn unicode_name_decoded_exactly() {
    let doc = doc_with_info(b"d6:lengthi5e4:name5:caf\xc3\xa912:piece lengthi5e6:pieces0:e");
    let m = BMetainfo::from_bytes(&doc).unwrap();
    assert_eq!(m.info.name, "caf\u{e9}");
}

#[test]
fn negative_length_rejected() {
    let doc = doc_with_info(b"d6:lengthi-5e4:name1:n12:piece lengthi5e6:pieces0:e");
    let r = BMetainfo::from_bytes(&doc);
    assert!(matches!(r, Err(DecodeError::NegativeValue(Field::Length))));
}

#[test]
fn negative_piece_length_rejected() {
    let doc = doc_with_info(b"d6:lengthi5e4:name1:n12:piece lengthi-1e6:pieces0:e");
    let r = BMetainfo::from_bytes(&doc);
    assert!(matches!(r, Err(DecodeError::NegativeValue(Field::PieceLength))));
}

#[test]
fn optional_document_fields() {
    let doc = {
        let mut d = Vec::new();
        d.extend_from_slice(b"d8:announce3:url7:comment2:hi10:created by4:tool13:creation datei1700000000e");
        d.extend_from_slice(b"4:infod6:lengthi5e4:name4:test12:piece lengthi5e6:pieces0:e");
        d.extend_from_slice(b"e");
        d
    };
    let m = BMetainfo::from_bytes(&doc).unwrap();
    assert_eq!(m.comment, Some("hi".to_string()));
    assert_eq!(m.created_by, Some("tool".to_string()));
    assert_eq!(m.created_on, Some(1700000000));
}

#[test]
fn unknown_keys_ignored() {
    let doc = {
        let mut d = Vec::new();
        d.extend_from_slice(b"d8:announce3:url5:extrai1e");
        d.extend_from_slice(b"4:infod6:lengthi5e4:mysti2e4:name4:test12:piece lengthi5e6:pieces0:e");
        d.extend_from_slice(b"e");
        d
    };
    assert!(BMetainfo::from_bytes(&doc).is_ok());
}
